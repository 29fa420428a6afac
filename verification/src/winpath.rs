//! Windows paths as text: prefix, root and components.
//!
//! Both slashes separate components. Empty components and `.` count for nothing, except a leading
//! `.` of a path without a root. A prefix is a drive (`C:`), a share (`\\server\share`) or a device
//! or verbatim name (`\\.\name`, `\\?\name`, `\\?\UNC\server\share`).

use vstd::prelude::*;

use crate::text;

verus! {

pub open spec fn is_sep(c: char) -> bool {
    c == '\\' || c == '/'
}

pub open spec fn is_letter(c: char) -> bool {
    ('a' <= c && c <= 'z') || ('A' <= c && c <= 'Z')
}

/// Where the component that begins at `from` ends.
pub open spec fn piece_end(s: Seq<char>, from: int) -> int
    decreases s.len() - from,
{
    if 0 <= from < s.len() && !is_sep(s[from]) {
        piece_end(s, from + 1)
    } else {
        from
    }
}

/// Where the `n` components that begin at `from` end, one separator between any two.
pub open spec fn pieces_end(s: Seq<char>, from: int, n: nat) -> int
    decreases n,
{
    if n == 0 {
        from
    } else if n == 1 {
        piece_end(s, from)
    } else {
        pieces_end(s, piece_end(s, from) + 1, (n - 1) as nat)
    }
}

/// `s` begins with a drive letter and a colon.
pub open spec fn has_drive(s: Seq<char>) -> bool {
    s.len() >= 2 && is_letter(s[0]) && s[1] == ':'
}

/// `s` begins with `\\` in either slash.
pub open spec fn has_double_sep(s: Seq<char>) -> bool {
    s.len() >= 2 && is_sep(s[0]) && is_sep(s[1])
}

/// `s` begins with `\\.\` or `\\?\`.
pub open spec fn has_device(s: Seq<char>) -> bool {
    has_double_sep(s) && s.len() >= 4 && (s[2] == '.' || s[2] == '?') && is_sep(s[3])
}

/// `s` begins with `\\?\UNC\`.
pub open spec fn has_verbatim_share(s: Seq<char>) -> bool {
    has_device(s) && s[2] == '?' && s.len() >= 8 && s[4] == 'U' && s[5] == 'N' && s[6] == 'C'
        && is_sep(s[7])
}

/// `s` begins with `\\?\` and a drive.
pub open spec fn has_verbatim_drive(s: Seq<char>) -> bool {
    has_device(s) && s[2] == '?' && piece_end(s, 4) == 6 && is_letter(s[4]) && s[5] == ':'
}

/// `s` begins with a server and a share, both named.
pub open spec fn has_share(s: Seq<char>) -> bool {
    let server = piece_end(s, 2);
    has_double_sep(s) && !has_device(s) && server > 2 && piece_end(s, server + 1) > server + 1
}

pub open spec fn least(a: int, b: int) -> int {
    if a <= b {
        a
    } else {
        b
    }
}

/// How many characters the prefix takes up.
pub open spec fn prefix_len(s: Seq<char>) -> int {
    if has_drive(s) {
        2
    } else if has_verbatim_share(s) {
        least(pieces_end(s, 8, 2), s.len() as int)
    } else if has_device(s) {
        piece_end(s, 4)
    } else if has_share(s) {
        pieces_end(s, 2, 2)
    } else {
        0
    }
}

/// A separator follows the prefix, or the prefix stands for a root by itself.
pub open spec fn is_rooted(s: Seq<char>) -> bool {
    let p = prefix_len(s);
    (0 <= p < s.len() && is_sep(s[p])) || (p > 0 && !has_drive(s))
}

/// Where the components begin, behind the prefix and the root.
pub open spec fn body_start(s: Seq<char>) -> int {
    let p = prefix_len(s);
    if 0 <= p < s.len() && is_sep(s[p]) {
        p + 1
    } else {
        p
    }
}

pub open spec fn absolute(s: Seq<char>) -> bool {
    is_rooted(s) && prefix_len(s) > 0
}

/// Where the last component of `s` begins, none before `floor`.
pub open spec fn last_start(s: Seq<char>, floor: int) -> int
    decreases s.len(),
{
    if s.len() <= floor || s.len() == 0 || is_sep(s.last()) {
        s.len() as int
    } else {
        last_start(s.drop_last(), floor)
    }
}

/// `s` without what counts for nothing at its end.
pub open spec fn without_tail(s: Seq<char>, floor: int, rooted: bool) -> Seq<char>
    decreases s.len(),
{
    if s.len() <= floor || s.len() == 0 {
        s
    } else if is_sep(s.last()) {
        without_tail(s.drop_last(), floor, rooted)
    } else if s.last() == '.' && last_start(s, floor) == s.len() - 1 && (rooted || s.len() - 1
        > floor) {
        without_tail(s.drop_last(), floor, rooted)
    } else {
        s
    }
}

/// The components of `s` behind `floor`, in order.
pub open spec fn components_from(s: Seq<char>, floor: int, rooted: bool) -> Seq<Seq<char>>
    decreases s.len(),
{
    let t = without_tail(s, floor, rooted);
    if t.len() <= floor || t.len() == 0 || t.len() > s.len() {
        Seq::empty()
    } else {
        let b = last_start(t, floor);
        if 0 <= b < t.len() {
            components_from(t.take(b), floor, rooted).push(t.skip(b))
        } else {
            Seq::empty()
        }
    }
}

/// The components behind prefix and root.
pub open spec fn names_of(s: Seq<char>) -> Seq<Seq<char>> {
    components_from(s, body_start(s), is_rooted(s))
}

/// The prefix as it is compared: without regard to which slash was written, and a drive without
/// regard to case.
pub open spec fn prefix_key(s: Seq<char>) -> Seq<char> {
    let drive = has_drive(s) || has_verbatim_drive(s);
    s.take(prefix_len(s)).map_values(
        |c: char|
            if c == '/' {
                '\\'
            } else if drive {
                text::lower_char(c)
            } else {
                c
            },
    )
}

/// Everything that a path is compared by: prefix, root and components.
pub open spec fn path_key(s: Seq<char>) -> Seq<Seq<char>> {
    let prefix = if prefix_len(s) > 0 {
        seq![prefix_key(s)]
    } else {
        Seq::<Seq<char>>::empty()
    };
    let root = if is_rooted(s) {
        seq![seq!['\\']]
    } else {
        Seq::<Seq<char>>::empty()
    };
    prefix + root + names_of(s)
}

/// Two texts name the same path.
pub open spec fn same_path(a: Seq<char>, b: Seq<char>) -> bool {
    path_key(a) == path_key(b)
}

/// `path` is `base` or lies below it.
pub open spec fn lies_under(path: Seq<char>, base: Seq<char>) -> bool {
    path_key(base).len() <= path_key(path).len() && path_key(path).take(
        path_key(base).len() as int,
    ) == path_key(base)
}

/// The last component, unless it is `.` or `..`.
pub open spec fn file_name_of(s: Seq<char>) -> Option<Seq<char>> {
    let names = names_of(s);
    if names.len() == 0 || names.last() == seq!['.'] || names.last() == seq!['.', '.'] {
        None
    } else {
        Some(names.last())
    }
}

/// The path without its last component.
pub open spec fn parent_of(s: Seq<char>) -> Option<Seq<char>> {
    let floor = body_start(s);
    let t = without_tail(s, floor, is_rooted(s));
    if t.len() <= floor || t.len() == 0 {
        None
    } else {
        Some(without_tail(t.take(last_start(t, floor)), floor, is_rooted(s)))
    }
}

/// Where the extension's dot stands in a file name, if it has an extension.
pub open spec fn dot_at(name: Seq<char>) -> Option<int>
    decreases name.len(),
{
    if name.len() <= 1 {
        None
    } else if name.last() == '.' {
        Some(name.len() - 1)
    } else {
        dot_at(name.drop_last())
    }
}

/// The file name without its extension.
pub open spec fn file_stem_of(s: Seq<char>) -> Option<Seq<char>> {
    match file_name_of(s) {
        Some(name) => match dot_at(name) {
            Some(i) => Some(name.take(i)),
            None => Some(name),
        },
        None => None,
    }
}

/// `rel` taken from the directory `base`.
pub open spec fn joined_path(base: Seq<char>, rel: Seq<char>) -> Seq<char> {
    if prefix_len(rel) > 0 {
        rel
    } else if is_rooted(rel) {
        base.take(prefix_len(base)) + rel
    } else if base.len() == 0 || is_sep(base.last()) || (has_drive(base) && base.len() == 2) {
        base + rel
    } else {
        base + seq!['\\'] + rel
    }
}

// ---------------------------------------------------------------------------
// Computing it
// ---------------------------------------------------------------------------

pub(crate) fn sep(c: char) -> (r: bool)
    ensures
        r == is_sep(c),
{
    c == '\\' || c == '/'
}

pub(crate) fn end_of_piece(chars: &Vec<char>, from: usize) -> (r: usize)
    requires
        from <= chars@.len(),
    ensures
        r == piece_end(chars@, from as int),
        from <= r <= chars@.len(),
{
    let mut i: usize = from;
    while i < chars.len() && !sep(chars[i])
        invariant
            from <= i <= chars@.len(),
            piece_end(chars@, from as int) == piece_end(chars@, i as int),
        decreases chars@.len() - i,
    {
        i += 1;
    }
    i
}

pub proof fn lemma_piece_end(s: Seq<char>, from: int)
    requires
        0 <= from <= s.len(),
    ensures
        from <= piece_end(s, from) <= s.len(),
    decreases s.len() - from,
{
    if from < s.len() && !is_sep(s[from]) {
        lemma_piece_end(s, from + 1);
    }
}

/// Prefix and root lie within the text.
pub proof fn lemma_body_start(s: Seq<char>)
    ensures
        0 <= prefix_len(s) <= body_start(s) <= s.len(),
{
    if has_double_sep(s) {
        lemma_piece_end(s, 2);
        let server = piece_end(s, 2);
        if has_device(s) {
            lemma_piece_end(s, 4);
        }
        if has_verbatim_share(s) {
            lemma_piece_end(s, 8);
            let e = piece_end(s, 8);
            reveal_with_fuel(pieces_end, 3);
            if e + 1 <= s.len() {
                lemma_piece_end(s, e + 1);
            } else {
                assert(piece_end(s, e + 1) == e + 1);
            }
        }
        if has_share(s) {
            reveal_with_fuel(pieces_end, 3);
            if server + 1 <= s.len() {
                lemma_piece_end(s, server + 1);
            } else {
                assert(piece_end(s, server + 1) == server + 1);
            }
        }
    }
}

pub(crate) fn letter(c: char) -> (r: bool)
    ensures
        r == is_letter(c),
{
    (c >= 'a' && c <= 'z') || (c >= 'A' && c <= 'Z')
}

/// Where prefix and body begin, and whether there is a drive and a root.
pub(crate) struct Anatomy {
    pub prefix: usize,
    pub body: usize,
    pub rooted: bool,
    pub drive: bool,
}

pub(crate) fn dissect(chars: &Vec<char>) -> (r: Anatomy)
    ensures
        r.prefix == prefix_len(chars@),
        r.body == body_start(chars@),
        r.rooted == is_rooted(chars@),
        r.drive == has_drive(chars@),
        r.prefix <= r.body <= chars@.len(),
{
    let n: usize = chars.len();
    proof {
        lemma_body_start(chars@);
        reveal_with_fuel(pieces_end, 3);
    }
    let drive = n >= 2 && letter(chars[0]) && chars[1] == ':';
    let double = n >= 2 && sep(chars[0]) && sep(chars[1]);
    let device = double && n >= 4 && (chars[2] == '.' || chars[2] == '?') && sep(chars[3]);
    let verbatim_share = device && chars[2] == '?' && n >= 8 && chars[4] == 'U' && chars[5] == 'N'
        && chars[6] == 'C' && sep(chars[7]);
    let prefix: usize = if drive {
        2
    } else if verbatim_share {
        let server: usize = end_of_piece(chars, 8);
        if server < n {
            end_of_piece(chars, server + 1)
        } else {
            assert(piece_end(chars@, server + 1) == server + 1);
            n
        }
    } else if device {
        end_of_piece(chars, 4)
    } else if double {
        let server: usize = end_of_piece(chars, 2);
        if server > 2 && server < n {
            let share: usize = end_of_piece(chars, server + 1);
            if share > server + 1 {
                share
            } else {
                0
            }
        } else {
            assert(server == n ==> piece_end(chars@, server + 1) == server + 1);
            0
        }
    } else {
        0
    };
    let separated = prefix < n && sep(chars[prefix]);
    Anatomy {
        prefix,
        body: if separated {
            prefix + 1
        } else {
            prefix
        },
        rooted: separated || (prefix > 0 && !drive),
        drive,
    }
}

fn start_of_last(chars: &Vec<char>, len: usize, floor: usize) -> (r: usize)
    requires
        floor <= len <= chars@.len(),
    ensures
        r == last_start(chars@.take(len as int), floor as int),
        floor <= r <= len,
{
    let mut k: usize = len;
    while k > floor && !sep(chars[k - 1])
        invariant
            floor <= k <= len <= chars@.len(),
            last_start(chars@.take(len as int), floor as int) == last_start(
                chars@.take(k as int),
                floor as int,
            ),
        decreases k,
    {
        assert(chars@.take(k as int).drop_last() =~= chars@.take(k - 1));
        k -= 1;
    }
    k
}

/// How much of the first `len` characters is left without what counts for nothing at the end.
fn trimmed_len(chars: &Vec<char>, len: usize, floor: usize, rooted: bool) -> (r: usize)
    requires
        floor <= len <= chars@.len(),
    ensures
        chars@.take(r as int) == without_tail(chars@.take(len as int), floor as int, rooted),
        floor <= r <= len,
{
    let mut k: usize = len;
    while k > floor
        invariant
            floor <= k <= len <= chars@.len(),
            without_tail(chars@.take(len as int), floor as int, rooted) == without_tail(
                chars@.take(k as int),
                floor as int,
                rooted,
            ),
        decreases k,
    {
        assert(chars@.take(k as int).drop_last() =~= chars@.take(k - 1));
        assert(chars@.take(k as int).last() == chars@[k - 1]);
        if sep(chars[k - 1]) {
            k -= 1;
        } else if chars[k - 1] == '.' && start_of_last(chars, k, floor) == k - 1 && (rooted || k - 1
            > floor) {
            k -= 1;
        } else {
            return k;
        }
    }
    k
}

proof fn lemma_without_tail(s: Seq<char>, floor: int, rooted: bool)
    requires
        0 <= floor <= s.len(),
    ensures
        floor <= without_tail(s, floor, rooted).len() <= s.len(),
        without_tail(s, floor, rooted) == s.take(without_tail(s, floor, rooted).len() as int),
        without_tail(s, floor, rooted).len() > floor ==> !is_sep(
            without_tail(s, floor, rooted).last(),
        ),
    decreases s.len(),
{
    if s.len() <= floor || s.len() == 0 {
        assert(s.take(s.len() as int) =~= s);
    } else if is_sep(s.last()) || (s.last() == '.' && last_start(s, floor) == s.len() - 1 && (rooted
        || s.len() - 1 > floor)) {
        lemma_without_tail(s.drop_last(), floor, rooted);
        let t = without_tail(s, floor, rooted);
        assert(s.drop_last().take(t.len() as int) =~= s.take(t.len() as int));
    } else {
        assert(s.take(s.len() as int) =~= s);
    }
}

proof fn lemma_last_start(s: Seq<char>, floor: int)
    requires
        0 <= floor <= s.len(),
    ensures
        floor <= last_start(s, floor) <= s.len(),
        s.len() > floor && !is_sep(s.last()) ==> last_start(s, floor) < s.len(),
    decreases s.len(),
{
    if s.len() > floor && !is_sep(s.last()) {
        lemma_last_start(s.drop_last(), floor);
    }
}

/// A component of its own: not empty, without a separator, and not `.`.
pub open spec fn is_plain_name(n: Seq<char>) -> bool {
    &&& n.len() > 0
    &&& n != seq!['.']
    &&& forall|i: int| 0 <= i < n.len() ==> !is_sep(#[trigger] n[i])
}

/// The path begins with a drive and a root.
pub open spec fn drive_rooted(s: Seq<char>) -> bool {
    s.len() >= 3 && has_drive(s) && is_sep(s[2])
}

pub open spec fn below(s: Seq<char>, name: Seq<char>) -> Seq<char> {
    s + seq!['\\'] + name
}

proof fn lemma_last_start_below(s: Seq<char>, name: Seq<char>, floor: int, k: int)
    requires
        0 <= floor <= s.len() + 1,
        0 <= k <= name.len(),
        forall|i: int| 0 <= i < name.len() ==> !is_sep(#[trigger] name[i]),
    ensures
        last_start(below(s, name).take(s.len() + 1 + k), floor) == s.len() + 1,
    decreases k,
{
    let t = below(s, name).take(s.len() + 1 + k);
    if k == 0 {
        assert(t.last() == '\\');
    } else {
        assert(t.last() == name[k - 1]);
        assert(t.drop_last() =~= below(s, name).take(s.len() + 1 + k - 1));
        lemma_last_start_below(s, name, floor, k - 1);
    }
}

/// A name behind a separator is one more component.
pub proof fn lemma_names_below(s: Seq<char>, name: Seq<char>)
    requires
        drive_rooted(s),
        is_plain_name(name),
    ensures
        drive_rooted(below(s, name)),
        names_of(below(s, name)) == names_of(s).push(name),
{
    let t = below(s, name);
    assert(t[0] == s[0] && t[1] == s[1] && t[2] == s[2]);
    let floor = body_start(s);
    assert(floor == 3 && body_start(t) == 3);
    assert(is_rooted(s) && is_rooted(t));
    let n = s.len() as int;
    lemma_last_start_below(s, name, floor, name.len() as int);
    assert(t.take(n + 1 + name.len()) =~= t);
    assert(t.last() == name.last());
    assert(without_tail(t, floor, true) == t) by {
        if t.last() == '.' && last_start(t, floor) == t.len() - 1 {
            assert(name =~= seq!['.']);
        }
    }
    let head = t.take(n + 1);
    assert(t.skip(n + 1) =~= name);
    assert(head =~= s.push('\\'));
    assert(head.drop_last() =~= s);
    assert(without_tail(head, floor, true) == without_tail(s, floor, true));
    lemma_without_tail(s, floor, true);
    assert(components_from(head, floor, true) == components_from(s, floor, true));
}

/// The components of the first `len` characters.
fn components_upto(chars: &Vec<char>, len: usize, floor: usize, rooted: bool) -> (r: Vec<String>)
    requires
        floor <= len <= chars@.len(),
    ensures
        text::texts(r@) == components_from(chars@.take(len as int), floor as int, rooted),
    decreases len,
{
    let ghost s = chars@.take(len as int);
    let t: usize = trimmed_len(chars, len, floor, rooted);
    proof {
        lemma_without_tail(s, floor as int, rooted);
        assert(without_tail(s, floor as int, rooted).len() == t);
    }
    if t <= floor {
        let none: Vec<String> = Vec::new();
        assert(text::texts(none@) =~= Seq::<Seq<char>>::empty());
        return none;
    }
    proof {
        lemma_last_start(chars@.take(t as int), floor as int);
    }
    let b: usize = start_of_last(chars, t, floor);
    let mut out = components_upto(chars, b, floor, rooted);
    let ghost before = out@;
    let piece = text::text_between(chars, b, t);
    proof {
        assert(chars@.take(t as int).take(b as int) =~= chars@.take(b as int));
        assert(chars@.take(t as int).skip(b as int) =~= chars@.subrange(b as int, t as int));
    }
    let ghost last = piece@;
    out.push(piece);
    assert(text::texts(out@) =~= text::texts(before).push(last));
    out
}

/// The components behind prefix and root.
pub fn component_names(path: &str) -> (r: Vec<String>)
    ensures
        text::texts(r@) == names_of(path@),
{
    let chars = text::chars_of(path);
    let a = dissect(&chars);
    assert(chars@.take(chars@.len() as int) =~= chars@);
    components_upto(&chars, chars.len(), a.body, a.rooted)
}

/// The last component, unless it is `.` or `..`.
pub fn file_name(path: &str) -> (r: Option<String>)
    ensures
        match r {
            Some(name) => file_name_of(path@) == Some(name@),
            None => file_name_of(path@) is None,
        },
{
    let names = component_names(path);
    let n: usize = names.len();
    assert(text::texts(names@).len() == n);
    if n == 0 {
        return None;
    }
    let last = names[n - 1].clone();
    proof {
        assert(text::texts(names@).last() == last@);
        reveal_strlit(".");
        reveal_strlit("..");
        assert("."@ =~= seq!['.']);
        assert(".."@ =~= seq!['.', '.']);
    }
    if text::same_text(last.as_str(), ".") || text::same_text(last.as_str(), "..") {
        None
    } else {
        Some(last)
    }
}

/// The file name without its extension.
pub fn file_stem(path: &str) -> (r: Option<String>)
    ensures
        match r {
            Some(name) => file_stem_of(path@) == Some(name@),
            None => file_stem_of(path@) is None,
        },
{
    match file_name(path) {
        None => None,
        Some(name) => {
            let chars = text::chars_of(name.as_str());
            let mut k: usize = chars.len();
            assert(chars@.take(k as int) =~= chars@);
            while k > 1
                invariant
                    k <= chars@.len(),
                    chars@ == name@,
                    file_name_of(path@) == Some(name@),
                    dot_at(chars@) == dot_at(chars@.take(k as int)),
                decreases k,
            {
                assert(chars@.take(k as int).drop_last() =~= chars@.take(k - 1));
                if chars[k - 1] == '.' {
                    let stem = text::text_between(&chars, 0, k - 1);
                    assert(chars@.subrange(0, k - 1) =~= chars@.take(k - 1));
                    return Some(stem);
                }
                k -= 1;
            }
            Some(name)
        },
    }
}

/// The path without its last component.
pub fn parent(path: &str) -> (r: Option<String>)
    ensures
        match r {
            Some(p) => parent_of(path@) == Some(p@),
            None => parent_of(path@) is None,
        },
{
    let chars = text::chars_of(path);
    let a = dissect(&chars);
    let n: usize = chars.len();
    assert(chars@.take(n as int) =~= chars@);
    let t: usize = trimmed_len(&chars, n, a.body, a.rooted);
    proof {
        lemma_without_tail(chars@, a.body as int, a.rooted);
        assert(without_tail(chars@, a.body as int, a.rooted).len() == t);
    }
    if t <= a.body {
        return None;
    }
    let b: usize = start_of_last(&chars, t, a.body);
    let e: usize = trimmed_len(&chars, b, a.body, a.rooted);
    assert(chars@.take(t as int).take(b as int) =~= chars@.take(b as int));
    let r = text::text_between(&chars, 0, e);
    assert(chars@.subrange(0, e as int) =~= chars@.take(e as int));
    Some(r)
}

/// A parent is shorter than what it is the parent of.
pub proof fn lemma_parent_shorter(s: Seq<char>)
    ensures
        parent_of(s) matches Some(p) ==> p.len() < s.len(),
{
    lemma_body_start(s);
    let floor = body_start(s);
    let rooted = is_rooted(s);
    lemma_without_tail(s, floor, rooted);
    let t = without_tail(s, floor, rooted);
    if t.len() > floor {
        lemma_last_start(t, floor);
        lemma_without_tail(t.take(last_start(t, floor)), floor, rooted);
    }
}

pub fn is_absolute(path: &str) -> (r: bool)
    ensures
        r == absolute(path@),
{
    let chars = text::chars_of(path);
    let a = dissect(&chars);
    a.rooted && a.prefix > 0
}

/// `rel` taken from the directory `base`.
pub fn join(base: &str, rel: &str) -> (r: String)
    ensures
        r@ == joined_path(base@, rel@),
{
    let b = text::chars_of(base);
    let c = text::chars_of(rel);
    let ab = dissect(&b);
    let ar = dissect(&c);
    if ar.prefix > 0 {
        text::owned(rel)
    } else if ar.rooted {
        let prefix = text::text_between(&b, 0, ab.prefix);
        assert(b@.subrange(0, ab.prefix as int) =~= b@.take(ab.prefix as int));
        text::joined2(prefix.as_str(), rel)
    } else if b.len() == 0 || sep(b[b.len() - 1]) || (ab.drive && b.len() == 2) {
        text::joined2(base, rel)
    } else {
        proof {
            reveal_strlit("\\");
            assert("\\"@ =~= seq!['\\']);
        }
        text::joined3(base, "\\", rel)
    }
}

/// Whether the text begins with a verbatim drive.
pub(crate) fn verbatim_drive(chars: &Vec<char>) -> (r: bool)
    ensures
        r == has_verbatim_drive(chars@),
{
    if chars.len() < 4 {
        return false;
    }
    let double = sep(chars[0]) && sep(chars[1]);
    if !double || chars[2] != '?' || !sep(chars[3]) {
        return false;
    }
    end_of_piece(chars, 4) == 6 && letter(chars[4]) && chars[5] == ':'
}

pub(crate) fn prefix_text(chars: &Vec<char>, a: &Anatomy) -> (r: String)
    requires
        a.prefix == prefix_len(chars@),
        a.drive == has_drive(chars@),
        a.prefix <= chars@.len(),
    ensures
        r@ == prefix_key(chars@),
{
    let mut out: Vec<char> = Vec::new();
    let mut i: usize = 0;
    let drive = a.drive || verbatim_drive(chars);
    let ghost p = chars@.take(a.prefix as int);
    while i < a.prefix
        invariant
            i <= a.prefix <= chars@.len(),
            p == chars@.take(a.prefix as int),
            a.prefix == prefix_len(chars@),
            drive == (has_drive(chars@) || has_verbatim_drive(chars@)),
            out@ == prefix_key(chars@).take(i as int),
        decreases a.prefix - i,
    {
        assert(p[i as int] == chars@[i as int]);
        if chars[i] == '/' {
            out.push('\\');
        } else if drive {
            out.push(text::lowered_char(chars[i]));
        } else {
            out.push(chars[i]);
        }
        assert(out@ =~= prefix_key(chars@).take(i + 1));
        i += 1;
    }
    assert(out@ =~= prefix_key(chars@));
    text::text_of(&out)
}

/// Everything that a path is compared by.
fn comparison_key(path: &str) -> (r: Vec<String>)
    ensures
        text::texts(r@) == path_key(path@),
{
    let chars = text::chars_of(path);
    let a = dissect(&chars);
    let names = component_names(path);
    let mut out: Vec<String> = Vec::new();
    if a.prefix > 0 {
        out.push(prefix_text(&chars, &a));
    }
    if a.rooted {
        proof {
            reveal_strlit("\\");
            assert("\\"@ =~= seq!['\\']);
        }
        out.push(text::owned("\\"));
    }
    let ghost head = text::texts(out@);
    let mut i: usize = 0;
    proof {
        let prefix = if prefix_len(path@) > 0 {
            seq![prefix_key(path@)]
        } else {
            Seq::<Seq<char>>::empty()
        };
        let root = if is_rooted(path@) {
            seq![seq!['\\']]
        } else {
            Seq::<Seq<char>>::empty()
        };
        assert(head =~= prefix + root);
    }
    while i < names.len()
        invariant
            i <= names@.len(),
            text::texts(out@) == head + text::texts(names@).take(i as int),
        decreases names@.len() - i,
    {
        let ghost before = out@;
        out.push(names[i].clone());
        proof {
            assert(text::texts(out@) =~= text::texts(before).push(names@[i as int]@));
            assert(text::texts(names@).take(i + 1) =~= text::texts(names@).take(i as int).push(
                names@[i as int]@,
            ));
        }
        i += 1;
    }
    proof {
        assert(text::texts(names@).take(names@.len() as int) =~= text::texts(names@));
        assert(text::texts(out@) =~= path_key(path@));
    }
    out
}

/// Whether the first `n` texts are the same.
fn same_first(a: &Vec<String>, b: &Vec<String>, n: usize) -> (r: bool)
    requires
        n <= a@.len(),
        n <= b@.len(),
    ensures
        r == (text::texts(a@).take(n as int) == text::texts(b@).take(n as int)),
{
    let mut i: usize = 0;
    let ghost x = text::texts(a@).take(n as int);
    let ghost y = text::texts(b@).take(n as int);
    while i < n
        invariant
            i <= n,
            n <= a@.len(),
            n <= b@.len(),
            x == text::texts(a@).take(n as int),
            y == text::texts(b@).take(n as int),
            forall|j: int| 0 <= j < i ==> x[j] == y[j],
        decreases n - i,
    {
        if a[i] != b[i] {
            assert(x[i as int] != y[i as int]);
            return false;
        }
        i += 1;
    }
    assert(x =~= y);
    true
}

/// Whether two texts name the same path.
pub fn equal_paths(a: &str, b: &str) -> (r: bool)
    ensures
        r == same_path(a@, b@),
{
    let x = comparison_key(a);
    let y = comparison_key(b);
    assert(text::texts(x@).len() == x@.len());
    assert(text::texts(y@).len() == y@.len());
    if x.len() != y.len() {
        return false;
    }
    assert(text::texts(x@).take(x@.len() as int) =~= text::texts(x@));
    assert(text::texts(y@).take(y@.len() as int) =~= text::texts(y@));
    same_first(&x, &y, x.len())
}

/// Whether `path` is `base` or lies below it.
pub fn starts_with(path: &str, base: &str) -> (r: bool)
    ensures
        r == lies_under(path@, base@),
{
    let x = comparison_key(path);
    let y = comparison_key(base);
    assert(text::texts(x@).len() == x@.len());
    assert(text::texts(y@).len() == y@.len());
    if y.len() > x.len() {
        return false;
    }
    assert(text::texts(y@).take(y@.len() as int) =~= text::texts(y@));
    same_first(&x, &y, y.len())
}

/// A path lies under itself, and under what something that it lies under lies under.
pub proof fn law_lies_under_is_an_order(a: Seq<char>, b: Seq<char>, c: Seq<char>)
    ensures
        lies_under(a, a),
        lies_under(a, b) && lies_under(b, c) ==> lies_under(a, c),
{
    let (x, y, z) = (path_key(a), path_key(b), path_key(c));
    assert(x.take(x.len() as int) =~= x);
    if lies_under(a, b) && lies_under(b, c) {
        assert(x.take(z.len() as int) =~= x.take(y.len() as int).take(z.len() as int));
    }
}

/// A file in a directory has its name for its file name and lies under the directory; the directory
/// does not lie under the file.
pub proof fn law_file_lies_in_its_directory(dir: Seq<char>, name: Seq<char>)
    requires
        drive_rooted(dir),
        is_plain_name(name),
        name != seq!['.', '.'],
    ensures
        file_name_of(below(dir, name)) == Some(name),
        lies_under(below(dir, name), dir),
        !lies_under(dir, below(dir, name)),
        !is_sep(dir.last()) ==> joined_path(dir, name) == below(dir, name) || prefix_len(name) > 0,
{
    let t = below(dir, name);
    lemma_names_below(dir, name);
    assert(t[0] == dir[0] && t[1] == dir[1] && t[2] == dir[2]);
    assert(prefix_len(t) == 2 && prefix_len(dir) == 2);
    assert(t.take(2) =~= dir.take(2));
    assert(prefix_key(t) =~= prefix_key(dir));
    let (x, y) = (path_key(t), path_key(dir));
    assert(x =~= y.push(name));
    assert(x.take(y.len() as int) =~= y);
    assert(!is_sep(name[0]));
}

proof fn lemma_dot(stem: Seq<char>, ext: Seq<char>, k: int)
    requires
        stem.len() > 0,
        0 <= k <= ext.len(),
        forall|i: int| 0 <= i < ext.len() ==> #[trigger] ext[i] != '.',
    ensures
        dot_at((stem + seq!['.'] + ext).take(stem.len() + 1 + k)) == Some(stem.len() as int),
    decreases k,
{
    let t = (stem + seq!['.'] + ext).take(stem.len() + 1 + k);
    if k > 0 {
        assert(t.last() == ext[k - 1]);
        assert(t.drop_last() =~= (stem + seq!['.'] + ext).take(stem.len() + 1 + k - 1));
        lemma_dot(stem, ext, k - 1);
    } else {
        assert(t.last() == '.');
    }
}

/// The stem of a file is its name up to the last dot.
pub proof fn law_stem_ends_at_the_last_dot(dir: Seq<char>, stem: Seq<char>, ext: Seq<char>)
    requires
        drive_rooted(dir),
        stem.len() > 0,
        forall|i: int| 0 <= i < ext.len() ==> #[trigger] ext[i] != '.',
        is_plain_name(stem + seq!['.'] + ext),
        stem + seq!['.'] + ext != seq!['.', '.'],
    ensures
        file_stem_of(below(dir, stem + seq!['.'] + ext)) == Some(stem),
{
    let name = stem + seq!['.'] + ext;
    law_file_lies_in_its_directory(dir, name);
    lemma_dot(stem, ext, ext.len() as int);
    assert(name.take(name.len() as int) =~= name);
    assert(name.take(stem.len() as int) =~= stem);
}

} // verus!

//! The order in which paths are listed: component by component, prefixes before roots, roots
//! before names.

use vstd::prelude::*;

use crate::order::Ranked;
use crate::text;
use crate::winpath;

verus! {

/// Which kind of prefix `s` has. Kinds are listed in this order: verbatim names, verbatim shares,
/// devices, shares, verbatim drives, drives.
pub open spec fn prefix_kind(s: Seq<char>) -> int {
    if winpath::has_drive(s) {
        5
    } else if winpath::has_verbatim_share(s) {
        1
    } else if winpath::has_verbatim_drive(s) {
        4
    } else if winpath::has_device(s) {
        if s[2] == '?' {
            0
        } else {
            2
        }
    } else {
        3
    }
}

/// What every prefix of a kind begins with.
pub open spec fn kind_head(kind: int) -> Seq<char> {
    if kind == 5 {
        Seq::empty()
    } else if kind == 3 {
        seq!['\\', '\\']
    } else if kind == 2 {
        seq!['\\', '\\', '.', '\\']
    } else if kind == 1 {
        seq!['\\', '\\', '?', '\\', 'U', 'N', 'C', '\\']
    } else {
        seq!['\\', '\\', '?', '\\']
    }
}

/// A root comes after all prefixes, then come `.`, `..` and other names.
pub open spec fn name_kind(name: Seq<char>) -> int {
    if name == seq!['.'] {
        7
    } else if name == seq!['.', '.'] {
        8
    } else {
        9
    }
}

/// The named parts of the prefix, the server apart from its share.
pub open spec fn prefix_parts(s: Seq<char>) -> Seq<(int, Seq<char>)> {
    if winpath::prefix_len(s) > 0 {
        let kind = prefix_kind(s);
        let key = winpath::prefix_key(s);
        let from = kind_head(kind).len() as int;
        let end = winpath::piece_end(key, from);
        seq![(kind, key.subrange(from, end)), (kind, key.skip(end))]
    } else {
        Seq::empty()
    }
}

pub open spec fn root_parts(s: Seq<char>) -> Seq<(int, Seq<char>)> {
    if winpath::is_rooted(s) {
        seq![(6int, Seq::<char>::empty())]
    } else {
        Seq::empty()
    }
}

pub open spec fn name_part(name: Seq<char>) -> (int, Seq<char>) {
    (name_kind(name), name)
}

/// What a path is ordered by, part by part.
pub open spec fn order_parts(s: Seq<char>) -> Seq<(int, Seq<char>)> {
    let names = winpath::names_of(s);
    prefix_parts(s) + root_parts(s) + Seq::new(names.len(), |i: int| name_part(names[i]))
}

pub open spec fn part_precedes(a: (int, Seq<char>), b: (int, Seq<char>)) -> bool {
    a.0 < b.0 || (a.0 == b.0 && crate::order::text_precedes(a.1, b.1))
}

pub open spec fn parts_precede(a: Seq<(int, Seq<char>)>, b: Seq<(int, Seq<char>)>) -> bool
    decreases a.len(),
{
    if b.len() == 0 {
        false
    } else if a.len() == 0 {
        true
    } else {
        part_precedes(a[0], b[0]) || (a[0] == b[0] && parts_precede(a.skip(1), b.skip(1)))
    }
}

/// `a` is listed before `b`.
pub open spec fn path_precedes(a: Seq<char>, b: Seq<char>) -> bool {
    parts_precede(order_parts(a), order_parts(b))
}

proof fn lemma_parts_irreflexive(a: Seq<(int, Seq<char>)>)
    ensures
        !parts_precede(a, a),
    decreases a.len(),
{
    if a.len() > 0 {
        crate::order::lemma_text_irreflexive(a[0].1);
        lemma_parts_irreflexive(a.skip(1));
    }
}

proof fn lemma_parts_transitive(
    a: Seq<(int, Seq<char>)>,
    b: Seq<(int, Seq<char>)>,
    c: Seq<(int, Seq<char>)>,
)
    requires
        parts_precede(a, b),
        parts_precede(b, c),
    ensures
        parts_precede(a, c),
    decreases a.len(),
{
    if a.len() > 0 {
        if a[0] == b[0] && b[0] == c[0] && !part_precedes(a[0], b[0]) && !part_precedes(b[0], c[0]) {
            lemma_parts_transitive(a.skip(1), b.skip(1), c.skip(1));
        } else if part_precedes(a[0], b[0]) && part_precedes(b[0], c[0]) {
            if a[0].0 == b[0].0 && b[0].0 == c[0].0 {
                crate::order::lemma_text_transitive(a[0].1, b[0].1, c[0].1);
            }
        }
    }
}

proof fn lemma_parts_total(a: Seq<(int, Seq<char>)>, b: Seq<(int, Seq<char>)>)
    ensures
        parts_precede(a, b) || parts_precede(b, a) || a == b,
    decreases a.len(),
{
    if a.len() > 0 && b.len() > 0 {
        crate::order::lemma_text_total(a[0].1, b[0].1);
        if a[0] == b[0] {
            lemma_parts_total(a.skip(1), b.skip(1));
            if a.skip(1) == b.skip(1) {
                assert(a =~= seq![a[0]] + a.skip(1));
                assert(b =~= seq![b[0]] + b.skip(1));
            }
        }
    } else if a.len() == 0 && b.len() == 0 {
        assert(a =~= b);
    }
}

/// A prefix begins as its kind says.
proof fn lemma_prefix_head(s: Seq<char>)
    requires
        winpath::prefix_len(s) > 0,
    ensures
        kind_head(prefix_kind(s)).len() <= winpath::prefix_len(s) <= s.len(),
        winpath::prefix_key(s).len() == winpath::prefix_len(s),
        winpath::prefix_key(s).take(kind_head(prefix_kind(s)).len() as int) == kind_head(
            prefix_kind(s),
        ),
{
    winpath::lemma_body_start(s);
    if winpath::has_double_sep(s) {
        winpath::lemma_piece_end(s, 2);
        if winpath::has_device(s) {
            winpath::lemma_piece_end(s, 4);
        }
        reveal_with_fuel(winpath::pieces_end, 3);
        if winpath::has_verbatim_share(s) {
            winpath::lemma_piece_end(s, 8);
            let e = winpath::piece_end(s, 8);
            if e + 1 <= s.len() {
                winpath::lemma_piece_end(s, e + 1);
            }
        }
    }
    let head = kind_head(prefix_kind(s));
    assert(winpath::prefix_key(s).take(head.len() as int) =~= head);
}

/// Paths with the same parts are the same path.
proof fn lemma_parts_tell_the_path(a: Seq<char>, b: Seq<char>)
    requires
        order_parts(a) == order_parts(b),
    ensures
        winpath::same_path(a, b),
{
    let (x, y) = (order_parts(a), order_parts(b));
    let (na, nb) = (winpath::names_of(a), winpath::names_of(b));
    let (pa, pb) = (prefix_parts(a).len() as int, prefix_parts(b).len() as int);
    if pa > 0 {
        assert(x[0].0 == prefix_kind(a));
    } else if x.len() > 0 {
        assert(x[0].0 >= 6);
    }
    if pb > 0 {
        assert(y[0].0 == prefix_kind(b));
    } else if y.len() > 0 {
        assert(y[0].0 >= 6);
    }
    assert(pa == pb);
    if pa > 0 {
        lemma_prefix_head(a);
        lemma_prefix_head(b);
        let kind = prefix_kind(a);
        let from = kind_head(kind).len() as int;
        assert(x[0] == prefix_parts(a)[0] && x[1] == prefix_parts(a)[1]);
        assert(y[0] == prefix_parts(b)[0] && y[1] == prefix_parts(b)[1]);
        let (ka, kb) = (winpath::prefix_key(a), winpath::prefix_key(b));
        winpath::lemma_piece_end(ka, from);
        winpath::lemma_piece_end(kb, from);
        assert(ka =~= kind_head(kind) + x[0].1 + x[1].1) by {
            assert(ka =~= ka.take(from) + ka.subrange(from, winpath::piece_end(ka, from))
                + ka.skip(winpath::piece_end(ka, from)));
        }
        assert(kb =~= kind_head(kind) + y[0].1 + y[1].1) by {
            assert(kb =~= kb.take(from) + kb.subrange(from, winpath::piece_end(kb, from))
                + kb.skip(winpath::piece_end(kb, from)));
        }
    }
    let (ra, rb) = (root_parts(a).len() as int, root_parts(b).len() as int);
    if x.len() > pa {
        assert(ra > 0 ==> x[pa].0 == 6);
        assert(ra == 0 ==> x[pa].0 >= 7);
        assert(rb > 0 ==> y[pa].0 == 6);
        assert(rb == 0 ==> y[pa].0 >= 7);
    }
    assert(ra == rb);
    assert(na =~= nb) by {
        assert(na.len() == nb.len());
        assert forall|i: int| 0 <= i < na.len() implies na[i] == nb[i] by {
            assert(x[pa + ra + i] == name_part(na[i]));
            assert(y[pa + ra + i] == name_part(nb[i]));
        }
    }
}

/// The order of paths: none comes before itself, what comes before what comes before a path comes
/// before it, and of two different paths one comes first.
pub proof fn law_paths_are_ordered(a: Seq<char>, b: Seq<char>, c: Seq<char>)
    ensures
        !path_precedes(a, a),
        path_precedes(a, b) && path_precedes(b, c) ==> path_precedes(a, c),
        path_precedes(a, b) || path_precedes(b, a) || winpath::same_path(a, b),
{
    lemma_parts_irreflexive(order_parts(a));
    if path_precedes(a, b) && path_precedes(b, c) {
        lemma_parts_transitive(order_parts(a), order_parts(b), order_parts(c));
    }
    lemma_parts_total(order_parts(a), order_parts(b));
    if order_parts(a) == order_parts(b) {
        lemma_parts_tell_the_path(a, b);
    }
}

/// One part of what a path is ordered by.
struct Part {
    kind: u8,
    name: String,
}

spec fn part_of(p: Part) -> (int, Seq<char>) {
    (p.kind as int, p.name@)
}

spec fn parts_of(s: Seq<Part>) -> Seq<(int, Seq<char>)> {
    Seq::new(s.len(), |i: int| part_of(s[i]))
}

fn kind_of_prefix(chars: &Vec<char>, drive: bool) -> (r: u8)
    requires
        drive == winpath::has_drive(chars@),
    ensures
        r == prefix_kind(chars@),
{
    let n: usize = chars.len();
    if drive {
        return 5;
    }
    let device = n >= 4 && winpath::sep(chars[0]) && winpath::sep(chars[1]) && (chars[2] == '.'
        || chars[2] == '?') && winpath::sep(chars[3]);
    if !device {
        return 3;
    }
    if chars[2] == '?' && n >= 8 && chars[4] == 'U' && chars[5] == 'N' && chars[6] == 'C'
        && winpath::sep(chars[7]) {
        1
    } else if winpath::verbatim_drive(chars) {
        4
    } else if chars[2] == '?' {
        0
    } else {
        2
    }
}

fn kind_of_name(name: &str) -> (r: u8)
    ensures
        r == name_kind(name@),
{
    proof {
        reveal_strlit(".");
        reveal_strlit("..");
        assert("."@ =~= seq!['.']);
        assert(".."@ =~= seq!['.', '.']);
    }
    if text::same_text(name, ".") {
        7
    } else if text::same_text(name, "..") {
        8
    } else {
        9
    }
}

fn parts(path: &str) -> (r: Vec<Part>)
    ensures
        parts_of(r@) == order_parts(path@),
{
    let chars = text::chars_of(path);
    let a = winpath::dissect(&chars);
    let mut out: Vec<Part> = Vec::new();
    if a.prefix > 0 {
        proof {
            lemma_prefix_head(path@);
        }
        let kind: u8 = kind_of_prefix(&chars, a.drive);
        let key = text::chars_of(winpath::prefix_text(&chars, &a).as_str());
        let from: usize = if kind == 5 {
            0
        } else if kind == 3 {
            2
        } else if kind == 1 {
            8
        } else {
            4
        };
        let end: usize = winpath::end_of_piece(&key, from);
        out.push(Part { kind, name: text::text_between(&key, from, end) });
        out.push(Part { kind, name: text::text_between(&key, end, key.len()) });
        assert(key@.subrange(end as int, key@.len() as int) =~= key@.skip(end as int));
    }
    assert(parts_of(out@) =~= prefix_parts(path@));
    if a.rooted {
        out.push(Part { kind: 6, name: String::new() });
    }
    let ghost head = parts_of(out@);
    assert(head =~= prefix_parts(path@) + root_parts(path@));
    let names = winpath::component_names(path);
    let ghost listed = winpath::names_of(path@);
    let ghost tail = Seq::new(listed.len(), |i: int| name_part(listed[i]));
    assert(text::texts(names@).len() == names@.len());
    let mut i: usize = 0;
    while i < names.len()
        invariant
            i <= names@.len() == listed.len(),
            text::texts(names@) == listed,
            tail == Seq::new(listed.len(), |i: int| name_part(listed[i])),
            parts_of(out@) == head + tail.take(i as int),
        decreases names@.len() - i,
    {
        let ghost before = out@;
        assert(listed[i as int] == names@[i as int]@);
        out.push(Part { kind: kind_of_name(names[i].as_str()), name: names[i].clone() });
        assert(parts_of(out@) =~= parts_of(before).push(tail[i as int]));
        assert(tail.take(i + 1) =~= tail.take(i as int).push(tail[i as int]));
        assert(parts_of(out@) =~= head + tail.take(i + 1));
        i += 1;
    }
    assert(tail.take(tail.len() as int) =~= tail);
    out
}

/// Whether `a` is listed before `b`.
pub fn comes_before(a: &str, b: &str) -> (r: bool)
    ensures
        r == path_precedes(a@, b@),
{
    let x = parts(a);
    let y = parts(b);
    let ghost sx = parts_of(x@);
    let ghost sy = parts_of(y@);
    let mut i: usize = 0;
    assert(sx.skip(0) =~= sx);
    assert(sy.skip(0) =~= sy);
    while i < x.len() && i < y.len()
        invariant
            i <= x@.len(),
            i <= y@.len(),
            sx == parts_of(x@),
            sy == parts_of(y@),
            path_precedes(a@, b@) == parts_precede(sx.skip(i as int), sy.skip(i as int)),
        decreases x@.len() - i,
    {
        let (p, q) = (&x[i], &y[i]);
        assert(sx.skip(i as int)[0] == part_of(*p));
        assert(sy.skip(i as int)[0] == part_of(*q));
        if p.kind != q.kind {
            return p.kind < q.kind;
        }
        if p.name.before(&q.name) {
            return true;
        }
        if p.name != q.name {
            return false;
        }
        proof {
            crate::order::lemma_text_irreflexive(p.name@);
        }
        assert(sx.skip(i as int).skip(1) =~= sx.skip(i + 1));
        assert(sy.skip(i as int).skip(1) =~= sy.skip(i + 1));
        i += 1;
    }
    i < y.len()
}

} // verus!

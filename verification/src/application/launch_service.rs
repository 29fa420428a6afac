//! How a closed window is opened again: the program, its arguments, and which of the windows that
//! appear then is the one.

use vstd::prelude::*;
use std::collections::HashSet;

use crate::counting;
use crate::domain::workset::{LaunchKind, LaunchSpec, ManagedWindow, Workset};
use crate::order;
use crate::text;
use crate::windowing::enumerate::TopLevelWindow;
use crate::windowing::matcher;
use crate::winpath;

verus! {

broadcast use vstd::std_specs::hash::group_hash_axioms;

// ---------------------------------------------------------------------------
// Programs
// ---------------------------------------------------------------------------

/// The file name of a program, without regard to case.
pub open spec fn program_name(executable: Seq<char>) -> Option<Seq<char>> {
    match winpath::file_name_of(executable) {
        Some(name) => Some(text::ascii_lower(name)),
        None => None,
    }
}

pub open spec fn is_vscode_name(name: Seq<char>) -> bool {
    name == "code.exe"@ || name == "code - insiders.exe"@ || name == "codium.exe"@
}

pub open spec fn is_browser_name(name: Seq<char>) -> bool {
    name == "chrome.exe"@ || name == "msedge.exe"@ || name == "firefox.exe"@ || name
        == "brave.exe"@ || name == "opera.exe"@ || name == "vivaldi.exe"@
}

/// The kind of a program, by its file name.
pub open spec fn kind_of(executable: Seq<char>) -> LaunchKind {
    match program_name(executable) {
        Some(name) => if is_vscode_name(name) {
            LaunchKind::VsCode
        } else if is_browser_name(name) {
            LaunchKind::Browser
        } else {
            LaunchKind::Generic
        },
        None => LaunchKind::Generic,
    }
}

fn lower_name(executable: &str) -> (r: Option<String>)
    ensures
        text::opt_text(r) == program_name(executable@),
{
    match winpath::file_name(executable) {
        Some(name) => Some(text::ascii_lowercase(name.as_str())),
        None => None,
    }
}

/// Tells an editor and a browser from other programs.
pub fn classify(executable: &str) -> (r: LaunchKind)
    ensures
        r == kind_of(executable@),
{
    let name = match lower_name(executable) {
        Some(name) => name,
        None => {
            return LaunchKind::Generic;
        },
    };
    let n = name.as_str();
    if text::same_text(n, "code.exe") || text::same_text(n, "code - insiders.exe")
        || text::same_text(n, "codium.exe") {
        LaunchKind::VsCode
    } else if text::same_text(n, "chrome.exe") || text::same_text(n, "msedge.exe")
        || text::same_text(n, "firefox.exe") || text::same_text(n, "brave.exe") || text::same_text(
        n,
        "opera.exe",
    ) || text::same_text(n, "vivaldi.exe") {
        LaunchKind::Browser
    } else {
        LaunchKind::Generic
    }
}

/// Whether a program is closed by ending its process, since it stays when its window is closed.
pub fn closes_only_by_kill(executable: &str) -> (r: bool)
    ensures
        r == (program_name(executable@) == Some("mstsc.exe"@)),
{
    match lower_name(executable) {
        Some(name) => text::same_text(name.as_str(), "mstsc.exe"),
        None => false,
    }
}

fn is_firefox(executable: &str) -> (r: bool)
    ensures
        r == (program_name(executable@) == Some("firefox.exe"@)),
{
    match lower_name(executable) {
        Some(name) => text::same_text(name.as_str(), "firefox.exe"),
        None => false,
    }
}

/// What stands for a package whatever its version: its name and its publisher.
pub open spec fn family_of(package_dir: Seq<char>) -> Option<Seq<char>> {
    match text::last_occurrence(package_dir, seq!['_', '_'], package_dir.len() as int) {
        Some(at) => {
            let head = package_dir.take(at);
            let publisher = package_dir.skip(at + 2);
            let name = match text::split_first(head, '_') {
                Some((a, _)) => a,
                None => head,
            };
            if name.len() == 0 || publisher.len() == 0 {
                None
            } else {
                Some(name + seq!['_'] + publisher)
            }
        },
        None => None,
    }
}

fn package_family_name(package_dir: &str) -> (r: Option<String>)
    ensures
        text::opt_text(r) == family_of(package_dir@),
{
    let chars = text::chars_of(package_dir);
    let mark: Vec<char> = vec!['_', '_'];
    assert(mark@ =~= seq!['_', '_']);
    let at: usize = match text::find_last(&chars, &mark) {
        Some(at) => at,
        None => {
            return None;
        },
    };
    let n: usize = chars.len();
    assert(at + mark@.len() <= n);
    let head = text::text_between(&chars, 0, at);
    let publisher = text::text_between(&chars, at + 2, n);
    proof {
        assert(chars@.subrange(0, at as int) =~= chars@.take(at as int));
        assert(chars@.subrange(at + 2, chars@.len() as int) =~= chars@.skip(at + 2));
    }
    let name = match text::split_at_first(head.as_str(), '_') {
        Some((a, _)) => a,
        None => head,
    };
    proof {
        reveal_strlit("");
        reveal_strlit("_");
        assert("_"@ =~= seq!['_']);
        assert(""@.len() == 0);
        if name@.len() == 0 {
            assert(name@ =~= ""@);
        }
        if publisher@.len() == 0 {
            assert(publisher@ =~= ""@);
        }
    }
    if text::same_text(name.as_str(), "") || text::same_text(publisher.as_str(), "") {
        return None;
    }
    Some(text::joined3(name.as_str(), "_", publisher.as_str()))
}

pub open spec fn store_test(names: Seq<Seq<char>>) -> spec_fn(int) -> bool {
    |i: int| text::same_ignoring_ascii_case(names[i], "WindowsApps"@)
}

/// The identity under which a program from the store is started, whatever its version.
pub open spec fn aumid_of(executable: Seq<char>) -> Option<Seq<char>> {
    let names = winpath::names_of(executable);
    match order::first_where(names.len(), store_test(names)) {
        Some(i) => if i + 1 < names.len() {
            match family_of(names[i + 1]) {
                Some(family) => Some(family + "!App"@),
                None => None,
            }
        } else {
            None
        },
        None => None,
    }
}

/// The identity under which a program from the store is started; nothing for another program.
pub fn store_app_aumid(executable: &str) -> (r: Option<String>)
    ensures
        text::opt_text(r) == aumid_of(executable@),
{
    let names = winpath::component_names(executable);
    let ghost nv = winpath::names_of(executable@);
    let ghost test = store_test(nv);
    let mut i: usize = 0;
    assert(text::texts(names@).len() == names@.len());
    while i < names.len()
        invariant
            i <= names@.len(),
            nv == winpath::names_of(executable@),
            nv == text::texts(names@),
            test == store_test(nv),
            forall|k: int| 0 <= k < i ==> !#[trigger] test(k),
        decreases names@.len() - i,
    {
        assert(nv[i as int] == names@[i as int]@);
        if text::equal_ignoring_ascii_case(names[i].as_str(), "WindowsApps") {
            proof {
                order::lemma_first_where_some(nv.len(), test, i as int);
            }
            if i + 1 < names.len() {
                assert(nv[i + 1] == names@[i + 1]@);
                return match package_family_name(names[i + 1].as_str()) {
                    Some(family) => Some(text::joined2(family.as_str(), "!App")),
                    None => None,
                };
            }
            return None;
        }
        i += 1;
    }
    proof {
        order::lemma_first_where_none(nv.len(), test);
    }
    None
}

/// The directory of a package: name, version, architecture and publisher.
pub open spec fn package_dir(
    name: Seq<char>,
    version: Seq<char>,
    architecture: Seq<char>,
    publisher: Seq<char>,
) -> Seq<char> {
    name + seq!['_'] + version + seq!['_'] + architecture + seq!['_', '_'] + publisher
}

/// Version and architecture do not count for the family of a package.
pub proof fn law_family_is_name_and_publisher(
    name: Seq<char>,
    version: Seq<char>,
    architecture: Seq<char>,
    publisher: Seq<char>,
)
    requires
        name.len() > 0,
        publisher.len() > 0,
        text::lacks(name, '_'),
        text::lacks(publisher, '_'),
    ensures
        family_of(package_dir(name, version, architecture, publisher)) == Some(
            name + seq!['_'] + publisher,
        ),
{
    let dir = package_dir(name, version, architecture, publisher);
    let mark = seq!['_', '_'];
    let at = dir.len() - publisher.len() - 2;
    assert(dir.subrange(at, at + 2) =~= mark);
    assert forall|j: int| at < j < dir.len() implies !#[trigger] text::occurs_at(dir, mark, j) by {
        if text::occurs_at(dir, mark, j) {
            assert(dir.subrange(j, j + 2)[1] == '_');
            assert(dir[j + 1] == publisher[j + 1 - at - 2]);
        }
    }
    text::lemma_last_occurrence(dir, mark, at, dir.len() as int);
    let head = dir.take(at);
    assert(dir.skip(at + 2) =~= publisher);
    assert forall|j: int| 0 <= j < name.len() implies head[j] != '_' by {
        assert(head[j] == name[j]);
    }
    assert(head[name.len() as int] == '_');
    text::lemma_split_first(head, '_', name.len() as int);
    assert(head.take(name.len() as int) =~= name);
}

/// A program from the store is started under the name and the publisher of its package, whatever
/// version and architecture its directory tells.
pub proof fn law_version_does_not_matter(
    base: Seq<char>,
    name: Seq<char>,
    version: Seq<char>,
    architecture: Seq<char>,
    publisher: Seq<char>,
    folder: Seq<char>,
    file: Seq<char>,
)
    requires
        winpath::drive_rooted(base),
        forall|i: int|
            0 <= i < winpath::names_of(base).len() ==> !text::same_ignoring_ascii_case(
                #[trigger] winpath::names_of(base)[i],
                "WindowsApps"@,
            ),
        name.len() > 0,
        publisher.len() > 0,
        text::lacks(name, '_'),
        text::lacks(publisher, '_'),
        winpath::is_plain_name(package_dir(name, version, architecture, publisher)),
        winpath::is_plain_name(folder),
        winpath::is_plain_name(file),
    ensures
        ({
            let dir = package_dir(name, version, architecture, publisher);
            let store = winpath::below(base, "WindowsApps"@);
            let executable = winpath::below(
                winpath::below(winpath::below(store, dir), folder),
                file,
            );
            aumid_of(executable) == Some(name + seq!['_'] + publisher + "!App"@)
        }),
{
    let dir = package_dir(name, version, architecture, publisher);
    let store = winpath::below(base, "WindowsApps"@);
    let executable = winpath::below(winpath::below(winpath::below(store, dir), folder), file);
    reveal_strlit("WindowsApps");
    assert(winpath::is_plain_name("WindowsApps"@));
    winpath::lemma_names_below(base, "WindowsApps"@);
    winpath::lemma_names_below(store, dir);
    winpath::lemma_names_below(winpath::below(store, dir), folder);
    winpath::lemma_names_below(winpath::below(winpath::below(store, dir), folder), file);
    law_family_is_name_and_publisher(name, version, architecture, publisher);
    let before = winpath::names_of(base);
    let names = winpath::names_of(executable);
    let test = store_test(names);
    let at = before.len() as int;
    assert(names[at] == "WindowsApps"@ && names[at + 1] == dir);
    assert forall|i: int| 0 <= i < at implies !#[trigger] test(i) by {
        assert(names[i] == before[i]);
    }
    assert(test(at));
    order::lemma_first_where_some(names.len(), test, at);
}

/// A program that does not lie in the store has no identity there.
pub proof fn law_other_programs_are_not_of_the_store(executable: Seq<char>)
    requires
        forall|i: int|
            0 <= i < winpath::names_of(executable).len() ==> !text::same_ignoring_ascii_case(
                #[trigger] winpath::names_of(executable)[i],
                "WindowsApps"@,
            ),
    ensures
        aumid_of(executable) is None,
{
    let names = winpath::names_of(executable);
    let test = store_test(names);
    assert forall|i: int| 0 <= i < names.len() implies !#[trigger] test(i) by {
        assert(!text::same_ignoring_ascii_case(names[i], "WindowsApps"@));
    }
    order::lemma_first_where_none(names.len(), test);
}

// ---------------------------------------------------------------------------
// Folders and addresses
// ---------------------------------------------------------------------------

/// The name of a folder or workspace as an editor shows it, where there is one.
pub open spec fn shown_stem(path: Seq<char>) -> Option<Seq<char>> {
    match winpath::file_stem_of(path) {
        Some(stem) => if stem.len() > 0 {
            Some(stem)
        } else {
            None
        },
        None => None,
    }
}

fn nonempty_stem(path: &str) -> (r: Option<String>)
    ensures
        text::opt_text(r) == shown_stem(path@),
{
    match winpath::file_stem(path) {
        Some(stem) => {
            proof {
                reveal_strlit("");
                if stem@.len() == 0 {
                    assert(stem@ =~= ""@);
                }
            }
            if text::same_text(stem.as_str(), "") {
                None
            } else {
                Some(stem)
            }
        },
        None => None,
    }
}

/// Whether the title of an editor's window names the folder, so that the folder may be taken for
/// the one that is open there.
pub fn vscode_folder_matches_title(folder: &str, window_title: &str) -> (r: bool)
    ensures
        r == (shown_stem(folder@) matches Some(stem) && text::occurs(window_title@, stem)),
{
    match nonempty_stem(folder) {
        Some(stem) => text::contains_text(window_title, stem.as_str()),
        None => false,
    }
}

/// An address with a scheme, which is `https` unless it has one.
pub open spec fn url_of(raw: Seq<char>) -> Seq<char> {
    let trimmed = text::trimmed(raw);
    if text::occurs(trimmed, "://"@) {
        trimmed
    } else {
        "https://"@ + trimmed
    }
}

pub fn normalize_url(raw: &str) -> (r: String)
    ensures
        r@ == url_of(raw@),
{
    let trimmed = text::trim_text(raw);
    if text::contains_text(trimmed.as_str(), "://") {
        trimmed
    } else {
        text::joined2("https://", trimmed.as_str())
    }
}

/// The words of a window's title that a registration can be told by: the folder that the editor
/// opens. The input of any other program does not show in its title.
pub open spec fn needle_of(kind: LaunchKind, input: Seq<char>) -> Option<Seq<char>> {
    if kind == LaunchKind::VsCode {
        shown_stem(text::trimmed(input))
    } else {
        None
    }
}

pub fn declared_title_needle(kind: LaunchKind, input: &str) -> (r: Option<String>)
    ensures
        text::opt_text(r) == needle_of(kind, input@),
{
    if kind != LaunchKind::VsCode {
        return None;
    }
    let trimmed = text::trim_text(input);
    nonempty_stem(trimmed.as_str())
}

// ---------------------------------------------------------------------------
// Command lines
// ---------------------------------------------------------------------------

/// A command line, read up to some point.
pub struct Reading {
    pub tokens: Seq<Seq<char>>,
    pub current: Seq<char>,
    pub quoted: bool,
    pub started: bool,
}

/// The reading after one more character. Quotes keep spaces together and are left out.
pub open spec fn read_char(r: Reading, c: char) -> Reading {
    if c == '"' {
        Reading { quoted: !r.quoted, started: true, ..r }
    } else if text::is_space(c) && !r.quoted {
        if r.started {
            Reading {
                tokens: r.tokens.push(r.current),
                current: Seq::empty(),
                quoted: r.quoted,
                started: false,
            }
        } else {
            r
        }
    } else {
        Reading { current: r.current.push(c), started: true, ..r }
    }
}

pub open spec fn read_all(line: Seq<char>) -> Reading
    decreases line.len(),
{
    if line.len() == 0 {
        Reading {
            tokens: Seq::empty(),
            current: Seq::empty(),
            quoted: false,
            started: false,
        }
    } else {
        read_char(read_all(line.drop_last()), line.last())
    }
}

/// The arguments of a command line.
pub open spec fn tokens_of(line: Seq<char>) -> Seq<Seq<char>> {
    let r = read_all(line);
    if r.started {
        r.tokens.push(r.current)
    } else {
        r.tokens
    }
}

fn tokenize_command_line(command_line: &str) -> (r: Vec<String>)
    ensures
        text::texts(r@) == tokens_of(command_line@),
{
    let chars = text::chars_of(command_line);
    let mut tokens: Vec<String> = Vec::new();
    let mut current = String::new();
    let mut quoted = false;
    let mut started = false;
    let mut i: usize = 0;
    proof {
        assert(text::texts(tokens@) =~= Seq::<Seq<char>>::empty());
        assert(current@ =~= Seq::<char>::empty());
    }
    while i < chars.len()
        invariant
            i <= chars@.len(),
            chars@ == command_line@,
            read_all(chars@.take(i as int)) == (Reading {
                tokens: text::texts(tokens@),
                current: current@,
                quoted,
                started,
            }),
        decreases chars@.len() - i,
    {
        proof {
            assert(chars@.take(i + 1).drop_last() =~= chars@.take(i as int));
            assert(chars@.take(i + 1).last() == chars@[i as int]);
        }
        let c: char = chars[i];
        if c == '"' {
            started = true;
            quoted = !quoted;
        } else if text::white_space(c) && !quoted {
            if started {
                let ghost before = tokens@;
                let ghost piece = current@;
                tokens.push(current);
                current = String::new();
                started = false;
                proof {
                    assert(text::texts(tokens@) =~= text::texts(before).push(piece));
                    assert(current@ =~= Seq::<char>::empty());
                }
            }
        } else {
            current.push(c);
            started = true;
        }
        i += 1;
    }
    assert(chars@.take(chars@.len() as int) =~= chars@);
    if started {
        let ghost before = tokens@;
        let ghost piece = current@;
        tokens.push(current);
        assert(text::texts(tokens@) =~= text::texts(before).push(piece));
    }
    tokens
}

/// The arguments that are registered with a program.
pub fn split_registered_args(raw: &str) -> (r: Vec<String>)
    ensures
        text::texts(r@) == tokens_of(raw@),
{
    tokenize_command_line(raw)
}

/// A word that needs no quotes.
pub open spec fn plain_word(w: Seq<char>) -> bool {
    &&& w.len() > 0
    &&& forall|i: int| 0 <= i < w.len() ==> (#[trigger] w[i]) != '"' && !text::is_space(w[i])
}

/// Reading on through a word adds it to what was begun.
proof fn lemma_read_word(line: Seq<char>, w: Seq<char>)
    requires
        forall|i: int| 0 <= i < w.len() ==> (#[trigger] w[i]) != '"' && !text::is_space(w[i]),
    ensures
        ({
            let before = read_all(line);
            read_all(line + w) == (Reading {
                current: before.current + w,
                started: before.started || w.len() > 0,
                ..before
            })
        }),
    decreases w.len(),
{
    let before = read_all(line);
    if w.len() == 0 {
        assert(line + w =~= line);
        assert(before.current + w =~= before.current);
    } else {
        let u = w.drop_last();
        assert forall|i: int| 0 <= i < u.len() implies (#[trigger] u[i]) != '"' && !text::is_space(
            u[i],
        ) by {
            assert(u[i] == w[i]);
        }
        lemma_read_word(line, u);
        assert((line + w).drop_last() =~= line + u);
        assert((line + w).last() == w[w.len() - 1]);
        assert(before.current + w =~= (before.current + u).push(w.last()));
    }
}

/// Plain words with one space between any two are read as those words.
pub proof fn law_plain_words_are_the_arguments(words: Seq<Seq<char>>)
    requires
        forall|i: int| 0 <= i < words.len() ==> plain_word(#[trigger] words[i]),
    ensures
        tokens_of(text::join_with(words, seq![' '])) == words,
{
    lemma_read_words(words);
    if words.len() > 0 {
        assert(words.drop_last().push(words.last()) =~= words);
    } else {
        assert(tokens_of(text::join_with(words, seq![' '])) =~= words);
    }
}

proof fn lemma_read_words(words: Seq<Seq<char>>)
    requires
        forall|i: int| 0 <= i < words.len() ==> plain_word(#[trigger] words[i]),
    ensures
        words.len() > 0 ==> read_all(text::join_with(words, seq![' '])) == (Reading {
            tokens: words.drop_last(),
            current: words.last(),
            quoted: false,
            started: true,
        }),
        words.len() == 0 ==> read_all(text::join_with(words, seq![' '])) == (Reading {
            tokens: Seq::empty(),
            current: Seq::empty(),
            quoted: false,
            started: false,
        }),
    decreases words.len(),
{
    if words.len() > 0 {
        let w = words[words.len() - 1];
        assert(plain_word(w));
        let rest = words.drop_last();
        assert forall|i: int| 0 <= i < rest.len() implies plain_word(#[trigger] rest[i]) by {
            assert(rest[i] == words[i]);
        }
        lemma_read_words(rest);
        if rest.len() == 0 {
            let none = Seq::<char>::empty();
            lemma_read_word(none, w);
            assert(none + w =~= w);
            assert(text::join_with(words, seq![' ']) == words[0]);
            assert(rest =~= Seq::<Seq<char>>::empty());
        } else {
            let head = text::join_with(rest, seq![' ']);
            let spaced = head + seq![' '];
            assert(spaced.drop_last() =~= head);
            assert(spaced.last() == ' ');
            assert(text::is_space(' '));
            assert(read_all(spaced) == (Reading {
                tokens: rest.drop_last().push(rest.last()),
                current: Seq::<char>::empty(),
                quoted: false,
                started: false,
            }));
            assert(rest.drop_last().push(rest.last()) =~= rest);
            lemma_read_word(spaced, w);
            assert(Seq::<char>::empty() + w =~= w);
        }
    }
}

/// What stands between two quotes is one argument, spaces and all.
pub proof fn law_quotes_keep_an_argument_together(w: Seq<char>)
    requires
        text::lacks(w, '"'),
    ensures
        tokens_of(seq!['"'] + w + seq!['"']) == seq![w],
{
    let open = seq!['"'];
    assert(open.drop_last() =~= Seq::<char>::empty());
    lemma_read_quoted(w);
    let line = seq!['"'] + w + seq!['"'];
    assert(line.drop_last() =~= seq!['"'] + w);
    assert(line.last() == '"');
    assert(tokens_of(line) =~= seq![w]);
}

proof fn lemma_read_quoted(w: Seq<char>)
    requires
        text::lacks(w, '"'),
    ensures
        read_all(seq!['"'] + w) == (Reading {
            tokens: Seq::empty(),
            current: w,
            quoted: true,
            started: true,
        }),
    decreases w.len(),
{
    let open = seq!['"'];
    reveal_with_fuel(read_all, 2);
    if w.len() == 0 {
        assert(open + w =~= open);
        assert(open.drop_last() =~= Seq::<char>::empty());
        assert(open.last() == '"');
        assert(w =~= Seq::<char>::empty());
    } else {
        let u = w.drop_last();
        lemma_read_quoted(u);
        assert((open + w).drop_last() =~= open + u);
        assert((open + w).last() == w[w.len() - 1]);
        assert(u.push(w.last()) =~= w);
    }
}

pub open spec fn identity_test(args: Seq<String>) -> spec_fn(int) -> bool {
    |i: int| text::begins(args[i]@, "--user-data-dir"@)
}

/// The argument that gives a browser data of its own, by which its windows are told from those of
/// other instances.
pub fn browser_identity_arg(args: &[String]) -> (r: Option<&String>)
    ensures
        match r {
            Some(a) => order::first_where(args@.len(), identity_test(args@)) matches Some(i)
                && *a == args@[i],
            None => order::first_where(args@.len(), identity_test(args@)) is None,
        },
{
    let ghost test = identity_test(args@);
    let mut i: usize = 0;
    while i < args.len()
        invariant
            i <= args@.len(),
            test == identity_test(args@),
            forall|k: int| 0 <= k < i ==> !#[trigger] test(k),
        decreases args@.len() - i,
    {
        if text::starts_with_text(args[i].as_str(), "--user-data-dir") {
            proof {
                order::lemma_first_where_some(args@.len(), test, i as int);
            }
            return Some(&args[i]);
        }
        i += 1;
    }
    proof {
        order::lemma_first_where_none(args@.len(), test);
    }
    None
}

/// An argument that is neither a flag nor an address.
pub open spec fn is_positional(token: Seq<char>) -> bool {
    token.len() > 0 && token[0] != '-' && !text::occurs(token, "://"@)
}

/// The first of some arguments, from the one at `from` on, that is neither a flag nor an address.
pub open spec fn first_positional(tokens: Seq<Seq<char>>, from: int) -> Option<Seq<char>>
    decreases tokens.len() - from,
{
    if from < 0 || from >= tokens.len() {
        None
    } else if is_positional(tokens[from]) {
        Some(tokens[from])
    } else {
        first_positional(tokens, from + 1)
    }
}

/// The folder or workspace that an editor was started with, if any.
pub fn extract_vscode_folder(command_line: &str) -> (r: Option<String>)
    ensures
        text::opt_text(r) == first_positional(tokens_of(command_line@), 1),
{
    let tokens = tokenize_command_line(command_line);
    let ghost tv = text::texts(tokens@);
    let mut i: usize = 1;
    while i < tokens.len()
        invariant
            1 <= i,
            tv == text::texts(tokens@),
            tv == tokens_of(command_line@),
            first_positional(tv, 1) == first_positional(tv, i as int),
        decreases tokens@.len() - i,
    {
        assert(tv[i as int] == tokens@[i as int]@);
        let chars = text::chars_of(tokens[i].as_str());
        if chars.len() > 0 && chars[0] != '-' && !text::contains_text(tokens[i].as_str(), "://") {
            return Some(tokens[i].clone());
        }
        i += 1;
    }
    None
}

// ---------------------------------------------------------------------------
// Starting a program again
// ---------------------------------------------------------------------------

/// The arguments with which a program is started again: an editor opens a new window on its
/// folder, a browser one on its address.
pub open spec fn launch_args(
    executable: Seq<char>,
    repository: Option<Seq<char>>,
    url: Option<Seq<char>>,
) -> Seq<Seq<char>> {
    match kind_of(executable) {
        LaunchKind::VsCode => match repository {
            Some(p) => if p.len() > 0 {
                seq!["-n"@, p]
            } else {
                Seq::empty()
            },
            None => Seq::empty(),
        },
        LaunchKind::Browser => {
            let flag = if program_name(executable) == Some("firefox.exe"@) {
                "-new-window"@
            } else {
                "--new-window"@
            };
            match url {
                Some(u) => if text::trimmed(u).len() > 0 {
                    seq![flag, url_of(u)]
                } else {
                    seq![flag]
                },
                None => seq![flag],
            }
        },
        LaunchKind::Generic => Seq::empty(),
    }
}

fn is_blank(s: &str) -> (r: bool)
    ensures
        r == (s@.len() == 0),
{
    let chars = text::chars_of(s);
    chars.len() == 0
}

/// How a program is started again.
pub fn build_launch_spec(
    executable: &str,
    repository_path: Option<&str>,
    browser_url: Option<&str>,
) -> (r: LaunchSpec)
    ensures
        r.program@ == executable@,
        r.kind == kind_of(executable@),
        text::texts(r.args@) == launch_args(
            executable@,
            text::opt_str(repository_path),
            text::opt_str(browser_url),
        ),
        text::opt_text(r.aumid) == aumid_of(executable@),
{
    let kind = classify(executable);
    let mut args: Vec<String> = Vec::new();
    assert(text::texts(args@) =~= Seq::<Seq<char>>::empty());
    match kind {
        LaunchKind::VsCode => {
            if let Some(p) = repository_path {
                if !is_blank(p) {
                    args.push(text::owned("-n"));
                    args.push(text::owned(p));
                    assert(text::texts(args@) =~= seq!["-n"@, p@]);
                }
            }
        },
        LaunchKind::Browser => {
            let ghost flag = if program_name(executable@) == Some("firefox.exe"@) {
                "-new-window"@
            } else {
                "--new-window"@
            };
            if is_firefox(executable) {
                args.push(text::owned("-new-window"));
            } else {
                args.push(text::owned("--new-window"));
            }
            assert(text::texts(args@) =~= seq![flag]);
            if let Some(u) = browser_url {
                let trimmed = text::trim_text(u);
                if !is_blank(trimmed.as_str()) {
                    args.push(normalize_url(u));
                    assert(text::texts(args@) =~= seq![flag, url_of(u@)]);
                }
            }
        },
        LaunchKind::Generic => {},
    }
    LaunchSpec { program: text::owned(executable), args, kind, aumid: store_app_aumid(executable) }
}

pub open spec fn flagless(args: Seq<Seq<char>>) -> spec_fn(int) -> bool {
    |i: int| args[i].len() == 0 || args[i][0] != '-'
}

/// The words by which a window that was registered under the name of the editor is told better:
/// the folder that it is started with.
pub open spec fn better_needle(w: ManagedWindow) -> Option<Seq<char>> {
    if text::opt_text(w.matcher.title_contains) != Some(w.matcher.registered_title@) {
        None
    } else {
        match w.launch_spec {
            Some(spec) => if spec.kind == LaunchKind::VsCode {
                let args = text::texts(spec.args@);
                match order::first_where(args.len(), flagless(args)) {
                    Some(i) => needle_of(LaunchKind::VsCode, args[i]),
                    None => None,
                }
            } else {
                None
            },
            None => None,
        }
    }
}

/// The window told by better words where there are any, otherwise as it was.
pub open spec fn is_retitled(now: ManagedWindow, before: ManagedWindow) -> bool {
    match better_needle(before) {
        Some(needle) => {
            &&& text::opt_text(now.matcher.title_contains) == Some(needle)
            &&& now == (ManagedWindow {
                matcher: crate::domain::workset::WindowMatcher {
                    title_contains: now.matcher.title_contains,
                    ..before.matcher
                },
                ..before
            })
        },
        None => now == before,
    }
}

pub open spec fn retitled_in(windows: Seq<ManagedWindow>) -> nat
    decreases windows.len(),
{
    if windows.len() == 0 {
        0
    } else {
        retitled_in(windows.drop_last()) + if better_needle(windows.last()) is Some {
            1nat
        } else {
            0nat
        }
    }
}

/// How many windows are told by better words.
pub open spec fn retitled(worksets: Seq<Workset>) -> nat
    decreases worksets.len(),
{
    if worksets.len() == 0 {
        0
    } else {
        retitled(worksets.drop_last()) + retitled_in(worksets.last().windows@)
    }
}

fn find_better_needle(w: &ManagedWindow) -> (r: Option<String>)
    ensures
        text::opt_text(r) == better_needle(*w),
{
    let is_default = match &w.matcher.title_contains {
        Some(needle) => text::same_text(needle.as_str(), w.matcher.registered_title.as_str()),
        None => false,
    };
    if !is_default {
        return None;
    }
    match &w.launch_spec {
        Some(spec) => {
            if spec.kind != LaunchKind::VsCode {
                return None;
            }
            let ghost args = text::texts(spec.args@);
            let ghost test = flagless(args);
            let mut i: usize = 0;
            while i < spec.args.len()
                invariant
                    i <= spec.args@.len(),
                    args == text::texts(spec.args@),
                    test == flagless(args),
                    forall|k: int| 0 <= k < i ==> !#[trigger] test(k),
                    text::opt_text(w.matcher.title_contains) == Some(w.matcher.registered_title@),
                    w.launch_spec == Some(*spec),
                    spec.kind == LaunchKind::VsCode,
                decreases spec.args@.len() - i,
            {
                assert(args[i as int] == spec.args@[i as int]@);
                let chars = text::chars_of(spec.args[i].as_str());
                if chars.len() == 0 || chars[0] != '-' {
                    proof {
                        order::lemma_first_where_some(args.len(), test, i as int);
                    }
                    return declared_title_needle(LaunchKind::VsCode, spec.args[i].as_str());
                }
                i += 1;
            }
            proof {
                order::lemma_first_where_none(args.len(), test);
            }
            None
        },
        None => None,
    }
}

fn retitle_windows(windows: &mut Vec<ManagedWindow>, changed: &mut usize)
    ensures
        final(windows)@.len() == old(windows)@.len(),
        forall|k: int|
            0 <= k < final(windows)@.len() ==> is_retitled(
                #[trigger] final(windows)@[k],
                old(windows)@[k],
            ),
        *final(changed) == counting::counted(*old(changed) + retitled_in(old(windows)@)),
{
    let ghost before = windows@;
    let n: usize = windows.len();
    let mut i: usize = 0;
    while i < n
        invariant
            i <= n == before.len(),
            windows@.len() == n,
            before == old(windows)@,
            forall|k: int| 0 <= k < i ==> is_retitled(#[trigger] windows@[k], before[k]),
            forall|k: int| i <= k < n ==> #[trigger] windows@[k] == before[k],
            *changed == counting::counted(*old(changed) + retitled_in(before.take(i as int))),
        decreases n - i,
    {
        proof {
            assert(before.take(i + 1).drop_last() =~= before.take(i as int));
            assert(before.take(i + 1).last() == before[i as int]);
            assert(windows@[i as int] == before[i as int]);
        }
        let needle = find_better_needle(&windows[i]);
        if needle.is_some() {
            windows[i].matcher.title_contains = needle;
            counting::bump(changed);
        }
        i += 1;
    }
    assert(before.take(n as int) =~= before);
}

/// Tells the windows that were registered under the name of the editor by the folder that they
/// open. Returns how many were changed.
pub fn retitle_declared_vscode_windows(worksets: &mut Vec<Workset>) -> (r: usize)
    ensures
        final(worksets)@.len() == old(worksets)@.len(),
        forall|i: int|
            0 <= i < final(worksets)@.len() ==> is_set_retitled(
                #[trigger] final(worksets)@[i],
                old(worksets)@[i],
            ),
        r == counting::counted(retitled(old(worksets)@) as int),
{
    let ghost before = worksets@;
    let n: usize = worksets.len();
    let mut changed: usize = 0;
    let mut i: usize = 0;
    while i < n
        invariant
            i <= n == before.len(),
            worksets@.len() == n,
            before == old(worksets)@,
            forall|k: int| 0 <= k < i ==> is_set_retitled(#[trigger] worksets@[k], before[k]),
            forall|k: int| i <= k < n ==> #[trigger] worksets@[k] == before[k],
            changed == counting::counted(retitled(before.take(i as int)) as int),
        decreases n - i,
    {
        proof {
            assert(before.take(i + 1).drop_last() =~= before.take(i as int));
            assert(before.take(i + 1).last() == before[i as int]);
            assert(worksets@[i as int] == before[i as int]);
        }
        retitle_windows(&mut worksets[i].windows, &mut changed);
        i += 1;
    }
    assert(before.take(n as int) =~= before);
    changed
}

pub open spec fn is_set_retitled(now: Workset, before: Workset) -> bool {
    &&& now.windows@.len() == before.windows@.len()
    &&& forall|i: int|
        0 <= i < now.windows@.len() ==> is_retitled(
            #[trigger] now.windows@[i],
            before.windows@[i],
        )
    &&& now == (Workset { windows: now.windows, ..before })
}

/// Once a window is told by its folder, doing it again changes nothing; and it is not even
/// counted, unless the folder has the very name under which the window was registered.
pub proof fn law_retitling_settles(now: ManagedWindow, before: ManagedWindow)
    requires
        is_retitled(now, before),
    ensures
        better_needle(now) matches Some(needle) ==> text::opt_text(now.matcher.title_contains)
            == Some(needle),
        better_needle(before) != Some(before.matcher.registered_title@) ==> better_needle(now) is None,
{
}

// ---------------------------------------------------------------------------
// The window that has appeared
// ---------------------------------------------------------------------------

/// The window was not there before, and no other registration has claimed it.
pub open spec fn is_fresh(w: TopLevelWindow, before: Set<isize>, claimed: Set<isize>) -> bool {
    !before.contains(w.hwnd) && !claimed.contains(w.hwnd)
}

pub open spec fn runs_program(w: TopLevelWindow, exe: Seq<char>) -> bool {
    w.executable_path matches Some(p) && text::same_ignoring_ascii_case(p@, exe)
}

pub open spec fn runs_file_name(w: TopLevelWindow, exe: Seq<char>) -> bool {
    &&& program_name(exe) is Some
    &&& w.executable_path matches Some(p) && program_name(p@) == program_name(exe)
}

pub open spec fn class_test(
    after: Seq<TopLevelWindow>,
    before: Set<isize>,
    claimed: Set<isize>,
    exe: Seq<char>,
    class: Seq<char>,
) -> spec_fn(int) -> bool {
    |i: int|
        is_fresh(after[i], before, claimed) && runs_program(after[i], exe) && class.len() > 0
            && after[i].window_class@ == class
}

pub open spec fn exe_test(
    after: Seq<TopLevelWindow>,
    before: Set<isize>,
    claimed: Set<isize>,
    exe: Seq<char>,
) -> spec_fn(int) -> bool {
    |i: int| is_fresh(after[i], before, claimed) && runs_program(after[i], exe)
}

pub open spec fn name_test(
    after: Seq<TopLevelWindow>,
    before: Set<isize>,
    claimed: Set<isize>,
    exe: Seq<char>,
) -> spec_fn(int) -> bool {
    |i: int| is_fresh(after[i], before, claimed) && runs_file_name(after[i], exe)
}

/// The window that a started program has opened: a fresh one of the program and the class, else
/// one of the program, else one of a program of that file name.
pub open spec fn launched(
    after: Seq<TopLevelWindow>,
    before: Set<isize>,
    claimed: Set<isize>,
    exe: Seq<char>,
    class: Seq<char>,
) -> Option<int> {
    match order::first_where(after.len(), class_test(after, before, claimed, exe, class)) {
        Some(i) => Some(i),
        None => match order::first_where(after.len(), exe_test(after, before, claimed, exe)) {
            Some(i) => Some(i),
            None => order::first_where(after.len(), name_test(after, before, claimed, exe)),
        },
    }
}

fn does_run(w: &TopLevelWindow, exe: &str) -> (r: bool)
    ensures
        r == runs_program(*w, exe@),
{
    match &w.executable_path {
        Some(p) => matcher::same_executable(p.as_str(), exe),
        None => false,
    }
}

fn does_run_named(w: &TopLevelWindow, exe: &str) -> (r: bool)
    ensures
        r == runs_file_name(*w, exe@),
{
    match (lower_name(exe), &w.executable_path) {
        (Some(wanted), Some(p)) => match lower_name(p.as_str()) {
            Some(got) => text::same_text(got.as_str(), wanted.as_str()),
            None => false,
        },
        _ => false,
    }
}

/// Picks the window that a started program has opened.
pub fn find_launched_window<'a>(
    after: &'a [TopLevelWindow],
    before: &HashSet<isize>,
    claimed: &HashSet<isize>,
    exe: &str,
    class: &str,
) -> (r: Option<&'a TopLevelWindow>)
    ensures
        match r {
            Some(w) => launched(after@, before@, claimed@, exe@, class@) matches Some(i) && 0 <= i
                < after@.len() && *w == after@[i],
            None => launched(after@, before@, claimed@, exe@, class@) is None,
        },
{
    let n: usize = after.len();
    let class_known = !is_blank(class);
    let ghost t1 = class_test(after@, before@, claimed@, exe@, class@);
    let ghost t2 = exe_test(after@, before@, claimed@, exe@);
    let ghost t3 = name_test(after@, before@, claimed@, exe@);
    let mut i: usize = 0;
    while i < n
        invariant
            i <= n == after@.len(),
            class_known == (class@.len() > 0),
            t1 == class_test(after@, before@, claimed@, exe@, class@),
            forall|k: int| 0 <= k < i ==> !#[trigger] t1(k),
        decreases n - i,
    {
        let w = &after[i];
        if !before.contains(&w.hwnd) && !claimed.contains(&w.hwnd) && does_run(w, exe)
            && class_known && text::same_text(w.window_class.as_str(), class) {
            proof {
                order::lemma_first_where_some(after@.len(), t1, i as int);
            }
            return Some(w);
        }
        i += 1;
    }
    proof {
        order::lemma_first_where_none(after@.len(), t1);
    }
    let mut j: usize = 0;
    while j < n
        invariant
            j <= n == after@.len(),
            order::first_where(after@.len(), t1) is None,
            t1 == class_test(after@, before@, claimed@, exe@, class@),
            t2 == exe_test(after@, before@, claimed@, exe@),
            forall|k: int| 0 <= k < j ==> !#[trigger] t2(k),
        decreases n - j,
    {
        let w = &after[j];
        if !before.contains(&w.hwnd) && !claimed.contains(&w.hwnd) && does_run(w, exe) {
            proof {
                order::lemma_first_where_some(after@.len(), t2, j as int);
            }
            return Some(w);
        }
        j += 1;
    }
    proof {
        order::lemma_first_where_none(after@.len(), t2);
    }
    let mut k: usize = 0;
    while k < n
        invariant
            k <= n == after@.len(),
            order::first_where(after@.len(), t1) is None,
            order::first_where(after@.len(), t2) is None,
            t1 == class_test(after@, before@, claimed@, exe@, class@),
            t2 == exe_test(after@, before@, claimed@, exe@),
            t3 == name_test(after@, before@, claimed@, exe@),
            forall|q: int| 0 <= q < k ==> !#[trigger] t3(q),
        decreases n - k,
    {
        let w = &after[k];
        if !before.contains(&w.hwnd) && !claimed.contains(&w.hwnd) && does_run_named(w, exe) {
            proof {
                order::lemma_first_where_some(after@.len(), t3, k as int);
            }
            return Some(w);
        }
        k += 1;
    }
    proof {
        order::lemma_first_where_none(after@.len(), t3);
    }
    None
}

/// A window that was there before the start, or that another registration has claimed, is never
/// picked.
pub proof fn law_only_fresh_windows_are_picked(
    after: Seq<TopLevelWindow>,
    before: Set<isize>,
    claimed: Set<isize>,
    exe: Seq<char>,
    class: Seq<char>,
)
    ensures
        launched(after, before, claimed, exe, class) matches Some(i) ==> 0 <= i < after.len()
            && !before.contains(after[i].hwnd) && !claimed.contains(after[i].hwnd),
{
    order::lemma_first_where(after.len(), class_test(after, before, claimed, exe, class));
    order::lemma_first_where(after.len(), exe_test(after, before, claimed, exe));
    order::lemma_first_where(after.len(), name_test(after, before, claimed, exe));
}

/// Whenever the program has opened a window that is not spoken for, one is picked, and no worse one
/// than there is: of the program and the class where there is such a one, of the program where there
/// is one, and otherwise of a program with the same file name.
pub proof fn law_best_window_is_picked(
    after: Seq<TopLevelWindow>,
    before: Set<isize>,
    claimed: Set<isize>,
    exe: Seq<char>,
    class: Seq<char>,
    k: int,
)
    requires
        0 <= k < after.len(),
        !before.contains(after[k].hwnd),
        !claimed.contains(after[k].hwnd),
        after[k].executable_path is Some,
        program_name(after[k].executable_path->0@) == program_name(exe),
        program_name(exe) is Some,
    ensures
        launched(after, before, claimed, exe, class) matches Some(i) && {
            &&& 0 <= i < after.len()
            &&& after[i].executable_path is Some
            &&& text::same_ignoring_ascii_case(after[k].executable_path->0@, exe) ==> {
                &&& text::same_ignoring_ascii_case(after[i].executable_path->0@, exe)
                &&& class.len() > 0 && after[k].window_class@ == class ==> after[i].window_class@
                    == class
            }
        },
{
    let t1 = class_test(after, before, claimed, exe, class);
    let t2 = exe_test(after, before, claimed, exe);
    let t3 = name_test(after, before, claimed, exe);
    order::lemma_first_where(after.len(), t1);
    order::lemma_first_where(after.len(), t2);
    order::lemma_first_where(after.len(), t3);
    assert(t3(k));
    if text::same_ignoring_ascii_case(after[k].executable_path->0@, exe) {
        assert(t2(k));
        if class.len() > 0 && after[k].window_class@ == class {
            assert(t1(k));
        }
    }
}

proof fn lemma_first_positional(tokens: Seq<Seq<char>>, from: int, k: int)
    requires
        0 <= from <= k < tokens.len(),
        forall|j: int| from <= j < k ==> !is_positional(#[trigger] tokens[j]),
        is_positional(tokens[k]),
    ensures
        first_positional(tokens, from) == Some(tokens[k]),
    decreases k - from,
{
    if from < k {
        assert(!is_positional(tokens[from]));
        lemma_first_positional(tokens, from + 1, k);
    }
}

/// An editor that is started again opens the folder that it was started with: read off the words of
/// its new command line, the folder is that of the old one.
pub proof fn law_editor_opens_its_folder_again(executable: Seq<char>, words: Seq<Seq<char>>)
    requires
        kind_of(executable) == LaunchKind::VsCode,
        first_positional(words, 1) is Some,
    ensures
        first_positional(
            seq![executable] + launch_args(executable, first_positional(words, 1), None),
            1,
        ) == first_positional(words, 1),
{
    let p = first_positional(words, 1)->0;
    lemma_positional_found(words, 1);
    let again = seq![executable] + launch_args(executable, Some(p), None);
    reveal_strlit("-n");
    assert(again[1] == "-n"@ && again[2] == p);
    assert(!is_positional(again[1]));
    lemma_first_positional(again, 1, 2);
}

proof fn lemma_positional_found(tokens: Seq<Seq<char>>, from: int)
    requires
        first_positional(tokens, from) is Some,
    ensures
        is_positional(first_positional(tokens, from)->0),
    decreases tokens.len() - from,
{
    if 0 <= from < tokens.len() && !is_positional(tokens[from]) {
        lemma_positional_found(tokens, from + 1);
    }
}

/// The folder of an editor is the first word after the program that neither begins with a dash nor
/// is an address.
pub proof fn law_folder_is_the_first_plain_argument(words: Seq<Seq<char>>, k: int)
    requires
        1 <= k < words.len(),
        words[k].len() > 0,
        words[k][0] != '-',
        !text::occurs(words[k], "://"@),
        forall|j: int|
            1 <= j < k ==> (#[trigger] words[j]).len() == 0 || words[j][0] == '-' || text::occurs(
                words[j],
                "://"@,
            ),
    ensures
        first_positional(words, 1) == Some(words[k]),
{
    lemma_first_positional(words, 1, k);
}

/// An address always has a scheme. It is the one given, without white space around it, which only
/// gets `https` before it where it has none.
pub proof fn law_address_has_a_scheme(raw: Seq<char>)
    ensures
        text::occurs(url_of(raw), "://"@),
        url_of(raw).len() >= text::trimmed(raw).len(),
        url_of(raw).skip(url_of(raw).len() - text::trimmed(raw).len()) == text::trimmed(raw),
        text::occurs(text::trimmed(raw), "://"@) <==> url_of(raw) == text::trimmed(raw),
{
    let t = text::trimmed(raw);
    let u = url_of(raw);
    reveal_strlit("://");
    reveal_strlit("https://");
    assert(u.skip(u.len() - t.len()) =~= t);
    if !text::occurs(t, "://"@) {
        assert(u.subrange(5, 8) =~= "://"@);
        assert(text::occurs_at(u, "://"@, 5));
        assert(text::occurs(u, "://"@));
    }
}

/// A browser that is started again opens a window of its own, on its address where it has one; and
/// a program that is neither an editor nor a browser is started without arguments.
pub proof fn law_browser_opens_its_address_again(
    executable: Seq<char>,
    repository: Option<Seq<char>>,
    url: Seq<char>,
)
    ensures
        kind_of(executable) == LaunchKind::Browser ==> {
            let args = launch_args(executable, repository, Some(url));
            &&& text::trimmed(url).len() > 0 ==> args.len() == 2 && args[1] == url_of(url)
            &&& text::trimmed(url).len() == 0 ==> args.len() == 1
            &&& args[0] == launch_args(executable, None, None)[0]
            &&& args[0][0] == '-'
        },
        kind_of(executable) == LaunchKind::Generic ==> launch_args(
            executable,
            repository,
            Some(url),
        ).len() == 0,
{
    reveal_strlit("-new-window");
    reveal_strlit("--new-window");
}

/// A window of an editor that is told by the name it was registered under is told by its folder
/// from then on; one that is told in any other way stays as it is.
pub proof fn law_editor_windows_are_told_by_their_folder(
    now: ManagedWindow,
    before: ManagedWindow,
    k: int,
)
    requires
        is_retitled(now, before),
        before.launch_spec is Some,
        0 <= k < before.launch_spec->0.args@.len(),
        before.launch_spec->0.args@[k]@.len() > 0,
        before.launch_spec->0.args@[k]@[0] != '-',
        forall|j: int|
            0 <= j < k ==> (#[trigger] before.launch_spec->0.args@[j])@.len() > 0
                && before.launch_spec->0.args@[j]@[0] == '-',
    ensures
        ({
            let folder = winpath::file_stem_of(text::trimmed(before.launch_spec->0.args@[k]@));
            let by_name = before.matcher.title_contains matches Some(t) && t@
                == before.matcher.registered_title@;
            &&& by_name && before.launch_spec->0.kind == LaunchKind::VsCode && folder is Some
                && folder->0.len() > 0 ==> now.matcher.title_contains is Some
                && now.matcher.title_contains->0@ == folder->0
            &&& !by_name || before.launch_spec->0.kind != LaunchKind::VsCode ==> now == before
        }),
        now.id == before.id && now.launch_spec == before.launch_spec && now.main_placement
            == before.main_placement,
{
    let args = text::texts(before.launch_spec->0.args@);
    let test = flagless(args);
    assert(args[k] == before.launch_spec->0.args@[k]@);
    assert(test(k));
    assert forall|j: int| 0 <= j < k implies !#[trigger] test(j) by {
        assert(args[j] == before.launch_spec->0.args@[j]@);
    }
    order::lemma_first_where_some(args.len(), test, k);
}

} // verus!

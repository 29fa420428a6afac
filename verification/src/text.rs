//! Text handling on sequences of characters: searching, trimming, ASCII case, decimal numbers.
//!
//! A string is read as the sequence of its characters; every function here says over that
//! sequence what it returns.

use vstd::prelude::*;

verus! {

/// `String::push` appends one character at the end and changes nothing else.
pub assume_specification[ String::push ](s: &mut String, ch: char)
    ensures
        final(s)@ == old(s)@.push(ch),
;

/// The characters of a string, in order.
pub fn chars_of(s: &str) -> (r: Vec<char>)
    ensures
        r@ == s@,
{
    let mut out: Vec<char> = Vec::new();
    for c in it: s.chars()
        invariant
            out@ == it.seq().take(it.index()),
    {
        out.push(c);
    }
    out
}

/// The string made of the characters from `from` up to but without `to`.
pub fn text_between(chars: &Vec<char>, from: usize, to: usize) -> (r: String)
    requires
        from <= to <= chars@.len(),
    ensures
        r@ == chars@.subrange(from as int, to as int),
{
    let mut out = String::new();
    let mut i: usize = from;
    while i < to
        invariant
            from <= i <= to <= chars@.len(),
            out@ == chars@.subrange(from as int, i as int),
        decreases to - i,
    {
        out.push(chars[i]);
        i += 1;
    }
    out
}

/// The string made of all the given characters.
pub fn text_of(chars: &Vec<char>) -> (r: String)
    ensures
        r@ == chars@,
{
    let r = text_between(chars, 0, chars.len());
    assert(chars@.subrange(0, chars@.len() as int) =~= chars@);
    r
}

/// A fresh copy of a string slice.
pub fn owned(s: &str) -> (r: String)
    ensures
        r@ == s@,
{
    let mut r = String::new();
    r.append(s);
    assert(Seq::<char>::empty() + s@ =~= s@);
    r
}

/// Two strings one after the other.
pub fn joined2(a: &str, b: &str) -> (r: String)
    ensures
        r@ == a@ + b@,
{
    let mut r = owned(a);
    r.append(b);
    r
}

/// Three strings one after the other.
pub fn joined3(a: &str, b: &str, c: &str) -> (r: String)
    ensures
        r@ == a@ + b@ + c@,
{
    let mut r = owned(a);
    r.append(b);
    r.append(c);
    r
}

/// Whether two character vectors hold the same text.
pub fn same_chars(a: &Vec<char>, b: &Vec<char>) -> (r: bool)
    ensures
        r == (a@ == b@),
{
    if a.len() != b.len() {
        return false;
    }
    let mut i: usize = 0;
    while i < a.len()
        invariant
            a@.len() == b@.len(),
            i <= a@.len(),
            forall|j: int| 0 <= j < i ==> a@[j] == b@[j],
        decreases a@.len() - i,
    {
        if a[i] != b[i] {
            return false;
        }
        i += 1;
    }
    assert(a@ =~= b@);
    true
}

/// Whether two strings hold the same text.
pub fn same_text(a: &str, b: &str) -> (r: bool)
    ensures
        r == (a@ == b@),
{
    let x = chars_of(a);
    let y = chars_of(b);
    same_chars(&x, &y)
}

pub fn is_empty_text(s: &str) -> (r: bool)
    ensures
        r == (s@.len() == 0),
{
    chars_of(s).len() == 0
}

// ---------------------------------------------------------------------------
// Searching
// ---------------------------------------------------------------------------

/// `needle` stands in `hay` at position `at`.
pub open spec fn occurs_at(hay: Seq<char>, needle: Seq<char>, at: int) -> bool {
    0 <= at && at + needle.len() <= hay.len() && hay.subrange(at, at + needle.len() as int)
        == needle
}

/// `needle` stands somewhere in `hay`.
pub open spec fn occurs(hay: Seq<char>, needle: Seq<char>) -> bool {
    exists|at: int| occurs_at(hay, needle, at)
}

/// `s` begins with `prefix`.
pub open spec fn begins(s: Seq<char>, prefix: Seq<char>) -> bool {
    occurs_at(s, prefix, 0)
}

pub fn stands_at(hay: &Vec<char>, needle: &Vec<char>, at: usize) -> (r: bool)
    ensures
        r == occurs_at(hay@, needle@, at as int),
{
    if at > hay.len() || needle.len() > hay.len() - at {
        return false;
    }
    let size: usize = hay.len();
    let mut i: usize = 0;
    while i < needle.len()
        invariant
            size == hay@.len(),
            at + needle@.len() <= hay@.len(),
            i <= needle@.len(),
            forall|j: int| 0 <= j < i ==> hay@[at + j] == needle@[j],
        decreases needle@.len() - i,
    {
        if hay[at + i] != needle[i] {
            assert(hay@.subrange(at as int, at + needle@.len() as int)[i as int] == hay@[at + i]);
            return false;
        }
        i += 1;
    }
    assert(hay@.subrange(at as int, at + needle@.len() as int) =~= needle@);
    true
}

/// The first position at or after `from` where `needle` stands in `hay`.
pub fn find_from(hay: &Vec<char>, needle: &Vec<char>, from: usize) -> (r: Option<usize>)
    ensures
        match r {
            Some(at) => from <= at && occurs_at(hay@, needle@, at as int) && (forall|j: int|
                from <= j < at ==> !occurs_at(hay@, needle@, j)),
            None => forall|j: int| from <= j ==> !occurs_at(hay@, needle@, j),
        },
{
    if needle.len() > hay.len() {
        return None;
    }
    let last: usize = hay.len() - needle.len();
    let mut i: usize = from;
    while i <= last
        invariant
            last == hay@.len() - needle@.len(),
            from <= i,
            i <= last + 1 || i == from,
            forall|j: int| from <= j < i ==> !occurs_at(hay@, needle@, j),
        decreases last + 1 - i,
    {
        if stands_at(hay, needle, i) {
            return Some(i);
        }
        if i == last {
            return None;
        }
        i += 1;
    }
    None
}

/// The last place before `n` at which `needle` stands in `hay`.
pub open spec fn last_occurrence(hay: Seq<char>, needle: Seq<char>, n: int) -> Option<int>
    decreases n,
{
    if n <= 0 {
        None
    } else if occurs_at(hay, needle, n - 1) {
        Some(n - 1)
    } else {
        last_occurrence(hay, needle, n - 1)
    }
}

pub fn find_last(hay: &Vec<char>, needle: &Vec<char>) -> (r: Option<usize>)
    requires
        needle@.len() > 0,
    ensures
        match r {
            Some(at) => last_occurrence(hay@, needle@, hay@.len() as int) == Some(at as int)
                && occurs_at(hay@, needle@, at as int),
            None => last_occurrence(hay@, needle@, hay@.len() as int) is None,
        },
{
    let mut i: usize = hay.len();
    while i > 0
        invariant
            i <= hay@.len(),
            last_occurrence(hay@, needle@, hay@.len() as int) == last_occurrence(
                hay@,
                needle@,
                i as int,
            ),
        decreases i,
    {
        i -= 1;
        if stands_at(hay, needle, i) {
            return Some(i);
        }
    }
    None
}

/// Where `needle` stands at `at` and nowhere from there on, that is its last place.
pub proof fn lemma_last_occurrence(hay: Seq<char>, needle: Seq<char>, at: int, n: int)
    requires
        0 <= at < n,
        occurs_at(hay, needle, at),
        forall|j: int| at < j < n ==> !#[trigger] occurs_at(hay, needle, j),
    ensures
        last_occurrence(hay, needle, n) == Some(at),
    decreases n,
{
    if at < n - 1 {
        assert(!occurs_at(hay, needle, n - 1));
        lemma_last_occurrence(hay, needle, at, n - 1);
    }
}

/// Whether `needle` stands somewhere in `hay`.
pub fn contains_text(hay: &str, needle: &str) -> (r: bool)
    ensures
        r == occurs(hay@, needle@),
{
    let h = chars_of(hay);
    let n = chars_of(needle);
    let found = find_from(&h, &n, 0);
    proof {
        if found is None {
            assert forall|at: int| !occurs_at(hay@, needle@, at) by {
                if at >= 0 {
                }
            }
        } else {
            assert(occurs_at(hay@, needle@, found->0 as int));
        }
    }
    found.is_some()
}

pub fn starts_with_text(s: &str, prefix: &str) -> (r: bool)
    ensures
        r == begins(s@, prefix@),
{
    let h = chars_of(s);
    let n = chars_of(prefix);
    stands_at(&h, &n, 0)
}

// ---------------------------------------------------------------------------
// ASCII case
// ---------------------------------------------------------------------------

/// The lower-case form of an ASCII letter; every other character stays as it is.
pub open spec fn lower_char(c: char) -> char {
    if 'A' <= c && c <= 'Z' {
        (c as u32 + 32) as char
    } else {
        c
    }
}

/// `s` with its ASCII letters in lower case.
pub open spec fn ascii_lower(s: Seq<char>) -> Seq<char> {
    s.map_values(|c: char| lower_char(c))
}

/// The same text but for the case of ASCII letters.
pub open spec fn same_ignoring_ascii_case(a: Seq<char>, b: Seq<char>) -> bool {
    ascii_lower(a) == ascii_lower(b)
}

pub fn lowered_char(c: char) -> (r: char)
    ensures
        r == lower_char(c),
{
    if c >= 'A' && c <= 'Z' {
        ((c as u8) + 32) as char
    } else {
        c
    }
}

pub fn lowered_chars(chars: &Vec<char>) -> (r: Vec<char>)
    ensures
        r@ == ascii_lower(chars@),
{
    let mut out: Vec<char> = Vec::new();
    let mut i: usize = 0;
    while i < chars.len()
        invariant
            i <= chars@.len(),
            out@ == ascii_lower(chars@).take(i as int),
        decreases chars@.len() - i,
    {
        out.push(lowered_char(chars[i]));
        i += 1;
    }
    assert(ascii_lower(chars@).take(chars@.len() as int) =~= ascii_lower(chars@));
    out
}

pub fn ascii_lowercase(s: &str) -> (r: String)
    ensures
        r@ == ascii_lower(s@),
{
    let c = chars_of(s);
    let l = lowered_chars(&c);
    text_of(&l)
}

pub fn equal_ignoring_ascii_case(a: &str, b: &str) -> (r: bool)
    ensures
        r == same_ignoring_ascii_case(a@, b@),
{
    let ca = chars_of(a);
    let cb = chars_of(b);
    let x = lowered_chars(&ca);
    let y = lowered_chars(&cb);
    same_chars(&x, &y)
}

// ---------------------------------------------------------------------------
// White space
// ---------------------------------------------------------------------------

/// The characters with Unicode's `White_Space` property.
pub open spec fn is_space(c: char) -> bool {
    let n = c as u32;
    ||| 9 <= n <= 13
    ||| n == 0x20
    ||| n == 0x85
    ||| n == 0xA0
    ||| n == 0x1680
    ||| 0x2000 <= n <= 0x200A
    ||| n == 0x2028
    ||| n == 0x2029
    ||| n == 0x202F
    ||| n == 0x205F
    ||| n == 0x3000
}

pub fn white_space(c: char) -> (r: bool)
    ensures
        r == is_space(c),
{
    let n: u32 = c as u32;
    (9 <= n && n <= 13) || n == 0x20 || n == 0x85 || n == 0xA0 || n == 0x1680 || (0x2000 <= n && n
        <= 0x200A) || n == 0x2028 || n == 0x2029 || n == 0x202F || n == 0x205F || n == 0x3000
}

/// Where `s` begins once leading white space is left out.
pub open spec fn trim_start_at(s: Seq<char>) -> int
    decreases s.len(),
{
    if s.len() > 0 && is_space(s[0]) {
        1 + trim_start_at(s.skip(1))
    } else {
        0
    }
}

/// Where `s` ends once trailing white space is left out.
pub open spec fn trim_end_at(s: Seq<char>) -> int
    decreases s.len(),
{
    if s.len() > 0 && is_space(s.last()) {
        trim_end_at(s.drop_last())
    } else {
        s.len() as int
    }
}

/// `s` without the white space at its two ends.
pub open spec fn trimmed(s: Seq<char>) -> Seq<char> {
    let rest = s.skip(trim_start_at(s));
    rest.take(trim_end_at(rest))
}

proof fn lemma_trim_start(s: Seq<char>, i: int)
    requires
        0 <= i <= s.len(),
        forall|j: int| 0 <= j < i ==> is_space(s[j]),
        i < s.len() ==> !is_space(s[i]),
    ensures
        trim_start_at(s) == i,
    decreases i,
{
    if i > 0 {
        assert(is_space(s[0]));
        let t = s.skip(1);
        assert forall|j: int| 0 <= j < i - 1 implies is_space(t[j]) by {
            assert(t[j] == s[j + 1]);
        }
        lemma_trim_start(t, i - 1);
    }
}

proof fn lemma_trim_end(s: Seq<char>, i: int)
    requires
        0 <= i <= s.len(),
        forall|j: int| i <= j < s.len() ==> is_space(s[j]),
        i > 0 ==> !is_space(s[i - 1]),
    ensures
        trim_end_at(s) == i,
    decreases s.len() - i,
{
    if i < s.len() {
        assert(is_space(s[s.len() - 1]));
        lemma_trim_end(s.drop_last(), i);
    }
}

/// `chars` without the white space at its two ends.
pub fn trim_chars(chars: &Vec<char>) -> (r: Vec<char>)
    ensures
        r@ == trimmed(chars@),
{
    let n: usize = chars.len();
    let mut i: usize = 0;
    while i < n && white_space(chars[i])
        invariant
            i <= n == chars@.len(),
            forall|j: int| 0 <= j < i ==> is_space(chars@[j]),
        decreases n - i,
    {
        i += 1;
    }
    let mut k: usize = n;
    while k > i && white_space(chars[k - 1])
        invariant
            i <= k <= n == chars@.len(),
            forall|j: int| k <= j < n ==> is_space(chars@[j]),
        decreases k,
    {
        k -= 1;
    }
    let mut out: Vec<char> = Vec::new();
    let mut j: usize = i;
    while j < k
        invariant
            i <= j <= k <= chars@.len(),
            out@ == chars@.subrange(i as int, j as int),
        decreases k - j,
    {
        out.push(chars[j]);
        j += 1;
    }
    proof {
        lemma_trim_start(chars@, i as int);
        let rest = chars@.skip(i as int);
        assert forall|m: int| k - i <= m < rest.len() implies is_space(rest[m]) by {
            assert(rest[m] == chars@[m + i]);
        }
        lemma_trim_end(rest, k - i);
        assert(out@ =~= rest.take(k - i));
    }
    out
}

pub fn trim_text(s: &str) -> (r: String)
    ensures
        r@ == trimmed(s@),
{
    let c = chars_of(s);
    let t = trim_chars(&c);
    text_of(&t)
}

// ---------------------------------------------------------------------------
// Decimal numbers
// ---------------------------------------------------------------------------

pub open spec fn digit_char(d: nat) -> char {
    (48 + d) as char
}

pub open spec fn is_digit(c: char) -> bool {
    '0' <= c && c <= '9'
}

/// `n` written in decimal without leading zeros.
pub open spec fn decimal(n: nat) -> Seq<char>
    decreases n,
{
    if n < 10 {
        seq![digit_char(n)]
    } else {
        decimal(n / 10).push(digit_char(n % 10))
    }
}

/// An integer written in decimal, with a minus sign where it is negative.
pub open spec fn signed_decimal(n: int) -> Seq<char> {
    if n < 0 {
        seq!['-'] + decimal((-n) as nat)
    } else {
        decimal(n as nat)
    }
}

pub open spec fn all_digits(s: Seq<char>) -> bool {
    forall|i: int| 0 <= i < s.len() ==> is_digit(s[i])
}

/// The number that a run of digits stands for.
pub open spec fn digits_value(s: Seq<char>) -> nat
    decreases s.len(),
{
    if s.len() == 0 {
        0
    } else {
        (digits_value(s.drop_last()) * 10 + (s.last() as u32 - 48)) as nat
    }
}

/// What reads as an unsigned number no greater than `max`: an optional plus sign, then digits.
pub open spec fn unsigned_value(s: Seq<char>, max: nat) -> Option<nat> {
    let body = if s.len() > 0 && s[0] == '+' {
        s.skip(1)
    } else {
        s
    };
    if body.len() > 0 && all_digits(body) && digits_value(body) <= max {
        Some(digits_value(body))
    } else {
        None
    }
}

/// What reads as a signed number from `min` to `max`: an optional sign, then digits.
pub open spec fn signed_value(s: Seq<char>, min: int, max: int) -> Option<int> {
    let signed = s.len() > 0 && (s[0] == '+' || s[0] == '-');
    let body = if signed {
        s.skip(1)
    } else {
        s
    };
    if body.len() > 0 && all_digits(body) {
        let v = if signed && s[0] == '-' {
            -(digits_value(body) as int)
        } else {
            digits_value(body) as int
        };
        if min <= v <= max {
            Some(v)
        } else {
            None
        }
    } else {
        None
    }
}

pub proof fn lemma_decimal_digits(n: nat)
    ensures
        decimal(n).len() >= 1,
        all_digits(decimal(n)),
        digits_value(decimal(n)) == n,
    decreases n,
{
    if n < 10 {
        let s = decimal(n);
        assert(s.drop_last() =~= Seq::<char>::empty());
        assert(digits_value(s.drop_last()) == 0);
    } else {
        lemma_decimal_digits(n / 10);
        let s = decimal(n);
        assert(s.drop_last() =~= decimal(n / 10));
    }
}

/// Reading a number back from its decimal form gives the number.
pub proof fn lemma_unsigned_round_trip(n: nat, max: nat)
    requires
        n <= max,
    ensures
        unsigned_value(decimal(n), max) == Some(n),
{
    lemma_decimal_digits(n);
    assert(is_digit(decimal(n)[0]));
}

fn push_decimal(n: u64, out: &mut Vec<char>)
    ensures
        final(out)@ == old(out)@ + decimal(n as nat),
    decreases n,
{
    if n >= 10 {
        push_decimal(n / 10, out);
    }
    let d: u8 = (n % 10) as u8;
    out.push((48 + d) as char);
}

pub fn decimal_text(n: u64) -> (r: String)
    ensures
        r@ == decimal(n as nat),
{
    let mut out: Vec<char> = Vec::new();
    push_decimal(n, &mut out);
    assert(Seq::<char>::empty() + decimal(n as nat) =~= decimal(n as nat));
    text_of(&out)
}

pub fn signed_decimal_text(n: i64) -> (r: String)
    ensures
        r@ == signed_decimal(n as int),
{
    let mut out: Vec<char> = Vec::new();
    if n < 0 {
        out.push('-');
        let m: u64 = (-(n as i128)) as u64;
        push_decimal(m, &mut out);
        assert(out@ =~= seq!['-'] + decimal((-n) as nat));
    } else {
        push_decimal(n as u64, &mut out);
        assert(out@ =~= decimal(n as nat));
    }
    text_of(&out)
}

proof fn lemma_digits_monotone(s: Seq<char>, i: int)
    requires
        0 <= i <= s.len(),
        all_digits(s),
    ensures
        digits_value(s.take(i)) <= digits_value(s),
    decreases s.len(),
{
    if i < s.len() {
        let t = s.drop_last();
        assert(t.take(i) =~= s.take(i));
        lemma_digits_monotone(t, i);
        assert(is_digit(s[s.len() - 1]));
    } else {
        assert(s.take(i) =~= s);
    }
}

/// The value of the digits from `from` on, if that is at most `max` and nothing else stands there.
fn digits_from(chars: &Vec<char>, from: usize, max: u64) -> (r: Option<u64>)
    requires
        from <= chars@.len(),
    ensures
        ({
            let body = chars@.skip(from as int);
            match r {
                Some(v) => body.len() > 0 && all_digits(body) && v == digits_value(body) && v
                    <= max,
                None => !(body.len() > 0 && all_digits(body) && digits_value(body) <= max),
            }
        }),
{
    let ghost body = chars@.skip(from as int);
    let n: usize = chars.len();
    if from == n {
        return None;
    }
    let mut value: u64 = 0;
    let mut i: usize = from;
    while i < n
        invariant
            from <= i <= n == chars@.len(),
            from < n,
            body == chars@.skip(from as int),
            value <= max,
            value == digits_value(body.take(i - from)),
            forall|j: int| 0 <= j < i - from ==> is_digit(body[j]),
        decreases n - i,
    {
        let c = chars[i];
        assert(body[i - from] == c);
        if c < '0' || c > '9' {
            return None;
        }
        let d: u64 = (c as u32 - 48) as u64;
        let next: u128 = (value as u128) * 10 + (d as u128);
        proof {
            let t = body.take(i - from + 1);
            assert(t.drop_last() =~= body.take(i - from));
            assert(t.last() == c);
            assert(next == digits_value(t));
        }
        if next > max as u128 {
            proof {
                if all_digits(body) {
                    lemma_digits_monotone(body, i - from + 1);
                }
            }
            return None;
        }
        value = next as u64;
        i += 1;
    }
    assert(body.take(n - from) =~= body);
    Some(value)
}

/// A number with a sign that is read lies within the bounds.
pub proof fn lemma_signed_bound(s: Seq<char>, min: int, max: int)
    ensures
        signed_value(s, min, max) matches Some(n) ==> min <= n <= max,
{
}

/// A number that is read is no greater than the largest.
pub proof fn lemma_unsigned_bound(s: Seq<char>, max: nat)
    ensures
        unsigned_value(s, max) matches Some(n) ==> n <= max,
{
}

/// Reads an unsigned number no greater than `max`.
pub fn parse_unsigned(chars: &Vec<char>, max: u64) -> (r: Option<u64>)
    ensures
        match r {
            Some(v) => unsigned_value(chars@, max as nat) == Some(v as nat),
            None => unsigned_value(chars@, max as nat) is None,
        },
{
    if chars.len() > 0 && chars[0] == '+' {
        digits_from(chars, 1, max)
    } else {
        assert(chars@.skip(0) =~= chars@);
        digits_from(chars, 0, max)
    }
}

/// Reads a signed number from `min` to `max`.
pub fn parse_signed(chars: &Vec<char>, min: i64, max: i64) -> (r: Option<i64>)
    requires
        min <= 0 <= max,
    ensures
        match r {
            Some(v) => signed_value(chars@, min as int, max as int) == Some(v as int),
            None => signed_value(chars@, min as int, max as int) is None,
        },
{
    let negative = chars.len() > 0 && chars[0] == '-';
    let plus = chars.len() > 0 && chars[0] == '+';
    let from: usize = if negative || plus {
        1
    } else {
        0
    };
    assert(chars@.skip(0) =~= chars@);
    let bound: u64 = if negative {
        (-(min as i128)) as u64
    } else {
        max as u64
    };
    match digits_from(chars, from, bound) {
        Some(v) => if negative {
            Some((-(v as i128)) as i64)
        } else {
            Some(v as i64)
        },
        None => None,
    }
}

// ---------------------------------------------------------------------------
// Splitting and joining
// ---------------------------------------------------------------------------

/// The pieces of `s` between the separators `sep`; at least one, which may be empty.
pub open spec fn split_on(s: Seq<char>, sep: char) -> Seq<Seq<char>>
    decreases s.len(),
{
    if s.len() == 0 {
        seq![Seq::<char>::empty()]
    } else {
        let before = split_on(s.drop_last(), sep);
        if s.last() == sep {
            before.push(Seq::<char>::empty())
        } else {
            before.update(before.len() - 1, before.last().push(s.last()))
        }
    }
}

/// The pieces one after the other, with `sep` between any two.
pub open spec fn join_with(pieces: Seq<Seq<char>>, sep: Seq<char>) -> Seq<char>
    decreases pieces.len(),
{
    if pieces.len() == 0 {
        Seq::empty()
    } else if pieces.len() == 1 {
        pieces[0]
    } else {
        join_with(pieces.drop_last(), sep) + sep + pieces.last()
    }
}

/// The texts of a sequence of strings.
pub open spec fn texts(s: Seq<String>) -> Seq<Seq<char>> {
    Seq::new(s.len(), |i: int| s[i]@)
}

/// An optional string as a mathematical value.
pub open spec fn opt_text(s: Option<String>) -> Option<Seq<char>> {
    match s {
        Some(t) => Some(t@),
        None => None,
    }
}

/// An optional text as a mathematical value.
pub open spec fn opt_str(s: Option<&str>) -> Option<Seq<char>> {
    match s {
        Some(t) => Some(t@),
        None => None,
    }
}

/// The two sides of the first `sep` in `s`.
pub open spec fn split_first(s: Seq<char>, sep: char) -> Option<(Seq<char>, Seq<char>)>
    decreases s.len(),
{
    if s.len() == 0 {
        None
    } else if s[0] == sep {
        Some((Seq::empty(), s.skip(1)))
    } else {
        match split_first(s.skip(1), sep) {
            Some((a, b)) => Some((seq![s[0]] + a, b)),
            None => None,
        }
    }
}

/// The two sides of the last `::` in `s`.
pub open spec fn split_last_pair(s: Seq<char>) -> Option<(Seq<char>, Seq<char>)>
    decreases s.len(),
{
    if s.len() < 2 {
        None
    } else if s[s.len() - 2] == ':' && s[s.len() - 1] == ':' {
        Some((s.take(s.len() - 2), Seq::empty()))
    } else {
        match split_last_pair(s.drop_last()) {
            Some((a, b)) => Some((a, b.push(s.last()))),
            None => None,
        }
    }
}

pub proof fn lemma_split_on_len(s: Seq<char>, sep: char)
    ensures
        split_on(s, sep).len() >= 1,
    decreases s.len(),
{
    if s.len() > 0 {
        lemma_split_on_len(s.drop_last(), sep);
    }
}

pub open spec fn lacks(s: Seq<char>, c: char) -> bool {
    forall|i: int| 0 <= i < s.len() ==> s[i] != c
}

/// More characters without a separator only lengthen the last piece.
pub proof fn lemma_split_on_append(s: Seq<char>, t: Seq<char>, sep: char)
    requires
        lacks(t, sep),
    ensures
        split_on(s + t, sep) == split_on(s, sep).update(
            split_on(s, sep).len() - 1,
            split_on(s, sep).last() + t,
        ),
    decreases t.len(),
{
    lemma_split_on_len(s, sep);
    let before = split_on(s, sep);
    if t.len() == 0 {
        assert(s + t =~= s);
        assert(before.last() + t =~= before.last());
        assert(before.update(before.len() - 1, before.last()) =~= before);
    } else {
        let u = t.drop_last();
        assert((s + t).drop_last() =~= s + u);
        assert((s + t).last() == t.last());
        lemma_split_on_append(s, u, sep);
        assert(before.last() + t =~= (before.last() + u).push(t.last()));
        assert(split_on(s + t, sep) =~= before.update(before.len() - 1, before.last() + t));
    }
}

/// Pieces without a separator in them are found again in what they were joined to.
pub proof fn lemma_split_of_join(pieces: Seq<Seq<char>>, sep: char)
    requires
        pieces.len() >= 1,
        forall|i: int| 0 <= i < pieces.len() ==> lacks(#[trigger] pieces[i], sep),
    ensures
        split_on(join_with(pieces, seq![sep]), sep) == pieces,
    decreases pieces.len(),
{
    if pieces.len() == 1 {
        assert(lacks(pieces[0], sep));
        let none = Seq::<char>::empty();
        lemma_split_on_append(none, pieces[0], sep);
        assert(none + pieces[0] =~= pieces[0]);
        assert(split_on(pieces[0], sep) =~= pieces);
    } else {
        let rest = pieces.drop_last();
        assert forall|i: int| 0 <= i < rest.len() implies lacks(#[trigger] rest[i], sep) by {
            assert(lacks(pieces[i], sep));
        }
        lemma_split_of_join(rest, sep);
        let head = join_with(rest, seq![sep]);
        let with_sep = head + seq![sep];
        assert(with_sep.drop_last() =~= head);
        assert(with_sep.last() == sep);
        assert(split_on(with_sep, sep) == rest.push(Seq::<char>::empty()));
        assert(lacks(pieces.last(), sep)) by {
            assert(lacks(pieces[pieces.len() - 1], sep));
        }
        lemma_split_on_append(with_sep, pieces.last(), sep);
        let grown = rest.push(Seq::<char>::empty());
        assert(grown.last() + pieces.last() =~= pieces.last());
        assert(grown.update(grown.len() - 1, pieces.last()) =~= pieces);
    }
}

pub proof fn lemma_split_first(s: Seq<char>, sep: char, at: int)
    requires
        0 <= at <= s.len(),
        forall|j: int| 0 <= j < at ==> s[j] != sep,
    ensures
        at < s.len() && s[at] == sep ==> split_first(s, sep) == Some((s.take(at), s.skip(at + 1))),
        at == s.len() ==> split_first(s, sep) is None,
    decreases s.len(),
{
    if s.len() > 0 && at > 0 {
        let rest = s.skip(1);
        assert forall|j: int| 0 <= j < at - 1 implies rest[j] != sep by {
            assert(rest[j] == s[j + 1]);
        }
        lemma_split_first(rest, sep, at - 1);
        if at < s.len() && s[at] == sep {
            assert(rest[at - 1] == sep);
            assert(seq![s[0]] + rest.take(at - 1) =~= s.take(at));
            assert(rest.skip(at) =~= s.skip(at + 1));
        }
    } else if s.len() > 0 {
        assert(s.take(0) =~= Seq::<char>::empty());
    }
}

proof fn lemma_split_last_pair(s: Seq<char>, at: int)
    requires
        0 <= at,
        at + 2 <= s.len(),
        s[at] == ':',
        s[at + 1] == ':',
        forall|j: int| at < j && j + 2 <= s.len() ==> !(#[trigger] s[j] == ':' && s[j + 1] == ':'),
    ensures
        split_last_pair(s) == Some((s.take(at), s.skip(at + 2))),
    decreases s.len(),
{
    if at + 2 == s.len() {
        assert(s.skip(at + 2) =~= Seq::<char>::empty());
    } else {
        let j = s.len() - 2;
        assert(!(s[j] == ':' && s[j + 1] == ':'));
        let t = s.drop_last();
        lemma_split_last_pair(t, at);
        assert(t.take(at) =~= s.take(at));
        assert(t.skip(at + 2).push(s.last()) =~= s.skip(at + 2));
    }
}

proof fn lemma_split_last_pair_none(s: Seq<char>)
    requires
        forall|j: int| 0 <= j && j + 2 <= s.len() ==> !(#[trigger] s[j] == ':' && s[j + 1] == ':'),
    ensures
        split_last_pair(s) is None,
    decreases s.len(),
{
    if s.len() >= 2 {
        let j = s.len() - 2;
        assert(!(s[j] == ':' && s[j + 1] == ':'));
        lemma_split_last_pair_none(s.drop_last());
    }
}

/// What was put behind a `::`, having no colon itself, is split off again.
pub proof fn lemma_split_last_pair_of_join(a: Seq<char>, b: Seq<char>)
    requires
        lacks(b, ':'),
    ensures
        split_last_pair(a + seq![':', ':'] + b) == Some((a, b)),
{
    lemma_split_last_pair_again(a, b);
}

/// What stands behind the last `::` neither holds `::` nor begins with a colon.
pub open spec fn is_last_side(b: Seq<char>) -> bool {
    &&& b.len() > 0 ==> b[0] != ':'
    &&& forall|j: int| 0 <= j && j + 1 < b.len() ==> !(#[trigger] b[j] == ':' && b[j + 1] == ':')
}

/// The two sides of the last `::` make up the text, and other text may stand before it.
pub proof fn lemma_split_last_pair_sides(s: Seq<char>)
    ensures
        split_last_pair(s) matches Some((a, b)) ==> s == a + seq![':', ':'] + b && is_last_side(b),
    decreases s.len(),
{
    if s.len() >= 2 {
        if s[s.len() - 2] == ':' && s[s.len() - 1] == ':' {
            assert(s =~= s.take(s.len() - 2) + seq![':', ':'] + Seq::<char>::empty());
        } else {
            let rest = s.drop_last();
            lemma_split_last_pair_sides(rest);
            if let Some((a, b)) = split_last_pair(rest) {
                let now = b.push(s.last());
                assert(s =~= rest.push(s.last()));
                assert(s =~= a + seq![':', ':'] + now);
                assert(s[s.len() - 2] == rest.last());
                assert forall|j: int| 0 <= j && j + 1 < now.len() implies !(#[trigger] now[j] == ':'
                    && now[j + 1] == ':') by {
                    if j + 1 < b.len() {
                        assert(now[j] == b[j] && now[j + 1] == b[j + 1]);
                    } else {
                        assert(rest.last() == b[j]);
                    }
                }
                if b.len() == 0 {
                    assert(rest.last() == ':');
                } else {
                    assert(now[0] == b[0]);
                }
            }
        }
    }
}

/// The last `::` stays the last one, whatever is written before it.
pub proof fn lemma_split_last_pair_again(a: Seq<char>, b: Seq<char>)
    requires
        is_last_side(b),
    ensures
        split_last_pair(a + seq![':', ':'] + b) == Some((a, b)),
{
    let s = a + seq![':', ':'] + b;
    let at = a.len() as int;
    assert forall|j: int| at < j && j + 2 <= s.len() implies !(#[trigger] s[j] == ':' && s[j + 1]
        == ':') by {
        if j == at + 1 {
            assert(s[j + 1] == b[0]);
        } else {
            assert(s[j] == b[j - at - 2] && s[j + 1] == b[j - at - 2 + 1]);
        }
    }
    lemma_split_last_pair(s, at);
    assert(s.take(at) =~= a);
    assert(s.skip(at + 2) =~= b);
}

/// The pieces of `s` between the separators.
pub fn split_text(s: &str, sep: char) -> (r: Vec<String>)
    ensures
        texts(r@) == split_on(s@, sep),
{
    let chars = chars_of(s);
    let mut out: Vec<String> = Vec::new();
    let mut piece = String::new();
    let mut i: usize = 0;
    proof {
        assert(chars@.take(0) =~= Seq::<char>::empty());
        assert(texts(out@).push(piece@) =~= seq![Seq::<char>::empty()]);
    }
    while i < chars.len()
        invariant
            i <= chars@.len(),
            texts(out@).push(piece@) == split_on(chars@.take(i as int), sep),
        decreases chars@.len() - i,
    {
        let ghost before = texts(out@).push(piece@);
        proof {
            assert(chars@.take(i + 1).drop_last() =~= chars@.take(i as int));
            assert(chars@.take(i + 1).last() == chars@[i as int]);
        }
        if chars[i] == sep {
            let ghost done = piece@;
            let ghost pieces = out@;
            out.push(piece);
            piece = String::new();
            assert(texts(out@) =~= texts(pieces).push(done));
            assert(texts(out@).push(piece@) =~= before.push(Seq::<char>::empty()));
        } else {
            piece.push(chars[i]);
            assert(texts(out@).push(piece@) =~= before.update(
                before.len() - 1,
                before.last().push(chars@[i as int]),
            ));
        }
        i += 1;
    }
    proof {
        assert(chars@.take(chars@.len() as int) =~= chars@);
    }
    let ghost pieces = out@;
    let ghost done = piece@;
    out.push(piece);
    assert(texts(out@) =~= texts(pieces).push(done));
    out
}

/// The pieces one after the other, with `sep` between any two.
pub fn join_text(pieces: &Vec<String>, sep: &str) -> (r: String)
    ensures
        r@ == join_with(texts(pieces@), sep@),
{
    let mut out = String::new();
    let mut i: usize = 0;
    let ghost all = texts(pieces@);
    while i < pieces.len()
        invariant
            i <= pieces@.len(),
            all == texts(pieces@),
            out@ == join_with(all.take(i as int), sep@),
        decreases pieces@.len() - i,
    {
        proof {
            assert(all.take(i + 1).drop_last() =~= all.take(i as int));
            assert(all.take(i + 1).last() == pieces@[i as int]@);
        }
        if i > 0 {
            out.append(sep);
        } else {
            assert(out@ =~= Seq::<char>::empty());
            assert(Seq::<char>::empty() + pieces@[0]@ =~= pieces@[0]@);
        }
        out.append(pieces[i].as_str());
        i += 1;
    }
    assert(all.take(all.len() as int) =~= all);
    out
}

/// The two sides of the first `sep`.
pub fn split_at_first(s: &str, sep: char) -> (r: Option<(String, String)>)
    ensures
        match r {
            Some((a, b)) => split_first(s@, sep) == Some((a@, b@)),
            None => split_first(s@, sep) is None,
        },
{
    let chars = chars_of(s);
    let mut i: usize = 0;
    while i < chars.len()
        invariant
            chars@ == s@,
            i <= chars@.len(),
            forall|j: int| 0 <= j < i ==> chars@[j] != sep,
        decreases chars@.len() - i,
    {
        if chars[i] == sep {
            proof {
                lemma_split_first(chars@, sep, i as int);
            }
            let a = text_between(&chars, 0, i);
            let b = text_between(&chars, i + 1, chars.len());
            assert(chars@.subrange(0, i as int) =~= chars@.take(i as int));
            assert(chars@.subrange(i + 1, chars@.len() as int) =~= chars@.skip(i + 1));
            return Some((a, b));
        }
        i += 1;
    }
    proof {
        lemma_split_first(chars@, sep, chars@.len() as int);
    }
    None
}

/// The two sides of the last `::`.
pub fn split_at_last_pair(s: &str) -> (r: Option<(String, String)>)
    ensures
        match r {
            Some((a, b)) => split_last_pair(s@) == Some((a@, b@)),
            None => split_last_pair(s@) is None,
        },
{
    let chars = chars_of(s);
    let n: usize = chars.len();
    if n < 2 {
        return None;
    }
    let mut i: usize = n - 1;
    while i > 0
        invariant
            chars@ == s@,
            n == chars@.len(),
            i < n,
            forall|j: int|
                i <= j && j + 2 <= n ==> !(#[trigger] chars@[j] == ':' && chars@[j + 1] == ':'),
        decreases i,
    {
        i -= 1;
        if chars[i] == ':' && chars[i + 1] == ':' {
            proof {
                lemma_split_last_pair(chars@, i as int);
            }
            let a = text_between(&chars, 0, i);
            let b = text_between(&chars, i + 2, n);
            assert(chars@.subrange(0, i as int) =~= chars@.take(i as int));
            assert(chars@.subrange(i + 2, n as int) =~= chars@.skip(i + 2));
            return Some((a, b));
        }
    }
    proof {
        lemma_split_last_pair_none(chars@);
    }
    None
}

/// Decimal numbers hold no other character than digits and a minus sign.
pub proof fn lemma_decimal_lacks(n: int, c: char)
    requires
        !is_digit(c),
        c != '-',
    ensures
        lacks(signed_decimal(n), c),
        n >= 0 ==> lacks(decimal(n as nat), c),
{
    let m = if n < 0 {
        (-n) as nat
    } else {
        n as nat
    };
    lemma_decimal_digits(m);
    let d = decimal(m);
    assert forall|i: int| 0 <= i < d.len() implies d[i] != c by {
        assert(is_digit(d[i]));
    }
    if n < 0 {
        let s = signed_decimal(n);
        assert forall|i: int| 0 <= i < s.len() implies s[i] != c by {
            if i > 0 {
                assert(s[i] == d[i - 1]);
            }
        }
    }
}

// ---------------------------------------------------------------------------
// Hexadecimal numbers
// ---------------------------------------------------------------------------

pub open spec fn upper_hex_digit(d: nat) -> char {
    if d < 10 {
        (48 + d) as char
    } else {
        (55 + d) as char
    }
}

/// A number in base 16, with capital letters.
pub open spec fn upper_hex(n: nat) -> Seq<char>
    decreases n,
{
    if n < 16 {
        seq![upper_hex_digit(n)]
    } else {
        upper_hex(n / 16).push(upper_hex_digit(n % 16))
    }
}

/// A number in base 16, with two digits at least.
pub open spec fn padded_hex(n: nat) -> Seq<char> {
    if n < 16 {
        seq!['0'] + upper_hex(n)
    } else {
        upper_hex(n)
    }
}

fn push_hex(n: u32, out: &mut Vec<char>)
    ensures
        final(out)@ == old(out)@ + upper_hex(n as nat),
    decreases n,
{
    let ghost before = out@;
    if n >= 16 {
        push_hex(n / 16, out);
    }
    let d: u8 = (n % 16) as u8;
    let c: char = if d < 10 {
        (48 + d) as char
    } else {
        (55 + d) as char
    };
    out.push(c);
    assert(out@ =~= before + upper_hex(n as nat));
}

pub fn padded_hex_text(n: u32) -> (r: String)
    ensures
        r@ == padded_hex(n as nat),
{
    let mut out: Vec<char> = Vec::new();
    if n < 16 {
        out.push('0');
    }
    let ghost lead = out@;
    push_hex(n, &mut out);
    assert(out@ =~= padded_hex(n as nat));
    text_of(&out)
}

/// Trimming takes off all white space around a text, and none of the text.
pub proof fn law_trimming_takes_off_white_space(before: Seq<char>, core: Seq<char>, after: Seq<char>)
    requires
        forall|i: int| 0 <= i < before.len() ==> is_space(#[trigger] before[i]),
        forall|i: int| 0 <= i < after.len() ==> is_space(#[trigger] after[i]),
        core.len() > 0 ==> !is_space(core[0]) && !is_space(core.last()),
    ensures
        trimmed(before + core + after) == core,
{
    let s = before + core + after;
    let n = before.len() as int;
    if core.len() > 0 {
        assert forall|j: int| 0 <= j < n implies is_space(s[j]) by {
            assert(s[j] == before[j]);
        }
        assert(s[n] == core[0]);
        lemma_trim_start(s, n);
        let rest = s.skip(n);
        assert forall|j: int| core.len() <= j < rest.len() implies is_space(rest[j]) by {
            assert(rest[j] == after[j - core.len()]);
        }
        assert(rest[core.len() - 1] == core.last());
        lemma_trim_end(rest, core.len() as int);
        assert(rest.take(core.len() as int) =~= core);
    } else {
        assert forall|j: int| 0 <= j < s.len() implies is_space(s[j]) by {
            if j < n {
                assert(s[j] == before[j]);
            } else {
                assert(s[j] == after[j - n]);
            }
        }
        lemma_trim_start(s, s.len() as int);
        assert(trimmed(s) =~= core);
    }
}

/// The case of ASCII letters is all that lower case takes away: the length stays, and two texts that
/// differ in anything else still differ.
pub proof fn law_lower_case_only_lowers(a: Seq<char>, b: Seq<char>)
    ensures
        ascii_lower(a).len() == a.len(),
        ascii_lower(ascii_lower(a)) == ascii_lower(a),
        ascii_lower(a + b) == ascii_lower(a) + ascii_lower(b),
        forall|i: int|
            0 <= i < a.len() && !('A' <= #[trigger] a[i] && a[i] <= 'Z') ==> ascii_lower(a)[i]
                == a[i],
        forall|i: int|
            0 <= i < a.len() && ('A' <= #[trigger] a[i] && a[i] <= 'Z') ==> ascii_lower(a)[i] as u32
                == a[i] as u32 + 32,
{
    assert(ascii_lower(a + b) =~= ascii_lower(a) + ascii_lower(b));
    assert(ascii_lower(ascii_lower(a)) =~= ascii_lower(a));
}

} // verus!

//! The colours by which sets are told apart.

use vstd::prelude::*;

use crate::domain::workset::Workset;
use crate::ids;
use crate::text;

verus! {

#[derive(Clone, Copy, Debug, PartialEq, Eq, Structural)]
pub struct Rgb {
    pub red: u8,
    pub green: u8,
    pub blue: u8,
}

/// How many bytes a character takes in UTF-8.
pub open spec fn utf8_width(c: char) -> int {
    if (c as u32) < 0x80 {
        1
    } else if (c as u32) < 0x800 {
        2
    } else if (c as u32) < 0x1_0000 {
        3
    } else {
        4
    }
}

fn width_of(c: char) -> (r: usize)
    ensures
        r == utf8_width(c),
{
    let code: u32 = c as u32;
    if code < 0x80 {
        1
    } else if code < 0x800 {
        2
    } else if code < 0x1_0000 {
        3
    } else {
        4
    }
}

/// The character of a single byte that begins at a byte of the text, if there is one.
pub open spec fn single_byte_at(s: Seq<char>, at: int) -> Option<char>
    decreases s.len(),
{
    if s.len() == 0 || at < 0 {
        None
    } else if at == 0 {
        if utf8_width(s[0]) == 1 {
            Some(s[0])
        } else {
            None
        }
    } else {
        single_byte_at(s.skip(1), at - utf8_width(s[0]))
    }
}

pub open spec fn hex_value(c: char) -> Option<int> {
    if '0' <= c <= '9' {
        Some(c as u32 - '0' as u32)
    } else if 'a' <= c <= 'f' {
        Some(c as u32 - 'a' as u32 + 10)
    } else if 'A' <= c <= 'F' {
        Some(c as u32 - 'A' as u32 + 10)
    } else {
        None
    }
}

/// The number that two characters write in base 16, where a leading plus sign is allowed; 0 where
/// they write none.
pub open spec fn pair_value(a: char, b: char) -> int {
    match (hex_value(a), hex_value(b)) {
        (Some(x), Some(y)) => 16 * x + y,
        (None, Some(y)) => if a == '+' {
            y
        } else {
            0
        },
        _ => 0,
    }
}

/// The channel written at two bytes of the text; 0 where there is none.
pub open spec fn channel(s: Seq<char>, at: int) -> int {
    match (single_byte_at(s, at), single_byte_at(s, at + 1)) {
        (Some(a), Some(b)) => pair_value(a, b),
        _ => 0,
    }
}

/// The text without the number signs that it begins with.
pub open spec fn without_signs(s: Seq<char>) -> Seq<char>
    decreases s.len(),
{
    if s.len() > 0 && s[0] == '#' {
        without_signs(s.skip(1))
    } else {
        s
    }
}

pub open spec fn color_of(s: Seq<char>) -> Rgb {
    let digits = without_signs(s);
    Rgb {
        red: channel(digits, 0) as u8,
        green: channel(digits, 2) as u8,
        blue: channel(digits, 4) as u8,
    }
}

fn find_single_byte(chars: &Vec<char>, from: usize, at: usize) -> (r: Option<char>)
    requires
        from <= chars@.len(),
        at < 8,
    ensures
        r == single_byte_at(chars@.skip(from as int), at as int),
{
    let mut i: usize = from;
    let mut left: usize = at;
    while i < chars.len()
        invariant
            from <= i <= chars@.len(),
            single_byte_at(chars@.skip(from as int), at as int) == single_byte_at(
                chars@.skip(i as int),
                left as int,
            ),
        decreases chars@.len() - i,
    {
        let width: usize = width_of(chars[i]);
        assert(chars@.skip(i as int)[0] == chars@[i as int]);
        assert(chars@.skip(i as int).skip(1) =~= chars@.skip(i + 1));
        if left == 0 {
            return if width == 1 {
                Some(chars[i])
            } else {
                None
            };
        }
        if left < width {
            assert(single_byte_at(chars@.skip(i + 1), left - width) is None);
            return None;
        }
        left -= width;
        i += 1;
    }
    None
}

fn value_of_digit(c: char) -> (r: Option<u8>)
    ensures
        match r {
            Some(v) => hex_value(c) == Some(v as int) && v < 16,
            None => hex_value(c) is None,
        },
{
    let code: u32 = c as u32;
    if '0' <= c && c <= '9' {
        Some((code - 48) as u8)
    } else if 'a' <= c && c <= 'f' {
        Some((code - 87) as u8)
    } else if 'A' <= c && c <= 'F' {
        Some((code - 55) as u8)
    } else {
        None
    }
}

fn read_channel(chars: &Vec<char>, from: usize, at: usize) -> (r: u8)
    requires
        from <= chars@.len(),
        at < 7,
    ensures
        r == channel(chars@.skip(from as int), at as int),
{
    let a = match find_single_byte(chars, from, at) {
        Some(c) => c,
        None => {
            return 0;
        },
    };
    let b = match find_single_byte(chars, from, at + 1) {
        Some(c) => c,
        None => {
            return 0;
        },
    };
    match (value_of_digit(a), value_of_digit(b)) {
        (Some(x), Some(y)) => 16 * x + y,
        (None, Some(y)) => if a == '+' {
            y
        } else {
            0
        },
        _ => 0,
    }
}

/// Reads a colour like `#2563eb`. A channel that cannot be read is 0.
pub fn hex_to_color(hex: &str) -> (r: Rgb)
    ensures
        r == color_of(hex@),
{
    let chars = text::chars_of(hex);
    let mut from: usize = 0;
    assert(chars@.skip(0) =~= hex@);
    while from < chars.len() && chars[from] == '#'
        invariant
            from <= chars@.len(),
            without_signs(hex@) == without_signs(chars@.skip(from as int)),
        decreases chars@.len() - from,
    {
        assert(chars@.skip(from as int)[0] == chars@[from as int]);
        assert(chars@.skip(from as int).skip(1) =~= chars@.skip(from + 1));
        from += 1;
    }
    proof {
        if from < chars@.len() {
            assert(chars@.skip(from as int)[0] == chars@[from as int]);
        }
        assert(without_signs(hex@) == chars@.skip(from as int));
    }
    Rgb {
        red: read_channel(&chars, from, 0),
        green: read_channel(&chars, from, 2),
        blue: read_channel(&chars, from, 4),
    }
}

pub open spec fn pair_text(v: u8) -> Seq<char> {
    seq![ids::hex_digit(v as int / 16), ids::hex_digit(v as int % 16)]
}

pub open spec fn color_text(c: Rgb) -> Seq<char> {
    seq!['#'] + pair_text(c.red) + pair_text(c.green) + pair_text(c.blue)
}

fn digit_of(v: u8) -> (r: char)
    requires
        v < 16,
    ensures
        r == ids::hex_digit(v as int),
{
    if v < 10 {
        (48 + v) as char
    } else {
        (87 + v) as char
    }
}

fn push_pair(out: &mut Vec<char>, v: u8)
    ensures
        final(out)@ == old(out)@ + pair_text(v),
{
    let ghost before = out@;
    out.push(digit_of(v / 16));
    out.push(digit_of(v % 16));
    assert(out@ =~= before + pair_text(v));
}

/// Writes a colour like `#2563eb`.
pub fn color_to_hex(color: Rgb) -> (r: String)
    ensures
        r@ == color_text(color),
{
    let mut out: Vec<char> = Vec::new();
    out.push('#');
    assert(out@ =~= seq!['#']);
    push_pair(&mut out, color.red);
    push_pair(&mut out, color.green);
    push_pair(&mut out, color.blue);
    text::text_of(&out)
}

proof fn lemma_hex_digit(v: int)
    requires
        0 <= v < 16,
    ensures
        hex_value(ids::hex_digit(v)) == Some(v),
        utf8_width(ids::hex_digit(v)) == 1,
        ids::hex_digit(v) != '#',
{
}

proof fn lemma_single_bytes(s: Seq<char>, at: int)
    requires
        0 <= at < s.len(),
        forall|i: int| 0 <= i < s.len() ==> utf8_width(#[trigger] s[i]) == 1,
    ensures
        single_byte_at(s, at) == Some(s[at]),
    decreases s.len(),
{
    assert(utf8_width(s[0]) == 1);
    if at > 0 {
        let rest = s.skip(1);
        assert forall|i: int| 0 <= i < rest.len() implies utf8_width(#[trigger] rest[i]) == 1 by {
            assert(rest[i] == s[i + 1]);
        }
        lemma_single_bytes(rest, at - 1);
    }
}

/// A colour that was written is read back as it was.
pub proof fn law_colors_round_trip(c: Rgb)
    ensures
        color_of(color_text(c)) == c,
{
    let written = color_text(c);
    let digits = pair_text(c.red) + pair_text(c.green) + pair_text(c.blue);
    lemma_hex_digit(c.red as int / 16);
    lemma_hex_digit(c.red as int % 16);
    lemma_hex_digit(c.green as int / 16);
    lemma_hex_digit(c.green as int % 16);
    lemma_hex_digit(c.blue as int / 16);
    lemma_hex_digit(c.blue as int % 16);
    assert(written[0] == '#');
    assert(written.skip(1) =~= digits);
    assert(digits[0] != '#');
    assert(without_signs(digits) == digits);
    assert(without_signs(written) == digits);
    assert forall|i: int| 0 <= i < digits.len() implies utf8_width(#[trigger] digits[i]) == 1 by {
        assert(i == 0 || i == 1 || i == 2 || i == 3 || i == 4 || i == 5);
    }
    lemma_single_bytes(digits, 0);
    lemma_single_bytes(digits, 1);
    lemma_single_bytes(digits, 2);
    lemma_single_bytes(digits, 3);
    lemma_single_bytes(digits, 4);
    lemma_single_bytes(digits, 5);
}

// ---------------------------------------------------------------------------
// The palette
// ---------------------------------------------------------------------------

/// The colours that are offered.
pub open spec fn palette_texts() -> Seq<Seq<char>> {
    seq![
        "#2563eb"@,
        "#16a34a"@,
        "#d97706"@,
        "#dc2626"@,
        "#7c3aed"@,
        "#0891b2"@,
        "#db2777"@,
        "#65a30d"@,
        "#ea580c"@,
        "#4f46e5"@,
        "#0d9488"@,
        "#9333ea"@,
        "#ca8a04"@,
        "#e11d48"@,
        "#0ea5e9"@,
        "#f43f5e"@,
    ]
}

pub open spec fn str_texts(s: Seq<&'static str>) -> Seq<Seq<char>> {
    s.map_values(|t: &'static str| t@)
}

pub fn palette() -> (r: Vec<&'static str>)
    ensures
        str_texts(r@) == palette_texts(),
{
    let r: Vec<&'static str> = vec![
        "#2563eb",
        "#16a34a",
        "#d97706",
        "#dc2626",
        "#7c3aed",
        "#0891b2",
        "#db2777",
        "#65a30d",
        "#ea580c",
        "#4f46e5",
        "#0d9488",
        "#9333ea",
        "#ca8a04",
        "#e11d48",
        "#0ea5e9",
        "#f43f5e",
    ];
    assert(str_texts(r@) =~= palette_texts());
    r
}

/// A set has the colour, but for the case of its letters.
pub open spec fn is_used(worksets: Seq<Workset>, color: Seq<char>) -> bool {
    exists|i: int|
        0 <= i < worksets.len() && text::ascii_lower((#[trigger] worksets[i]).color@)
            == text::ascii_lower(color)
}

/// Those of the first `n` colours that no set has.
pub open spec fn unused(worksets: Seq<Workset>, colors: Seq<Seq<char>>, n: nat) -> Seq<Seq<char>>
    decreases n,
{
    if n == 0 {
        Seq::empty()
    } else {
        let before = unused(worksets, colors, (n - 1) as nat);
        if is_used(worksets, colors[n - 1]) {
            before
        } else {
            before.push(colors[n - 1])
        }
    }
}

fn color_is_used(worksets: &[Workset], color: &str) -> (r: bool)
    ensures
        r == is_used(worksets@, color@),
{
    let mut i: usize = 0;
    while i < worksets.len()
        invariant
            i <= worksets@.len(),
            forall|k: int|
                0 <= k < i ==> text::ascii_lower((#[trigger] worksets@[k]).color@)
                    != text::ascii_lower(color@),
        decreases worksets@.len() - i,
    {
        if text::equal_ignoring_ascii_case(worksets[i].color.as_str(), color) {
            return true;
        }
        i += 1;
    }
    false
}

/// The colours to choose from for a new set: those that no set has, or all where none is left. The
/// first of them is chosen to begin with.
pub fn color_choices(worksets: &[Workset]) -> (r: Vec<&'static str>)
    ensures
        str_texts(r@) == ({
            let free = unused(worksets@, palette_texts(), 16);
            if free.len() == 0 {
                palette_texts()
            } else {
                free
            }
        }),
        r@.len() > 0,
{
    let all = palette();
    assert(str_texts(all@).len() == 16);
    let mut out: Vec<&'static str> = Vec::new();
    let mut i: usize = 0;
    assert(str_texts(out@) =~= Seq::<Seq<char>>::empty());
    while i < all.len()
        invariant
            i <= all@.len() == 16,
            str_texts(all@) == palette_texts(),
            str_texts(out@) == unused(worksets@, palette_texts(), i as nat),
            out@.len() == unused(worksets@, palette_texts(), i as nat).len(),
        decreases all@.len() - i,
    {
        let color = all[i];
        assert(str_texts(all@)[i as int] == color@);
        if !color_is_used(worksets, color) {
            let ghost before = out@;
            out.push(color);
            assert(str_texts(out@) =~= str_texts(before).push(color@));
        }
        i += 1;
    }
    if out.len() == 0 {
        all
    } else {
        out
    }
}

/// A colour is free exactly where no set has it, in whatever case it is written.
pub proof fn law_free_colors_are_those_of_no_set(
    worksets: Seq<Workset>,
    colors: Seq<Seq<char>>,
    n: nat,
    color: Seq<char>,
)
    requires
        n <= colors.len(),
    ensures
        unused(worksets, colors, n).contains(color) <==> {
            &&& exists|k: int| 0 <= k < n && #[trigger] colors[k] == color
            &&& forall|i: int|
                0 <= i < worksets.len() ==> text::ascii_lower((#[trigger] worksets[i]).color@)
                    != text::ascii_lower(color)
        },
    decreases n,
{
    if n > 0 {
        law_free_colors_are_those_of_no_set(worksets, colors, (n - 1) as nat, color);
        let before = unused(worksets, colors, (n - 1) as nat);
        let now = unused(worksets, colors, n);
        if before.contains(color) {
            let k = choose|k: int| 0 <= k < before.len() && before[k] == color;
            assert(now[k] == color);
        }
        if now.contains(color) && !before.contains(color) {
            let k = choose|k: int| 0 <= k < now.len() && now[k] == color;
            if k < before.len() {
                assert(before[k] == color);
            }
            assert(colors[n - 1] == color);
        }
        if colors[n - 1] == color && !is_used(worksets, color) {
            assert(now[now.len() - 1] == color);
        }
    }
}

} // verus!

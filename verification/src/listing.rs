//! Rules applied while listing files: which entries to skip, and the units
//! accepted for a minimum file size.

use vstd::prelude::*;
use vstd::string::StrSliceExecFns;
use crate::path::text_equals;

verus! {

/// Names, as views.
pub open spec fn names_view(v: Seq<String>) -> Seq<Seq<char>> {
    v.map_values(|s: String| s@)
}

/// Whether a directory entry is visited: entries whose name is one of the
/// ignore patterns are skipped, with everything below them; an entry whose
/// name cannot be read as text is kept.
pub fn keeps_entry(name: Option<String>, ignore_set: &Vec<String>) -> (keep: bool)
    ensures
        keep == match name {
            Some(n) => !names_view(ignore_set@).contains(n@),
            None => true,
        },
{
    match name {
        None => true,
        Some(n) => !is_listed(&n, ignore_set),
    }
}

/// Whether `name` is one of `names`.
fn is_listed(name: &String, names: &Vec<String>) -> (listed: bool)
    ensures
        listed == names_view(names@).contains(name@),
{
    for i in 0..names.len()
        invariant
            forall|k: int| 0 <= k < i ==> (#[trigger] names@[k])@ != name@,
    {
        if names[i] == *name {
            assert(names_view(names@)[i as int] == name@);
            return true;
        }
    }
    assert forall|k: int| 0 <= k < names@.len() implies #[trigger] names_view(names@)[k] != name@ by {
        assert(names@[k]@ != name@);
    }
    false
}

/// The number of bytes in one of a size unit, given in lower case; `None`
/// for a unit that is not known.
pub open spec fn unit_bytes(unit: Seq<char>) -> Option<u64> {
    if unit == "b"@ || unit == "byte"@ || unit == "bytes"@ {
        Some(1)
    } else if unit == "kb"@ || unit == "kilobyte"@ || unit == "kilobytes"@ {
        Some(1024)
    } else if unit == "mb"@ || unit == "megabyte"@ || unit == "megabytes"@ {
        Some(1048576u64)
    } else if unit == "gb"@ || unit == "gigabyte"@ || unit == "gigabytes"@ {
        Some(1073741824u64)
    } else if unit == "tb"@ || unit == "terabyte"@ || unit == "terabytes"@ {
        Some(1099511627776u64)
    } else {
        None
    }
}

/// The number of bytes in one of the size unit `unit`, given in lower case:
/// bytes, kilobytes, megabytes, gigabytes or terabytes, each written as its
/// short form (`kb`), its name (`kilobyte`) or its plural (`kilobytes`), a
/// kilobyte being 1024 bytes; `None` for any other text.
pub fn unit_multiplier(unit: &str) -> (bytes: Option<u64>)
    ensures
        bytes == unit_bytes(unit@),
{
    if text_equals(unit, "b") || text_equals(unit, "byte") || text_equals(unit, "bytes") {
        Some(1)
    } else if text_equals(unit, "kb") || text_equals(unit, "kilobyte") || text_equals(unit, "kilobytes") {
        Some(1024)
    } else if text_equals(unit, "mb") || text_equals(unit, "megabyte") || text_equals(unit, "megabytes") {
        Some(1024 * 1024)
    } else if text_equals(unit, "gb") || text_equals(unit, "gigabyte") || text_equals(unit, "gigabytes") {
        Some(1024 * 1024 * 1024)
    } else if text_equals(unit, "tb") || text_equals(unit, "terabyte") || text_equals(unit, "terabytes") {
        Some(1024 * 1024 * 1024 * 1024)
    } else {
        None
    }
}

/// Whether `c` has the Unicode White_Space property, by which `char::is_whitespace`
/// and `str::trim` tell white space.
pub open spec fn is_white_space(c: char) -> bool {
    ||| '\u{9}' <= c <= '\u{d}'
    ||| c == ' '
    ||| c == '\u{85}'
    ||| c == '\u{a0}'
    ||| c == '\u{1680}'
    ||| '\u{2000}' <= c <= '\u{200a}'
    ||| c == '\u{2028}'
    ||| c == '\u{2029}'
    ||| c == '\u{202f}'
    ||| c == '\u{205f}'
    ||| c == '\u{3000}'
}

/// `text` without its leading white space.
pub open spec fn trim_start(text: Seq<char>) -> Seq<char>
    decreases text.len(),
{
    if text.len() > 0 && is_white_space(text[0]) {
        trim_start(text.drop_first())
    } else {
        text
    }
}

/// `text` without its trailing white space.
pub open spec fn trim_end(text: Seq<char>) -> Seq<char>
    decreases text.len(),
{
    if text.len() > 0 && is_white_space(text.last()) {
        trim_end(text.drop_last())
    } else {
        text
    }
}

/// `text` with leading and trailing white space removed.
pub open spec fn trimmed(text: Seq<char>) -> Seq<char> {
    trim_end(trim_start(text))
}

/// `c` is an ASCII letter.
pub open spec fn is_ascii_letter(c: char) -> bool {
    'a' <= c <= 'z' || 'A' <= c <= 'Z'
}

/// `c` is an ASCII character.
pub open spec fn is_ascii_char(c: char) -> bool {
    (c as int) < 128
}

/// `c` with an ASCII capital letter put in lower case.
pub open spec fn ascii_lower(c: char) -> char {
    if 'A' <= c <= 'Z' {
        ((c as int) + 32) as char
    } else {
        c
    }
}

/// `c` with an ASCII small letter put in upper case.
pub open spec fn ascii_upper(c: char) -> char {
    if 'a' <= c <= 'z' {
        ((c as int) - 32) as char
    } else {
        c
    }
}

/// `text` with its ASCII capital letters put in lower case.
pub open spec fn ascii_lowercase(text: Seq<char>) -> Seq<char> {
    text.map_values(|c: char| ascii_lower(c))
}

/// `text` with its ASCII small letters put in upper case.
pub open spec fn ascii_uppercase(text: Seq<char>) -> Seq<char> {
    text.map_values(|c: char| ascii_upper(c))
}

/// Every character of `text` is an ASCII character.
pub open spec fn is_ascii_text(text: Seq<char>) -> bool {
    forall|i: int| 0 <= i < text.len() ==> is_ascii_char(#[trigger] text[i])
}

/// Whether the character `c`, beyond ASCII, is alphabetic, as
/// `char::is_alphabetic` tells it.
pub uninterp spec fn alphabetic_beyond_ascii(c: char) -> bool;

/// Whether `c` is alphabetic: among ASCII characters, the letters.
pub open spec fn alphabetic(c: char) -> bool {
    if is_ascii_char(c) {
        is_ascii_letter(c)
    } else {
        alphabetic_beyond_ascii(c)
    }
}

/// The text `text`, which holds a character beyond ASCII, in lower case, as
/// `str::to_lowercase` gives it.
pub uninterp spec fn lowercased_beyond_ascii(text: Seq<char>) -> Seq<char>;

/// `text` in lower case: for ASCII text, its capital letters put in lower
/// case.
pub open spec fn lowercased(text: Seq<char>) -> Seq<char> {
    if is_ascii_text(text) {
        ascii_lowercase(text)
    } else {
        lowercased_beyond_ascii(text)
    }
}

/// The number written by the decimal digits `digits`.
pub open spec fn decimal_value(digits: Seq<char>) -> int
    decreases digits.len(),
{
    if digits.len() == 0 {
        0
    } else {
        decimal_value(digits.drop_last()) * 10 + (digits.last() as int - '0' as int)
    }
}

/// Every character of `s` is a decimal digit.
pub open spec fn all_decimal_digits(s: Seq<char>) -> bool {
    forall|i: int| 0 <= i < s.len() ==> '0' <= #[trigger] s[i] <= '9'
}

/// `text` without a leading `+`, where it has one.
pub open spec fn without_plus(text: Seq<char>) -> Seq<char> {
    if text.len() > 0 && text[0] == '+' {
        text.drop_first()
    } else {
        text
    }
}

/// The whole number of bytes that `text` writes: an optional `+` followed
/// by at least one decimal digit, and nothing else, of a value that fits in
/// `u64`.
pub open spec fn whole_bytes(text: Seq<char>) -> Option<u64> {
    let digits = without_plus(text);
    if digits.len() > 0 && all_decimal_digits(digits) && decimal_value(digits) <= u64::MAX {
        Some(decimal_value(digits) as u64)
    } else {
        None
    }
}

/// Calls `str::trim`, which removes the leading and trailing characters
/// that have the Unicode White_Space property; the contract claims exactly
/// that, as `trimmed`.
#[verifier::external_body]
fn trim_text(text: &str) -> (res: &str)
    ensures
        res@ == trimmed(text@),
{
    text.trim()
}

/// Calls `char::is_alphabetic`; the contract claims that among ASCII
/// characters exactly the letters are alphabetic, and that beyond ASCII the
/// result is a function of the character, named `alphabetic_beyond_ascii`.
#[verifier::external_body]
fn is_alphabetic(c: char) -> (res: bool)
    ensures
        res == (if is_ascii_char(c) {
            is_ascii_letter(c)
        } else {
            alphabetic_beyond_ascii(c)
        }),
{
    c.is_alphabetic()
}

/// Calls `str::to_lowercase`; the contract claims that on ASCII text it
/// puts the capital letters in lower case and changes nothing else, and that
/// on other text the result is a function of the text, named
/// `lowercased_beyond_ascii`.
#[verifier::external_body]
fn lowercase_text(text: &str) -> (res: String)
    ensures
        res@ == (if is_ascii_text(text@) {
            ascii_lowercase(text@)
        } else {
            lowercased_beyond_ascii(text@)
        }),
{
    text.to_lowercase()
}

/// Calls `str::parse::<u64>`, which accepts an optional `+` followed by
/// decimal digits and nothing else, and fails on an empty text, on any other
/// character and on a value above `u64::MAX`; the contract claims exactly
/// that, as `whole_bytes`.
#[verifier::external_body]
fn parse_whole_bytes(text: &str) -> (res: Option<u64>)
    ensures
        res == whole_bytes(text@),
{
    text.parse::<u64>().ok()
}

/// The position of the first alphabetic character of `text`, if any.
pub open spec fn first_alphabetic(text: Seq<char>) -> Option<int>
    decreases text.len(),
{
    if text.len() == 0 {
        None
    } else if alphabetic(text[0]) {
        Some(0)
    } else {
        match first_alphabetic(text.drop_first()) {
            Some(k) => Some(k + 1),
            None => None,
        }
    }
}

/// `first_alphabetic` finds the first alphabetic character, or none where
/// there is none.
pub proof fn lemma_first_alphabetic(text: Seq<char>)
    ensures
        match first_alphabetic(text) {
            Some(k) => 0 <= k < text.len() && alphabetic(text[k]) && forall|j: int|
                0 <= j < k ==> !alphabetic(#[trigger] text[j]),
            None => forall|j: int| 0 <= j < text.len() ==> !alphabetic(#[trigger] text[j]),
        },
    decreases text.len(),
{
    if text.len() > 0 && !alphabetic(text[0]) {
        let rest = text.drop_first();
        lemma_first_alphabetic(rest);
        assert forall|j: int| 1 <= j < text.len() implies text[j] == rest[j - 1] by {}
        match first_alphabetic(rest) {
            Some(k) => {
                assert forall|j: int| 0 <= j < k + 1 implies !alphabetic(#[trigger] text[j]) by {
                    if j > 0 {
                        assert(text[j] == rest[j - 1]);
                    }
                }
            },
            None => {
                assert forall|j: int| 0 <= j < text.len() implies !alphabetic(#[trigger] text[j]) by {
                    if j > 0 {
                        assert(text[j] == rest[j - 1]);
                    }
                }
            },
        }
    }
}

/// The position of the first alphabetic character of `text`, if any.
fn find_alphabetic(text: &str) -> (res: Option<usize>)
    ensures
        match res {
            Some(k) => first_alphabetic(text@) == Some(k as int),
            None => first_alphabetic(text@) is None,
        },
{
    proof {
        lemma_first_alphabetic(text@);
    }
    let n = text.unicode_len();
    for k in 0..n
        invariant
            n == text@.len(),
            forall|j: int| 0 <= j < k ==> !alphabetic(#[trigger] text@[j]),
            match first_alphabetic(text@) {
                Some(f) => 0 <= f < text@.len() && alphabetic(text@[f]) && forall|j: int|
                    0 <= j < f ==> !alphabetic(#[trigger] text@[j]),
                None => forall|j: int| 0 <= j < text@.len() ==> !alphabetic(#[trigger] text@[j]),
            },
    {
        if is_alphabetic(text.get_char(k)) {
            return Some(k);
        }
    }
    None
}

/// What a minimum file size typed as text reads as, with its number still
/// as characters.
pub enum SizeReading {
    /// Nothing but white space.
    Empty,
    /// A whole number of bytes.
    Bytes(u64),
    /// A number still to be read, followed by a known unit of so many bytes.
    Scaled(Seq<char>, u64),
    /// Text from which no size can be read.
    Unreadable,
}

/// What the size text `input` reads as. Around white space removed, it is
/// either empty, or a whole number of bytes, or a number followed by a unit:
/// the unit starts at the first alphabetic character and is known by
/// `unit_bytes` once trimmed and put in lower case, and the number is what
/// comes before it, trimmed; anything else is unreadable.
pub open spec fn size_reading(input: Seq<char>) -> SizeReading {
    let t = trimmed(input);
    if t.len() == 0 {
        SizeReading::Empty
    } else if whole_bytes(t) is Some {
        SizeReading::Bytes(whole_bytes(t)->0)
    } else {
        match first_alphabetic(t) {
            None => SizeReading::Unreadable,
            Some(k) => match unit_bytes(lowercased(trimmed(t.skip(k)))) {
                Some(unit) => SizeReading::Scaled(trimmed(t.take(k)), unit),
                None => SizeReading::Unreadable,
            },
        }
    }
}

/// A minimum file size typed as text, read as far as whole numbers go.
pub enum SizeInput {
    /// Nothing but white space.
    Empty,
    /// A whole number of bytes.
    Bytes(u64),
    /// A number still to be read (`number`, which may have a fraction),
    /// followed by a known unit of `unit` bytes.
    Scaled { number: String, unit: u64 },
    /// Text from which no size can be read.
    Unreadable,
}

impl View for SizeInput {
    type V = SizeReading;

    open spec fn view(&self) -> SizeReading {
        match self {
            SizeInput::Empty => SizeReading::Empty,
            SizeInput::Bytes(b) => SizeReading::Bytes(*b),
            SizeInput::Scaled { number, unit } => SizeReading::Scaled(number@, *unit),
            SizeInput::Unreadable => SizeReading::Unreadable,
        }
    }
}

/// Reads a minimum file size typed as text, as `size_reading` tells.
pub fn read_size_input(input: &str) -> (res: SizeInput)
    ensures
        res@ == size_reading(input@),
{
    let t = trim_text(input);
    let n = t.unicode_len();
    if n == 0 {
        return SizeInput::Empty;
    }
    if let Some(b) = parse_whole_bytes(t) {
        return SizeInput::Bytes(b);
    }
    match find_alphabetic(t) {
        None => SizeInput::Unreadable,
        Some(k) => {
            proof {
                lemma_first_alphabetic(t@);
            }
            let number = trim_text(t.substring_char(0, k));
            let unit = lowercase_text(trim_text(t.substring_char(k, n)));
            assert(t@.subrange(0, k as int) == t@.take(k as int));
            assert(t@.subrange(k as int, n as int) == t@.skip(k as int));
            match unit_multiplier(unit.as_str()) {
                Some(m) => SizeInput::Scaled { number: number.to_owned(), unit: m },
                None => SizeInput::Unreadable,
            }
        },
    }
}

} // verus!

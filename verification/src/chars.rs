//! Character classification and UTF-8 length accounting.

use vstd::prelude::*;

verus! {

/// Number of bytes in the UTF-8 encoding of `c`.
pub open spec fn len_utf8(c: char) -> int {
    if c as u32 <= 0x7F {
        1
    } else if c as u32 <= 0x7FF {
        2
    } else if c as u32 <= 0xFFFF {
        3
    } else {
        4
    }
}

/// Total UTF-8 byte length of a character sequence.
pub open spec fn byte_len(s: Seq<char>) -> int
    decreases s.len(),
{
    if s.len() == 0 {
        0
    } else {
        len_utf8(s[0]) + byte_len(s.drop_first())
    }
}

pub proof fn lemma_byte_len_bounds(s: Seq<char>)
    ensures
        s.len() <= byte_len(s) <= 4 * s.len(),
    decreases s.len(),
{
    if s.len() > 0 {
        lemma_byte_len_bounds(s.drop_first());
    }
}

pub proof fn lemma_byte_len_concat(a: Seq<char>, b: Seq<char>)
    ensures
        byte_len(a + b) == byte_len(a) + byte_len(b),
    decreases a.len(),
{
    if a.len() == 0 {
        assert(a + b =~= b);
    } else {
        assert((a + b).drop_first() =~= a.drop_first() + b);
        lemma_byte_len_concat(a.drop_first(), b);
    }
}

pub proof fn lemma_byte_len_push(s: Seq<char>, c: char)
    ensures
        byte_len(s.push(c)) == byte_len(s) + len_utf8(c),
{
    assert(s.push(c) =~= s + seq![c]);
    lemma_byte_len_concat(s, seq![c]);
    assert(byte_len(seq![c]) == len_utf8(c) + byte_len(seq![c].drop_first()));
    assert(seq![c].drop_first() =~= Seq::<char>::empty());
}

pub proof fn lemma_byte_len_split(s: Seq<char>, j: int)
    requires
        0 <= j <= s.len(),
    ensures
        byte_len(s.take(j)) + byte_len(s.skip(j)) == byte_len(s),
        byte_len(s.take(j)) >= 0,
        byte_len(s.skip(j)) >= 0,
{
    assert(s.take(j) + s.skip(j) =~= s);
    lemma_byte_len_concat(s.take(j), s.skip(j));
    lemma_byte_len_bounds(s.take(j));
    lemma_byte_len_bounds(s.skip(j));
}

/// Byte width of one character, without calling into std.
pub fn char_len_utf8(c: char) -> (n: usize)
    ensures
        n == len_utf8(c),
{
    let u = c as u32;
    if u <= 0x7F {
        1
    } else if u <= 0x7FF {
        2
    } else if u <= 0xFFFF {
        3
    } else {
        4
    }
}

/// A control character: the Unicode `Cc` category, U+0000..=U+001F and
/// U+007F..=U+009F.
pub open spec fn is_control_char(c: char) -> bool {
    c as u32 <= 0x1F || (0x7F <= c as u32 && c as u32 <= 0x9F)
}

pub fn char_is_control(c: char) -> (r: bool)
    ensures
        r == is_control_char(c),
{
    let u = c as u32;
    u <= 0x1F || (0x7F <= u && u <= 0x9F)
}

/// A bidi control character, unconditionally dropped from shaped text:
/// U+202A..=U+202E (LRE, RLE, PDF, LRO, RLO), U+2066..=U+2069 (LRI, RLI,
/// FSI, PDI), U+200E/U+200F (LRM, RLM) and U+061C (ALM).
pub open spec fn is_bidi_control_char(c: char) -> bool {
    ||| (0x202A <= c as u32 && c as u32 <= 0x202E)
    ||| (0x2066 <= c as u32 && c as u32 <= 0x2069)
    ||| c as u32 == 0x200E
    ||| c as u32 == 0x200F
    ||| c as u32 == 0x061C
}

pub fn is_bidi_control(c: char) -> (r: bool)
    ensures
        r == is_bidi_control_char(c),
{
    let u = c as u32;
    (0x202A <= u && u <= 0x202E) || (0x2066 <= u && u <= 0x2069) || u == 0x200E || u == 0x200F
        || u == 0x061C
}

/// The Unicode `White_Space` property: the set from the Unicode character
/// database that `str::trim` and the capitalize transform go by.
pub open spec fn is_white_space_char(c: char) -> bool {
    ||| (0x09 <= c as u32 && c as u32 <= 0x0D)
    ||| c as u32 == 0x20
    ||| c as u32 == 0x85
    ||| c as u32 == 0xA0
    ||| c as u32 == 0x1680
    ||| (0x2000 <= c as u32 && c as u32 <= 0x200A)
    ||| c as u32 == 0x2028
    ||| c as u32 == 0x2029
    ||| c as u32 == 0x202F
    ||| c as u32 == 0x205F
    ||| c as u32 == 0x3000
}

pub fn char_is_white_space(c: char) -> (r: bool)
    ensures
        r == is_white_space_char(c),
{
    let u = c as u32;
    (0x09 <= u && u <= 0x0D) || u == 0x20 || u == 0x85 || u == 0xA0 || u == 0x1680 || (0x2000 <= u
        && u <= 0x200A) || u == 0x2028 || u == 0x2029 || u == 0x202F || u == 0x205F || u == 0x3000
}

/// Whether `c` has the Unicode `Alphabetic` property.
pub uninterp spec fn is_alphabetic_char(c: char) -> bool;

/// Relies on char::is_alphabetic: the `Alphabetic` property of a character,
/// a function of the character alone.
#[verifier::external_body]
pub fn char_is_alphabetic(c: char) -> (r: bool)
    ensures
        r == is_alphabetic_char(c),
{
    c.is_alphabetic()
}

/// The characters std's uppercase mapping yields for `c`.
pub uninterp spec fn uppercase_mapping_chars(c: char) -> Seq<char>;

/// The full Unicode uppercase mapping of `c`. std documents the mapping
/// as one or more characters, so an empty mapping never describes it and
/// the adjustment below does not change the function's value.
pub open spec fn uppercase_mapping(c: char) -> Seq<char> {
    if uppercase_mapping_chars(c).len() >= 1 {
        uppercase_mapping_chars(c)
    } else {
        seq![c]
    }
}

/// Relies on char::to_uppercase: the full (possibly multi-character)
/// uppercase mapping, a function of the character alone; it yields the
/// uppercase mapping as one or more characters.
#[verifier::external_body]
fn char_to_uppercase_raw(c: char) -> (r: Vec<char>)
    ensures
        r@ == uppercase_mapping_chars(c),
        r@.len() >= 1,
{
    c.to_uppercase().collect()
}

pub fn char_to_uppercase(c: char) -> (r: Vec<char>)
    ensures
        r@ == uppercase_mapping(c),
        r@.len() >= 1,
{
    char_to_uppercase_raw(c)
}

/// The characters std's lowercase mapping yields for `c`.
pub uninterp spec fn lowercase_mapping_chars(c: char) -> Seq<char>;

/// The full Unicode lowercase mapping of `c`, one or more characters as
/// std documents it.
pub open spec fn lowercase_mapping(c: char) -> Seq<char> {
    if lowercase_mapping_chars(c).len() >= 1 {
        lowercase_mapping_chars(c)
    } else {
        seq![c]
    }
}

/// Relies on char::to_lowercase: the full (possibly multi-character)
/// lowercase mapping, a function of the character alone; it yields the
/// lowercase mapping as one or more characters.
#[verifier::external_body]
fn char_to_lowercase_raw(c: char) -> (r: Vec<char>)
    ensures
        r@ == lowercase_mapping_chars(c),
        r@.len() >= 1,
{
    c.to_lowercase().collect()
}

pub fn char_to_lowercase(c: char) -> (r: Vec<char>)
    ensures
        r@ == lowercase_mapping(c),
        r@.len() >= 1,
{
    char_to_lowercase_raw(c)
}

} // verus!

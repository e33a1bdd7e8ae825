//! Per-character Unicode script lookup and the run-compatibility rule.

use vstd::prelude::*;

verus! {

/// The code the unicode_script crate gives `Script::Common` (its own
/// discriminant, 0xFE).
pub const SCRIPT_COMMON: u8 = 254;

/// The code the unicode_script crate gives `Script::Inherited` (0xFD).
pub const SCRIPT_INHERITED: u8 = 253;

/// The Unicode script property of a character, as the code (discriminant)
/// the unicode_script crate assigns it.
pub uninterp spec fn script_code_of(c: char) -> u8;

/// Relies on unicode_script::Script::from(char): the script property of a
/// character, a function of the character alone; the returned code is the
/// crate's own `repr(u8)` discriminant, with Common 0xFE and Inherited
/// 0xFD.
#[verifier::external_body]
pub fn script_lookup(c: char) -> (r: u8)
    ensures
        r == script_code_of(c),
{
    unicode_script::Script::from(c) as u8
}

/// A specific script: neither Common nor Inherited.
pub open spec fn is_specific_spec(script: u8) -> bool {
    script != SCRIPT_COMMON && script != SCRIPT_INHERITED
}

/// Returns true if the script is not common or inherited.
pub fn is_specific(script: u8) -> (r: bool)
    ensures
        r == is_specific_spec(script),
{
    script != SCRIPT_COMMON && script != SCRIPT_INHERITED
}

/// Can a character with script `b` continue a text run with script `a`?
pub open spec fn is_compatible_spec(a: u8, b: u8) -> bool {
    a == b || !is_specific_spec(a) || !is_specific_spec(b)
}

pub fn is_compatible(a: u8, b: u8) -> (r: bool)
    ensures
        r == is_compatible_spec(a, b),
{
    a == b || !is_specific(a) || !is_specific(b)
}

} // verus!

//! Bidirectional embedding levels for a paragraph of text.

use vstd::prelude::*;
use crate::chars::byte_len;

verus! {

/// The bidi embedding level of each UTF-8 byte of `text`, resolved with
/// paragraph base level `para_level`.
pub uninterp spec fn bidi_levels_of(text: Seq<char>, para_level: u8) -> Seq<u8>;

/// Relies on unicode_bidi::BidiInfo::new: it computes the directional
/// embedding level of each byte of the text for the given paragraph base
/// level, a function of the text and level alone; its `levels` vector has
/// one entry per UTF-8 byte of the text.
#[verifier::external_body]
pub fn compute_bidi_levels(text: &str, para_level: u8) -> (r: Vec<u8>)
    requires
        para_level <= 1,
    ensures
        r@ == bidi_levels_of(text@, para_level),
        r@.len() == byte_len(text@),
{
    let level = unicode_bidi::Level::new(para_level).unwrap_or(unicode_bidi::Level::ltr());
    let info = unicode_bidi::BidiInfo::new(text, Some(level));
    info.levels.iter().map(|l| l.number()).collect()
}

/// An odd embedding level is right-to-left.
pub open spec fn level_is_rtl(level: u8) -> bool {
    level % 2 == 1
}

pub fn is_rtl_level(level: u8) -> (r: bool)
    ensures
        r == level_is_rtl(level),
{
    level % 2 == 1
}

pub open spec fn any_rtl(levels: Seq<u8>) -> bool {
    exists|i: int| 0 <= i < levels.len() && level_is_rtl(#[trigger] levels[i])
}

/// Whether any byte of the paragraph resolved to a right-to-left level.
pub fn has_rtl(levels: &Vec<u8>) -> (r: bool)
    ensures
        r == any_rtl(levels@),
{
    let n = levels.len();
    let mut i: usize = 0;
    while i < n
        invariant
            n == levels.len(),
            i <= n,
            forall|j: int| 0 <= j < i ==> !level_is_rtl(#[trigger] levels@[j]),
        decreases n - i,
    {
        if levels[i] % 2 == 1 {
            return true;
        }
        i = i + 1;
    }
    false
}

} // verus!

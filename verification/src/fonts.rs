//! A plain-value model of the font-selection service.
//!
//! The real service is an opaque cache keyed by computed font style and
//! codepoint; here its observable behaviour is data: a `FontContext`
//! maps each font-style key to a `FontGroup`, whose coverage ranges map
//! codepoints to font keys in fallback order, together with the advance
//! of the space glyph that word-spacing resolution falls back to.

use vstd::prelude::*;

verus! {

/// Identifies a concrete font: the face identity and its size, the two
/// things a run split compares.
#[derive(Clone, Copy, Debug, Eq, PartialEq, Structural)]
pub struct FontKey {
    pub identifier: u64,
    pub pt_size: u64,
}

/// One coverage entry: `font` serves codepoints `lo..=hi`.
#[derive(Clone, Copy, Debug, Eq, PartialEq, Structural)]
pub struct FontRange {
    pub lo: u32,
    pub hi: u32,
    pub font: FontKey,
}

impl FontRange {
    pub open spec fn covers(self, c: char) -> bool {
        self.lo <= c as u32 <= self.hi
    }
}

/// The font group for one computed style: fonts in fallback order.
pub struct FontGroup {
    pub fonts: Vec<FontRange>,
    /// Advance of the space glyph in the group's first font, in app units.
    pub space_advance: i64,
}

/// The first entry at or after `i` covering `c`.
pub open spec fn find_font_from(fonts: Seq<FontRange>, c: char, i: int) -> Option<FontKey>
    decreases fonts.len() - i,
{
    if i < 0 || i >= fonts.len() {
        None
    } else if fonts[i].covers(c) {
        Some(fonts[i].font)
    } else {
        find_font_from(fonts, c, i + 1)
    }
}

impl FontGroup {
    /// The font serving codepoint `c`: the first covering entry.
    pub open spec fn find_spec(&self, c: char) -> Option<FontKey> {
        find_font_from(self.fonts@, c, 0)
    }

    /// The group's first font, used as last-resort fallback.
    pub open spec fn first_spec(&self) -> Option<FontKey> {
        if self.fonts@.len() > 0 {
            Some(self.fonts@[0].font)
        } else {
            None
        }
    }

    pub fn find_by_codepoint(&self, c: char) -> (r: Option<FontKey>)
        ensures
            r == self.find_spec(c),
    {
        let n = self.fonts.len();
        let u = c as u32;
        let mut i: usize = 0;
        while i < n
            invariant
                n == self.fonts@.len(),
                i <= n,
                u == c as u32,
                find_font_from(self.fonts@, c, 0) == find_font_from(self.fonts@, c, i as int),
            decreases n - i,
        {
            let entry = self.fonts[i];
            if entry.lo <= u && u <= entry.hi {
                return Some(entry.font);
            }
            i = i + 1;
        }
        None
    }

    pub fn first(&self) -> (r: Option<FontKey>)
        ensures
            r == self.first_spec(),
    {
        if self.fonts.len() > 0 {
            Some(self.fonts[0].font)
        } else {
            None
        }
    }
}

/// The font group resolved for one computed font style.
pub struct StyledFontGroup {
    pub style_key: u64,
    pub group: FontGroup,
}

/// The first entry at or after `i` carrying `key`.
pub open spec fn find_group_from(groups: Seq<StyledFontGroup>, key: u64, i: int) -> Option<int>
    decreases groups.len() - i,
{
    if i < 0 || i >= groups.len() {
        None
    } else if groups[i].style_key == key {
        Some(i)
    } else {
        find_group_from(groups, key, i + 1)
    }
}

/// The font-selection service: one font group per computed font style.
pub struct FontContext {
    pub groups: Vec<StyledFontGroup>,
}

impl FontContext {
    pub open spec fn has_group(&self, key: u64) -> bool {
        find_group_from(self.groups@, key, 0) is Some
    }

    /// The group serving font-style key `key`: the first matching entry.
    pub open spec fn group_spec(&self, key: u64) -> FontGroup
        recommends
            self.has_group(key),
    {
        self.groups@[find_group_from(self.groups@, key, 0)->Some_0].group
    }

    pub fn contains_group(&self, key: u64) -> (r: bool)
        ensures
            r == self.has_group(key),
    {
        let n = self.groups.len();
        let mut i: usize = 0;
        while i < n
            invariant
                n == self.groups@.len(),
                i <= n,
                find_group_from(self.groups@, key, 0) == find_group_from(
                    self.groups@,
                    key,
                    i as int,
                ),
            decreases n - i,
        {
            if self.groups[i].style_key == key {
                return true;
            }
            i = i + 1;
        }
        false
    }

    pub fn group_for(&self, key: u64) -> (r: &FontGroup)
        requires
            self.has_group(key),
        ensures
            *r == self.group_spec(key),
    {
        let n = self.groups.len();
        let mut i: usize = 0;
        while i < n
            invariant
                n == self.groups@.len(),
                i <= n,
                find_group_from(self.groups@, key, 0) == find_group_from(
                    self.groups@,
                    key,
                    i as int,
                ),
                self.has_group(key),
            decreases n - i,
        {
            if self.groups[i].style_key == key {
                return &self.groups[i].group;
            }
            i = i + 1;
        }
        proof {
            assert(false);
        }
        &self.groups[0].group
    }
}

} // verus!

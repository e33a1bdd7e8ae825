//! Layout leaves as this pipeline sees them: unscanned text on the way
//! in, scanned references into shaped runs on the way out.

use vstd::prelude::*;
use vstd::string::StrSliceExecFns;
use crate::byterange::ByteRange;
use crate::chars::byte_len;
use crate::strutil::str_byte_len;
use crate::style::{TextStyle, WhiteSpaceCollapse};

verus! {

/// Raw text owned by a leaf, with an optional selection byte range.
/// An empty selection range marks a caret (insertion point).
pub struct UnscannedTextFragmentInfo {
    pub text: String,
    pub selection: Option<ByteRange>,
}

impl UnscannedTextFragmentInfo {
    pub fn new(text: String, selection: Option<ByteRange>) -> (r: UnscannedTextFragmentInfo)
        ensures
            r.text@ == text@,
            r.selection == selection,
    {
        UnscannedTextFragmentInfo { text, selection }
    }

    /// A selection range stays inside the text it selects.
    pub open spec fn wf(&self) -> bool {
        match self.selection {
            Some(r) => r.begin + r.length <= byte_len(self.text@),
            None => true,
        }
    }
}

#[derive(Clone, Copy, Debug, Eq, PartialEq, Structural)]
pub struct ScannedTextFlags {
    pub suppress_line_break_before: bool,
    pub requires_line_break_afterward_if_wrapping_on_newlines: bool,
    pub selected: bool,
}

#[derive(Clone, Copy, Debug, Eq, PartialEq, Structural)]
pub struct LogicalSize {
    pub inline: i64,
    pub block: i64,
}

/// A slice of a shaped run: the run is shared, so a fragment holds its
/// index in the scan's run list and a byte range into its text.
#[derive(Clone, Copy, Debug, Eq, PartialEq, Structural)]
pub struct ScannedTextFragmentInfo {
    pub run_index: usize,
    pub range: ByteRange,
    pub content_size: LogicalSize,
    pub insertion_point: Option<usize>,
    pub flags: ScannedTextFlags,
}

impl ScannedTextFragmentInfo {
    pub fn new(
        run_index: usize,
        range: ByteRange,
        content_size: LogicalSize,
        insertion_point: Option<usize>,
        flags: ScannedTextFlags,
    ) -> (r: ScannedTextFragmentInfo)
        ensures
            r == (ScannedTextFragmentInfo { run_index, range, content_size, insertion_point, flags }),
    {
        ScannedTextFragmentInfo { run_index, range, content_size, insertion_point, flags }
    }
}

/// The closed set of fragment kinds the scanner distinguishes: text yet
/// to scan, text already scanned, and everything else (atomic inline
/// content), which passes through untouched.
pub enum SpecificFragmentInfo {
    UnscannedText(UnscannedTextFragmentInfo),
    ScannedText(ScannedTextFragmentInfo),
    Generic,
}

/// Inline-context metadata: one entry per enclosing inline element, with
/// its first/last-fragment-of-element flags.
#[derive(Clone, Copy, Debug, Eq, PartialEq, Structural)]
pub struct InlineNode {
    pub first_of_element: bool,
    pub last_of_element: bool,
}

pub struct Fragment {
    pub specific: SpecificFragmentInfo,
    pub style: TextStyle,
    pub inline_nodes: Vec<InlineNode>,
    pub border_box_size: LogicalSize,
}

pub fn copy_nodes(nodes: &Vec<InlineNode>) -> (r: Vec<InlineNode>)
    ensures
        r@ == nodes@,
{
    let mut r: Vec<InlineNode> = Vec::new();
    let n = nodes.len();
    let mut i: usize = 0;
    while i < n
        invariant
            n == nodes.len(),
            i <= n,
            r@ == nodes@.take(i as int),
        decreases n - i,
    {
        r.push(nodes[i]);
        proof {
            assert(nodes@.take(i + 1) =~= nodes@.take(i as int).push(nodes@[i as int]));
        }
        i = i + 1;
    }
    proof {
        assert(nodes@.take(n as int) =~= nodes@);
    }
    r
}

impl Fragment {
    pub open spec fn is_unscanned_text(&self) -> bool {
        self.specific is UnscannedText
    }

    /// The fragment's selection range is inside its text.
    pub open spec fn wf(&self) -> bool {
        match self.specific {
            SpecificFragmentInfo::UnscannedText(u) => u.wf(),
            _ => true,
        }
    }

    pub fn white_space_collapse(&self) -> (r: WhiteSpaceCollapse)
        ensures
            r == self.style.white_space_collapse,
    {
        self.style.white_space_collapse
    }

    /// Adjacent unscanned text with identical relevant style can merge
    /// into one clump, unless the earlier fragment ends in a hard line
    /// break: no clump may straddle one.
    pub open spec fn can_merge_spec(&self, other: &Fragment) -> bool {
        &&& self.is_unscanned_text()
        &&& other.is_unscanned_text()
        &&& self.style == other.style
        &&& (match self.specific {
            SpecificFragmentInfo::UnscannedText(u) => !(u.text@.len() > 0 && u.text@.last()
                == '\n'),
            _ => false,
        })
    }

    pub fn can_merge_with_fragment(&self, other: &Fragment) -> (r: bool)
        ensures
            r == self.can_merge_spec(other),
    {
        let no_trailing_newline = match &self.specific {
            SpecificFragmentInfo::UnscannedText(u) => {
                let n = u.text.as_str().unicode_len();
                n == 0 || u.text.as_str().get_char(n - 1) != '\n'
            },
            _ => false,
        };
        let other_text = match other.specific {
            SpecificFragmentInfo::UnscannedText(_) => true,
            _ => false,
        };
        no_trailing_newline && other_text && self.style == other.style
    }

    /// A new fragment with the same style and inline context but new
    /// content and size; fragments are replaced, never mutated in place.
    pub fn transform(&self, size: LogicalSize, specific: SpecificFragmentInfo) -> (r: Fragment)
        ensures
            r.style == self.style,
            r.inline_nodes@ == self.inline_nodes@,
            r.border_box_size == size,
            r.specific == specific,
    {
        Fragment {
            specific,
            style: self.style,
            inline_nodes: copy_nodes(&self.inline_nodes),
            border_box_size: size,
        }
    }

    /// Absorbs the inline-context entries of the fragment that follows
    /// this one and produced no output of its own (melding).
    pub fn meld_with_next_inline_fragment(&mut self, next: &Fragment)
        ensures
            final(self).specific == old(self).specific,
            final(self).style == old(self).style,
            final(self).border_box_size == old(self).border_box_size,
            final(self).inline_nodes@ == old(self).inline_nodes@ + next.inline_nodes@,
    {
        let mut extra = copy_nodes(&next.inline_nodes);
        let n = extra.len();
        let mut i: usize = 0;
        while i < n
            invariant
                n == extra.len(),
                extra@ == next.inline_nodes@,
                i <= n,
                self.specific == old(self).specific,
                self.style == old(self).style,
                self.border_box_size == old(self).border_box_size,
                self.inline_nodes@ == old(self).inline_nodes@ + next.inline_nodes@.take(i as int),
            decreases n - i,
        {
            self.inline_nodes.push(extra[i]);
            proof {
                assert(next.inline_nodes@.take(i + 1) =~= next.inline_nodes@.take(i as int).push(
                    next.inline_nodes@[i as int],
                ));
                assert((old(self).inline_nodes@ + next.inline_nodes@.take(i as int)).push(
                    next.inline_nodes@[i as int],
                ) =~= old(self).inline_nodes@ + next.inline_nodes@.take(i + 1));
            }
            i = i + 1;
        }
        proof {
            assert(next.inline_nodes@.take(n as int) =~= next.inline_nodes@);
        }
    }

    /// Absorbs, in front, the inline-context entries of a fragment that
    /// preceded this one and produced no output of its own (melding).
    pub fn meld_with_prev_inline_fragment(&mut self, prev: &Fragment)
        ensures
            final(self).specific == old(self).specific,
            final(self).style == old(self).style,
            final(self).border_box_size == old(self).border_box_size,
            final(self).inline_nodes@ == prev.inline_nodes@ + old(self).inline_nodes@,
    {
        let mut merged = copy_nodes(&prev.inline_nodes);
        let n = self.inline_nodes.len();
        let mut i: usize = 0;
        while i < n
            invariant
                n == self.inline_nodes.len(),
                i <= n,
                self.specific == old(self).specific,
                self.style == old(self).style,
                self.border_box_size == old(self).border_box_size,
                self.inline_nodes@ == old(self).inline_nodes@,
                merged@ == prev.inline_nodes@ + old(self).inline_nodes@.take(i as int),
            decreases n - i,
        {
            merged.push(self.inline_nodes[i]);
            proof {
                assert(old(self).inline_nodes@.take(i + 1) =~= old(self).inline_nodes@.take(
                    i as int,
                ).push(old(self).inline_nodes@[i as int]));
                assert((prev.inline_nodes@ + old(self).inline_nodes@.take(i as int)).push(
                    old(self).inline_nodes@[i as int],
                ) =~= prev.inline_nodes@ + old(self).inline_nodes@.take(i + 1));
            }
            i = i + 1;
        }
        proof {
            assert(old(self).inline_nodes@.take(n as int) =~= old(self).inline_nodes@);
        }
        self.inline_nodes = merged;
    }
}

} // verus!

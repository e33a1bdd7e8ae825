//! In-progress shaping units and the mappings from fragment text into
//! them.

use vstd::prelude::*;
use vstd::string::{StrSliceExecFns, StringExecFns};
use crate::byterange::ByteRange;
use crate::chars::{byte_len, lemma_byte_len_concat};
use crate::fonts::FontKey;
use crate::script::SCRIPT_COMMON;
use crate::strutil::str_byte_len;
use crate::transform::{
    apply_style_transform_if_necessary, case_transform_spec, transform_spec, transform_text,
    CompressionMode, TextTransformCase,
};

verus! {

/// A shaping unit being accumulated: its transformed text, the font, bidi
/// level and script the unit is uniform in, and the caret offset once the
/// unit claims it (run-relative, in bytes).
pub struct RunInfo {
    pub text: String,
    pub insertion_point: Option<usize>,
    pub font: Option<FontKey>,
    pub bidi_level: u8,
    pub script: u8,
}

/// What text a flushed mapping appends to the run: the whitespace
/// transform of the raw segment, then the casing transform of that,
/// paired with the outgoing whitespace state.
pub open spec fn appended_text_spec(
    seg: Seq<char>,
    mode: CompressionMode,
    case: TextTransformCase,
    last_whitespace: bool,
    is_first_run: bool,
) -> (Seq<char>, bool) {
    let tr = transform_spec(seg, mode, last_whitespace);
    (case_transform_spec(tr.0, case, tr.1, is_first_run), tr.1)
}

/// The run as it lands on the finalized list: it claims the pending caret
/// when the caret offset falls within its text.
pub open spec fn flushed_run_spec(run: RunInfo, insertion_point: Option<usize>) -> RunInfo {
    match insertion_point {
        Some(idx) => if idx <= byte_len(run.text@) {
            RunInfo { insertion_point: Some(idx), ..run }
        } else {
            run
        },
        None => run,
    }
}

/// The caret carried past this run: decremented by the run's length when
/// the run does not claim it.
pub open spec fn carried_insertion_spec(run: RunInfo, insertion_point: Option<usize>) -> Option<
    usize,
> {
    match insertion_point {
        Some(idx) => if idx <= byte_len(run.text@) {
            None
        } else {
            Some((idx - byte_len(run.text@)) as usize)
        },
        None => None,
    }
}

impl RunInfo {
    pub fn new() -> (r: RunInfo)
        ensures
            r.text@ == Seq::<char>::empty(),
            r.insertion_point is None,
            r.font is None,
            r.bidi_level == 0,
            r.script == SCRIPT_COMMON,
    {
        RunInfo {
            text: String::new(),
            insertion_point: None,
            font: None,
            bidi_level: 0,
            script: SCRIPT_COMMON,
        }
    }

    /// Finalizes this unit onto `list`, resolving the pending caret: the
    /// caret is claimed by this run if its offset lies within the run's
    /// text, else it is carried on, shortened by the run's length.
    pub fn flush(self, list: &mut Vec<RunInfo>, insertion_point: &mut Option<usize>)
        ensures
            final(list)@ == old(list)@.push(flushed_run_spec(self, *old(insertion_point))),
            *final(insertion_point) == carried_insertion_spec(self, *old(insertion_point)),
            0 <= byte_len(self.text@) <= usize::MAX,
    {
        let mut this = self;
        proof {
            crate::chars::lemma_byte_len_bounds(this.text@);
        }
        let char_len = str_byte_len(this.text.as_str());
        match *insertion_point {
            Some(idx) => {
                if idx <= char_len {
                    this.insertion_point = Some(idx);
                    *insertion_point = None;
                } else {
                    *insertion_point = Some(idx - char_len);
                }
            },
            None => {
                *insertion_point = None;
            },
        }
        list.push(this);
    }

    /// Does this unit already use the same font (same face and size)?
    pub fn has_font(&self, font: &Option<FontKey>) -> (r: bool)
        ensures
            r == (self.font == *font),
    {
        match (&self.font, font) {
            (Some(a), Some(b)) => a.identifier == b.identifier && a.pt_size == b.pt_size,
            (None, None) => true,
            _ => false,
        }
    }
}

/// Every recorded mapping's byte range stays within the address space:
/// its bounds come from real string lengths.
pub open spec fn mappings_bounded(maps: Seq<RunMapping>) -> bool {
    forall|j: int|
        0 <= j < maps.len() ==> (#[trigger] maps[j]).byte_range.begin + maps[j].byte_range.length
            <= usize::MAX
}

/// A link from a byte range of a finalized run back to the fragment the
/// text came from, with the selection bit for that span.
#[derive(Clone, Copy, Debug, Eq, PartialEq, Structural)]
pub struct RunMapping {
    pub byte_range: ByteRange,
    pub old_fragment_index: usize,
    pub text_run_index: usize,
    pub selected: bool,
}

impl RunMapping {
    /// A mapping for the next span of `fragment_index`, destined for the
    /// run that will be finalized next.
    pub fn new(run_info_list: &Vec<RunInfo>, fragment_index: usize) -> (r: RunMapping)
        ensures
            r.byte_range == (ByteRange { begin: 0, length: 0 }),
            r.old_fragment_index == fragment_index,
            r.text_run_index == run_info_list@.len(),
            r.selected == false,
    {
        RunMapping {
            byte_range: ByteRange { begin: 0, length: 0 },
            old_fragment_index: fragment_index,
            text_run_index: run_info_list.len(),
            selected: false,
        }
    }

    /// Transforms the segment `text[*start_position..end_position]`
    /// (character positions), appends the result to the run, and records
    /// the mapping, unless the segment was non-empty but transformed to
    /// nothing; a mapping that was empty to begin with is kept, since it
    /// may carry an empty fragment's borders or caret.
    pub fn flush(
        self,
        mappings: &mut Vec<RunMapping>,
        run_info: &mut RunInfo,
        text: &str,
        compression: CompressionMode,
        text_transform: TextTransformCase,
        last_whitespace: &mut bool,
        start_position: &mut usize,
        end_position: usize,
    )
        requires
            *old(start_position) <= end_position <= text@.len(),
        ensures
            ({
                let seg = text@.subrange(*old(start_position) as int, end_position as int);
                let ap = appended_text_spec(
                    seg,
                    compression,
                    text_transform,
                    *old(last_whitespace),
                    *old(start_position) == 0,
                );
                &&& final(run_info).text@ == old(run_info).text@ + ap.0
                &&& final(run_info).insertion_point == old(run_info).insertion_point
                &&& final(run_info).font == old(run_info).font
                &&& final(run_info).bidi_level == old(run_info).bidi_level
                &&& final(run_info).script == old(run_info).script
                &&& *final(last_whitespace) == ap.1
                &&& *final(start_position) == end_position
                &&& 0 <= byte_len(old(run_info).text@)
                &&& byte_len(old(run_info).text@) + byte_len(ap.0) <= usize::MAX
                &&& 0 <= byte_len(ap.0)
                &&& (mappings_bounded(old(mappings)@) ==> mappings_bounded(final(mappings)@))
                &&& final(mappings)@ == (if ap.0.len() == 0 && *old(start_position)
                    != end_position {
                    old(mappings)@
                } else {
                    old(mappings)@.push(
                        RunMapping {
                            byte_range: ByteRange {
                                begin: byte_len(old(run_info).text@) as usize,
                                length: byte_len(ap.0) as usize,
                            },
                            ..self
                        },
                    )
                })
            }),
    {
        let mut this = self;
        proof {
            crate::chars::lemma_byte_len_bounds(old(run_info).text@);
        }
        let was_empty = *start_position == end_position;
        let old_byte_length = str_byte_len(run_info.text.as_str());
        let seg = text.substring_char(*start_position, end_position);
        let mut appended = String::new();
        let out_ws = transform_text(seg, compression, *last_whitespace, &mut appended);
        proof {
            assert(Seq::<char>::empty() + transform_spec(seg@, compression, *old(last_whitespace)).0
                =~= transform_spec(seg@, compression, *old(last_whitespace)).0);
        }
        *last_whitespace = out_ws;
        let is_first_run = *start_position == 0;
        apply_style_transform_if_necessary(&mut appended, text_transform, out_ws, is_first_run);
        *start_position = end_position;
        run_info.text.append(appended.as_str());
        proof {
            lemma_byte_len_concat(old(run_info).text@, appended@);
        }
        let new_byte_length = str_byte_len(run_info.text.as_str());
        proof {
            let seg_s = text@.subrange(*old(start_position) as int, end_position as int);
            let ap0 = appended_text_spec(
                seg_s,
                compression,
                text_transform,
                *old(last_whitespace),
                *old(start_position) == 0,
            );
            crate::chars::lemma_byte_len_bounds(ap0.0);
        }
        let is_empty = new_byte_length == old_byte_length;
        if is_empty && !was_empty {
            proof {
                let seg_s = text@.subrange(*old(start_position) as int, end_position as int);
                let ap = appended_text_spec(
                    seg_s,
                    compression,
                    text_transform,
                    *old(last_whitespace),
                    *old(start_position) == 0,
                );
                crate::chars::lemma_byte_len_bounds(ap.0);
            }
            return ;
        }
        proof {
            let seg_s = text@.subrange(*old(start_position) as int, end_position as int);
            let ap = appended_text_spec(
                seg_s,
                compression,
                text_transform,
                *old(last_whitespace),
                *old(start_position) == 0,
            );
            crate::chars::lemma_byte_len_bounds(ap.0);
        }
        this.byte_range = ByteRange { begin: old_byte_length, length: new_byte_length
            - old_byte_length };
        proof {
            assert(this.byte_range.begin + this.byte_range.length <= usize::MAX);
            if mappings_bounded(old(mappings)@) {
                assert(forall|j: int|
                    0 <= j < old(mappings)@.len() ==> old(mappings)@.push(this)[j] == old(
                        mappings,
                    )@[j]);
                assert(mappings_bounded(old(mappings)@.push(this)));
            }
        }
        mappings.push(this);
    }

    /// Is the run's caret inside this mapping? The claim is half-open,
    /// so adjacent mappings of one run never both claim the boundary
    /// offset they share: only the run's last mapping also claims the
    /// offset just past its final byte (the caret may sit after the last
    /// character, and is drawn even when the span is empty).
    pub fn contains_insertion_point(&self, insertion_point: Option<usize>, last_of_run: bool) -> (r:
        bool)
        requires
            self.byte_range.wf(),
        ensures
            r == match insertion_point {
                None => false,
                Some(idx) => self.byte_range.begin <= idx && (idx < self.byte_range.end_spec() || (
                last_of_run && idx == self.byte_range.end_spec())),
            },
    {
        match insertion_point {
            None => false,
            Some(idx) => self.byte_range.begin() <= idx && (idx < self.byte_range.end() || (
            last_of_run && idx == self.byte_range.end())),
        }
    }
}

} // verus!

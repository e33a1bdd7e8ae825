//! The run scanner: walks a clump's transformed text character by
//! character, splits it into shaping units at font, bidi-level and script
//! boundaries, and records the mapping from every unit byte back to the
//! fragment it came from.
//!
//! The whole scan is specified by a fold: `scan_char_v` is the exact
//! per-character transition on the ghost scan state, `scan_chars_v` /
//! `scan_frag_v` / `scan_clump_v` fold it over a fragment's characters and
//! a clump's fragments, and the executable scanner is proved to compute
//! precisely that fold.

use vstd::prelude::*;
use vstd::string::StringExecFns;
use crate::byterange::ByteRange;
use crate::chars::{byte_len, is_control_char, char_is_control};
use crate::strutil::{str_byte_len, str_chars};
use crate::fonts::{FontContext, FontGroup, FontKey};
use crate::fragment::{Fragment, SpecificFragmentInfo};
use crate::run::{appended_text_spec, RunInfo, RunMapping};
use crate::script::{is_compatible_spec, is_specific_spec, script_code_of, SCRIPT_COMMON};
use crate::style::{base_options_of, base_shaping_options, compression_from_style, compression_of, run_options_of, ShapingOptions};
use crate::transform::{CompressionMode, TextTransformCase};

verus! {

/// Ghost mirror of a `RunInfo`.
pub ghost struct RunInfoV {
    pub text: Seq<char>,
    pub insertion: Option<int>,
    pub font: Option<FontKey>,
    pub level: u8,
    pub script: u8,
}

/// Ghost mirror of a `RunMapping`, with exact integer arithmetic.
pub ghost struct MapV {
    pub begin: int,
    pub length: int,
    pub frag: int,
    pub run: int,
    pub selected: bool,
}

/// The scan state: finalized runs and mappings, the unit and mapping
/// being accumulated, the pending caret, the carried whitespace state and
/// the current segment start (a character position in the current
/// fragment).
pub ghost struct ScanV {
    pub runs: Seq<RunInfoV>,
    pub maps: Seq<MapV>,
    pub run: RunInfoV,
    pub map: MapV,
    pub insertion: Option<int>,
    pub last_ws: bool,
    pub seg_start: int,
}

pub open spec fn opt_int(o: Option<usize>) -> Option<int> {
    match o {
        Some(x) => Some(x as int),
        None => None,
    }
}

pub open spec fn run_view(r: RunInfo) -> RunInfoV {
    RunInfoV {
        text: r.text@,
        insertion: opt_int(r.insertion_point),
        font: r.font,
        level: r.bidi_level,
        script: r.script,
    }
}

pub open spec fn map_view(m: RunMapping) -> MapV {
    MapV {
        begin: m.byte_range.begin as int,
        length: m.byte_range.length as int,
        frag: m.old_fragment_index as int,
        run: m.text_run_index as int,
        selected: m.selected,
    }
}

pub open spec fn runs_view(l: Seq<RunInfo>) -> Seq<RunInfoV> {
    Seq::new(l.len(), |i: int| run_view(l[i]))
}

pub open spec fn maps_view(l: Seq<RunMapping>) -> Seq<MapV> {
    Seq::new(l.len(), |i: int| map_view(l[i]))
}

pub open spec fn fresh_run_v() -> RunInfoV {
    RunInfoV {
        text: Seq::empty(),
        insertion: None,
        font: None,
        level: 0,
        script: SCRIPT_COMMON,
    }
}

/// Flushing the pending mapping: transform the raw segment that ends at
/// character position `end`, append it to the unit, and record the
/// mapping unless the segment was non-empty but transformed to nothing.
pub open spec fn map_flush_v(
    v: ScanV,
    text: Seq<char>,
    end: int,
    mode: CompressionMode,
    case: TextTransformCase,
) -> ScanV {
    let seg = text.subrange(v.seg_start, end);
    let ap = appended_text_spec(seg, mode, case, v.last_ws, v.seg_start == 0);
    let dropped = ap.0.len() == 0 && v.seg_start != end;
    ScanV {
        run: RunInfoV { text: v.run.text + ap.0, ..v.run },
        last_ws: ap.1,
        seg_start: end,
        maps: if dropped {
            v.maps
        } else {
            v.maps.push(
                MapV {
                    begin: byte_len(v.run.text),
                    length: byte_len(ap.0),
                    frag: v.map.frag,
                    run: v.map.run,
                    selected: v.map.selected,
                },
            )
        },
        ..v
    }
}

/// Finalizing the accumulated unit: it claims the pending caret when the
/// caret offset lies within its text, else the caret is carried on,
/// shortened by the unit's byte length; a fresh unit is started.
pub open spec fn run_flush_v(v: ScanV) -> ScanV {
    let len = byte_len(v.run.text);
    let claims = match v.insertion {
        Some(idx) => idx <= len,
        None => false,
    };
    ScanV {
        runs: v.runs.push(
            RunInfoV {
                insertion: if claims {
                    v.insertion
                } else {
                    v.run.insertion
                },
                ..v.run
            },
        ),
        insertion: match v.insertion {
            Some(idx) => if idx <= len {
                None
            } else {
                Some(idx - len)
            },
            None => None,
        },
        run: fresh_run_v(),
        ..v
    }
}

/// What the scanner reads of one character: classification is skipped for
/// control characters.
pub ghost struct CharInfoV {
    pub ctl: bool,
    pub font: Option<FontKey>,
    pub level: u8,
    pub script: u8,
    pub selected: bool,
}

/// The exact per-character transition. A split is forced when the font,
/// level or script compatibility breaks; a selection change forces only a
/// mapping flush. A non-specific unit script adopts the character's
/// specific script without a split.
pub open spec fn scan_char_rest_v(
    v0: ScanV,
    text: Seq<char>,
    j: int,
    info: CharInfoV,
    flush_run: bool,
    mode: CompressionMode,
    case: TextTransformCase,
) -> ScanV {
    let v1 = if j > 0 {
        map_flush_v(v0, text, j, mode, case)
    } else {
        v0
    };
    let v2 = if v1.run.text.len() > 0 {
        let v1b = if flush_run {
            run_flush_v(v1)
        } else {
            v1
        };
        ScanV {
            map: MapV {
                begin: 0,
                length: 0,
                frag: v0.map.frag,
                run: v1b.runs.len() as int,
                selected: false,
            },
            ..v1b
        }
    } else {
        v1
    };
    ScanV {
        run: RunInfoV { font: info.font, level: info.level, script: info.script, ..v2.run },
        map: MapV { selected: info.selected, ..v2.map },
        ..v2
    }
}

pub open spec fn scan_char_v(
    v: ScanV,
    text: Seq<char>,
    j: int,
    info: CharInfoV,
    mode: CompressionMode,
    case: TextTransformCase,
) -> ScanV {
    if info.ctl {
        v
    } else {
        let compatible = is_compatible_spec(info.script, v.run.script);
        let v0 = if compatible && !is_specific_spec(v.run.script) && is_specific_spec(info.script) {
            ScanV { run: RunInfoV { script: info.script, ..v.run }, ..v }
        } else {
            v
        };
        let flush_run = !(v0.run.font == info.font) || v0.run.level != info.level || !compatible;
        let new_mapping = flush_run || v0.map.selected != info.selected;
        if new_mapping {
            scan_char_rest_v(v0, text, j, info, flush_run, mode, case)
        } else {
            v0
        }
    }
}

pub open spec fn levels_view(levels: Option<Vec<u8>>) -> Option<Seq<u8>> {
    match levels {
        Some(v) => Some(v@),
        None => None,
    }
}

/// What the scanner reads of character `j` of a fragment whose text
/// starts at paragraph byte offset `para_start`.
pub open spec fn char_info_at(
    text: Seq<char>,
    j: int,
    para_start: int,
    levels: Option<Seq<u8>>,
    fg: FontGroup,
    sel: Option<ByteRange>,
) -> CharInfoV {
    let c = text[j];
    let ctl = is_control_char(c);
    let boff = byte_len(text.take(j));
    CharInfoV {
        ctl,
        font: if ctl {
            None
        } else {
            fg.find_spec(c)
        },
        level: if ctl {
            0
        } else {
            match levels {
                Some(ls) => ls[para_start + boff],
                None => 0,
            }
        },
        script: if ctl {
            SCRIPT_COMMON
        } else {
            script_code_of(c)
        },
        selected: if ctl {
            false
        } else {
            match sel {
                Some(r) => r.contains_spec(boff),
                None => false,
            }
        },
    }
}

/// The fold of `scan_char_v` over the first `n` characters of a fragment.
pub open spec fn scan_chars_v(
    v: ScanV,
    text: Seq<char>,
    n: int,
    para_start: int,
    levels: Option<Seq<u8>>,
    fg: FontGroup,
    sel: Option<ByteRange>,
    mode: CompressionMode,
    case: TextTransformCase,
) -> ScanV
    decreases n,
{
    if n <= 0 {
        v
    } else {
        scan_char_v(
            scan_chars_v(v, text, n - 1, para_start, levels, fg, sel, mode, case),
            text,
            n - 1,
            char_info_at(text, n - 1, para_start, levels, fg, sel),
            mode,
            case,
        )
    }
}

/// Starting a fragment: a fresh pending mapping for it, a fresh segment,
/// and the caret derived from an empty selection range, offset by the
/// unit text accumulated so far.
pub open spec fn frag_init_v(v: ScanV, frag: int, sel: Option<ByteRange>) -> ScanV {
    ScanV {
        map: MapV { begin: 0, length: 0, frag, run: v.runs.len() as int, selected: false },
        seg_start: 0,
        insertion: match sel {
            Some(r) => if r.length == 0 {
                Some(r.begin + byte_len(v.run.text))
            } else {
                None
            },
            None => None,
        },
        ..v
    }
}

pub open spec fn frag_text(f: Fragment) -> Seq<char> {
    match f.specific {
        SpecificFragmentInfo::UnscannedText(u) => u.text@,
        _ => Seq::empty(),
    }
}

pub open spec fn frag_sel(f: Fragment) -> Option<ByteRange> {
    match f.specific {
        SpecificFragmentInfo::UnscannedText(u) => u.selection,
        _ => None,
    }
}

/// One whole fragment: init, fold over its characters, final mapping
/// flush.
pub open spec fn scan_frag_v(
    v: ScanV,
    frag: int,
    text: Seq<char>,
    sel: Option<ByteRange>,
    para_start: int,
    levels: Option<Seq<u8>>,
    fg: FontGroup,
    mode: CompressionMode,
    case: TextTransformCase,
) -> ScanV {
    map_flush_v(
        scan_chars_v(
            frag_init_v(v, frag, sel),
            text,
            text.len() as int,
            para_start,
            levels,
            fg,
            sel,
            mode,
            case,
        ),
        text,
        text.len() as int,
        mode,
        case,
    )
}

/// Paragraph bytes contributed by the first `i` fragments of the clump.
pub open spec fn clump_bytes_before(frags: Seq<Fragment>, i: int) -> int
    decreases i,
{
    if i <= 0 {
        0
    } else {
        clump_bytes_before(frags, i - 1) + byte_len(frag_text(frags[i - 1]))
    }
}

/// The fold of `scan_frag_v` over the first `i` fragments of the clump.
pub open spec fn scan_clump_v(
    v: ScanV,
    frags: Seq<Fragment>,
    i: int,
    para0: int,
    levels: Option<Seq<u8>>,
    fg: FontGroup,
    mode: CompressionMode,
    case: TextTransformCase,
) -> ScanV
    decreases i,
{
    if i <= 0 {
        v
    } else {
        scan_frag_v(
            scan_clump_v(v, frags, i - 1, para0, levels, fg, mode, case),
            i - 1,
            frag_text(frags[i - 1]),
            frag_sel(frags[i - 1]),
            para0 + clump_bytes_before(frags, i - 1),
            levels,
            fg,
            mode,
            case,
        )
    }
}

/// The scan state a clump starts from.
pub open spec fn init_scan_v(last_ws: bool) -> ScanV {
    ScanV {
        runs: Seq::empty(),
        maps: Seq::empty(),
        run: fresh_run_v(),
        map: MapV { begin: 0, length: 0, frag: 0, run: 0, selected: false },
        insertion: None,
        last_ws,
        seg_start: 0,
    }
}

/// The full scan of one clump: every fragment, then the unconditional
/// final unit flush (an empty unit can still carry the caret of an
/// otherwise empty fragment).
pub open spec fn scan_clump_full_v(
    init: ScanV,
    frags: Seq<Fragment>,
    para0: int,
    levels: Option<Seq<u8>>,
    fg: FontGroup,
    mode: CompressionMode,
    case: TextTransformCase,
) -> ScanV {
    run_flush_v(scan_clump_v(init, frags, frags.len() as int, para0, levels, fg, mode, case))
}


/// The executable scanner's accumulator: the locals of one clump flush.
pub struct ScanAcc {
    pub run_info_list: Vec<RunInfo>,
    pub mappings: Vec<RunMapping>,
    pub run_info: RunInfo,
    pub mapping: RunMapping,
    pub insertion_point: Option<usize>,
    pub last_ws: bool,
    pub start_position: usize,
}

impl ScanAcc {
    /// The ghost scan state these locals denote.
    pub open spec fn view(&self) -> ScanV {
        ScanV {
            runs: runs_view(self.run_info_list@),
            maps: maps_view(self.mappings@),
            run: run_view(self.run_info),
            map: map_view(self.mapping),
            insertion: opt_int(self.insertion_point),
            last_ws: self.last_ws,
            seg_start: self.start_position as int,
        }
    }
}

pub open spec fn step_info(font: Option<FontKey>, level: u8, script: u8, selected: bool) -> CharInfoV {
    CharInfoV { ctl: false, font, level, script, selected }
}

pub proof fn lemma_runs_view_push(l: Seq<RunInfo>, x: RunInfo)
    ensures
        runs_view(l.push(x)) == runs_view(l).push(run_view(x)),
{
    assert(runs_view(l.push(x)) =~= runs_view(l).push(run_view(x)));
}

pub proof fn lemma_maps_view_push(l: Seq<RunMapping>, x: RunMapping)
    ensures
        maps_view(l.push(x)) == maps_view(l).push(map_view(x)),
{
    assert(maps_view(l.push(x)) =~= maps_view(l).push(map_view(x)));
}

/// The flush-and-restart part of one character, exactly
/// `scan_char_rest_v`.
#[verifier::spinoff_prover]
#[verifier::rlimit(100)]
fn scan_char_apply(
    acc: &mut ScanAcc,
    text: &str,
    j: usize,
    font: Option<FontKey>,
    level: u8,
    script: u8,
    selected: bool,
    flush_run: bool,
    compression: CompressionMode,
    case: TextTransformCase,
)
    requires
        old(acc).start_position <= j && j as int <= text@.len(),
    ensures
        final(acc).view() == scan_char_rest_v(
            old(acc).view(),
            text@,
            j as int,
            step_info(font, level, script, selected),
            flush_run,
            compression,
            case,
        ),
        final(acc).start_position == old(acc).start_position || final(acc).start_position == j,
        crate::run::mappings_bounded(old(acc).mappings@) ==> crate::run::mappings_bounded(
            final(acc).mappings@,
        ),
{
    let ghost v0 = acc.view();
    let ghost info = step_info(font, level, script, selected);
    if j > 0 {
        mapping_flush_step(acc, text, j, compression, case);
    }
    let ghost v1 = if j > 0 {
        map_flush_v(v0, text@, j as int, compression, case)
    } else {
        v0
    };
    proof {
        assert(acc.view() == v1);
    }
    if !acc.run_info.text.as_str().is_empty() {
        if flush_run {
            let mut fresh = RunInfo::new();
            core::mem::swap(&mut acc.run_info, &mut fresh);
            fresh.flush(&mut acc.run_info_list, &mut acc.insertion_point);
            proof {
                lemma_runs_view_push(
                    old(acc).run_info_list@,
                    acc.run_info_list@[acc.run_info_list@.len() - 1],
                );
                assert(runs_view(acc.run_info_list@) =~= run_flush_v(v1).runs);
                assert(opt_int(acc.insertion_point) == run_flush_v(v1).insertion);
                assert(run_view(acc.run_info) == fresh_run_v());
            }
        }
        let frag_index = acc.mapping.old_fragment_index;
        acc.mapping = RunMapping::new(&acc.run_info_list, frag_index);
    }
    acc.run_info.font = font;
    acc.run_info.bidi_level = level;
    acc.run_info.script = script;
    acc.mapping.selected = selected;
    proof {
        let v2 = if v1.run.text.len() > 0 {
            let v1b = if flush_run {
                run_flush_v(v1)
            } else {
                v1
            };
            ScanV {
                map: MapV {
                    begin: 0,
                    length: 0,
                    frag: v0.map.frag,
                    run: v1b.runs.len() as int,
                    selected: false,
                },
                ..v1b
            }
        } else {
            v1
        };
        crate::chars::lemma_byte_len_bounds(v1.run.text);
        assert(runs_view(acc.run_info_list@) =~= v2.runs);
        assert(maps_view(acc.mappings@) =~= v2.maps);
        assert(acc.mapping.byte_range.begin as int == v2.map.begin);
        assert(acc.mapping.byte_range.length as int == v2.map.length);
        assert(acc.mapping.old_fragment_index as int == v2.map.frag);
        assert(acc.mapping.text_run_index as int == v2.map.run);
        assert(acc.mapping.selected == info.selected);
        assert(map_view(acc.mapping) == MapV { selected: info.selected, ..v2.map });
        assert(run_view(acc.run_info) == RunInfoV {
            font: info.font,
            level: info.level,
            script: info.script,
            ..v2.run
        });
        assert(opt_int(acc.insertion_point) == v2.insertion);
    }
}

/// One non-control character of the scan, exactly `scan_char_v`.
#[verifier::spinoff_prover]
fn scan_char_step(
    acc: &mut ScanAcc,
    text: &str,
    j: usize,
    font: Option<FontKey>,
    level: u8,
    script: u8,
    selected: bool,
    compression: CompressionMode,
    case: TextTransformCase,
)
    requires
        old(acc).start_position <= j && j as int <= text@.len(),
    ensures
        final(acc).view() == scan_char_v(
            old(acc).view(),
            text@,
            j as int,
            step_info(font, level, script, selected),
            compression,
            case,
        ),
        final(acc).start_position == old(acc).start_position || final(acc).start_position == j,
        crate::run::mappings_bounded(old(acc).mappings@) ==> crate::run::mappings_bounded(
            final(acc).mappings@,
        ),
{
    let ghost v = acc.view();
    let ghost info = step_info(font, level, script, selected);
    let compatible = crate::script::is_compatible(script, acc.run_info.script);
    if compatible && !crate::script::is_specific(acc.run_info.script) && crate::script::is_specific(
        script,
    ) {
        acc.run_info.script = script;
    }
    let ghost v0 = if is_compatible_spec(info.script, v.run.script) && !is_specific_spec(
        v.run.script,
    ) && is_specific_spec(info.script) {
        ScanV { run: RunInfoV { script: info.script, ..v.run }, ..v }
    } else {
        v
    };
    proof {
        assert(acc.view() == v0);
    }
    let flush_run = !acc.run_info.has_font(&font) || acc.run_info.bidi_level != level
        || !compatible;
    let new_mapping = flush_run || acc.mapping.selected != selected;
    if new_mapping {
        scan_char_apply(acc, text, j, font, level, script, selected, flush_run, compression, case);
    }
}


/// Flushes the pending mapping at character position `end`, exactly
/// `map_flush_v`.
fn mapping_flush_step(
    acc: &mut ScanAcc,
    text: &str,
    end: usize,
    compression: CompressionMode,
    case: TextTransformCase,
)
    requires
        old(acc).start_position <= end && end as int <= text@.len(),
    ensures
        final(acc).view() == map_flush_v(old(acc).view(), text@, end as int, compression, case),
        final(acc).start_position == end,
        crate::run::mappings_bounded(old(acc).mappings@) ==> crate::run::mappings_bounded(
            final(acc).mappings@,
        ),
{
    let ghost v0 = acc.view();
    let m = acc.mapping;
    m.flush(
        &mut acc.mappings,
        &mut acc.run_info,
        text,
        compression,
        case,
        &mut acc.last_ws,
        &mut acc.start_position,
        end,
    );
    proof {
        let mf = map_flush_v(v0, text@, end as int, compression, case);
        let seg = text@.subrange(v0.seg_start, end as int);
        let ap = appended_text_spec(seg, compression, case, v0.last_ws, v0.seg_start == 0);
        crate::chars::lemma_byte_len_bounds(v0.run.text);
        crate::chars::lemma_byte_len_bounds(ap.0);
        if !(mf.maps == v0.maps) {
            lemma_maps_view_push(old(acc).mappings@, acc.mappings@[acc.mappings@.len() - 1]);
        }
        assert(maps_view(acc.mappings@) =~= mf.maps);
        assert(run_view(acc.run_info) == mf.run);
    }
}

/// Finalizes the accumulated unit, exactly `run_flush_v`.
fn run_flush_step(acc: &mut ScanAcc)
    ensures
        final(acc).view() == run_flush_v(old(acc).view()),
        final(acc).mappings == old(acc).mappings,
{
    let ghost v = acc.view();
    let mut fresh = RunInfo::new();
    core::mem::swap(&mut acc.run_info, &mut fresh);
    fresh.flush(&mut acc.run_info_list, &mut acc.insertion_point);
    proof {
        crate::chars::lemma_byte_len_bounds(v.run.text);
        lemma_runs_view_push(old(acc).run_info_list@, acc.run_info_list@[acc.run_info_list@.len() - 1]);
        assert(runs_view(acc.run_info_list@) =~= run_flush_v(v).runs);
        assert(run_view(acc.run_info) == fresh_run_v());
    }
}

/// What a fragment scan needs: a selection inside the text, and room in
/// the level array and the byte cursor for the fragment's bytes.
pub open spec fn frag_pre(
    sel: Option<ByteRange>,
    text: Seq<char>,
    pbp: int,
    levels: Option<Seq<u8>>,
) -> bool {
    &&& (match sel {
        Some(r) => r.begin + r.length <= byte_len(text),
        None => true,
    })
    &&& (match levels {
        Some(ls) => pbp + byte_len(text) <= ls.len(),
        None => true,
    })
    &&& pbp + byte_len(text) <= usize::MAX
}

/// The fragment loop's induction hypothesis: the locals denote the fold
/// of the first `j` characters, and the byte cursors track the prefix.
pub open spec fn frag_loop_inv(
    acc: ScanAcc,
    v0: ScanV,
    text: Seq<char>,
    j: int,
    boff: int,
    pbp: int,
    para_start: int,
    levels: Option<Seq<u8>>,
    fg: FontGroup,
    sel: Option<ByteRange>,
    mode: CompressionMode,
    case: TextTransformCase,
) -> bool {
    &&& acc.view() == scan_chars_v(v0, text, j, para_start, levels, fg, sel, mode, case)
    &&& acc.start_position <= j
    &&& boff == byte_len(text.take(j))
    &&& pbp == para_start + boff
    &&& frag_pre(sel, text, para_start, levels)
    &&& byte_len(text) <= isize::MAX as usize
}

/// Scans one fragment of the clump: starts its pending mapping and caret,
/// folds the per-character step over its text, and flushes the last
/// segment; exactly `scan_frag_v`. Advances the paragraph byte cursor by
/// the fragment's byte length.
#[verifier::rlimit(60)]
fn scan_fragment(
    acc: &mut ScanAcc,
    frag_index: usize,
    text: &str,
    sel: Option<ByteRange>,
    font_group: &FontGroup,
    bidi_levels: &Option<Vec<u8>>,
    paragraph_bytes_processed: &mut usize,
    compression: CompressionMode,
    case: TextTransformCase,
)
    requires
        frag_pre(
            sel,
            text@,
            *old(paragraph_bytes_processed) as int,
            levels_view(*bidi_levels),
        ),
    ensures
        final(acc).view() == scan_frag_v(
            old(acc).view(),
            frag_index as int,
            text@,
            sel,
            *old(paragraph_bytes_processed) as int,
            levels_view(*bidi_levels),
            *font_group,
            compression,
            case,
        ),
        *final(paragraph_bytes_processed) == *old(paragraph_bytes_processed) + byte_len(text@),
        crate::run::mappings_bounded(old(acc).mappings@) ==> crate::run::mappings_bounded(
            final(acc).mappings@,
        ),
{
    let ghost para_start = *paragraph_bytes_processed as int;
    let ghost levels_g = levels_view(*bidi_levels);
    let text_bytes = str_byte_len(text);
    let run_len = str_byte_len(acc.run_info.text.as_str());
    acc.mapping = RunMapping::new(&acc.run_info_list, frag_index);
    acc.start_position = 0;
    acc.insertion_point = match sel {
        Some(r) => if r.is_empty() {
            Some(r.begin() + run_len)
        } else {
            None
        },
        None => None,
    };
    let ghost v0 = frag_init_v(old(acc).view(), frag_index as int, sel);
    proof {
        assert(acc.view() == v0);
    }
    let chars = str_chars(text);
    let n = chars.len();
    let mut j: usize = 0;
    let mut boff: usize = 0;
    while j < n
        invariant
            n == text@.len(),
            chars@ == text@,
            j <= n,
            frag_loop_inv(
                *acc,
                v0,
                text@,
                j as int,
                boff as int,
                *paragraph_bytes_processed as int,
                para_start,
                levels_g,
                *font_group,
                sel,
                compression,
                case,
            ),
            levels_g == levels_view(*bidi_levels),
            crate::run::mappings_bounded(old(acc).mappings@) ==> crate::run::mappings_bounded(
                acc.mappings@,
            ),
        decreases n - j,
    {
        let c = chars[j];
        proof {
            crate::chars::lemma_byte_len_split(text@, j as int);
            assert(text@.take(j + 1) =~= text@.take(j as int).push(text@[j as int]));
            crate::chars::lemma_byte_len_push(text@.take(j as int), text@[j as int]);
            crate::chars::lemma_byte_len_split(text@, j + 1);
        }
        let ghost info = char_info_at(text@, j as int, para_start, levels_g, *font_group, sel);
        if char_is_control(c) {
            proof {
                assert(info.ctl);
                assert(scan_chars_v(
                    v0,
                    text@,
                    j + 1,
                    para_start,
                    levels_g,
                    *font_group,
                    sel,
                    compression,
                    case,
                ) == acc.view());
            }
        } else {
            let font = font_group.find_by_codepoint(c);
            let level: u8 = match bidi_levels {
                Some(ls) => ls[*paragraph_bytes_processed],
                None => 0,
            };
            let script = crate::script::script_lookup(c);
            let selected = match sel {
                Some(r) => r.contains(boff),
                None => false,
            };
            proof {
                assert(info == step_info(font, level, script, selected));
            }
            scan_char_step(acc, text, j, font, level, script, selected, compression, case);
        }
        let w = crate::chars::char_len_utf8(c);
        boff = boff + w;
        *paragraph_bytes_processed = *paragraph_bytes_processed + w;
        j = j + 1;
    }
    proof {
        assert(text@.take(n as int) =~= text@);
    }
    mapping_flush_step(acc, text, n, compression, case);
}

pub proof fn lemma_clump_bytes_mono(frags: Seq<Fragment>, i: int, k: int)
    requires
        0 <= i <= k <= frags.len(),
    ensures
        0 <= clump_bytes_before(frags, i) <= clump_bytes_before(frags, k),
    decreases k,
{
    if k > 0 {
        crate::chars::lemma_byte_len_bounds(frag_text(frags[k - 1]));
        if i <= k - 1 {
            lemma_clump_bytes_mono(frags, i, k - 1);
        } else {
            lemma_clump_bytes_mono(frags, 0, k - 1);
        }
    }
}

/// A scanning pass object; the clump buffer is owned by the scanner for
/// the duration of one flush and emptied by it.
pub struct TextRunScanner {
    pub clump: Vec<Fragment>,
}

/// One finalized unit, ready for the shaping backend: its text, the font
/// (after last-resort fallback; `None` means the unit cannot be shaped
/// and its mappings are dropped), its level and script, the claimed
/// caret, and the derived shaping options.
pub struct RunRequest {
    pub text: String,
    pub font: Option<FontKey>,
    pub bidi_level: u8,
    pub script: u8,
    pub insertion_point: Option<usize>,
    pub options: ShapingOptions,
}

/// `req` presents run `rv` for shaping: same text, caret and
/// classification, the last-resort fallback applied to the font, and the
/// per-run options derived from the clump's base options.
pub open spec fn run_request_ok(
    req: RunRequest,
    rv: RunInfoV,
    base: ShapingOptions,
    fg: FontGroup,
) -> bool {
    &&& req.text@ == rv.text
    &&& opt_int(req.insertion_point) == rv.insertion
    &&& req.bidi_level == rv.level
    &&& req.script == rv.script
    &&& req.font == (if rv.font is Some {
        rv.font
    } else {
        fg.first_spec()
    })
    &&& req.options == run_options_of(base, rv.script, rv.level)
}

/// The scan of one clump: the fragments consumed, the units to shape and
/// the mappings back onto the fragments. A non-text clump has exactly one
/// fragment, which passes through unscanned.
pub struct ClumpScan {
    pub fragments: Vec<Fragment>,
    pub runs: Vec<RunRequest>,
    pub mappings: Vec<RunMapping>,
    pub is_text: bool,
}

pub open spec fn clump_scan_ok(r: ClumpScan, fin: ScanV, base: ShapingOptions, fg: FontGroup) -> bool {
    &&& r.runs@.len() == fin.runs.len()
    &&& (forall|i: int|
        0 <= i < fin.runs.len() ==> run_request_ok(#[trigger] r.runs@[i], fin.runs[i], base, fg))
    &&& maps_view(r.mappings@) == fin.maps
}

/// What a clump flush needs of its clump and the paragraph state.
pub open spec fn clump_flush_pre(clump: Seq<Fragment>, pbp: int, levels: Option<Seq<u8>>) -> bool {
    &&& clump.len() > 0
    &&& (!(clump[0].specific is UnscannedText) ==> clump.len() == 1)
    &&& (clump[0].specific is UnscannedText ==> (forall|i: int|
        0 <= i < clump.len() ==> (#[trigger] clump[i]).specific is UnscannedText && clump[i].wf()))
    &&& (clump[0].specific is UnscannedText ==> (match levels {
        Some(ls) => pbp + clump_bytes_before(clump, clump.len() as int) <= ls.len(),
        None => true,
    }))
    &&& (clump[0].specific is UnscannedText ==> pbp + clump_bytes_before(
        clump,
        clump.len() as int,
    ) <= usize::MAX && pbp >= 0)
}

/// What a clump flush returns: for a text clump, exactly the fold of the
/// scan over the clump with shaping options derived from its front
/// style; a non-text clump passes through with the whitespace state
/// reset.
pub open spec fn clump_flush_post(
    r: ClumpScan,
    out_ws: bool,
    new_pbp: int,
    clump: Seq<Fragment>,
    pbp0: int,
    last_ws0: bool,
    levels: Option<Seq<u8>>,
    fg: FontGroup,
) -> bool {
    if clump[0].specific is UnscannedText {
        let style = clump[0].style;
        let fin = scan_clump_full_v(
            init_scan_v(last_ws0),
            clump,
            pbp0,
            levels,
            fg,
            compression_of(style.white_space_collapse),
            style.text_transform,
        );
        &&& r.is_text == true
        &&& clump_scan_ok(r, fin, base_options_of(style, fg.space_advance), fg)
        &&& out_ws == fin.last_ws
        &&& new_pbp == pbp0 + clump_bytes_before(clump, clump.len() as int)
    } else {
        &&& r.is_text == false
        &&& r.runs@.len() == 0
        &&& r.mappings@.len() == 0
        &&& out_ws == false
        &&& new_pbp == pbp0
    }
}

impl TextRunScanner {
    pub fn new() -> (r: TextRunScanner)
        ensures
            r.clump@.len() == 0,
    {
        TextRunScanner { clump: Vec::new() }
    }

    /// Scans the clump held in `self` into shaping units and mappings,
    /// consuming the clump. Text is transformed per the front fragment's
    /// style; the whitespace state is carried in and out.
    #[verifier::rlimit(60)]
    pub fn flush_clump_to_list(
        &mut self,
        font_context: &FontContext,
        bidi_levels: &Option<Vec<u8>>,
        paragraph_bytes_processed: &mut usize,
        last_whitespace: bool,
    ) -> (r: (ClumpScan, bool))
        requires
            clump_flush_pre(
                old(self).clump@,
                *old(paragraph_bytes_processed) as int,
                levels_view(*bidi_levels),
            ),
            old(self).clump@[0].specific is UnscannedText ==> font_context.has_group(
                old(self).clump@[0].style.font_style_key,
            ),
        ensures
            final(self).clump@.len() == 0,
            r.0.fragments@ == old(self).clump@,
            clump_flush_post(
                r.0,
                r.1,
                *final(paragraph_bytes_processed) as int,
                old(self).clump@,
                *old(paragraph_bytes_processed) as int,
                last_whitespace,
                levels_view(*bidi_levels),
                font_context.group_spec(old(self).clump@[0].style.font_style_key),
            ),
            clump_mappings_wf(r.0),
    {
        let ghost pbp0 = *paragraph_bytes_processed as int;
        let ghost levels_g = levels_view(*bidi_levels);
        let is_text = match self.clump[0].specific {
            SpecificFragmentInfo::UnscannedText(_) => true,
            _ => false,
        };
        let mut fragments: Vec<Fragment> = Vec::new();
        core::mem::swap(&mut fragments, &mut self.clump);
        if !is_text {
            let scan = ClumpScan { fragments, runs: Vec::new(), mappings: Vec::new(), is_text: false };
            proof {
                assert(clump_mappings_wf(scan));
            }
            return (scan, false);
        }
        let style = fragments[0].style;
        let font_group = font_context.group_for(style.font_style_key);
        proof {
            assert(*font_group == font_context.group_spec(
                old(self).clump@[0].style.font_style_key,
            ));
        }
        let compression = compression_from_style(style.white_space_collapse);
        let case = style.text_transform;
        let mut acc = ScanAcc {
            run_info_list: Vec::new(),
            mappings: Vec::new(),
            run_info: RunInfo::new(),
            mapping: RunMapping {
                byte_range: ByteRange { begin: 0, length: 0 },
                old_fragment_index: 0,
                text_run_index: 0,
                selected: false,
            },
            insertion_point: None,
            last_ws: last_whitespace,
            start_position: 0,
        };
        proof {
            assert(maps_view(acc.mappings@) =~= Seq::<MapV>::empty());
            assert(runs_view(acc.run_info_list@) =~= Seq::<RunInfoV>::empty());
            assert(acc.view() == init_scan_v(last_whitespace));
        }
        let n = fragments.len();
        let mut i: usize = 0;
        while i < n
            invariant
                n == fragments@.len(),
                i <= n,
                fragments@ == old(self).clump@,
                clump_flush_pre(fragments@, pbp0, levels_g),
                fragments@[0].specific is UnscannedText,
                style == fragments@[0].style,
                compression == compression_of(style.white_space_collapse),
                case == style.text_transform,
                levels_g == levels_view(*bidi_levels),
                acc.view() == scan_clump_v(
                    init_scan_v(last_whitespace),
                    fragments@,
                    i as int,
                    pbp0,
                    levels_g,
                    *font_group,
                    compression,
                    case,
                ),
                crate::run::mappings_bounded(acc.mappings@),
                *paragraph_bytes_processed as int == pbp0 + clump_bytes_before(
                    fragments@,
                    i as int,
                ),
            decreases n - i,
        {
            proof {
                lemma_clump_bytes_mono(fragments@, i as int, i + 1);
                lemma_clump_bytes_mono(fragments@, i + 1, n as int);
                lemma_clump_bytes_mono(fragments@, 0, i as int);
            }
            match &fragments[i].specific {
                SpecificFragmentInfo::UnscannedText(u) => {
                    let sel = u.selection;
                    proof {
                        assert(frag_text(fragments@[i as int]) == u.text@);
                        assert(frag_sel(fragments@[i as int]) == sel);
                    }
                    scan_fragment(
                        &mut acc,
                        i,
                        u.text.as_str(),
                        sel,
                        font_group,
                        bidi_levels,
                        paragraph_bytes_processed,
                        compression,
                        case,
                    );
                },
                _ => {
                    proof {
                        assert(false);
                    }
                },
            }
            i = i + 1;
        }
        run_flush_step(&mut acc);
        let ghost fin = scan_clump_full_v(
            init_scan_v(last_whitespace),
            fragments@,
            pbp0,
            levels_g,
            *font_group,
            compression,
            case,
        );
        proof {
            assert(acc.view() == fin);
        }
        let base = base_shaping_options(&style, font_group.space_advance);
        let mut runs: Vec<RunRequest> = Vec::new();
        let m = acc.run_info_list.len();
        let mut k: usize = 0;
        while k < m
            invariant
                m == acc.run_info_list@.len(),
                k <= m,
                runs_view(acc.run_info_list@) == fin.runs,
                base == base_options_of(style, font_group.space_advance),
                runs@.len() == k,
                forall|q: int|
                    0 <= q < k ==> run_request_ok(
                        #[trigger] runs@[q],
                        fin.runs[q],
                        base,
                        *font_group,
                    ),
            decreases m - k,
        {
            let ri = &acc.run_info_list[k];
            let font = match ri.font {
                Some(f) => Some(f),
                None => font_group.first(),
            };
            let options = crate::style::options_for_run(&base, ri.script, ri.bidi_level);
            let req = RunRequest {
                text: ri.text.clone(),
                font,
                bidi_level: ri.bidi_level,
                script: ri.script,
                insertion_point: ri.insertion_point,
                options,
            };
            proof {
                assert(run_view(acc.run_info_list@[k as int]) == fin.runs[k as int]);
            }
            runs.push(req);
            k = k + 1;
        }
        let out_ws = acc.last_ws;
        let scan = ClumpScan { fragments, runs, mappings: acc.mappings, is_text: true };
        proof {
            lemma_scan_mapping_indices(
                last_whitespace,
                fragments@,
                pbp0,
                levels_g,
                *font_group,
                compression,
                case,
            );
            assert forall|j: int|
                0 <= j < scan.mappings@.len() implies (#[trigger] scan.mappings@[
                j
            ]).old_fragment_index < scan.fragments@.len() && scan.mappings@[j].text_run_index
                < scan.runs@.len() && scan.mappings@[j].byte_range.begin + scan.mappings@[
                j
            ].byte_range.length <= usize::MAX by {
                assert(maps_view(scan.mappings@)[j] == map_view(scan.mappings@[j]));
                assert(map_view(scan.mappings@[j]) == fin.maps[j]);
            }
            assert forall|j1: int, j2: int|
                0 <= j1 <= j2 < scan.mappings@.len() implies (#[trigger] scan.mappings@[
                j1
            ]).old_fragment_index <= (#[trigger] scan.mappings@[j2]).old_fragment_index by {
                assert(maps_view(scan.mappings@)[j1] == map_view(scan.mappings@[j1]));
                assert(maps_view(scan.mappings@)[j2] == map_view(scan.mappings@[j2]));
                assert(map_view(scan.mappings@[j1]) == fin.maps[j1]);
                assert(map_view(scan.mappings@[j2]) == fin.maps[j2]);
            }
            assert(clump_mappings_wf(scan));
        }
        (scan, out_ws)
    }
}


/// The least index holding a newline, if any.
pub open spec fn first_newline(s: Seq<char>) -> Option<int>
    decreases s.len(),
{
    if s.len() == 0 {
        None
    } else if s[0] == '\n' {
        Some(0int)
    } else {
        match first_newline(s.drop_first()) {
            Some(i) => Some(i + 1),
            None => None,
        }
    }
}

pub proof fn lemma_first_newline_at(s: Seq<char>, j: int)
    requires
        0 <= j < s.len(),
        s[j] == '\n',
        forall|k: int| 0 <= k < j ==> s[k] != '\n',
    ensures
        first_newline(s) == Some(j),
    decreases j,
{
    if j > 0 {
        assert(forall|k: int| 0 <= k < j - 1 ==> s.drop_first()[k] != '\n');
        lemma_first_newline_at(s.drop_first(), j - 1);
    }
}

pub proof fn lemma_first_newline_range(s: Seq<char>)
    ensures
        (match first_newline(s) {
            Some(i) => 0 <= i < s.len() && s[i] == '\n',
            None => true,
        }),
    decreases s.len(),
{
    if s.len() > 0 && s[0] != '\n' {
        lemma_first_newline_range(s.drop_first());
    }
}

pub proof fn lemma_first_newline_none(s: Seq<char>)
    requires
        forall|k: int| 0 <= k < s.len() ==> s[k] != '\n',
    ensures
        first_newline(s) is None,
    decreases s.len(),
{
    if s.len() > 0 {
        assert(forall|k: int| 0 <= k < s.drop_first().len() ==> s.drop_first()[k] != '\n');
        lemma_first_newline_none(s.drop_first());
    }
}

/// A fragment is split before scanning when it preserves newlines and
/// holds an internal newline that is not its final character.
pub open spec fn needs_newline_split(f: Fragment) -> bool {
    &&& f.specific is UnscannedText
    &&& !(f.style.white_space_collapse is Collapse)
    &&& (match first_newline(frag_text(f)) {
        Some(i) => i + 1 < frag_text(f).len(),
        None => false,
    })
}

/// The part of the selection lying before the split point `off` (a byte
/// offset): kept whole, cut at the split, or moved entirely to the other
/// piece.
pub open spec fn split_sel_before(sel: Option<ByteRange>, off: int) -> Option<ByteRange> {
    match sel {
        Some(r) => if r.begin >= off {
            None
        } else if r.begin + r.length > off {
            Some(ByteRange { begin: r.begin, length: (off - r.begin) as usize })
        } else {
            Some(r)
        },
        None => None,
    }
}

/// The part of the selection lying after the split point `off`, shifted
/// to the second piece's coordinates.
pub open spec fn split_sel_after(sel: Option<ByteRange>, off: int) -> Option<ByteRange> {
    match sel {
        Some(r) => if r.begin >= off {
            Some(ByteRange { begin: (r.begin - off) as usize, length: r.length })
        } else if r.begin + r.length > off {
            Some(ByteRange { begin: 0, length: (r.begin + r.length - off) as usize })
        } else {
            None
        },
        None => None,
    }
}

/// `before` and `after` are the two pieces of `f` cut just after its
/// first newline: same style, inline context and size, the text split at
/// the character after the newline, and the selection partitioned at the
/// corresponding byte offset.
pub open spec fn newline_split_of(f: Fragment, before: Fragment, after: Fragment) -> bool {
    let t = frag_text(f);
    let i = first_newline(t)->Some_0;
    let off = byte_len(t.take(i + 1));
    &&& before.style == f.style
    &&& after.style == f.style
    &&& before.inline_nodes@ == f.inline_nodes@
    &&& after.inline_nodes@ == f.inline_nodes@
    &&& before.border_box_size == f.border_box_size
    &&& after.border_box_size == f.border_box_size
    &&& before.specific is UnscannedText
    &&& after.specific is UnscannedText
    &&& frag_text(before) == t.take(i + 1)
    &&& frag_text(after) == t.skip(i + 1)
    &&& frag_sel(before) == split_sel_before(frag_sel(f), off)
    &&& frag_sel(after) == split_sel_after(frag_sel(f), off)
}

/// What splitting the stack's top fragment leaves on the stack: either
/// unchanged, or the top replaced by its two pieces, the earlier piece
/// on top.
pub open spec fn split_stack_post(old_stack: Seq<Fragment>, new_stack: Seq<Fragment>) -> bool {
    if old_stack.len() == 0 {
        new_stack == old_stack
    } else if !needs_newline_split(old_stack.last()) {
        new_stack == old_stack
    } else {
        &&& new_stack.len() == old_stack.len() + 1
        &&& new_stack.take(old_stack.len() - 1) == old_stack.take(old_stack.len() - 1)
        &&& newline_split_of(
            old_stack.last(),
            new_stack.last(),
            new_stack[new_stack.len() - 2],
        )
    }
}

/// Splits the next fragment to be consumed (the stack's top) just after
/// its first internal newline, unless whitespace is fully collapsed or
/// the newline is final; the selection range is partitioned between the
/// two pieces at the split point.
#[verifier::rlimit(60)]
pub fn split_first_fragment_at_newline_if_necessary(fragments: &mut Vec<Fragment>)
    requires
        forall|i: int| 0 <= i < old(fragments)@.len() ==> (#[trigger] old(fragments)@[i]).wf(),
    ensures
        split_stack_post(old(fragments)@, final(fragments)@),
        forall|i: int| 0 <= i < final(fragments)@.len() ==> (#[trigger] final(fragments)@[i]).wf(),
{
    let n = fragments.len();
    if n == 0 {
        return ;
    }
    let collapse = match fragments[n - 1].style.white_space_collapse {
        crate::style::WhiteSpaceCollapse::Collapse => true,
        _ => false,
    };
    if collapse {
        proof {
            assert(!needs_newline_split(old(fragments)@.last()));
        }
        return ;
    }
    let split_point: Option<(usize, usize)> = match &fragments[n - 1].specific {
        SpecificFragmentInfo::UnscannedText(u) => {
            let total = str_byte_len(u.text.as_str());
            let chars = str_chars(u.text.as_str());
            let cn = chars.len();
            let mut j: usize = 0;
            let mut boff: usize = 0;
            let mut found: Option<(usize, usize)> = None;
            while j < cn && found.is_none()
                invariant
                    cn == u.text@.len(),
                    chars@ == u.text@,
                    total == byte_len(u.text@),
                    total <= isize::MAX as usize,
                    j <= cn,
                    boff == byte_len(u.text@.take(j as int)),
                    (match found {
                        Some(p) => j < cn && p.0 == j && u.text@[j as int] == '\n' && p.1
                            == byte_len(u.text@.take(j + 1)) && (forall|k: int|
                            0 <= k < j ==> u.text@[k] != '\n'),
                        None => forall|k: int| 0 <= k < j ==> u.text@[k] != '\n',
                    }),
                decreases cn - j + (if found is None { 1int } else { 0int }),
            {
                let c = chars[j];
                proof {
                    assert(u.text@.take(j + 1) =~= u.text@.take(j as int).push(u.text@[j as int]));
                    crate::chars::lemma_byte_len_push(u.text@.take(j as int), u.text@[j as int]);
                    crate::chars::lemma_byte_len_split(u.text@, j + 1);
                    crate::chars::lemma_byte_len_bounds(u.text@.skip(j + 1));
                }
                if c == '\n' {
                    found = Some((j, boff + 1));
                } else {
                    let w = crate::chars::char_len_utf8(c);
                    boff = boff + w;
                    j = j + 1;
                }
            }
            match found {
                Some(p) => {
                    proof {
                        lemma_first_newline_at(u.text@, p.0 as int);
                    }
                    if p.0 + 1 < cn {
                        Some(p)
                    } else {
                        proof {
                            assert(!needs_newline_split(old(fragments)@.last()));
                        }
                        None
                    }
                },
                None => {
                    proof {
                        lemma_first_newline_none(u.text@);
                        assert(!needs_newline_split(old(fragments)@.last()));
                    }
                    None
                },
            }
        },
        _ => None,
    };
    let (j, off) = match split_point {
        Some(p) => p,
        None => {
            return ;
        },
    };
    let frag = match fragments.pop() {
        Some(f) => f,
        None => {
            proof {
                assert(false);
            }
            return ;
        },
    };
    match frag.specific {
        SpecificFragmentInfo::UnscannedText(u) => {
            let ghost t = u.text@;
            let cn = u.text.as_str().unicode_len();
            let before_text = u.text.as_str().substring_char(0, j + 1).to_owned();
            let after_text = u.text.as_str().substring_char(j + 1, cn).to_owned();
            proof {
                crate::chars::lemma_byte_len_split(t, j + 1);
                assert(t.take(j + 1)[j as int] == t[j as int]);
                assert(frag_text(old(fragments)@.last()) == t);
                crate::chars::lemma_byte_len_bounds(t.take(j + 1));
            }
            let before_sel: Option<ByteRange> = match u.selection {
                Some(r) => if r.begin() >= off {
                    None
                } else if r.end() > off {
                    Some(ByteRange::new(r.begin(), off - r.begin()))
                } else {
                    Some(r)
                },
                None => None,
            };
            let after_sel: Option<ByteRange> = match u.selection {
                Some(r) => if r.begin() >= off {
                    Some(ByteRange::new(r.begin() - off, r.length()))
                } else if r.end() > off {
                    Some(ByteRange::new(0, r.end() - off))
                } else {
                    None
                },
                None => None,
            };
            let after = Fragment {
                specific: SpecificFragmentInfo::UnscannedText(
                    crate::fragment::UnscannedTextFragmentInfo::new(after_text, after_sel),
                ),
                style: frag.style,
                inline_nodes: crate::fragment::copy_nodes(&frag.inline_nodes),
                border_box_size: frag.border_box_size,
            };
            let before = Fragment {
                specific: SpecificFragmentInfo::UnscannedText(
                    crate::fragment::UnscannedTextFragmentInfo::new(before_text, before_sel),
                ),
                style: frag.style,
                inline_nodes: frag.inline_nodes,
                border_box_size: frag.border_box_size,
            };
            fragments.push(after);
            fragments.push(before);
            proof {
                assert(final(fragments)@.take(old(fragments)@.len() - 1) =~= old(
                    fragments,
                )@.take(old(fragments)@.len() - 1));
            }
        },
        _ => {
            proof {
                assert(false);
            }
        },
    }
}


/// Concatenated raw text of a fragment list.
pub open spec fn frags_text(frags: Seq<Fragment>, i: int) -> Seq<char>
    decreases i,
{
    if i <= 0 {
        Seq::empty()
    } else {
        frags_text(frags, i - 1) + frag_text(frags[i - 1])
    }
}

/// Concatenated raw text of a stack of fragments (top first).
pub open spec fn stack_text(stack: Seq<Fragment>) -> Seq<char>
    decreases stack.len(),
{
    if stack.len() == 0 {
        Seq::empty()
    } else {
        frag_text(stack.last()) + stack_text(stack.take(stack.len() - 1))
    }
}

pub open spec fn frags_bytes(frags: Seq<Fragment>) -> int {
    clump_bytes_before(frags, frags.len() as int)
}

/// A fragment's contribution to the paragraph string handed to the bidi
/// algorithm: newlines read as spaces when whitespace collapses.
pub open spec fn para_frag_text(f: Fragment) -> Seq<char> {
    let t = frag_text(f);
    if f.style.white_space_collapse is Collapse {
        Seq::new(t.len(), |k: int| if t[k] == '\n' {
            ' '
        } else {
            t[k]
        })
    } else {
        t
    }
}

/// The paragraph string: every fragment's text, concatenated.
pub open spec fn para_text_v(frags: Seq<Fragment>, i: int) -> Seq<char>
    decreases i,
{
    if i <= 0 {
        Seq::empty()
    } else {
        para_text_v(frags, i - 1) + para_frag_text(frags[i - 1])
    }
}

/// The per-byte embedding levels the scan goes by: skipped entirely when
/// no byte resolved right-to-left.
pub open spec fn scan_levels_spec(frags: Seq<Fragment>) -> Option<Seq<u8>> {
    let lv = crate::bidi::bidi_levels_of(
        para_text_v(frags, frags.len() as int),
        crate::style::base_level_of(frags[0].style),
    );
    if crate::bidi::any_rtl(lv) {
        Some(lv)
    } else {
        None
    }
}

pub proof fn lemma_para_frag_text_bytes(f: Fragment)
    ensures
        byte_len(para_frag_text(f)) == byte_len(frag_text(f)),
{
    lemma_mapped_newlines_bytes(frag_text(f));
}

pub proof fn lemma_mapped_newlines_bytes(t: Seq<char>)
    ensures
        byte_len(Seq::new(t.len(), |k: int| if t[k] == '\n' { ' ' } else { t[k] })) == byte_len(t),
    decreases t.len(),
{
    let m = Seq::new(t.len(), |k: int| if t[k] == '\n' { ' ' } else { t[k] });
    if t.len() > 0 {
        lemma_mapped_newlines_bytes(t.drop_first());
        let m2 = Seq::new(
            t.drop_first().len(),
            |k: int| if t.drop_first()[k] == '\n' { ' ' } else { t.drop_first()[k] },
        );
        assert(m.drop_first() =~= m2);
        assert(crate::chars::len_utf8(m[0]) == crate::chars::len_utf8(t[0]));
    }
}

pub proof fn lemma_para_text_bytes(frags: Seq<Fragment>, i: int)
    requires
        0 <= i <= frags.len(),
    ensures
        byte_len(para_text_v(frags, i)) == clump_bytes_before(frags, i),
    decreases i,
{
    if i > 0 {
        lemma_para_text_bytes(frags, i - 1);
        lemma_para_frag_text_bytes(frags[i - 1]);
        crate::chars::lemma_byte_len_concat(para_text_v(frags, i - 1), para_frag_text(frags[i - 1]));
    }
}

pub proof fn lemma_frags_text_bytes(frags: Seq<Fragment>, i: int)
    requires
        0 <= i <= frags.len(),
    ensures
        byte_len(frags_text(frags, i)) == clump_bytes_before(frags, i),
    decreases i,
{
    if i > 0 {
        lemma_frags_text_bytes(frags, i - 1);
        crate::chars::lemma_byte_len_concat(frags_text(frags, i - 1), frag_text(frags[i - 1]));
    }
}

/// Appending a fragment leaves every prefix sum and prefix text as it
/// was.
pub proof fn lemma_frag_push_prefix(frags: Seq<Fragment>, f: Fragment, i: int)
    requires
        0 <= i <= frags.len(),
    ensures
        clump_bytes_before(frags.push(f), i) == clump_bytes_before(frags, i),
        frags_text(frags.push(f), i) == frags_text(frags, i),
    decreases i,
{
    if i > 0 {
        assert(frags.push(f)[i - 1] == frags[i - 1]);
        lemma_frag_push_prefix(frags, f, i - 1);
    }
}

/// Splitting the stack's top fragment leaves the stack's concatenated
/// text unchanged.
pub proof fn lemma_split_stack_text(old_stack: Seq<Fragment>, new_stack: Seq<Fragment>)
    requires
        split_stack_post(old_stack, new_stack),
    ensures
        stack_text(new_stack) == stack_text(old_stack),
{
    if old_stack.len() == 0 || !needs_newline_split(old_stack.last()) {
    } else {
        let n = old_stack.len();
        let t = frag_text(old_stack.last());
        let i = first_newline(t)->Some_0;
        lemma_first_newline_range(t);
        let before = new_stack.last();
        let after = new_stack[new_stack.len() - 2];
        assert(new_stack.take(n as int).last() == after);
        assert(new_stack.take(n as int).take(n - 1) =~= new_stack.take(n - 1));
        assert(stack_text(new_stack.take(n as int)) == frag_text(after) + stack_text(
            new_stack.take(n - 1),
        ));
        assert(new_stack.take(n - 1) == old_stack.take(n - 1));
        assert(stack_text(new_stack) == frag_text(before) + (frag_text(after) + stack_text(
            old_stack.take(n - 1),
        )));
        assert(t.take(i + 1) + t.skip(i + 1) =~= t);
        assert(frag_text(before) + (frag_text(after) + stack_text(old_stack.take(n - 1))) =~= t
            + stack_text(old_stack.take(n - 1)));
    }
}

/// The scan of a whole fragment list: the clumps in order, and the final
/// carried whitespace state.
pub struct ScanPhase {
    pub clumps: Vec<ClumpScan>,
    pub last_whitespace: bool,
}

/// Paragraph bytes consumed by the first `i` clumps.
pub open spec fn clumps_bytes(clumps: Seq<ClumpScan>, i: int) -> int
    decreases i,
{
    if i <= 0 {
        0
    } else {
        clumps_bytes(clumps, i - 1) + frags_bytes(clumps[i - 1].fragments@)
    }
}

/// Raw text consumed by the first `i` clumps.
pub open spec fn clumps_text(clumps: Seq<ClumpScan>, i: int) -> Seq<char>
    decreases i,
{
    if i <= 0 {
        Seq::empty()
    } else {
        clumps_text(clumps, i - 1) + frags_text(
            clumps[i - 1].fragments@,
            clumps[i - 1].fragments@.len() as int,
        )
    }
}

/// The font group a clump scans with: the context's group for its front
/// fragment's font-style key.
pub open spec fn clump_group_of(ctx: FontContext, c: ClumpScan) -> FontGroup {
    ctx.group_spec(c.fragments@[0].style.font_style_key)
}

/// A text fragment whose font style the context can serve.
pub open spec fn frag_group_ok(f: Fragment, ctx: FontContext) -> bool {
    f.specific is UnscannedText ==> ctx.has_group(f.style.font_style_key)
}

/// Well-formed fragments the context can serve.
pub open spec fn frags_ok(frags: Seq<Fragment>, ctx: FontContext) -> bool {
    forall|i: int|
        0 <= i < frags.len() ==> (#[trigger] frags[i]).wf() && frag_group_ok(frags[i], ctx)
}

/// The whitespace state carried out of the first `i` clumps: threaded
/// through each text clump's fold, reset by a non-text clump. Each text
/// clump scans with its own style's font group.
pub open spec fn ws_after(
    clumps: Seq<ClumpScan>,
    i: int,
    levels: Option<Seq<u8>>,
    ctx: FontContext,
) -> bool
    decreases i,
{
    if i <= 0 {
        false
    } else {
        let c = clumps[i - 1];
        if c.fragments@.len() > 0 && c.fragments@[0].specific is UnscannedText {
            scan_clump_full_v(
                init_scan_v(ws_after(clumps, i - 1, levels, ctx)),
                c.fragments@,
                clumps_bytes(clumps, i - 1),
                levels,
                clump_group_of(ctx, c),
                compression_of(c.fragments@[0].style.white_space_collapse),
                c.fragments@[0].style.text_transform,
            ).last_ws
        } else {
            false
        }
    }
}

/// Every clump of the phase is exactly the scan of its fragments, with
/// the paragraph byte cursor and whitespace state threaded across the
/// clumps in order.
pub open spec fn clumps_ok(clumps: Seq<ClumpScan>, levels: Option<Seq<u8>>, ctx: FontContext) -> bool {
    forall|i: int|
        0 <= i < clumps.len() ==> (#[trigger] clumps[i]).fragments@.len() > 0 && clump_flush_post(
            clumps[i],
            ws_after(clumps, i + 1, levels, ctx),
            clumps_bytes(clumps, i + 1),
            clumps[i].fragments@,
            clumps_bytes(clumps, i),
            ws_after(clumps, i, levels, ctx),
            levels,
            clump_group_of(ctx, clumps[i]),
        )
}

pub proof fn lemma_clumps_push_prefix(
    clumps: Seq<ClumpScan>,
    c: ClumpScan,
    i: int,
    levels: Option<Seq<u8>>,
    ctx: FontContext,
)
    requires
        0 <= i <= clumps.len(),
    ensures
        clumps_bytes(clumps.push(c), i) == clumps_bytes(clumps, i),
        clumps_text(clumps.push(c), i) == clumps_text(clumps, i),
        ws_after(clumps.push(c), i, levels, ctx) == ws_after(clumps, i, levels, ctx),
    decreases i,
{
    if i > 0 {
        assert(clumps.push(c)[i - 1] == clumps[i - 1]);
        lemma_clumps_push_prefix(clumps, c, i - 1, levels, ctx);
    }
}


pub proof fn lemma_frag_take_prefix(frags: Seq<Fragment>, m: int, i: int)
    requires
        0 <= i <= m <= frags.len(),
    ensures
        clump_bytes_before(frags.take(m), i) == clump_bytes_before(frags, i),
        frags_text(frags.take(m), i) == frags_text(frags, i),
    decreases i,
{
    if i > 0 {
        assert(frags.take(m)[i - 1] == frags[i - 1]);
        lemma_frag_take_prefix(frags, m, i - 1);
    }
}

pub proof fn lemma_clumps_bytes_text(clumps: Seq<ClumpScan>, i: int)
    requires
        0 <= i <= clumps.len(),
    ensures
        byte_len(clumps_text(clumps, i)) == clumps_bytes(clumps, i),
    decreases i,
{
    if i > 0 {
        lemma_clumps_bytes_text(clumps, i - 1);
        let f = clumps[i - 1].fragments@;
        lemma_frags_text_bytes(f, f.len() as int);
        crate::chars::lemma_byte_len_concat(clumps_text(clumps, i - 1), frags_text(f, f.len() as int));
    }
}

/// What the text-conservation invariant gives the next flush: the bytes
/// already consumed plus the clump's own bytes stay within the
/// paragraph's total.
pub proof fn lemma_clump_bytes_bound(
    clumps: Seq<ClumpScan>,
    clump: Seq<Fragment>,
    stack: Seq<Fragment>,
    para: Seq<char>,
)
    requires
        clumps_text(clumps, clumps.len() as int) + (frags_text(clump, clump.len() as int)
            + stack_text(stack)) == para,
    ensures
        clumps_bytes(clumps, clumps.len() as int) + clump_bytes_before(clump, clump.len() as int)
            <= byte_len(para),
        0 <= clump_bytes_before(clump, clump.len() as int),
        0 <= clumps_bytes(clumps, clumps.len() as int),
{
    lemma_frags_text_bytes(clump, clump.len() as int);
    lemma_clumps_bytes_text(clumps, clumps.len() as int);
    crate::chars::lemma_byte_len_concat(
        clumps_text(clumps, clumps.len() as int),
        frags_text(clump, clump.len() as int) + stack_text(stack),
    );
    crate::chars::lemma_byte_len_concat(frags_text(clump, clump.len() as int), stack_text(stack));
    crate::chars::lemma_byte_len_bounds(stack_text(stack));
    crate::chars::lemma_byte_len_bounds(frags_text(clump, clump.len() as int));
    crate::chars::lemma_byte_len_bounds(clumps_text(clumps, clumps.len() as int));
}

/// Builds the paragraph string the bidi algorithm sees: the text of all
/// fragments in order, newlines read as spaces where whitespace
/// collapses.
pub fn build_paragraph_text(fragments: &Vec<Fragment>) -> (r: String)
    ensures
        r@ == para_text_v(fragments@, fragments@.len() as int),
{
    let mut r = String::new();
    let n = fragments.len();
    let mut i: usize = 0;
    while i < n
        invariant
            n == fragments@.len(),
            i <= n,
            r@ == para_text_v(fragments@, i as int),
        decreases n - i,
    {
        match &fragments[i].specific {
            SpecificFragmentInfo::UnscannedText(u) => {
                let collapse = match fragments[i].style.white_space_collapse {
                    crate::style::WhiteSpaceCollapse::Collapse => true,
                    _ => false,
                };
                if collapse {
                    let ghost t = u.text@;
                    let ghost mapped = para_frag_text(fragments@[i as int]);
                    let chars = str_chars(u.text.as_str());
                    let cn = chars.len();
                    let mut j: usize = 0;
                    while j < cn
                        invariant
                            cn == t.len(),
                            chars@ == t,
                            j <= cn,
                            mapped == Seq::new(t.len(), |k: int| if t[k] == '\n' { ' ' } else { t[k] }),
                            r@ == para_text_v(fragments@, i as int) + mapped.take(j as int),
                            i < n,
                            n == fragments@.len(),
                        decreases cn - j,
                    {
                        let c = chars[j];
                        let mc = if c == '\n' {
                            ' '
                        } else {
                            c
                        };
                        crate::strutil::push_char(&mut r, mc);
                        proof {
                            assert(mapped.take(j + 1) =~= mapped.take(j as int).push(mapped[j as int]));
                            assert((para_text_v(fragments@, i as int) + mapped.take(j as int)).push(
                                mc,
                            ) =~= para_text_v(fragments@, i as int) + mapped.take(j + 1));
                        }
                        j = j + 1;
                    }
                    proof {
                        assert(mapped.take(cn as int) =~= mapped);
                    }
                } else {
                    r.append(u.text.as_str());
                    proof {
                        assert(para_frag_text(fragments@[i as int]) == u.text@);
                    }
                }
            },
            _ => {
                proof {
                    assert(frag_text(fragments@[i as int]) =~= Seq::<char>::empty());
                    assert(para_frag_text(fragments@[i as int]) =~= Seq::<char>::empty());
                    assert(r@ + Seq::<char>::empty() =~= r@);
                }
            },
        }
        i = i + 1;
    }
    r
}


/// Adjacent fragments inside one clump are pairwise merge-compatible.
pub open spec fn clump_frags_mergeable(frags: Seq<Fragment>) -> bool {
    forall|j: int|
        0 <= j < frags.len() - 1 ==> (#[trigger] frags[j]).can_merge_spec(&frags[j + 1])
}

/// Clumps are maximal: merging fails between the last fragment of one
/// clump and the first fragment of the next.
pub open spec fn clumps_maximal(clumps: Seq<ClumpScan>) -> bool {
    forall|i: int|
        0 <= i < clumps.len() - 1 ==> !(#[trigger] clumps[i]).fragments@.last().can_merge_spec(
            &clumps[i + 1].fragments@[0],
        )
}

/// Splitting the stack's top at a newline does not change whether a
/// fragment can merge with it: the earlier piece keeps the top's style
/// and text-ness, which is all `can_merge_spec` reads of its argument.
pub proof fn lemma_split_preserves_merge_target(
    old_stack: Seq<Fragment>,
    new_stack: Seq<Fragment>,
    f: Fragment,
)
    requires
        split_stack_post(old_stack, new_stack),
        old_stack.len() > 0,
    ensures
        f.can_merge_spec(&new_stack.last()) == f.can_merge_spec(&old_stack.last()),
{
    if needs_newline_split(old_stack.last()) {
        assert(newline_split_of(
            old_stack.last(),
            new_stack.last(),
            new_stack[new_stack.len() - 2],
        ));
    }
}

/// Splitting the stack's top at a newline leaves every stack fragment
/// servable by the font context: the pieces keep the top's style.
pub proof fn lemma_split_preserves_group_ok(
    old_stack: Seq<Fragment>,
    new_stack: Seq<Fragment>,
    ctx: FontContext,
)
    requires
        split_stack_post(old_stack, new_stack),
        frags_ok(old_stack, ctx),
        forall|i: int| 0 <= i < new_stack.len() ==> (#[trigger] new_stack[i]).wf(),
    ensures
        frags_ok(new_stack, ctx),
{
    if old_stack.len() == 0 || !needs_newline_split(old_stack.last()) {
    } else {
        let n = old_stack.len();
        assert(newline_split_of(
            old_stack.last(),
            new_stack.last(),
            new_stack[new_stack.len() - 2],
        ));
        assert forall|i: int|
            0 <= i < new_stack.len() implies (#[trigger] new_stack[i]).wf() && frag_group_ok(
            new_stack[i],
            ctx,
        ) by {
            if i < n - 1 {
                assert(new_stack.take(n - 1)[i] == old_stack.take(n - 1)[i]);
                assert(new_stack[i] == old_stack[i]);
                assert(old_stack[i].wf() && frag_group_ok(old_stack[i], ctx));
            } else {
                assert(old_stack.last().wf() && frag_group_ok(old_stack.last(), ctx));
            }
        }
    }
}

/// Appending a freshly flushed clump: the threaded-state obligations of
/// the whole list follow from those of the prefix and the flush's own
/// contract.
#[verifier::spinoff_prover]
#[verifier::rlimit(60)]
pub proof fn lemma_clumps_ok_push(
    pre: Seq<ClumpScan>,
    c: ClumpScan,
    ws1: bool,
    pbp1: int,
    levels: Option<Seq<u8>>,
    ctx: FontContext,
)
    requires
        clumps_ok(pre, levels, ctx),
        c.fragments@.len() > 0,
        !(c.fragments@[0].specific is UnscannedText) ==> c.fragments@.len() == 1,
        clump_flush_post(
            c,
            ws1,
            pbp1,
            c.fragments@,
            clumps_bytes(pre, pre.len() as int),
            ws_after(pre, pre.len() as int, levels, ctx),
            levels,
            clump_group_of(ctx, c),
        ),
    ensures
        clumps_ok(pre.push(c), levels, ctx),
        ws_after(pre.push(c), pre.len() as int + 1, levels, ctx) == ws1,
        clumps_bytes(pre.push(c), pre.len() as int + 1) == pbp1,
        clumps_text(pre.push(c), pre.len() as int + 1) == clumps_text(pre, pre.len() as int)
            + frags_text(c.fragments@, c.fragments@.len() as int),
{
    let all = pre.push(c);
    let nc = pre.len() as int;
    lemma_clumps_push_prefix(pre, c, nc, levels, ctx);
    assert(all[nc] == c);
    if !(c.fragments@[0].specific is UnscannedText) {
        assert(frag_text(c.fragments@[0]) =~= Seq::<char>::empty());
        assert(byte_len(Seq::<char>::empty()) == 0);
        assert(clump_bytes_before(c.fragments@, 0) == 0);
        assert(clump_bytes_before(c.fragments@, 1) == 0 + byte_len(frag_text(c.fragments@[0])));
        assert(frags_bytes(c.fragments@) == 0);
    }
    assert(clumps_bytes(all, nc + 1) == clumps_bytes(pre, nc) + frags_bytes(c.fragments@));
    assert(ws_after(all, nc + 1, levels, ctx) == ws1);
    assert forall|i: int| 0 <= i < all.len() implies (#[trigger] all[i]).fragments@.len() > 0
        && clump_flush_post(
        all[i],
        ws_after(all, i + 1, levels, ctx),
        clumps_bytes(all, i + 1),
        all[i].fragments@,
        clumps_bytes(all, i),
        ws_after(all, i, levels, ctx),
        levels,
        clump_group_of(ctx, all[i]),
    ) by {
        lemma_clumps_push_prefix(pre, c, i, levels, ctx);
        if i < nc {
            lemma_clumps_push_prefix(pre, c, i + 1, levels, ctx);
            assert(all[i] == pre[i]);
        }
    }
}

/// Appending a clump whose first fragment cannot merge with the last
/// clump's tail keeps the clump list maximal.
pub proof fn lemma_clumps_maximal_push(pre: Seq<ClumpScan>, c: ClumpScan)
    requires
        clumps_maximal(pre),
        pre.len() > 0 ==> !pre.last().fragments@.last().can_merge_spec(&c.fragments@[0]),
    ensures
        clumps_maximal(pre.push(c)),
{
    let all = pre.push(c);
    assert forall|i: int| 0 <= i < all.len() - 1 implies !(#[trigger] all[i]).fragments@.last()
        .can_merge_spec(&all[i + 1].fragments@[0]) by {
        if i < pre.len() - 1 {
            assert(all[i] == pre[i]);
            assert(all[i + 1] == pre[i + 1]);
        } else {
            assert(all[i] == pre.last());
            assert(all[i + 1] == c);
        }
    }
}

/// The scan of a whole fragment list: every clump is exactly the scan
/// fold of its fragments, with the paragraph byte cursor and whitespace
/// state threaded across the clumps, against the paragraph's bidi
/// levels; the clumps' concatenated raw text is the input's, and the
/// clumps are maximal mergeable runs.
pub open spec fn scan_phase_post(phase: ScanPhase, frags: Seq<Fragment>, ctx: FontContext) -> bool {
    let levels = scan_levels_spec(frags);
    &&& clumps_ok(phase.clumps@, levels, ctx)
    &&& (forall|i: int|
        0 <= i < phase.clumps@.len() ==> clump_frags_mergeable(
            (#[trigger] phase.clumps@[i]).fragments@,
        ))
    &&& clumps_maximal(phase.clumps@)
    &&& phase.last_whitespace == ws_after(
        phase.clumps@,
        phase.clumps@.len() as int,
        levels,
        ctx,
    )
    &&& clumps_text(phase.clumps@, phase.clumps@.len() as int) == frags_text(
        frags,
        frags.len() as int,
    )
    &&& phase.clumps@.len() >= 1
}

impl TextRunScanner {
    /// Scans an inline flow's fragments into shaping units: splits
    /// fragments at internal forced line breaks, groups them into
    /// maximal mergeable clumps, and scans each clump against the
    /// paragraph's bidi embedding levels with the font group its own
    /// style selects, carrying the whitespace state across clumps. The
    /// input must not be empty, and the font context must serve every
    /// text fragment's font style.
    #[verifier::rlimit(100)]
    pub fn scan_for_runs(&mut self, font_context: &FontContext, fragments: Vec<Fragment>) -> (phase:
        ScanPhase)
        requires
            old(self).clump@.len() == 0,
            fragments@.len() > 0,
            forall|i: int| 0 <= i < fragments@.len() ==> (#[trigger] fragments@[i]).wf(),
            forall|i: int|
                0 <= i < fragments@.len() ==> frag_group_ok(
                    #[trigger] fragments@[i],
                    *font_context,
                ),
        ensures
            scan_phase_post(phase, fragments@, *font_context),
            final(self).clump@.len() == 0,
    {
        let ghost orig = fragments@;
        let ghost nfrags = fragments@.len() as int;
        let para_level = crate::style::base_bidi_level(&fragments[0].style);
        let para = build_paragraph_text(&fragments);
        let total_bytes = str_byte_len(para.as_str());
        let level_vec = crate::bidi::compute_bidi_levels(para.as_str(), para_level);
        let bidi_levels: Option<Vec<u8>> = if crate::bidi::has_rtl(&level_vec) {
            Some(level_vec)
        } else {
            None
        };
        let ghost levels_g = scan_levels_spec(orig);
        proof {
            assert(levels_view(bidi_levels) == levels_g);
            lemma_para_text_bytes(orig, nfrags);
            lemma_frags_text_bytes(orig, nfrags);
        }
        let mut input = fragments;
        let mut stack: Vec<Fragment> = Vec::new();
        proof {
            assert(orig.take(nfrags) =~= orig);
            assert(stack_text(stack@) =~= Seq::<char>::empty());
            assert(frags_text(input@, nfrags) + Seq::<char>::empty() =~= frags_text(
                input@,
                nfrags,
            ));
        }
        while input.len() > 0
            invariant
                nfrags == orig.len(),
                input@ == orig.take(input@.len() as int),
                frags_text(input@, input@.len() as int) + stack_text(stack@) == frags_text(
                    orig,
                    nfrags,
                ),
                frags_ok(stack@, *font_context),
                frags_ok(orig, *font_context),
                input@.len() + stack@.len() == nfrags,
            decreases input@.len(),
        {
            let ghost m = input@.len() as int;
            proof {
                lemma_frag_take_prefix(orig, m, m);
                lemma_frag_take_prefix(orig, m - 1, m - 1);
                assert(input@.take(m - 1) =~= orig.take(m - 1));
            }
            let f = match input.pop() {
                Some(f) => f,
                None => {
                    proof {
                        assert(false);
                    }
                    continue ;
                },
            };
            proof {
                assert(f == orig[m - 1]);
                assert(f.wf() && frag_group_ok(f, *font_context));
            }
            let ghost pre_stack = stack@;
            stack.push(f);
            proof {
                assert(stack@.take(stack@.len() - 1) =~= pre_stack);
                assert(stack@.last() == f);
                assert(stack_text(stack@) == frag_text(f) + stack_text(pre_stack));
                assert(frags_text(orig, m - 1) + (frag_text(orig[m - 1]) + stack_text(pre_stack))
                    =~= (frags_text(orig, m - 1) + frag_text(orig[m - 1])) + stack_text(
                    pre_stack,
                ));
            }
        }
        proof {
            assert(frags_text(input@, 0) =~= Seq::<char>::empty());
            assert(Seq::<char>::empty() + stack_text(stack@) =~= stack_text(stack@));
        }
        let mut clumps: Vec<ClumpScan> = Vec::new();
        let mut last_ws: bool = false;
        let mut pbp: usize = 0;
        while stack.len() > 0
            invariant
                nfrags == orig.len(),
                self.clump@.len() == 0,
                frags_ok(stack@, *font_context),
                levels_g == levels_view(bidi_levels),
                (match bidi_levels {
                    Some(ls) => ls@.len() == total_bytes,
                    None => true,
                }),
                total_bytes == clump_bytes_before(orig, nfrags),
                total_bytes == byte_len(frags_text(orig, nfrags)),
                clumps_ok(clumps@, levels_g, *font_context),
                forall|i: int|
                    0 <= i < clumps@.len() ==> clump_frags_mergeable(
                        (#[trigger] clumps@[i]).fragments@,
                    ),
                clumps_maximal(clumps@),
                clumps@.len() > 0 && stack@.len() > 0 ==> !(clumps@.last().fragments@.last()
                    .can_merge_spec(&stack@[stack@.len() - 1])),
                last_ws == ws_after(clumps@, clumps@.len() as int, levels_g, *font_context),
                pbp as int == clumps_bytes(clumps@, clumps@.len() as int),
                clumps_text(clumps@, clumps@.len() as int) + stack_text(stack@) == frags_text(
                    orig,
                    nfrags,
                ),
                clumps@.len() > 0 || stack@.len() > 0,
            decreases stack_text(stack@).len(), stack@.len(),
        {
            let ghost outer_pre_stack = stack@;
            let ghost outer_text0 = stack_text(outer_pre_stack).len() as int;
            let ghost outer_len0 = outer_pre_stack.len() as int;
            proof {
                assert forall|i: int| 0 <= i < stack@.len() implies (#[trigger] stack@[i]).wf() by {
                    assert(stack@[i].wf() && frag_group_ok(stack@[i], *font_context));
                }
            }
            split_first_fragment_at_newline_if_necessary(&mut stack);
            proof {
                lemma_split_stack_text(outer_pre_stack, stack@);
                lemma_split_preserves_group_ok(outer_pre_stack, stack@, *font_context);
            }
            let ghost split_stack = stack@;
            let f = match stack.pop() {
                Some(f) => f,
                None => {
                    proof {
                        assert(false);
                    }
                    continue ;
                },
            };
            let ghost first_f = f;
            proof {
                assert(split_stack.last() == first_f);
                if clumps@.len() > 0 {
                    lemma_split_preserves_merge_target(
                        outer_pre_stack,
                        split_stack,
                        clumps@.last().fragments@.last(),
                    );
                    assert(!clumps@.last().fragments@.last().can_merge_spec(&first_f));
                }
            }
            self.clump.push(f);
            proof {
                assert(self.clump@ =~= seq![f]);
                assert(clump_frags_mergeable(self.clump@));
                assert(self.clump@[0] == f);
                assert(frags_text(self.clump@, 0) == Seq::<char>::empty());
                assert(frags_text(self.clump@, 1) == Seq::<char>::empty() + frag_text(f));
                assert(Seq::<char>::empty() + frag_text(f) =~= frag_text(f));
                if needs_newline_split(outer_pre_stack.last()) {
                    lemma_first_newline_range(frag_text(outer_pre_stack.last()));
                    assert(frag_text(f).len() >= 1);
                }
                assert(stack_text(stack@).len() + frag_text(f).len() + 0 == outer_text0 || (
                stack_text(stack@).len() + frag_text(f).len() == outer_text0 && stack@.len() + 1
                    <= outer_len0));
            }
            loop
                invariant
                    frags_ok(stack@, *font_context),
                    self.clump@.len() > 0,
                    self.clump@[0] == first_f,
                    frag_group_ok(self.clump@[0], *font_context),
                    forall|i: int|
                        0 <= i < self.clump@.len() ==> (#[trigger] self.clump@[i]).wf(),
                    !(self.clump@[0].specific is UnscannedText) ==> self.clump@.len() == 1,
                    self.clump@[0].specific is UnscannedText ==> (forall|i: int|
                        0 <= i < self.clump@.len() ==> (#[trigger] self.clump@[i]).specific
                            is UnscannedText && self.clump@[i].style == self.clump@[0].style),
                    clump_frags_mergeable(self.clump@),
                    clumps_text(clumps@, clumps@.len() as int) + (frags_text(
                        self.clump@,
                        self.clump@.len() as int,
                    ) + stack_text(stack@)) == frags_text(orig, nfrags),
                    stack_text(stack@).len() < outer_text0 || (stack_text(stack@).len()
                        == outer_text0 && stack@.len() < outer_len0),
                ensures
                    stack@.len() == 0 || !(self.clump@.last().can_merge_spec(
                        &stack@[stack@.len() - 1],
                    )),
                decreases stack_text(stack@).len(), stack@.len(),
            {
                if stack.len() == 0 {
                    break ;
                }
                let cl = self.clump.len();
                let sl = stack.len();
                let mergeable = self.clump[cl - 1].can_merge_with_fragment(&stack[sl - 1]);
                if !mergeable {
                    break ;
                }
                let ghost pre_stack = stack@;
                proof {
                    assert forall|i: int|
                        0 <= i < stack@.len() implies (#[trigger] stack@[i]).wf() by {
                        assert(stack@[i].wf() && frag_group_ok(stack@[i], *font_context));
                    }
                }
                split_first_fragment_at_newline_if_necessary(&mut stack);
                proof {
                    lemma_split_stack_text(pre_stack, stack@);
                    lemma_split_preserves_group_ok(pre_stack, stack@, *font_context);
                }
                let g = match stack.pop() {
                    Some(g) => g,
                    None => {
                        proof {
                            assert(false);
                        }
                        break ;
                    },
                };
                proof {
                    if needs_newline_split(pre_stack.last()) {
                        assert(g == stack@.push(g).last());
                        assert(newline_split_of(
                            pre_stack.last(),
                            g,
                            stack@[stack@.len() - 1],
                        ));
                    }
                    assert(g.specific is UnscannedText);
                    assert(g.style == self.clump@[0].style);
                }
                let ghost pre_clump = self.clump@;
                self.clump.push(g);
                proof {
                    assert(forall|j: int|
                        0 <= j < pre_clump.len() ==> self.clump@[j] == pre_clump[j]);
                    assert(pre_clump[pre_clump.len() - 1].can_merge_spec(&g));
                    assert(clump_frags_mergeable(self.clump@));
                    lemma_frag_push_prefix(pre_clump, g, pre_clump.len() as int);
                    assert(frags_text(self.clump@, self.clump@.len() as int) == frags_text(
                        pre_clump,
                        pre_clump.len() as int,
                    ) + frag_text(g));
                    if needs_newline_split(pre_stack.last()) {
                        lemma_first_newline_range(frag_text(pre_stack.last()));
                        assert(frag_text(g).len() >= 1);
                    }
                }
            }
            let ghost clump_g = self.clump@;
            proof {
                lemma_clump_bytes_bound(clumps@, clump_g, stack@, frags_text(orig, nfrags));
            }
            let (scan, ws) = self.flush_clump_to_list(
                font_context,
                &bidi_levels,
                &mut pbp,
                last_ws,
            );
            let ghost pre_clumps = clumps@;
            clumps.push(scan);
            last_ws = ws;
            proof {
                assert(clumps@ == pre_clumps.push(clumps@.last()));
                assert(clumps@.last().fragments@ == clump_g);
                assert(clump_g[0] == first_f);
                lemma_after_flush(
                    pre_clumps,
                    clumps@.last(),
                    stack@,
                    ws,
                    pbp as int,
                    levels_g,
                    *font_context,
                    frags_text(orig, nfrags),
                );
                assert(stack@.len() > 0 ==> !(clumps@.last().fragments@.last().can_merge_spec(
                    &stack@[stack@.len() - 1],
                )));
            }
        }
        proof {
            assert(stack_text(stack@) =~= Seq::<char>::empty());
            assert(clumps_text(clumps@, clumps@.len() as int) + Seq::<char>::empty()
                =~= clumps_text(clumps@, clumps@.len() as int));
        }
        ScanPhase { clumps, last_whitespace: last_ws }
    }
}


/// One outer iteration's bookkeeping in a single step: pushing the
/// freshly flushed clump keeps every threaded obligation of the clump
/// list.
#[verifier::spinoff_prover]
#[verifier::rlimit(60)]
pub proof fn lemma_after_flush(
    pre: Seq<ClumpScan>,
    c: ClumpScan,
    stack: Seq<Fragment>,
    ws1: bool,
    pbp1: int,
    levels: Option<Seq<u8>>,
    ctx: FontContext,
    orig_text: Seq<char>,
)
    requires
        clumps_ok(pre, levels, ctx),
        forall|i: int|
            0 <= i < pre.len() ==> clump_frags_mergeable((#[trigger] pre[i]).fragments@),
        clumps_maximal(pre),
        c.fragments@.len() > 0,
        !(c.fragments@[0].specific is UnscannedText) ==> c.fragments@.len() == 1,
        clump_frags_mergeable(c.fragments@),
        pre.len() > 0 ==> !pre.last().fragments@.last().can_merge_spec(&c.fragments@[0]),
        clump_flush_post(
            c,
            ws1,
            pbp1,
            c.fragments@,
            clumps_bytes(pre, pre.len() as int),
            ws_after(pre, pre.len() as int, levels, ctx),
            levels,
            clump_group_of(ctx, c),
        ),
        clumps_text(pre, pre.len() as int) + (frags_text(
            c.fragments@,
            c.fragments@.len() as int,
        ) + stack_text(stack)) == orig_text,
    ensures
        clumps_ok(pre.push(c), levels, ctx),
        forall|i: int|
            0 <= i < pre.push(c).len() ==> clump_frags_mergeable(
                (#[trigger] pre.push(c)[i]).fragments@,
            ),
        clumps_maximal(pre.push(c)),
        ws_after(pre.push(c), pre.len() as int + 1, levels, ctx) == ws1,
        clumps_bytes(pre.push(c), pre.len() as int + 1) == pbp1,
        clumps_text(pre.push(c), pre.len() as int + 1) + stack_text(stack) == orig_text,
{
    let all = pre.push(c);
    assert(forall|i: int| 0 <= i < pre.len() ==> all[i] == pre[i]);
    assert(all.last() == c);
    lemma_clumps_maximal_push(pre, c);
    lemma_clumps_ok_push(pre, c, ws1, pbp1, levels, ctx);
    assert(clumps_text(all, pre.len() as int + 1) + stack_text(stack) =~= (clumps_text(
        pre,
        pre.len() as int,
    ) + (frags_text(c.fragments@, c.fragments@.len() as int) + stack_text(stack))));
}


/// Mapping indices carried through the scan: every recorded mapping
/// points at an already-started fragment (in fragment order) and at a
/// unit no later than the current one.
pub open spec fn maps_indices_core(v: ScanV) -> bool {
    &&& (forall|k: int| 0 <= k < v.maps.len() ==> 0 <= (#[trigger] v.maps[k]).frag <= v.map.frag)
    &&& (forall|k1: int, k2: int|
        0 <= k1 <= k2 < v.maps.len() ==> (#[trigger] v.maps[k1]).frag <= (
        #[trigger] v.maps[k2]).frag)
    &&& (forall|k: int| 0 <= k < v.maps.len() ==> 0 <= (#[trigger] v.maps[k]).run <= v.runs.len())
    &&& 0 <= v.map.frag
}

pub open spec fn maps_indices_full(v: ScanV) -> bool {
    maps_indices_core(v) && v.map.run == v.runs.len()
}

proof fn lemma_map_flush_indices(
    v: ScanV,
    text: Seq<char>,
    end: int,
    mode: CompressionMode,
    case: TextTransformCase,
)
    requires
        maps_indices_full(v),
    ensures
        maps_indices_full(map_flush_v(v, text, end, mode, case)),
{
    let w = map_flush_v(v, text, end, mode, case);
    if w.maps != v.maps {
        assert(forall|k: int| 0 <= k < v.maps.len() ==> w.maps[k] == v.maps[k]);
        assert(w.maps.last().frag == v.map.frag);
        assert(w.maps.last().run == v.runs.len());
    }
}

proof fn lemma_run_flush_indices(v: ScanV)
    requires
        maps_indices_core(v),
    ensures
        maps_indices_core(run_flush_v(v)),
{
}

proof fn lemma_scan_char_indices(
    v: ScanV,
    text: Seq<char>,
    j: int,
    info: CharInfoV,
    mode: CompressionMode,
    case: TextTransformCase,
)
    requires
        maps_indices_full(v),
    ensures
        maps_indices_full(scan_char_v(v, text, j, info, mode, case)),
        scan_char_v(v, text, j, info, mode, case).map.frag == v.map.frag,
{
    if !info.ctl {
        let compatible = is_compatible_spec(info.script, v.run.script);
        let v0 = if compatible && !is_specific_spec(v.run.script) && is_specific_spec(info.script) {
            ScanV { run: RunInfoV { script: info.script, ..v.run }, ..v }
        } else {
            v
        };
        let flush_run = !(v0.run.font == info.font) || v0.run.level != info.level || !compatible;
        let new_mapping = flush_run || v0.map.selected != info.selected;
        if new_mapping {
            let v1 = if j > 0 {
                map_flush_v(v0, text, j, mode, case)
            } else {
                v0
            };
            if j > 0 {
                lemma_map_flush_indices(v0, text, j, mode, case);
            }
            let v2 = if v1.run.text.len() > 0 {
                let v1b = if flush_run {
                    run_flush_v(v1)
                } else {
                    v1
                };
                if flush_run {
                    lemma_run_flush_indices(v1);
                }
                ScanV {
                    map: MapV {
                        begin: 0,
                        length: 0,
                        frag: v0.map.frag,
                        run: v1b.runs.len() as int,
                        selected: false,
                    },
                    ..v1b
                }
            } else {
                v1
            };
            assert(maps_indices_full(v2));
        }
    }
}

proof fn lemma_scan_chars_indices(
    v: ScanV,
    text: Seq<char>,
    n: int,
    para_start: int,
    levels: Option<Seq<u8>>,
    fg: FontGroup,
    sel: Option<ByteRange>,
    mode: CompressionMode,
    case: TextTransformCase,
)
    requires
        maps_indices_full(v),
    ensures
        maps_indices_full(scan_chars_v(v, text, n, para_start, levels, fg, sel, mode, case)),
        scan_chars_v(v, text, n, para_start, levels, fg, sel, mode, case).map.frag == v.map.frag,
    decreases n,
{
    if n > 0 {
        lemma_scan_chars_indices(v, text, n - 1, para_start, levels, fg, sel, mode, case);
        lemma_scan_char_indices(
            scan_chars_v(v, text, n - 1, para_start, levels, fg, sel, mode, case),
            text,
            n - 1,
            char_info_at(text, n - 1, para_start, levels, fg, sel),
            mode,
            case,
        );
    }
}

proof fn lemma_scan_frag_indices(
    v: ScanV,
    frag: int,
    text: Seq<char>,
    sel: Option<ByteRange>,
    para_start: int,
    levels: Option<Seq<u8>>,
    fg: FontGroup,
    mode: CompressionMode,
    case: TextTransformCase,
)
    requires
        maps_indices_core(v),
        v.map.frag <= frag,
        0 <= frag,
    ensures
        maps_indices_full(scan_frag_v(v, frag, text, sel, para_start, levels, fg, mode, case)),
        scan_frag_v(v, frag, text, sel, para_start, levels, fg, mode, case).map.frag == frag,
{
    let v0 = frag_init_v(v, frag, sel);
    assert(maps_indices_full(v0));
    lemma_scan_chars_indices(v0, text, text.len() as int, para_start, levels, fg, sel, mode, case);
    lemma_map_flush_indices(
        scan_chars_v(v0, text, text.len() as int, para_start, levels, fg, sel, mode, case),
        text,
        text.len() as int,
        mode,
        case,
    );
}

proof fn lemma_scan_clump_indices(
    v: ScanV,
    frags: Seq<Fragment>,
    i: int,
    para0: int,
    levels: Option<Seq<u8>>,
    fg: FontGroup,
    mode: CompressionMode,
    case: TextTransformCase,
)
    requires
        maps_indices_full(v),
        v.map.frag == 0,
    ensures
        maps_indices_full(scan_clump_v(v, frags, i, para0, levels, fg, mode, case)),
        scan_clump_v(v, frags, i, para0, levels, fg, mode, case).map.frag == (if i <= 0 {
            0int
        } else {
            i - 1
        }),
    decreases i,
{
    if i > 0 {
        lemma_scan_clump_indices(v, frags, i - 1, para0, levels, fg, mode, case);
        lemma_scan_frag_indices(
            scan_clump_v(v, frags, i - 1, para0, levels, fg, mode, case),
            i - 1,
            frag_text(frags[i - 1]),
            frag_sel(frags[i - 1]),
            para0 + clump_bytes_before(frags, i - 1),
            levels,
            fg,
            mode,
            case,
        );
    }
}

/// In a completed clump scan, every mapping's fragment index is a real
/// fragment of the clump, the indices stand in fragment order, and every
/// mapping points at a finalized run.
pub proof fn lemma_scan_mapping_indices(
    last_ws: bool,
    frags: Seq<Fragment>,
    para0: int,
    levels: Option<Seq<u8>>,
    fg: FontGroup,
    mode: CompressionMode,
    case: TextTransformCase,
)
    requires
        frags.len() > 0,
    ensures
        ({
            let fin = scan_clump_full_v(init_scan_v(last_ws), frags, para0, levels, fg, mode, case);
            &&& (forall|k: int|
                0 <= k < fin.maps.len() ==> 0 <= (#[trigger] fin.maps[k]).frag < frags.len() && 0
                    <= fin.maps[k].run < fin.runs.len())
            &&& (forall|k1: int, k2: int|
                0 <= k1 <= k2 < fin.maps.len() ==> (#[trigger] fin.maps[k1]).frag <= (
                #[trigger] fin.maps[k2]).frag)
        }),
{
    let v0 = init_scan_v(last_ws);
    assert(maps_indices_full(v0));
    lemma_scan_clump_indices(v0, frags, frags.len() as int, para0, levels, fg, mode, case);
    let before = scan_clump_v(v0, frags, frags.len() as int, para0, levels, fg, mode, case);
    lemma_run_flush_indices(before);
    let fin = run_flush_v(before);
    assert(fin.maps == before.maps);
    assert(fin.runs.len() == before.runs.len() + 1);
    assert(forall|k: int|
        0 <= k < fin.maps.len() ==> (#[trigger] fin.maps[k]).frag <= frags.len() - 1);
}

/// The mapping list of a scanned clump is internally consistent: indices
/// in range, fragment order nondecreasing, byte ranges within the
/// address space.
pub open spec fn clump_mappings_wf(c: ClumpScan) -> bool {
    &&& (forall|j: int|
        0 <= j < c.mappings@.len() ==> (#[trigger] c.mappings@[j]).old_fragment_index
            < c.fragments@.len() && c.mappings@[j].text_run_index < c.runs@.len()
            && c.mappings@[j].byte_range.begin + c.mappings@[j].byte_range.length <= usize::MAX)
    &&& (forall|j1: int, j2: int|
        0 <= j1 <= j2 < c.mappings@.len() ==> (#[trigger] c.mappings@[j1]).old_fragment_index <= (
        #[trigger] c.mappings@[j2]).old_fragment_index)
}

/// The summed byte lengths of the mappings that point at run `r`.
pub open spec fn maps_len_sum(maps: Seq<MapV>, r: int) -> int
    decreases maps.len(),
{
    if maps.len() == 0 {
        0
    } else {
        maps_len_sum(maps.drop_last(), r) + (if maps.last().run == r {
            maps.last().length
        } else {
            0
        })
    }
}

pub proof fn lemma_maps_len_sum_push(maps: Seq<MapV>, m: MapV, r: int)
    ensures
        maps_len_sum(maps.push(m), r) == maps_len_sum(maps, r) + (if m.run == r {
            m.length
        } else {
            0
        }),
{
    assert(maps.push(m).drop_last() =~= maps);
    assert(maps.push(m).last() == m);
}

/// Byte accounting carried through the scan: each finalized run's
/// mappings sum to its text's byte length, the current unit's mappings
/// sum to its accumulated text, and no mapping points past the current
/// unit.
pub open spec fn byte_accounting(v: ScanV) -> bool {
    &&& (forall|r: int|
        0 <= r < v.runs.len() ==> maps_len_sum(v.maps, r) == byte_len(
            #[trigger] v.runs[r].text,
        ))
    &&& maps_len_sum(v.maps, v.runs.len() as int) == byte_len(v.run.text)
    &&& (forall|r: int| r > v.runs.len() ==> #[trigger] maps_len_sum(v.maps, r) == 0)
}

pub open spec fn byte_accounting_full(v: ScanV) -> bool {
    &&& byte_accounting(v)
    &&& v.map.run == v.runs.len()
}

pub proof fn lemma_map_flush_accounting(
    v: ScanV,
    text: Seq<char>,
    end: int,
    mode: CompressionMode,
    case: TextTransformCase,
)
    requires
        byte_accounting_full(v),
    ensures
        byte_accounting_full(map_flush_v(v, text, end, mode, case)),
{
    let seg = text.subrange(v.seg_start, end);
    let ap = appended_text_spec(seg, mode, case, v.last_ws, v.seg_start == 0);
    let w = map_flush_v(v, text, end, mode, case);
    crate::chars::lemma_byte_len_concat(v.run.text, ap.0);
    crate::chars::lemma_byte_len_bounds(ap.0);
    if !(ap.0.len() == 0 && v.seg_start != end) {
        let m = MapV {
            begin: byte_len(v.run.text),
            length: byte_len(ap.0),
            frag: v.map.frag,
            run: v.map.run,
            selected: v.map.selected,
        };
        assert forall|r: int| 0 <= r < w.runs.len() implies maps_len_sum(w.maps, r) == byte_len(
            #[trigger] w.runs[r].text,
        ) by {
            lemma_maps_len_sum_push(v.maps, m, r);
        }
        lemma_maps_len_sum_push(v.maps, m, v.runs.len() as int);
        assert forall|r: int| r > w.runs.len() implies #[trigger] maps_len_sum(w.maps, r) == 0 by {
            lemma_maps_len_sum_push(v.maps, m, r);
        }
    } else {
        assert(byte_len(ap.0) == 0);
    }
}

pub proof fn lemma_run_flush_accounting(v: ScanV)
    requires
        byte_accounting(v),
    ensures
        byte_accounting(run_flush_v(v)),
{
    let w = run_flush_v(v);
    assert(w.runs[w.runs.len() - 1].text == v.run.text);
    assert(byte_len(w.run.text) == 0);
    assert(forall|r: int|
        0 <= r < v.runs.len() ==> #[trigger] w.runs[r].text == v.runs[r].text);
}

pub proof fn lemma_scan_char_accounting(
    v: ScanV,
    text: Seq<char>,
    j: int,
    info: CharInfoV,
    mode: CompressionMode,
    case: TextTransformCase,
)
    requires
        byte_accounting_full(v),
    ensures
        byte_accounting_full(scan_char_v(v, text, j, info, mode, case)),
{
    if !info.ctl {
        let compatible = is_compatible_spec(info.script, v.run.script);
        let v0 = if compatible && !is_specific_spec(v.run.script) && is_specific_spec(info.script) {
            ScanV { run: RunInfoV { script: info.script, ..v.run }, ..v }
        } else {
            v
        };
        let flush_run = !(v0.run.font == info.font) || v0.run.level != info.level || !compatible;
        let new_mapping = flush_run || v0.map.selected != info.selected;
        if new_mapping {
            let v1 = if j > 0 {
                map_flush_v(v0, text, j, mode, case)
            } else {
                v0
            };
            if j > 0 {
                lemma_map_flush_accounting(v0, text, j, mode, case);
            }
            let v2 = if v1.run.text.len() > 0 {
                let v1b = if flush_run {
                    run_flush_v(v1)
                } else {
                    v1
                };
                if flush_run {
                    lemma_run_flush_accounting(v1);
                }
                ScanV {
                    map: MapV {
                        begin: 0,
                        length: 0,
                        frag: v0.map.frag,
                        run: v1b.runs.len() as int,
                        selected: false,
                    },
                    ..v1b
                }
            } else {
                v1
            };
            assert(byte_accounting_full(v2));
        }
    }
}

pub proof fn lemma_scan_chars_accounting(
    v: ScanV,
    text: Seq<char>,
    n: int,
    para_start: int,
    levels: Option<Seq<u8>>,
    fg: FontGroup,
    sel: Option<ByteRange>,
    mode: CompressionMode,
    case: TextTransformCase,
)
    requires
        byte_accounting_full(v),
    ensures
        byte_accounting_full(scan_chars_v(v, text, n, para_start, levels, fg, sel, mode, case)),
    decreases n,
{
    if n > 0 {
        lemma_scan_chars_accounting(v, text, n - 1, para_start, levels, fg, sel, mode, case);
        lemma_scan_char_accounting(
            scan_chars_v(v, text, n - 1, para_start, levels, fg, sel, mode, case),
            text,
            n - 1,
            char_info_at(text, n - 1, para_start, levels, fg, sel),
            mode,
            case,
        );
    }
}

pub proof fn lemma_scan_frag_accounting(
    v: ScanV,
    frag: int,
    text: Seq<char>,
    sel: Option<ByteRange>,
    para_start: int,
    levels: Option<Seq<u8>>,
    fg: FontGroup,
    mode: CompressionMode,
    case: TextTransformCase,
)
    requires
        byte_accounting(v),
    ensures
        byte_accounting(scan_frag_v(v, frag, text, sel, para_start, levels, fg, mode, case)),
        scan_frag_v(v, frag, text, sel, para_start, levels, fg, mode, case).map.run == scan_frag_v(
            v,
            frag,
            text,
            sel,
            para_start,
            levels,
            fg,
            mode,
            case,
        ).runs.len(),
{
    let v0 = frag_init_v(v, frag, sel);
    assert(byte_accounting_full(v0));
    lemma_scan_chars_accounting(
        v0,
        text,
        text.len() as int,
        para_start,
        levels,
        fg,
        sel,
        mode,
        case,
    );
    lemma_map_flush_accounting(
        scan_chars_v(v0, text, text.len() as int, para_start, levels, fg, sel, mode, case),
        text,
        text.len() as int,
        mode,
        case,
    );
}

pub proof fn lemma_scan_clump_accounting(
    v: ScanV,
    frags: Seq<Fragment>,
    i: int,
    para0: int,
    levels: Option<Seq<u8>>,
    fg: FontGroup,
    mode: CompressionMode,
    case: TextTransformCase,
)
    requires
        byte_accounting(v),
    ensures
        byte_accounting(scan_clump_v(v, frags, i, para0, levels, fg, mode, case)),
    decreases i,
{
    if i > 0 {
        lemma_scan_clump_accounting(v, frags, i - 1, para0, levels, fg, mode, case);
        lemma_scan_frag_accounting(
            scan_clump_v(v, frags, i - 1, para0, levels, fg, mode, case),
            i - 1,
            frag_text(frags[i - 1]),
            frag_sel(frags[i - 1]),
            para0 + clump_bytes_before(frags, i - 1),
            levels,
            fg,
            mode,
            case,
        );
    }
}

/// Round-trip byte-length accounting: in a completed clump scan, the
/// mappings of every finalized run sum, byte for byte, to the length of
/// that run's transformed text.
pub proof fn lemma_round_trip_byte_accounting(
    last_ws: bool,
    frags: Seq<Fragment>,
    para0: int,
    levels: Option<Seq<u8>>,
    fg: FontGroup,
    mode: CompressionMode,
    case: TextTransformCase,
)
    ensures
        ({
            let fin = scan_clump_full_v(init_scan_v(last_ws), frags, para0, levels, fg, mode, case);
            forall|r: int|
                0 <= r < fin.runs.len() ==> maps_len_sum(fin.maps, r) == byte_len(
                    #[trigger] fin.runs[r].text,
                )
        }),
{
    let v0 = init_scan_v(last_ws);
    assert(byte_accounting(v0));
    lemma_scan_clump_accounting(v0, frags, frags.len() as int, para0, levels, fg, mode, case);
    lemma_run_flush_accounting(
        scan_clump_v(v0, frags, frags.len() as int, para0, levels, fg, mode, case),
    );
}


/// One step never removes a finalized run.
pub proof fn lemma_runs_monotone_char(
    v: ScanV,
    text: Seq<char>,
    j: int,
    info: CharInfoV,
    mode: CompressionMode,
    case: TextTransformCase,
)
    ensures
        scan_char_v(v, text, j, info, mode, case).runs.len() >= v.runs.len(),
        scan_char_v(v, text, j, info, mode, case).runs.len() <= v.runs.len() + 1,
{
}

/// The fold never removes a finalized run.
pub proof fn lemma_runs_monotone_chars(
    v: ScanV,
    text: Seq<char>,
    j1: int,
    j2: int,
    para_start: int,
    levels: Option<Seq<u8>>,
    fg: FontGroup,
    sel: Option<ByteRange>,
    mode: CompressionMode,
    case: TextTransformCase,
)
    requires
        0 <= j1 <= j2,
    ensures
        scan_chars_v(v, text, j2, para_start, levels, fg, sel, mode, case).runs.len()
            >= scan_chars_v(v, text, j1, para_start, levels, fg, sel, mode, case).runs.len(),
    decreases j2 - j1,
{
    if j2 > j1 {
        lemma_runs_monotone_chars(v, text, j1, j2 - 1, para_start, levels, fg, sel, mode, case);
        lemma_runs_monotone_char(
            scan_chars_v(v, text, j2 - 1, para_start, levels, fg, sel, mode, case),
            text,
            j2 - 1,
            char_info_at(text, j2 - 1, para_start, levels, fg, sel),
            mode,
            case,
        );
    }
}

/// The segment start never runs ahead of the character cursor.
pub proof fn lemma_seg_start_chars(
    v: ScanV,
    text: Seq<char>,
    j: int,
    para_start: int,
    levels: Option<Seq<u8>>,
    fg: FontGroup,
    sel: Option<ByteRange>,
    mode: CompressionMode,
    case: TextTransformCase,
)
    requires
        0 <= j,
        v.seg_start == 0,
    ensures
        0 <= scan_chars_v(v, text, j, para_start, levels, fg, sel, mode, case).seg_start <= j,
    decreases j,
{
    if j > 0 {
        lemma_seg_start_chars(v, text, j - 1, para_start, levels, fg, sel, mode, case);
    }
}

/// The characters P5 speaks about: everything that is classified (not a
/// control) carries a specific script and is neither collapsible
/// whitespace nor a discardable character.
pub open spec fn p5_char_ok(c: char, mode: CompressionMode) -> bool {
    !is_control_char(c) ==> {
        &&& is_specific_spec(script_code_of(c))
        &&& !crate::transform::in_whitespace(c, mode)
        &&& !crate::chars::is_bidi_control_char(c)
        &&& (mode is CompressNone ==> c != '\n')
    }
}

/// The split-law induction invariant: either a run has already been
/// finalized, or the unit being built carries the first script and
/// either still owns the segment holding the first mixed character or
/// has already accumulated visible text.
pub open spec fn p5_inv(v: ScanV, a: int, sa: u8) -> bool {
    v.runs.len() >= 1 || (v.run.script == sa && (v.seg_start <= a || v.run.text.len() > 0))
}

/// The transformed segment is nonempty when it holds a kept character.
proof fn lemma_appended_keeps_char(
    text: Seq<char>,
    s: int,
    e: int,
    a: int,
    last_ws: bool,
    mode: CompressionMode,
    case: TextTransformCase,
)
    requires
        0 <= s <= a < e <= text.len(),
        p5_char_ok(text[a], mode),
        !is_control_char(text[a]),
    ensures
        appended_text_spec(text.subrange(s, e), mode, case, last_ws, s == 0).0.len() > 0,
{
    let seg = text.subrange(s, e);
    assert(seg[a - s] == text[a]);
    crate::transform::lemma_transform_keeps_char(seg, mode, last_ws, a - s);
    crate::transform::lemma_case_transform_keeps(
        crate::transform::transform_spec(seg, mode, last_ws).0,
        case,
        crate::transform::transform_spec(seg, mode, last_ws).1,
        s == 0,
    );
}

/// One step preserves the split-law invariant past position `a`.
#[verifier::spinoff_prover]
proof fn lemma_p5_step(
    v: ScanV,
    text: Seq<char>,
    j: int,
    info: CharInfoV,
    a: int,
    mode: CompressionMode,
    case: TextTransformCase,
)
    requires
        0 <= a < j < text.len(),
        0 <= v.seg_start <= j,
        p5_inv(v, a, script_code_of(text[a])),
        !is_control_char(text[a]),
        p5_char_ok(text[a], mode),
        p5_char_ok(text[j], mode),
        info.ctl == is_control_char(text[j]),
        !info.ctl ==> info.script == script_code_of(text[j]),
    ensures
        p5_inv(scan_char_v(v, text, j, info, mode, case), a, script_code_of(text[a])),
{
    let sa = script_code_of(text[a]);
    if !info.ctl {
        if v.runs.len() >= 1 {
            lemma_runs_monotone_char(v, text, j, info, mode, case);
        } else {
            let compatible = is_compatible_spec(info.script, v.run.script);
            let v0 = if compatible && !is_specific_spec(v.run.script) && is_specific_spec(
                info.script,
            ) {
                ScanV { run: RunInfoV { script: info.script, ..v.run }, ..v }
            } else {
                v
            };
            let flush_run = !(v0.run.font == info.font) || v0.run.level != info.level
                || !compatible;
            let new_mapping = flush_run || v0.map.selected != info.selected;
            assert(v0.run.script == sa);
            if new_mapping {
                let v1 = if j > 0 {
                    map_flush_v(v0, text, j, mode, case)
                } else {
                    v0
                };
                if v0.run.text.len() == 0 && v0.seg_start <= a {
                    lemma_appended_keeps_char(text, v0.seg_start, j, a, v0.last_ws, mode, case);
                }
                assert(v1.run.text.len() > 0);
                assert(v1.runs.len() == 0);
                let v1b = if flush_run {
                    run_flush_v(v1)
                } else {
                    v1
                };
                let v2 = ScanV {
                    map: MapV {
                        begin: 0,
                        length: 0,
                        frag: v0.map.frag,
                        run: v1b.runs.len() as int,
                        selected: false,
                    },
                    ..v1b
                };
                assert(scan_char_rest_v(v0, text, j, info, flush_run, mode, case) == ScanV {
                    run: RunInfoV {
                        font: info.font,
                        level: info.level,
                        script: info.script,
                        ..v2.run
                    },
                    map: MapV { selected: info.selected, ..v2.map },
                    ..v2
                });
                if flush_run {
                    assert(v1b.runs.len() >= 1);
                } else {
                    assert(is_compatible_spec(info.script, sa));
                    assert(info.script == sa);
                    assert(v2.run.text == v1.run.text);
                }
            } else {
                assert(scan_char_v(v, text, j, info, mode, case) == v0);
            }
        }
    }
}

/// The fold keeps the split-law invariant from just past `a` onwards.
proof fn lemma_p5_chars(
    v: ScanV,
    text: Seq<char>,
    j: int,
    a: int,
    para_start: int,
    levels: Option<Seq<u8>>,
    fg: FontGroup,
    sel: Option<ByteRange>,
    mode: CompressionMode,
    case: TextTransformCase,
)
    requires
        0 <= a < j <= text.len(),
        v.seg_start == 0,
        !is_control_char(text[a]),
        forall|k: int| a <= k < j ==> p5_char_ok(#[trigger] text[k], mode),
    ensures
        p5_inv(
            scan_chars_v(v, text, j, para_start, levels, fg, sel, mode, case),
            a,
            script_code_of(text[a]),
        ),
    decreases j,
{
    let sa = script_code_of(text[a]);
    let prev = scan_chars_v(v, text, j - 1, para_start, levels, fg, sel, mode, case);
    let info = char_info_at(text, j - 1, para_start, levels, fg, sel);
    lemma_seg_start_chars(v, text, j - 1, para_start, levels, fg, sel, mode, case);
    if j - 1 == a {
        // the step at `a` stamps the unit with `a`'s script
        assert(!info.ctl);
        assert(info.script == sa);
        let compatible = is_compatible_spec(info.script, prev.run.script);
        let v0 = if compatible && !is_specific_spec(prev.run.script) && is_specific_spec(
            info.script,
        ) {
            ScanV { run: RunInfoV { script: info.script, ..prev.run }, ..prev }
        } else {
            prev
        };
        let flush_run = !(v0.run.font == info.font) || v0.run.level != info.level || !compatible;
        let new_mapping = flush_run || v0.map.selected != info.selected;
        if new_mapping {
            assert(scan_char_v(prev, text, a, info, mode, case).run.script == sa);
            assert(scan_char_v(prev, text, a, info, mode, case).seg_start <= a);
        } else {
            assert(v0.run.script == sa);
        }
    } else {
        lemma_p5_chars(v, text, j - 1, a, para_start, levels, fg, sel, mode, case);
        lemma_p5_step(prev, text, j - 1, info, a, mode, case);
    }
}

/// Script-run splitting: a single-fragment clump holding characters of
/// two different specific scripts, with no Common or Inherited
/// characters between them — so, in that span, no collapsible
/// whitespace, no bidi controls and no discardable newlines, whose
/// scripts are all Common in Unicode, which the opaque script name
/// cannot see — finalizes at least two runs.
pub proof fn lemma_script_run_splitting(
    last_ws: bool,
    f: Fragment,
    para0: int,
    levels: Option<Seq<u8>>,
    fg: FontGroup,
    mode: CompressionMode,
    case: TextTransformCase,
    a: int,
    b: int,
)
    requires
        0 <= a < b < frag_text(f).len(),
        !is_control_char(frag_text(f)[a]),
        !is_control_char(frag_text(f)[b]),
        forall|k: int| a <= k <= b ==> p5_char_ok(#[trigger] frag_text(f)[k], mode),
        script_code_of(frag_text(f)[a]) != script_code_of(frag_text(f)[b]),
    ensures
        scan_clump_full_v(init_scan_v(last_ws), seq![f], para0, levels, fg, mode, case).runs.len()
            >= 2,
{
    let frags = seq![f];
    let t = frag_text(f);
    let sa = script_code_of(t[a]);
    let n = t.len() as int;
    assert(frags[0] == f);
    assert(scan_clump_v(init_scan_v(last_ws), frags, 0, para0, levels, fg, mode, case)
        == init_scan_v(last_ws));
    let after = scan_clump_v(init_scan_v(last_ws), frags, 1, para0, levels, fg, mode, case);
    assert(after == scan_frag_v(
        init_scan_v(last_ws),
        0,
        t,
        frag_sel(f),
        para0 + clump_bytes_before(frags, 0),
        levels,
        fg,
        mode,
        case,
    ));
    let v0 = frag_init_v(init_scan_v(last_ws), 0, frag_sel(f));
    assert(v0.seg_start == 0);
    assert(v0.runs.len() == 0);
    let para_start = para0 + clump_bytes_before(frags, 0);
    let sel = frag_sel(f);
    // at `b` the invariant holds, and the step at `b` forces a split
    lemma_p5_chars(v0, t, b, a, para_start, levels, fg, sel, mode, case);
    let at_b = scan_chars_v(v0, t, b, para_start, levels, fg, sel, mode, case);
    let info_b = char_info_at(t, b, para_start, levels, fg, sel);
    lemma_seg_start_chars(v0, t, b, para_start, levels, fg, sel, mode, case);
    assert(!info_b.ctl);
    assert(info_b.script == script_code_of(t[b]));
    if at_b.runs.len() == 0 {
        assert(at_b.run.script == sa);
        assert(!is_compatible_spec(info_b.script, at_b.run.script));
        let v1 = map_flush_v(at_b, t, b, mode, case);
        if at_b.run.text.len() == 0 {
            assert(at_b.seg_start <= a);
            lemma_appended_keeps_char(t, at_b.seg_start, b, a, at_b.last_ws, mode, case);
        }
        assert(v1.run.text.len() > 0);
        assert(scan_char_v(at_b, t, b, info_b, mode, case).runs.len() >= 1);
    } else {
        lemma_runs_monotone_char(at_b, t, b, info_b, mode, case);
    }
    lemma_runs_monotone_chars(v0, t, b + 1, n, para_start, levels, fg, sel, mode, case);
    let end_chars = scan_chars_v(v0, t, n, para_start, levels, fg, sel, mode, case);
    assert(end_chars.runs.len() >= 1);
    // the fragment's final mapping flush leaves the runs alone, and the
    // clump's final unit flush adds one more
    assert(after.runs.len() >= 1);
    assert(scan_clump_full_v(init_scan_v(last_ws), frags, para0, levels, fg, mode, case)
        == run_flush_v(after));
}

} // verus!

//! A plain-value model of the computed style bits this pipeline reads,
//! and the derivation of shaping options from them.

use vstd::prelude::*;
use crate::bidi::level_is_rtl;
use crate::script::SCRIPT_COMMON;
use crate::transform::{CompressionMode, TextTransformCase};

verus! {

#[derive(Clone, Copy, Debug, Eq, PartialEq, Structural)]
pub enum WhiteSpaceCollapse {
    Collapse,
    Preserve,
    PreserveBreaks,
    BreakSpaces,
}

#[derive(Clone, Copy, Debug, Eq, PartialEq, Structural)]
pub enum TextRendering {
    Auto,
    Optimizespeed,
    Optimizelegibility,
    Geometricprecision,
}

#[derive(Clone, Copy, Debug, Eq, PartialEq, Structural)]
pub enum WordBreak {
    Normal,
    BreakAll,
    KeepAll,
}

/// The computed style of a text fragment, reduced to the fields this
/// pipeline reads. Lengths are in app units; a `word_spacing` with
/// `word_spacing_specified == false` means "measure the space glyph".
/// `font_style_key` is the identity of the computed font style: the
/// font service is keyed by it, and fragments whose keys differ never
/// merge.
#[derive(Clone, Copy, Debug, Eq, PartialEq, Structural)]
pub struct TextStyle {
    pub font_style_key: u64,
    pub white_space_collapse: WhiteSpaceCollapse,
    pub text_transform: TextTransformCase,
    pub letter_spacing: i64,
    pub word_spacing_specified: bool,
    pub word_spacing: i64,
    pub text_rendering: TextRendering,
    pub word_break: WordBreak,
    pub writing_mode_rtl: bool,
}

/// The compression mode the white-space style asks for.
pub open spec fn compression_of(collapse: WhiteSpaceCollapse) -> CompressionMode {
    match collapse {
        WhiteSpaceCollapse::Collapse => CompressionMode::CompressWhitespaceNewline,
        WhiteSpaceCollapse::Preserve => CompressionMode::CompressNone,
        WhiteSpaceCollapse::BreakSpaces => CompressionMode::CompressNone,
        WhiteSpaceCollapse::PreserveBreaks => CompressionMode::CompressWhitespace,
    }
}

pub fn compression_from_style(collapse: WhiteSpaceCollapse) -> (r: CompressionMode)
    ensures
        r == compression_of(collapse),
{
    match collapse {
        WhiteSpaceCollapse::Collapse => CompressionMode::CompressWhitespaceNewline,
        WhiteSpaceCollapse::Preserve | WhiteSpaceCollapse::BreakSpaces => {
            CompressionMode::CompressNone
        },
        WhiteSpaceCollapse::PreserveBreaks => CompressionMode::CompressWhitespace,
    }
}

/// The paragraph's base bidi level from the writing mode: 1 for
/// right-to-left, 0 otherwise.
pub open spec fn base_level_of(style: TextStyle) -> u8 {
    if style.writing_mode_rtl {
        1
    } else {
        0
    }
}

pub fn base_bidi_level(style: &TextStyle) -> (r: u8)
    ensures
        r == base_level_of(*style),
{
    if style.writing_mode_rtl {
        1
    } else {
        0
    }
}

#[derive(Clone, Copy, Debug, Eq, PartialEq, Structural)]
pub struct ShapingFlags {
    pub ignore_ligatures: bool,
    pub disable_kerning: bool,
    pub keep_all: bool,
    pub rtl: bool,
}

/// What one shaping call is asked to do. `letter_spacing` is `None` when
/// the spacing is zero, matching what the shaper distinguishes.
#[derive(Clone, Copy, Debug, PartialEq)]
pub struct ShapingOptions {
    pub letter_spacing: Option<i64>,
    pub word_spacing: i64,
    pub script: u8,
    pub flags: ShapingFlags,
}

/// The clump-wide shaping options: ligatures are suppressed under nonzero
/// letter spacing or speed-optimized rendering, kerning under
/// speed-optimized rendering, and generic break opportunities under
/// `word-break: keep-all`; unspecified word spacing falls back to the
/// measured space advance.
pub open spec fn base_options_of(style: TextStyle, space_advance: i64) -> ShapingOptions {
    ShapingOptions {
        letter_spacing: if style.letter_spacing == 0 {
            None
        } else {
            Some(style.letter_spacing)
        },
        word_spacing: if style.word_spacing_specified {
            style.word_spacing
        } else {
            space_advance
        },
        script: SCRIPT_COMMON,
        flags: ShapingFlags {
            ignore_ligatures: style.letter_spacing != 0 || style.text_rendering
                is Optimizespeed,
            disable_kerning: style.text_rendering is Optimizespeed,
            keep_all: style.word_break is KeepAll,
            rtl: false,
        },
    }
}

pub fn base_shaping_options(style: &TextStyle, space_advance: i64) -> (r: ShapingOptions)
    ensures
        r == base_options_of(*style, space_advance),
{
    let letter_spacing = if style.letter_spacing == 0 {
        None
    } else {
        Some(style.letter_spacing)
    };
    let word_spacing = if style.word_spacing_specified {
        style.word_spacing
    } else {
        space_advance
    };
    let speed = match style.text_rendering {
        TextRendering::Optimizespeed => true,
        _ => false,
    };
    let keep_all = match style.word_break {
        WordBreak::KeepAll => true,
        _ => false,
    };
    ShapingOptions {
        letter_spacing,
        word_spacing,
        script: SCRIPT_COMMON,
        flags: ShapingFlags {
            ignore_ligatures: style.letter_spacing != 0 || speed,
            disable_kerning: speed,
            keep_all,
            rtl: false,
        },
    }
}

/// The per-run options: the run's script, and the RTL flag when the run's
/// embedding level is right-to-left.
pub open spec fn run_options_of(base: ShapingOptions, script: u8, level: u8) -> ShapingOptions {
    ShapingOptions {
        script,
        flags: ShapingFlags { rtl: level_is_rtl(level), ..base.flags },
        ..base
    }
}

pub fn options_for_run(base: &ShapingOptions, script: u8, level: u8) -> (r: ShapingOptions)
    ensures
        r == run_options_of(*base, script, level),
{
    ShapingOptions {
        letter_spacing: base.letter_spacing,
        word_spacing: base.word_spacing,
        script,
        flags: ShapingFlags {
            ignore_ligatures: base.flags.ignore_ligatures,
            disable_kerning: base.flags.disable_kerning,
            keep_all: base.flags.keep_all,
            rtl: level % 2 == 1,
        },
    }
}

} // verus!

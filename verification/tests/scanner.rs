use text_runs::byterange::ByteRange;
use text_runs::fonts::{FontContext, FontGroup, FontKey, FontRange, StyledFontGroup};
use text_runs::fragment::{
    Fragment, InlineNode, LogicalSize, SpecificFragmentInfo, UnscannedTextFragmentInfo,
};
use text_runs::reassemble::reassemble;
use text_runs::scanner::TextRunScanner;
use text_runs::style::{
    TextRendering, TextStyle, WhiteSpaceCollapse, WordBreak,
};
use text_runs::transform::TextTransformCase;

fn plain_style() -> TextStyle {
    TextStyle {
        font_style_key: 0,
        white_space_collapse: WhiteSpaceCollapse::Collapse,
        text_transform: TextTransformCase::NoTransform,
        letter_spacing: 0,
        word_spacing_specified: true,
        word_spacing: 0,
        text_rendering: TextRendering::Auto,
        word_break: WordBreak::Normal,
        writing_mode_rtl: false,
    }
}

fn text_fragment(text: &str, style: TextStyle) -> Fragment {
    text_fragment_with_selection(text, style, None)
}

fn text_fragment_with_selection(
    text: &str,
    style: TextStyle,
    selection: Option<ByteRange>,
) -> Fragment {
    Fragment {
        specific: SpecificFragmentInfo::UnscannedText(UnscannedTextFragmentInfo::new(
            text.to_string(),
            selection,
        )),
        style,
        inline_nodes: Vec::new(),
        border_box_size: LogicalSize { inline: 0, block: 0 },
    }
}

fn whole_range_group(identifier: u64) -> FontGroup {
    FontGroup {
        fonts: vec![FontRange {
            lo: 0,
            hi: 0x10FFFF,
            font: FontKey { identifier, pt_size: 12 },
        }],
        space_advance: 4,
    }
}

fn single_style_context() -> FontContext {
    FontContext {
        groups: vec![StyledFontGroup { style_key: 0, group: whole_range_group(1) }],
    }
}

#[test]
fn test_merged_fragments_one_run_three_mappings() {
    // "Foo" and "Bar" share a style and merge into one run; "Baz" has a
    // font style resolving to a different font, so it starts a new clump
    // and a new run.
    let style_a = plain_style();
    let mut style_b = plain_style();
    style_b.font_style_key = 1;
    let fragments = vec![
        text_fragment("Foo", style_a),
        text_fragment("Bar", style_a),
        text_fragment("Baz", style_b),
    ];
    let fg = FontContext {
        groups: vec![
            StyledFontGroup { style_key: 0, group: whole_range_group(1) },
            StyledFontGroup { style_key: 1, group: whole_range_group(2) },
        ],
    };
    let mut scanner = TextRunScanner::new();
    let phase = scanner.scan_for_runs(&fg, fragments);

    assert_eq!(phase.clumps.len(), 2);
    let total_runs: usize = phase.clumps.iter().map(|c| c.runs.len()).sum();
    let total_mappings: usize = phase.clumps.iter().map(|c| c.mappings.len()).sum();
    assert_eq!(total_runs, 2);
    assert_eq!(total_mappings, 3);
    assert_eq!(phase.clumps[0].runs[0].text, "FooBar");
    assert_eq!(phase.clumps[1].runs[0].text, "Baz");
    assert_eq!(phase.clumps[0].runs[0].font, Some(FontKey { identifier: 1, pt_size: 12 }));
    assert_eq!(phase.clumps[1].runs[0].font, Some(FontKey { identifier: 2, pt_size: 12 }));

    let shaped = vec![vec![Some(true)], vec![Some(true)]];
    let sizes = vec![
        vec![LogicalSize { inline: 0, block: 0 }; 2],
        vec![LogicalSize { inline: 0, block: 0 }; 1],
    ];
    let out = reassemble(phase, &shaped, &sizes);
    assert_eq!(out.len(), 3);
    match &out[0].specific {
        SpecificFragmentInfo::ScannedText(info) => {
            assert_eq!(info.run_index, 0);
            assert_eq!(info.range, ByteRange { begin: 0, length: 3 });
        },
        _ => panic!("expected scanned text"),
    }
    match &out[1].specific {
        SpecificFragmentInfo::ScannedText(info) => {
            assert_eq!(info.range, ByteRange { begin: 3, length: 3 });
        },
        _ => panic!("expected scanned text"),
    }
}

#[test]
fn test_mixed_scripts_split_runs() {
    // Latin then Hebrew with no intervening common characters: the script
    // (and the bidi level) breaks the run.
    let fragments = vec![text_fragment("a\u{05D0}", plain_style())];
    let fg = single_style_context();
    let mut scanner = TextRunScanner::new();
    let phase = scanner.scan_for_runs(&fg, fragments);
    assert_eq!(phase.clumps.len(), 1);
    assert_eq!(phase.clumps[0].runs.len(), 2);
    assert_eq!(phase.clumps[0].runs[0].text, "a");
    assert_eq!(phase.clumps[0].runs[1].text, "\u{05D0}");
}

#[test]
fn test_rtl_text_sets_rtl_level_and_flag() {
    let fragments = vec![text_fragment("\u{05E9}\u{05DC}\u{05D5}\u{05DD}", plain_style())];
    let fg = single_style_context();
    let mut scanner = TextRunScanner::new();
    let phase = scanner.scan_for_runs(&fg, fragments);
    assert_eq!(phase.clumps.len(), 1);
    assert_eq!(phase.clumps[0].runs.len(), 1);
    let run = &phase.clumps[0].runs[0];
    assert_eq!(run.bidi_level % 2, 1);
    assert!(run.options.flags.rtl);
}

#[test]
fn test_whitespace_collapses_across_fragments() {
    // the collapse state carries across fragment boundaries in a clump
    let style = plain_style();
    let fragments = vec![text_fragment("foo  ", style), text_fragment("  bar", style)];
    let fg = single_style_context();
    let mut scanner = TextRunScanner::new();
    let phase = scanner.scan_for_runs(&fg, fragments);
    assert_eq!(phase.clumps.len(), 1);
    assert_eq!(phase.clumps[0].runs.len(), 1);
    assert_eq!(phase.clumps[0].runs[0].text, "foo bar");
    assert_eq!(phase.clumps[0].mappings.len(), 2);
    // round-trip byte accounting over the run
    let total: usize = phase.clumps[0].mappings.iter().map(|m| m.byte_range.length).sum();
    assert_eq!(total, phase.clumps[0].runs[0].text.len());
}

#[test]
fn test_uppercase_style_transforms_run_text() {
    let mut style = plain_style();
    style.text_transform = TextTransformCase::Uppercase;
    let fragments = vec![text_fragment("stra\u{00DF}e", style)];
    let fg = single_style_context();
    let mut scanner = TextRunScanner::new();
    let phase = scanner.scan_for_runs(&fg, fragments);
    assert_eq!(phase.clumps[0].runs[0].text, "STRASSE");
}

#[test]
fn test_newline_split_preserve_breaks() {
    // a preserved internal newline splits the fragment; the break forces
    // the trailing-newline flag on the first slice
    let mut style = plain_style();
    style.white_space_collapse = WhiteSpaceCollapse::Preserve;
    let fragments = vec![text_fragment("ab\ncd", style)];
    let fg = single_style_context();
    let mut scanner = TextRunScanner::new();
    let phase = scanner.scan_for_runs(&fg, fragments);
    // two clumps: "ab\n" and "cd"
    assert_eq!(phase.clumps.len(), 2);
    assert_eq!(phase.clumps[0].runs[0].text, "ab\n");
    assert_eq!(phase.clumps[1].runs[0].text, "cd");
    let shaped = vec![vec![Some(true)], vec![Some(true)]];
    let sizes = vec![
        vec![LogicalSize { inline: 0, block: 0 }],
        vec![LogicalSize { inline: 0, block: 0 }],
    ];
    let out = reassemble(phase, &shaped, &sizes);
    assert_eq!(out.len(), 2);
    match &out[0].specific {
        SpecificFragmentInfo::ScannedText(info) => {
            // the newline is trimmed from the visible range but forces a
            // break afterwards
            assert_eq!(info.range, ByteRange { begin: 0, length: 2 });
            assert!(info.flags.requires_line_break_afterward_if_wrapping_on_newlines);
        },
        _ => panic!("expected scanned text"),
    }
}

#[test]
fn test_caret_lands_in_run() {
    // an empty selection range is a caret; it is claimed by the run and
    // referenced by the fragment whose slice contains it
    let style = plain_style();
    let fragments = vec![text_fragment_with_selection(
        "hello",
        style,
        Some(ByteRange { begin: 2, length: 0 }),
    )];
    let fg = single_style_context();
    let mut scanner = TextRunScanner::new();
    let phase = scanner.scan_for_runs(&fg, fragments);
    assert_eq!(phase.clumps[0].runs[0].insertion_point, Some(2));
    let shaped = vec![vec![Some(true)]];
    let sizes = vec![vec![LogicalSize { inline: 0, block: 0 }]];
    let out = reassemble(phase, &shaped, &sizes);
    assert_eq!(out.len(), 1);
    match &out[0].specific {
        SpecificFragmentInfo::ScannedText(info) => {
            assert_eq!(info.insertion_point, Some(2));
        },
        _ => panic!("expected scanned text"),
    }
}

#[test]
fn test_unshaped_run_drops_mappings() {
    let style = plain_style();
    let fragments = vec![text_fragment("abc", style)];
    let fg = FontContext {
        groups: vec![StyledFontGroup {
            style_key: 0,
            group: FontGroup { fonts: Vec::new(), space_advance: 4 },
        }],
    };
    let mut scanner = TextRunScanner::new();
    let phase = scanner.scan_for_runs(&fg, fragments);
    assert_eq!(phase.clumps[0].runs.len(), 1);
    assert_eq!(phase.clumps[0].runs[0].font, None);
    let shaped = vec![vec![None]];
    let sizes = vec![vec![LogicalSize { inline: 0, block: 0 }]];
    let out = reassemble(phase, &shaped, &sizes);
    assert_eq!(out.len(), 0);
}

#[test]
fn test_selection_split_forces_mapping_boundary() {
    // a selected span inside a fragment gets its own mapping without
    // splitting the run
    let style = plain_style();
    let fragments = vec![text_fragment_with_selection(
        "abcd",
        style,
        Some(ByteRange { begin: 1, length: 2 }),
    )];
    let fg = single_style_context();
    let mut scanner = TextRunScanner::new();
    let phase = scanner.scan_for_runs(&fg, fragments);
    assert_eq!(phase.clumps[0].runs.len(), 1);
    let maps = &phase.clumps[0].mappings;
    assert_eq!(maps.len(), 3);
    assert!(!maps[0].selected);
    assert!(maps[1].selected);
    assert!(!maps[2].selected);
    assert_eq!(maps[0].byte_range, ByteRange { begin: 0, length: 1 });
    assert_eq!(maps[1].byte_range, ByteRange { begin: 1, length: 2 });
    assert_eq!(maps[2].byte_range, ByteRange { begin: 3, length: 1 });
}

#[test]
fn test_non_text_fragment_passes_through() {
    let style = plain_style();
    let fragments = vec![
        Fragment {
            specific: SpecificFragmentInfo::Generic,
            style,
            inline_nodes: Vec::new(),
            border_box_size: LogicalSize { inline: 7, block: 9 },
        },
        text_fragment("x", style),
    ];
    let fg = single_style_context();
    let mut scanner = TextRunScanner::new();
    let phase = scanner.scan_for_runs(&fg, fragments);
    assert_eq!(phase.clumps.len(), 2);
    assert!(!phase.clumps[0].is_text);
    let shaped = vec![Vec::new(), vec![Some(true)]];
    let sizes = vec![Vec::new(), vec![LogicalSize { inline: 0, block: 0 }]];
    let out = reassemble(phase, &shaped, &sizes);
    assert_eq!(out.len(), 2);
    assert!(matches!(out[0].specific, SpecificFragmentInfo::Generic));
    assert_eq!(out[0].border_box_size, LogicalSize { inline: 7, block: 9 });
}

#[test]
fn test_collapsed_away_fragment_melds_into_neighbour() {
    // "\n" collapses to nothing after trailing whitespace; its inline
    // context melds into the previously emitted fragment
    let style = plain_style();
    let mut newline_frag = text_fragment("\n", style);
    newline_frag.inline_nodes = vec![InlineNode { first_of_element: true, last_of_element: true }];
    let fragments = vec![text_fragment("a ", style), newline_frag, text_fragment("b", style)];
    let fg = single_style_context();
    let mut scanner = TextRunScanner::new();
    let phase = scanner.scan_for_runs(&fg, fragments);
    assert_eq!(phase.clumps.len(), 2);
    assert_eq!(phase.clumps[0].runs[0].text, "a ");
    assert_eq!(phase.clumps[0].mappings.len(), 1);
    assert_eq!(phase.clumps[1].runs[0].text, "b");
    let shaped = vec![vec![Some(true)], vec![Some(true)]];
    let sizes = vec![
        vec![LogicalSize { inline: 0, block: 0 }],
        vec![LogicalSize { inline: 0, block: 0 }],
    ];
    let out = reassemble(phase, &shaped, &sizes);
    assert_eq!(out.len(), 2);
    assert_eq!(out[0].inline_nodes.len(), 1);
    assert!(out[0].inline_nodes[0].first_of_element);
}

#[test]
fn test_empty_fragment_carries_caret() {
    // an empty fragment with an empty selection range still produces a
    // mapping, so the caret survives reassembly
    let style = plain_style();
    let fragments = vec![text_fragment_with_selection(
        "",
        style,
        Some(ByteRange { begin: 0, length: 0 }),
    )];
    let fg = single_style_context();
    let mut scanner = TextRunScanner::new();
    let phase = scanner.scan_for_runs(&fg, fragments);
    assert_eq!(phase.clumps[0].runs.len(), 1);
    assert_eq!(phase.clumps[0].runs[0].text, "");
    assert_eq!(phase.clumps[0].runs[0].insertion_point, Some(0));
    assert_eq!(phase.clumps[0].mappings.len(), 1);
    let shaped = vec![vec![Some(true)]];
    let sizes = vec![vec![LogicalSize { inline: 0, block: 0 }]];
    let out = reassemble(phase, &shaped, &sizes);
    assert_eq!(out.len(), 1);
    match &out[0].specific {
        SpecificFragmentInfo::ScannedText(info) => {
            assert_eq!(info.insertion_point, Some(0));
            assert_eq!(info.range, ByteRange { begin: 0, length: 0 });
        },
        _ => panic!("expected scanned text"),
    }
}

#[test]
fn test_caret_on_shared_boundary_claimed_once() {
    // fragments "a" and "b" merge into one run; a caret at the start of
    // "b" sits exactly on the mappings' shared boundary and must be
    // referenced by exactly one output fragment
    let style = plain_style();
    let fragments = vec![
        text_fragment("a", style),
        text_fragment_with_selection("b", style, Some(ByteRange { begin: 0, length: 0 })),
    ];
    let fg = single_style_context();
    let mut scanner = TextRunScanner::new();
    let phase = scanner.scan_for_runs(&fg, fragments);
    assert_eq!(phase.clumps.len(), 1);
    assert_eq!(phase.clumps[0].runs.len(), 1);
    assert_eq!(phase.clumps[0].runs[0].text, "ab");
    assert_eq!(phase.clumps[0].runs[0].insertion_point, Some(1));
    assert_eq!(phase.clumps[0].mappings.len(), 2);
    let shaped = vec![vec![Some(true)]];
    let sizes = vec![vec![LogicalSize { inline: 0, block: 0 }; 2]];
    let out = reassemble(phase, &shaped, &sizes);
    assert_eq!(out.len(), 2);
    let carets: Vec<Option<usize>> = out
        .iter()
        .map(|f| match &f.specific {
            SpecificFragmentInfo::ScannedText(info) => info.insertion_point,
            _ => panic!("expected scanned text"),
        })
        .collect();
    assert_eq!(carets, vec![None, Some(1)]);
}

#[test]
fn test_split_element_clears_interior_flags() {
    // one fragment split across two runs: the first piece keeps only its
    // first-of-element mark, the second only its last-of-element mark
    let style = plain_style();
    let mut frag = text_fragment("a\u{05D0}", style);
    frag.inline_nodes = vec![InlineNode { first_of_element: true, last_of_element: true }];
    let fragments = vec![frag];
    let fg = single_style_context();
    let mut scanner = TextRunScanner::new();
    let phase = scanner.scan_for_runs(&fg, fragments);
    assert_eq!(phase.clumps[0].runs.len(), 2);
    let shaped = vec![vec![Some(true), Some(true)]];
    let sizes = vec![vec![LogicalSize { inline: 0, block: 0 }; 2]];
    let out = reassemble(phase, &shaped, &sizes);
    assert_eq!(out.len(), 2);
    assert!(out[0].inline_nodes[0].first_of_element);
    assert!(!out[0].inline_nodes[0].last_of_element);
    assert!(!out[1].inline_nodes[0].first_of_element);
    assert!(out[1].inline_nodes[0].last_of_element);
}

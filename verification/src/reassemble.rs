//! Reassembly: replays the scan's mappings against the original
//! fragments, slicing each shaped run back onto fragment boundaries.

use vstd::prelude::*;
use vstd::pervasive::VecAdditionalExecFns;
use crate::byterange::ByteRange;
use crate::chars::byte_len;
use crate::fragment::{
    copy_nodes, Fragment, InlineNode, LogicalSize, ScannedTextFlags, ScannedTextFragmentInfo,
    SpecificFragmentInfo,
};
use crate::run::RunMapping;
use crate::scanner::{ClumpScan, RunRequest, ScanPhase};
use crate::strutil::str_chars;

verus! {

/// The byte slice `[begin, end)` of `t` ends with a newline: some
/// character of `t` is a newline whose encoding ends exactly at `end`
/// and starts no earlier than `begin`.
pub open spec fn slice_ends_with_newline(t: Seq<char>, begin: int, end: int) -> bool {
    exists|k: int|
        0 <= k < t.len() && #[trigger] t[k] == '\n' && byte_len(t.take(k + 1)) == end && byte_len(
            t.take(k),
        ) >= begin
}

/// Decides `slice_ends_with_newline` by one walk over the text.
pub fn check_ends_with_newline(text: &str, begin: usize, end: usize) -> (r: bool)
    ensures
        r == slice_ends_with_newline(text@, begin as int, end as int),
{
    let total = crate::strutil::str_byte_len(text);
    let chars = str_chars(text);
    let n = chars.len();
    let mut j: usize = 0;
    let mut boff: usize = 0;
    while j < n
        invariant
            n == text@.len(),
            chars@ == text@,
            j <= n,
            total == byte_len(text@),
            total <= isize::MAX as usize,
            boff == byte_len(text@.take(j as int)),
            forall|k: int|
                0 <= k < j ==> !(#[trigger] text@[k] == '\n' && byte_len(text@.take(k + 1)) == end
                    && byte_len(text@.take(k)) >= begin),
        decreases n - j,
    {
        let c = chars[j];
        proof {
            assert(text@.take(j + 1) =~= text@.take(j as int).push(text@[j as int]));
            crate::chars::lemma_byte_len_push(text@.take(j as int), text@[j as int]);
            crate::chars::lemma_byte_len_split(text@, j as int);
            crate::chars::lemma_byte_len_bounds(text@.take(j as int));
            crate::chars::lemma_byte_len_bounds(text@.skip(j as int));
        }
        let w = crate::chars::char_len_utf8(c);
        if c == '\n' && boff >= begin && boff + 1 == end {
            return true;
        }
        boff = boff + w;
        j = j + 1;
    }
    false
}

/// The indices of mappings whose run was shaped, in order; a run without
/// a font produces no output and its mappings are dropped.
pub open spec fn kept_indices(mappings: Seq<RunMapping>, shaped: Seq<Option<bool>>, i: int) -> Seq<
    int,
>
    decreases i,
{
    if i <= 0 {
        Seq::empty()
    } else {
        let prefix = kept_indices(mappings, shaped, i - 1);
        if shaped[mappings[i - 1].text_run_index as int] is Some {
            prefix.push(i - 1)
        } else {
            prefix
        }
    }
}

/// Whether mapping `j` is the last one of its run: the next mapping, if
/// any, points at a different run. (A run's mappings stand consecutively
/// in the scan's mapping list.)
pub open spec fn last_mapping_of_run(mappings: Seq<RunMapping>, j: int) -> bool {
    j + 1 >= mappings.len() || mappings[j + 1].text_run_index != mappings[j].text_run_index
}

/// Mapping `j` claims the run caret at byte offset `idx`: half-open, so
/// adjacent mappings never share a claim; the run's last mapping also
/// claims the offset just past its final byte.
pub open spec fn claims_caret(mappings: Seq<RunMapping>, j: int, idx: int) -> bool {
    let m = mappings[j];
    m.byte_range.begin <= idx && (idx < m.byte_range.end_spec() || (last_mapping_of_run(mappings, j)
        && idx == m.byte_range.end_spec()))
}

/// The caret, once placed in a run, is referenced by at most one output
/// fragment: two mappings of the same run, consecutive-by-run and with
/// ordered ranges, never both claim one offset.
pub proof fn lemma_caret_referenced_once(mappings: Seq<RunMapping>, j1: int, j2: int, idx: int)
    requires
        0 <= j1 < j2 < mappings.len(),
        mappings[j1].text_run_index == mappings[j2].text_run_index,
        mappings[j1 + 1].text_run_index == mappings[j1].text_run_index,
        mappings[j1].byte_range.end_spec() <= mappings[j2].byte_range.begin,
    ensures
        !(claims_caret(mappings, j1, idx) && claims_caret(mappings, j2, idx)),
{
}

/// What the output fragment for one kept mapping holds: the run slice
/// (trimmed of a trailing newline, which instead forces a break after),
/// the derived flags, the caret if this slice claims it, and the
/// caller's measured size.
pub open spec fn expected_scanned_info(
    m: RunMapping,
    break_at_zero: bool,
    run_insertion: Option<usize>,
    run_text: Seq<char>,
    size: LogicalSize,
    last_of_run: bool,
) -> ScannedTextFragmentInfo {
    let trim = slice_ends_with_newline(
        run_text,
        m.byte_range.begin as int,
        m.byte_range.begin + m.byte_range.length,
    );
    ScannedTextFragmentInfo {
        run_index: m.text_run_index,
        range: if trim {
            ByteRange { begin: m.byte_range.begin, length: (m.byte_range.length - 1) as usize }
        } else {
            m.byte_range
        },
        content_size: size,
        insertion_point: (match run_insertion {
            Some(idx) => if m.byte_range.begin <= idx && (idx < m.byte_range.begin
                + m.byte_range.length || (last_of_run && idx == m.byte_range.begin
                + m.byte_range.length)) {
                Some(idx)
            } else {
                None
            },
            None => None,
        }),
        flags: ScannedTextFlags {
            suppress_line_break_before: !break_at_zero && m.byte_range.begin == 0,
            requires_line_break_afterward_if_wrapping_on_newlines: trim,
            selected: m.selected,
        },
    }
}

/// The output fragment for the kept mapping at index `j`: the scanned
/// slice under the originating fragment's style and measured size.
pub open spec fn reassembled_matches(
    f: Fragment,
    mappings: Seq<RunMapping>,
    j: int,
    runs: Seq<RunRequest>,
    shaped: Seq<Option<bool>>,
    size: LogicalSize,
    frags: Seq<Fragment>,
) -> bool {
    let m = mappings[j];
    &&& f.specific is ScannedText
    &&& f.specific->ScannedText_0 == expected_scanned_info(
        m,
        shaped[m.text_run_index as int]->Some_0,
        runs[m.text_run_index as int].insertion_point,
        runs[m.text_run_index as int].text@,
        size,
        last_mapping_of_run(mappings, j),
    )
    &&& f.style == frags[m.old_fragment_index as int].style
    &&& f.border_box_size == size
}

/// The logical bounding box for a run slice's measured extent: with a
/// horizontal writing mode the physical width is the inline size and the
/// height the block size. (Vertical writing modes would swap the axes;
/// like the rest of this pipeline, they are not handled yet.)
pub fn bounding_box_for_run_metrics(width: i64, height: i64) -> (r: LogicalSize)
    ensures
        r.inline == width,
        r.block == height,
{
    LogicalSize { inline: width, block: height }
}

/// A passed-through fragment: its content, style and size are the
/// original's, and melding may only have appended inline-context entries
/// after the original's own.
pub open spec fn passthrough_matches(f: Fragment, orig: Fragment) -> bool {
    &&& frame_eq(f, orig)
    &&& f.inline_nodes@.len() >= orig.inline_nodes@.len()
    &&& f.inline_nodes@.take(orig.inline_nodes@.len() as int) == orig.inline_nodes@
}

/// The fields of an output fragment that melding never touches.
pub open spec fn frame_eq(a: Fragment, b: Fragment) -> bool {
    &&& a.specific == b.specific
    &&& a.style == b.style
    &&& a.border_box_size == b.border_box_size
}

/// Queued carriers prepend onto an output's own nodes: the carrier
/// queued first lands innermost, later ones in front of it.
pub open spec fn prepend_carriers(
    pending: Seq<Seq<InlineNode>>,
    own: Seq<InlineNode>,
) -> Seq<InlineNode>
    decreases pending.len(),
{
    if pending.len() == 0 {
        own
    } else {
        prepend_carriers(pending.drop_first(), pending[0] + own)
    }
}

pub proof fn lemma_prepend_carriers_snoc(
    pending: Seq<Seq<InlineNode>>,
    k: int,
    own: Seq<InlineNode>,
)
    requires
        0 <= k < pending.len(),
    ensures
        prepend_carriers(pending.take(k + 1), own) == pending[k] + prepend_carriers(
            pending.take(k),
            own,
        ),
    decreases k,
{
    if k == 0 {
        assert(pending.take(1).drop_first() =~= Seq::<Seq<InlineNode>>::empty());
        assert(pending.take(1)[0] == pending[0]);
        assert(pending.take(0) =~= Seq::<Seq<InlineNode>>::empty());
        assert(prepend_carriers(pending.take(1), own) == prepend_carriers(
            pending.take(1).drop_first(),
            pending.take(1)[0] + own,
        ));
        assert(prepend_carriers(pending.take(1).drop_first(), pending.take(1)[0] + own)
            == pending.take(1)[0] + own);
        assert(prepend_carriers(pending.take(0), own) == own);
    } else {
        assert(pending.take(k + 1).drop_first() =~= pending.drop_first().take(k));
        assert(pending.take(k).drop_first() =~= pending.drop_first().take(k - 1));
        assert(pending.take(k + 1)[0] == pending[0]);
        assert(pending.take(k)[0] == pending[0]);
        assert(prepend_carriers(pending.take(k + 1), own) == prepend_carriers(
            pending.drop_first().take(k),
            pending[0] + own,
        ));
        assert(prepend_carriers(pending.take(k), own) == prepend_carriers(
            pending.drop_first().take(k - 1),
            pending[0] + own,
        ));
        lemma_prepend_carriers_snoc(pending.drop_first(), k - 1, pending[0] + own);
        assert(pending.drop_first()[k - 1] == pending[k]);
    }
}

/// The inline contexts melding produces for one clump: every output's
/// final node list, the carriers still queued, and the nodes appended to
/// the output that preceded the clump.
pub ghost struct MeldV {
    pub outs: Seq<Seq<InlineNode>>,
    pub pending: Seq<Seq<InlineNode>>,
    pub lead: Seq<InlineNode>,
}

pub ghost struct MeldCursorV {
    pub v: MeldV,
    pub mi: int,
    pub emitted: bool,
}

pub open spec fn meld_init_v() -> MeldV {
    MeldV { outs: Seq::empty(), pending: Seq::empty(), lead: Seq::empty() }
}

/// Melding across one fragment's mappings, from mapping cursor `st.mi`:
/// every kept mapping emits one output whose own inline nodes carry the
/// first/last-of-element clearing, with the queued carriers prepended.
pub open spec fn meld_frag_maps_v(
    st: MeldCursorV,
    mappings: Seq<RunMapping>,
    shaped: Seq<Option<bool>>,
    nodes: Seq<InlineNode>,
    fi: int,
) -> MeldCursorV
    decreases mappings.len() - st.mi,
{
    if st.mi < 0 || st.mi >= mappings.len() || mappings[st.mi].old_fragment_index != fi {
        st
    } else {
        let kept = shaped[mappings[st.mi].text_run_index as int] is Some;
        let is_last = !(st.mi + 1 < mappings.len() && mappings[st.mi + 1].old_fragment_index
            == fi);
        let v1 = if kept {
            MeldV {
                outs: st.v.outs.push(
                    prepend_carriers(st.v.pending, cleared_nodes(nodes, st.emitted, is_last)),
                ),
                pending: Seq::empty(),
                lead: st.v.lead,
            }
        } else {
            st.v
        };
        meld_frag_maps_v(
            MeldCursorV { v: v1, mi: st.mi + 1, emitted: st.emitted || kept },
            mappings,
            shaped,
            nodes,
            fi,
        )
    }
}

/// The melding fold over the clump's first `i` fragments: a fragment
/// with no shaped output appends its inline context to the most recent
/// output (or to the clump's predecessor) and queues it for the next
/// output.
pub open spec fn meld_frags_v(
    frags: Seq<Fragment>,
    mappings: Seq<RunMapping>,
    shaped: Seq<Option<bool>>,
    i: int,
) -> MeldCursorV
    decreases i,
{
    if i <= 0 {
        MeldCursorV { v: meld_init_v(), mi: 0, emitted: false }
    } else {
        let prev = meld_frags_v(frags, mappings, shaped, i - 1);
        let nodes = frags[i - 1].inline_nodes@;
        let after = meld_frag_maps_v(
            MeldCursorV { v: prev.v, mi: prev.mi, emitted: false },
            mappings,
            shaped,
            nodes,
            i - 1,
        );
        if after.emitted {
            after
        } else {
            let v2 = if after.v.outs.len() > 0 {
                MeldV {
                    outs: after.v.outs.update(
                        after.v.outs.len() - 1,
                        after.v.outs.last() + nodes,
                    ),
                    ..after.v
                }
            } else {
                MeldV { lead: after.v.lead + nodes, ..after.v }
            };
            MeldCursorV {
                v: MeldV { pending: v2.pending.push(nodes), ..v2 },
                mi: after.mi,
                emitted: false,
            }
        }
    }
}

/// How the replay's outputs relate to the melding fold's state: the
/// clump outputs carry the fold's node lists, the queued carriers match,
/// the clump's predecessor has received the lead nodes, and everything
/// before it is untouched.
pub open spec fn melding_inv(
    out0: Seq<Fragment>,
    out_now: Seq<Fragment>,
    pending_now: Seq<Fragment>,
    mv: MeldV,
) -> bool {
    &&& mv.outs.len() + out0.len() == out_now.len()
    &&& (forall|q: int|
        0 <= q < mv.outs.len() ==> #[trigger] out_now[out0.len() + q].inline_nodes@ == mv.outs[q])
    &&& pending_now.len() == mv.pending.len()
    &&& (forall|k: int|
        0 <= k < mv.pending.len() ==> #[trigger] pending_now[k].inline_nodes@ == mv.pending[k])
    &&& (out0.len() > 0 ==> out_now[out0.len() - 1].inline_nodes@ == out0[out0.len()
        - 1].inline_nodes@ + mv.lead)
    &&& (forall|k: int| 0 <= k < out0.len() - 1 ==> #[trigger] out_now[k] == out0[k])
}

/// The melding part of a clump replay: the fold over all its fragments
/// describes every output's inline context and what melds backwards.
pub open spec fn melding_post(
    out0: Seq<Fragment>,
    out1: Seq<Fragment>,
    clump: ClumpScan,
    shaped: Seq<Option<bool>>,
) -> bool {
    let meld = meld_frags_v(
        clump.fragments@,
        clump.mappings@,
        shaped,
        clump.fragments@.len() as int,
    ).v;
    &&& meld.outs.len() + out0.len() == out1.len()
    &&& (forall|q: int|
        0 <= q < meld.outs.len() ==> #[trigger] out1[out0.len() + q].inline_nodes@ == meld.outs[q])
    &&& (out0.len() > 0 ==> out1[out0.len() - 1].inline_nodes@ == out0[out0.len()
        - 1].inline_nodes@ + meld.lead)
    &&& (forall|k: int| 0 <= k < out0.len() - 1 ==> #[trigger] out1[k] == out0[k])
}

/// What a clump replay relies on: the caller's shaping and measuring
/// data aligned with the scan's runs and mappings, and the mapping list
/// internally consistent — which `flush_clump_to_list` guarantees of
/// every clump it returns (`clump_mappings_wf` in its ensures).
pub open spec fn clump_reassemble_pre(
    c: ClumpScan,
    shaped: Seq<Option<bool>>,
    sizes: Seq<LogicalSize>,
) -> bool {
    &&& shaped.len() == c.runs@.len()
    &&& sizes.len() == c.mappings@.len()
    &&& crate::scanner::clump_mappings_wf(c)
}

/// One inline-context entry of an interior piece of a split element:
/// first-of-element survives only on the element's first piece,
/// last-of-element only on its last.
pub open spec fn cleared_node(n: InlineNode, not_first: bool, is_last: bool) -> InlineNode {
    InlineNode {
        first_of_element: n.first_of_element && !not_first,
        last_of_element: n.last_of_element && is_last,
    }
}

pub open spec fn cleared_nodes(nodes: Seq<InlineNode>, not_first: bool, is_last: bool) -> Seq<
    InlineNode,
> {
    Seq::new(nodes.len(), |i: int| cleared_node(nodes[i], not_first, is_last))
}

/// Drops first/last-of-element marks on interior pieces of an element
/// split across several output fragments.
fn clear_element_flags(f: &mut Fragment, not_first: bool, is_last: bool)
    ensures
        final(f).specific == old(f).specific,
        final(f).style == old(f).style,
        final(f).border_box_size == old(f).border_box_size,
        final(f).inline_nodes@ == cleared_nodes(old(f).inline_nodes@, not_first, is_last),
{
    let n = f.inline_nodes.len();
    let mut i: usize = 0;
    while i < n
        invariant
            n == f.inline_nodes.len(),
            i <= n,
            f.specific == old(f).specific,
            f.style == old(f).style,
            f.border_box_size == old(f).border_box_size,
            forall|k: int|
                0 <= k < i ==> f.inline_nodes@[k] == cleared_node(
                    old(f).inline_nodes@[k],
                    not_first,
                    is_last,
                ),
            forall|k: int| i <= k < n ==> f.inline_nodes@[k] == old(f).inline_nodes@[k],
        decreases n - i,
    {
        let mut node = f.inline_nodes[i];
        if !is_last {
            node.last_of_element = false;
        }
        if not_first {
            node.first_of_element = false;
        }
        f.inline_nodes.set(i, node);
        i = i + 1;
    }
    proof {
        assert(f.inline_nodes@ =~= cleared_nodes(old(f).inline_nodes@, not_first, is_last));
    }
}

/// A context carrier for melding: the inline context of a fragment that
/// produced no output of its own.
fn context_carrier(f: &Fragment) -> (r: Fragment)
    ensures
        r.inline_nodes@ == f.inline_nodes@,
{
    Fragment {
        specific: SpecificFragmentInfo::Generic,
        style: f.style,
        inline_nodes: copy_nodes(&f.inline_nodes),
        border_box_size: f.border_box_size,
    }
}

/// Replays one text clump's mappings in original-fragment order: each
/// kept mapping becomes one scanned fragment; a fragment with no mapping
/// melds its inline context into the previous emitted fragment and into
/// the next one.
#[verifier::rlimit(100)]
pub fn reassemble_clump(
    clump: &ClumpScan,
    shaped: &Vec<Option<bool>>,
    sizes: &Vec<LogicalSize>,
    out: &mut Vec<Fragment>,
)
    requires
        clump.is_text,
        clump_reassemble_pre(*clump, shaped@, sizes@),
    ensures
        ({
            let kept = kept_indices(clump.mappings@, shaped@, clump.mappings@.len() as int);
            &&& final(out)@.len() == old(out)@.len() + kept.len()
            &&& (forall|q: int|
                0 <= q < kept.len() ==> reassembled_matches(
                    final(out)@[old(out)@.len() + q],
                    clump.mappings@,
                    kept[q],
                    clump.runs@,
                    shaped@,
                    sizes@[kept[q]],
                    clump.fragments@,
                ))
            &&& (forall|k: int|
                0 <= k < old(out)@.len() ==> frame_eq(#[trigger] final(out)@[k], old(out)@[k]))
            &&& melding_post(old(out)@, final(out)@, *clump, shaped@)
        }),
{
    let ghost frags_g = clump.fragments@;
    let ghost maps_g = clump.mappings@;
    let ghost mut mv = meld_init_v();
    let nfrags = clump.fragments.len();
    let nmaps = clump.mappings.len();
    let mut mi: usize = 0;
    let mut prev_to_meld: Vec<Fragment> = Vec::new();
    let mut fi: usize = 0;
    while fi < nfrags
        invariant
            nfrags == clump.fragments@.len(),
            nmaps == clump.mappings@.len(),
            mi <= nmaps,
            clump_reassemble_pre(*clump, shaped@, sizes@),
            out@.len() == old(out)@.len() + kept_indices(clump.mappings@, shaped@, mi as int).len(),
            forall|q: int|
                0 <= q < kept_indices(clump.mappings@, shaped@, mi as int).len()
                    ==> reassembled_matches(
                    out@[old(out)@.len() + q],
                    clump.mappings@,
                    kept_indices(clump.mappings@, shaped@, mi as int)[q],
                    clump.runs@,
                    shaped@,
                    sizes@[kept_indices(clump.mappings@, shaped@, mi as int)[q]],
                    clump.fragments@,
                ),
            forall|k: int|
                0 <= k < old(out)@.len() ==> frame_eq(#[trigger] out@[k], old(out)@[k]),
            mi == nmaps || clump.mappings@[mi as int].old_fragment_index >= fi,
            fi <= nfrags,
            melding_inv(old(out)@, out@, prev_to_meld@, mv),
            meld_frags_v(frags_g, maps_g, shaped@, fi as int).v == mv,
            meld_frags_v(frags_g, maps_g, shaped@, fi as int).mi == mi as int,
            frags_g == clump.fragments@,
            maps_g == clump.mappings@,
        decreases nfrags - fi,
    {
        let ghost entry_mv = mv;
        let ghost entry_mi = mi as int;
        let ghost nodes_fi = clump.fragments@[fi as int].inline_nodes@;
        let ghost frag_target = meld_frag_maps_v(
            MeldCursorV { v: mv, mi: mi as int, emitted: false },
            maps_g,
            shaped@,
            nodes_fi,
            fi as int,
        );
        let mut emitted_any = false;
        while mi < nmaps && clump.mappings[mi].old_fragment_index == fi
            invariant
                nfrags == clump.fragments@.len(),
                nmaps == clump.mappings@.len(),
                mi <= nmaps,
                fi < nfrags,
                clump_reassemble_pre(*clump, shaped@, sizes@),
                out@.len() == old(out)@.len() + kept_indices(
                    clump.mappings@,
                    shaped@,
                    mi as int,
                ).len(),
                forall|q: int|
                    0 <= q < kept_indices(clump.mappings@, shaped@, mi as int).len()
                        ==> reassembled_matches(
                        out@[old(out)@.len() + q],
                        clump.mappings@,
                        kept_indices(clump.mappings@, shaped@, mi as int)[q],
                        clump.runs@,
                        shaped@,
                        sizes@[kept_indices(clump.mappings@, shaped@, mi as int)[q]],
                        clump.fragments@,
                    ),
                forall|k: int|
                    0 <= k < old(out)@.len() ==> frame_eq(#[trigger] out@[k], old(out)@[k]),
                mi == nmaps || clump.mappings@[mi as int].old_fragment_index >= fi,
                melding_inv(old(out)@, out@, prev_to_meld@, mv),
                meld_frag_maps_v(
                    MeldCursorV { v: mv, mi: mi as int, emitted: emitted_any },
                    maps_g,
                    shaped@,
                    nodes_fi,
                    fi as int,
                ) == frag_target,
                nodes_fi == clump.fragments@[fi as int].inline_nodes@,
                frags_g == clump.fragments@,
                maps_g == clump.mappings@,
            decreases nmaps - mi,
        {
            let m = clump.mappings[mi];
            let ghost pre_kept = kept_indices(clump.mappings@, shaped@, mi as int);
            let ghost pre_mv = mv;
            let ghost pre_emitted = emitted_any;
            match shaped[m.text_run_index] {
                None => {
                    // no font could shape this run: drop the mapping
                    proof {
                        assert(kept_indices(clump.mappings@, shaped@, mi + 1) == pre_kept);
                        assert(meld_frag_maps_v(
                            MeldCursorV { v: mv, mi: mi as int, emitted: emitted_any },
                            maps_g,
                            shaped@,
                            nodes_fi,
                            fi as int,
                        ) == meld_frag_maps_v(
                            MeldCursorV { v: mv, mi: mi + 1, emitted: emitted_any },
                            maps_g,
                            shaped@,
                            nodes_fi,
                            fi as int,
                        ));
                    }
                },
                Some(break_at_zero) => {
                    proof {
                        assert(kept_indices(clump.mappings@, shaped@, mi + 1) == pre_kept.push(
                            mi as int,
                        ));
                    }
                    let run = &clump.runs[m.text_run_index];
                    let trim = check_ends_with_newline(
                        run.text.as_str(),
                        m.byte_range.begin(),
                        m.byte_range.end(),
                    );
                    let range = if trim {
                        proof {
                            lemma_trim_range_nonempty(
                                run.text@,
                                m.byte_range.begin as int,
                                m.byte_range.begin + m.byte_range.length,
                            );
                        }
                        ByteRange::new(m.byte_range.begin(), m.byte_range.length() - 1)
                    } else {
                        m.byte_range
                    };
                    let last_of_run = !(mi + 1 < nmaps && clump.mappings[mi + 1].text_run_index
                        == m.text_run_index);
                    let insertion_point = if m.contains_insertion_point(
                        run.insertion_point,
                        last_of_run,
                    ) {
                        run.insertion_point
                    } else {
                        None
                    };
                    let flags = ScannedTextFlags {
                        suppress_line_break_before: !break_at_zero && m.byte_range.begin() == 0,
                        requires_line_break_afterward_if_wrapping_on_newlines: trim,
                        selected: m.selected,
                    };
                    let size = sizes[mi];
                    let info = ScannedTextFragmentInfo::new(
                        m.text_run_index,
                        range,
                        size,
                        insertion_point,
                        flags,
                    );
                    let mut new_fragment = clump.fragments[fi].transform(
                        size,
                        SpecificFragmentInfo::ScannedText(info),
                    );
                    let is_last_of_frag = !(mi + 1 < nmaps && clump.mappings[mi
                        + 1].old_fragment_index == fi);
                    clear_element_flags(&mut new_fragment, emitted_any, is_last_of_frag);
                    let ghost own_nodes = cleared_nodes(nodes_fi, emitted_any, is_last_of_frag);
                    let pn = prev_to_meld.len();
                    let mut k: usize = 0;
                    proof {
                        assert(prepend_carriers(mv.pending.take(0), own_nodes) == own_nodes);
                    }
                    while k < pn
                        invariant
                            pn == prev_to_meld.len(),
                            pn == mv.pending.len(),
                            k <= pn,
                            new_fragment.specific is ScannedText,
                            new_fragment.specific->ScannedText_0 == info,
                            new_fragment.style == clump.fragments@[fi as int].style,
                            new_fragment.border_box_size == size,
                            new_fragment.inline_nodes@ == prepend_carriers(
                                mv.pending.take(k as int),
                                own_nodes,
                            ),
                            forall|j: int|
                                0 <= j < mv.pending.len() ==> #[trigger] prev_to_meld@[
                                    j
                                ].inline_nodes@ == mv.pending[j],
                        decreases pn - k,
                    {
                        let prev = &prev_to_meld[k];
                        new_fragment.meld_with_prev_inline_fragment(prev);
                        proof {
                            lemma_prepend_carriers_snoc(mv.pending, k as int, own_nodes);
                        }
                        k = k + 1;
                    }
                    proof {
                        assert(mv.pending.take(pn as int) =~= mv.pending);
                        assert(new_fragment.inline_nodes@ == prepend_carriers(
                            mv.pending,
                            own_nodes,
                        ));
                        mv = MeldV {
                            outs: mv.outs.push(new_fragment.inline_nodes@),
                            pending: Seq::empty(),
                            lead: mv.lead,
                        };
                    }
                    prev_to_meld = Vec::new();
                    emitted_any = true;
                    out.push(new_fragment);
                    proof {
                        assert(meld_frag_maps_v(
                            MeldCursorV { v: pre_mv, mi: mi as int, emitted: pre_emitted },
                            maps_g,
                            shaped@,
                            nodes_fi,
                            fi as int,
                        ) == meld_frag_maps_v(
                            MeldCursorV { v: mv, mi: mi + 1, emitted: true },
                            maps_g,
                            shaped@,
                            nodes_fi,
                            fi as int,
                        ));
                        assert(melding_inv(old(out)@, out@, prev_to_meld@, mv));
                    }
                },
            }
            mi = mi + 1;
        }
        proof {
            assert(meld_frag_maps_v(
                MeldCursorV { v: mv, mi: mi as int, emitted: emitted_any },
                maps_g,
                shaped@,
                nodes_fi,
                fi as int,
            ) == (MeldCursorV { v: mv, mi: mi as int, emitted: emitted_any }));
            assert(frag_target.v == mv);
            assert(frag_target.mi == mi as int);
            assert(frag_target.emitted == emitted_any);
        }
        if !emitted_any {
            // no mapping for this fragment: its boundary flags meld into
            // the previous emitted fragment, and into the next one later
            let carrier = context_carrier(&clump.fragments[fi]);
            let ghost out_before = out@;
            let ghost mv_before = mv;
            let on = out.len();
            if on > 0 {
                let mut last = match out.pop() {
                    Some(l) => l,
                    None => {
                        proof {
                            assert(false);
                        }
                        return ;
                    },
                };
                let ghost pre_out = out@.push(last);
                last.meld_with_next_inline_fragment(&carrier);
                out.push(last);
                proof {
                    assert(pre_out =~= out_before);
                    assert(out@.len() == out_before.len());
                    assert(forall|k: int|
                        0 <= k < out@.len() - 1 ==> out@[k] == out_before[k]);
                    assert(frame_eq(out@[out@.len() - 1], out_before[out_before.len() - 1]));
                    assert(out@[out@.len() - 1].inline_nodes@ == out_before[out_before.len()
                        - 1].inline_nodes@ + nodes_fi);
                }
            }
            proof {
                let old_len = old(out)@.len() as int;
                if mv_before.outs.len() > 0 {
                    mv = MeldV {
                        outs: mv_before.outs.update(
                            mv_before.outs.len() - 1,
                            mv_before.outs.last() + nodes_fi,
                        ),
                        pending: mv_before.pending,
                        lead: mv_before.lead,
                    };
                    assert(out_before.len() == old_len + mv_before.outs.len());
                    assert(out_before[old_len + (mv_before.outs.len() - 1)].inline_nodes@
                        == mv_before.outs[mv_before.outs.len() - 1]);
                    assert(out_before[out_before.len() - 1].inline_nodes@ == mv_before.outs[
                        mv_before.outs.len() - 1]);
                    assert(out@[old_len + mv.outs.len() - 1].inline_nodes@ == mv.outs[
                        mv.outs.len() - 1]);
                } else {
                    mv = MeldV {
                        outs: mv_before.outs,
                        pending: mv_before.pending,
                        lead: mv_before.lead + nodes_fi,
                    };
                    if old_len > 0 {
                        assert(out_before[old_len - 1].inline_nodes@ == old(out)@[old_len
                            - 1].inline_nodes@ + mv_before.lead);
                        assert(old(out)@[old_len - 1].inline_nodes@ + (mv_before.lead + nodes_fi)
                            =~= (old(out)@[old_len - 1].inline_nodes@ + mv_before.lead)
                            + nodes_fi);
                        assert(out@[old_len - 1].inline_nodes@ == old(out)@[old_len
                            - 1].inline_nodes@ + mv.lead);
                    }
                }
                mv = MeldV { outs: mv.outs, pending: mv.pending.push(nodes_fi), lead: mv.lead };
            }
            prev_to_meld.push(carrier);
            proof {
                assert(melding_inv(old(out)@, out@, prev_to_meld@, mv));
            }
        }
        proof {
            assert(meld_frags_v(frags_g, maps_g, shaped@, fi as int).v == entry_mv);
            assert(meld_frags_v(frags_g, maps_g, shaped@, fi + 1).v == mv);
            assert(meld_frags_v(frags_g, maps_g, shaped@, fi + 1).mi == mi as int);
        }
        fi = fi + 1;
    }
    proof {
        if mi < nmaps {
            assert(clump.mappings@[mi as int].old_fragment_index < nfrags);
            assert(false);
        }
        assert(meld_frags_v(
            clump.fragments@,
            clump.mappings@,
            shaped@,
            clump.fragments@.len() as int,
        ).v == mv);
        assert(melding_post(old(out)@, out@, *clump, shaped@));
    }
}

proof fn lemma_trim_range_nonempty(t: Seq<char>, begin: int, end: int)
    requires
        slice_ends_with_newline(t, begin, end),
    ensures
        end > begin,
{
    let k = choose|k: int|
        0 <= k < t.len() && #[trigger] t[k] == '\n' && byte_len(t.take(k + 1)) == end && byte_len(
            t.take(k),
        ) >= begin;
    assert(t.take(k + 1) =~= t.take(k).push(t[k]));
    crate::chars::lemma_byte_len_push(t.take(k), t[k]);
}

/// Output fragments one clump contributes: its kept mappings, or its
/// single fragment passed through.
pub open spec fn clump_out_len(c: ClumpScan, shaped_row: Seq<Option<bool>>) -> int {
    if c.is_text {
        kept_indices(c.mappings@, shaped_row, c.mappings@.len() as int).len() as int
    } else {
        1
    }
}

/// Output fragments contributed by the first `i` clumps.
pub open spec fn out_len_before(
    clumps: Seq<ClumpScan>,
    shaped: Seq<Vec<Option<bool>>>,
    i: int,
) -> int
    decreases i,
{
    if i <= 0 {
        0
    } else {
        out_len_before(clumps, shaped, i - 1) + clump_out_len(clumps[i - 1], shaped[i - 1]@)
    }
}

pub proof fn lemma_out_len_mono(
    clumps: Seq<ClumpScan>,
    shaped: Seq<Vec<Option<bool>>>,
    i: int,
    k: int,
)
    requires
        0 <= i <= k <= clumps.len(),
    ensures
        out_len_before(clumps, shaped, i) <= out_len_before(clumps, shaped, k),
        0 <= out_len_before(clumps, shaped, i),
        i < k ==> out_len_before(clumps, shaped, i) + clump_out_len(clumps[i], shaped[i]@)
            <= out_len_before(clumps, shaped, k),
    decreases k,
{
    if k > 0 {
        if i <= k - 1 {
            lemma_out_len_mono(clumps, shaped, i, k - 1);
        } else {
            lemma_out_len_mono(clumps, shaped, 0, k - 1);
        }
    }
}

/// Reassembles a whole scan: text clumps are replayed mapping by
/// mapping, a non-text clump's single fragment passes through unchanged,
/// and the outputs stand in clump order. `shaped` and `sizes` give, per
/// clump, the shaping outcome of each run and the measured size of each
/// mapping's slice. Melding afterwards only moves inline-context flags,
/// so every output's content, style and size is pinned here.
#[verifier::rlimit(100)]
pub fn reassemble(
    phase: ScanPhase,
    shaped: &Vec<Vec<Option<bool>>>,
    sizes: &Vec<Vec<LogicalSize>>,
) -> (out: Vec<Fragment>)
    requires
        shaped@.len() == phase.clumps@.len(),
        sizes@.len() == phase.clumps@.len(),
        forall|i: int|
            0 <= i < phase.clumps@.len() ==> (#[trigger] phase.clumps@[i]).is_text
                ==> clump_reassemble_pre(phase.clumps@[i], shaped@[i]@, sizes@[i]@)
                && phase.clumps@[i].fragments@.len() > 0,
        forall|i: int|
            0 <= i < phase.clumps@.len() ==> !(#[trigger] phase.clumps@[i]).is_text
                ==> phase.clumps@[i].fragments@.len() == 1,
    ensures
        out@.len() == out_len_before(phase.clumps@, shaped@, phase.clumps@.len() as int),
        forall|i: int, q: int|
            0 <= i < phase.clumps@.len() && (#[trigger] phase.clumps@[i]).is_text && 0 <= q
                < clump_out_len(phase.clumps@[i], shaped@[i]@) ==> reassembled_matches(
                #[trigger] out@[out_len_before(phase.clumps@, shaped@, i) + q],
                phase.clumps@[i].mappings@,
                kept_indices(
                    phase.clumps@[i].mappings@,
                    shaped@[i]@,
                    phase.clumps@[i].mappings@.len() as int,
                )[q],
                phase.clumps@[i].runs@,
                shaped@[i]@,
                sizes@[i]@[kept_indices(
                    phase.clumps@[i].mappings@,
                    shaped@[i]@,
                    phase.clumps@[i].mappings@.len() as int,
                )[q]],
                phase.clumps@[i].fragments@,
            ),
        forall|i: int|
            0 <= i < phase.clumps@.len() && !(#[trigger] phase.clumps@[i]).is_text
                ==> passthrough_matches(
                out@[out_len_before(phase.clumps@, shaped@, i)],
                phase.clumps@[i].fragments@[0],
            ),
{
    let ghost clumps0 = phase.clumps@;
    let mut out: Vec<Fragment> = Vec::new();
    let n = phase.clumps.len();
    let mut clumps = phase.clumps;
    // consume the clumps in order; reversing lets each be moved off the end
    let mut rev: Vec<ClumpScan> = Vec::new();
    proof {
        assert(clumps0.take(n as int) =~= clumps0);
    }
    while clumps.len() > 0
        invariant
            n == clumps0.len(),
            rev@.len() + clumps@.len() == n,
            clumps@ == clumps0.take(clumps@.len() as int),
            forall|k: int| 0 <= k < rev@.len() ==> #[trigger] rev@[k] == clumps0[n - 1 - k],
        decreases clumps@.len(),
    {
        let ghost pre_clumps = clumps@;
        let ghost pre_rev = rev@;
        let c = match clumps.pop() {
            Some(c) => c,
            None => {
                proof {
                    assert(false);
                }
                return out;
            },
        };
        rev.push(c);
        proof {
            assert(c == pre_clumps[pre_clumps.len() - 1]);
            assert(pre_clumps[pre_clumps.len() - 1] == clumps0[pre_clumps.len() - 1]);
            assert(rev@ == pre_rev.push(c));
            assert(forall|k: int| 0 <= k < pre_rev.len() ==> rev@[k] == pre_rev[k]);
            assert(rev@[rev@.len() - 1] == c);
            assert(clumps@ =~= clumps0.take(clumps@.len() as int));
        }
    }
    let mut ci: usize = 0;
    while ci < n
        invariant
            n == clumps0.len(),
            n == shaped@.len(),
            n == sizes@.len(),
            ci <= n,
            rev@.len() == n - ci,
            forall|k: int| 0 <= k < rev@.len() ==> #[trigger] rev@[k] == clumps0[n - 1 - k],
            forall|i: int|
                0 <= i < n ==> (#[trigger] clumps0[i]).is_text ==> clump_reassemble_pre(
                    clumps0[i],
                    shaped@[i]@,
                    sizes@[i]@,
                ) && clumps0[i].fragments@.len() > 0,
            forall|i: int|
                0 <= i < n ==> !(#[trigger] clumps0[i]).is_text ==> clumps0[i].fragments@.len()
                    == 1,
            out@.len() == out_len_before(clumps0, shaped@, ci as int),
            forall|i: int, q: int|
                0 <= i < ci && (#[trigger] clumps0[i]).is_text && 0 <= q < clump_out_len(
                    clumps0[i],
                    shaped@[i]@,
                ) ==> reassembled_matches(
                    #[trigger] out@[out_len_before(clumps0, shaped@, i) + q],
                    clumps0[i].mappings@,
                    kept_indices(
                        clumps0[i].mappings@,
                        shaped@[i]@,
                        clumps0[i].mappings@.len() as int,
                    )[q],
                    clumps0[i].runs@,
                    shaped@[i]@,
                    sizes@[i]@[kept_indices(
                        clumps0[i].mappings@,
                        shaped@[i]@,
                        clumps0[i].mappings@.len() as int,
                    )[q]],
                    clumps0[i].fragments@,
                ),
            forall|i: int|
                0 <= i < ci && !(#[trigger] clumps0[i]).is_text ==> passthrough_matches(
                    out@[out_len_before(clumps0, shaped@, i)],
                    clumps0[i].fragments@[0],
                ),
        decreases n - ci,
    {
        let ghost pre_rev2 = rev@;
        let ghost pre_out = out@;
        let c = match rev.pop() {
            Some(c) => c,
            None => {
                proof {
                    assert(false);
                }
                return out;
            },
        };
        proof {
            assert(c == pre_rev2[pre_rev2.len() - 1]);
            assert(n - 1 - (pre_rev2.len() - 1) == ci);
            assert(c == clumps0[ci as int]);
            assert(forall|i: int| 0 <= i < rev@.len() ==> rev@[i] == pre_rev2[i]);
        }
        if c.is_text {
            reassemble_clump(&c, &shaped[ci], &sizes[ci], &mut out);
            proof {
                assert(out@.len() == out_len_before(clumps0, shaped@, ci + 1));
            }
        } else {
            let mut frags = c.fragments;
            let f = match frags.pop() {
                Some(f) => f,
                None => {
                    proof {
                        assert(false);
                    }
                    return out;
                },
            };
            proof {
                assert(f == clumps0[ci as int].fragments@[0]);
            }
            out.push(f);
        }
        proof {
        assert(forall|k: int|
            0 <= k < pre_out.len() ==> frame_eq(#[trigger] out@[k], pre_out[k]));
        assert forall|i: int, q: int|
            0 <= i < ci + 1 && (#[trigger] clumps0[i]).is_text && 0 <= q < clump_out_len(
                clumps0[i],
                shaped@[i]@,
            ) implies reassembled_matches(
            #[trigger] out@[out_len_before(clumps0, shaped@, i) + q],
            clumps0[i].mappings@,
            kept_indices(
                clumps0[i].mappings@,
                shaped@[i]@,
                clumps0[i].mappings@.len() as int,
            )[q],
            clumps0[i].runs@,
            shaped@[i]@,
            sizes@[i]@[kept_indices(
                clumps0[i].mappings@,
                shaped@[i]@,
                clumps0[i].mappings@.len() as int,
            )[q]],
            clumps0[i].fragments@,
        ) by {
            lemma_out_len_mono(clumps0, shaped@, i, ci as int);
            if i < ci {
                assert(out_len_before(clumps0, shaped@, i) + q < pre_out.len());
                assert(frame_eq(
                    out@[out_len_before(clumps0, shaped@, i) + q],
                    pre_out[out_len_before(clumps0, shaped@, i) + q],
                ));
            } else {
                assert(out_len_before(clumps0, shaped@, i) == pre_out.len());
            }
        }
        assert forall|i: int|
            0 <= i < ci + 1 && !(#[trigger] clumps0[i]).is_text implies passthrough_matches(
            out@[out_len_before(clumps0, shaped@, i)],
            clumps0[i].fragments@[0],
        ) by {
            lemma_out_len_mono(clumps0, shaped@, i, ci as int);
            let orig = clumps0[i].fragments@[0];
            let olen = orig.inline_nodes@.len() as int;
            if i < ci {
                let idx = out_len_before(clumps0, shaped@, i);
                assert(idx < pre_out.len());
                assert(passthrough_matches(pre_out[idx], orig));
                if idx < pre_out.len() - 1 {
                    assert(out@[idx] == pre_out[idx]);
                } else {
                    assert(frame_eq(out@[idx], pre_out[idx]));
                    assert(out@[idx].inline_nodes@.take(pre_out[idx].inline_nodes@.len() as int)
                        =~= pre_out[idx].inline_nodes@);
                    assert(out@[idx].inline_nodes@.take(olen) =~= pre_out[idx].inline_nodes@.take(
                        olen,
                    ));
                }
            } else {
                assert(out_len_before(clumps0, shaped@, i) == pre_out.len());
                assert(out@[pre_out.len() as int].inline_nodes@.take(olen)
                    =~= orig.inline_nodes@);
            }
        }
        }
        ci = ci + 1;
    }
    proof {
        assert(out@.len() == out_len_before(clumps0, shaped@, n as int));
    }
    out
}

} // verus!

//! Whitespace compression and text-casing transforms.
//!
//! `transform_text` collapses whitespace according to a `CompressionMode`,
//! carrying the collapse state across calls so that adjacent fragments of a
//! clump compress as if they were one string.
//! `apply_style_transform_if_necessary` applies the CSS text-casing
//! transform to newly produced text.

use vstd::prelude::*;
use crate::chars::{
    byte_len, char_is_alphabetic, char_is_white_space, char_to_lowercase, char_to_uppercase,
    is_alphabetic_char, is_bidi_control, is_bidi_control_char, is_white_space_char,
    lowercase_mapping, uppercase_mapping,
};
use crate::strutil::{push_char, str_chars};

verus! {

#[derive(Clone, Copy, Debug, Eq, PartialEq, Structural)]
pub enum CompressionMode {
    CompressNone,
    CompressWhitespace,
    CompressWhitespaceNewline,
}

/// The CSS text-transform cases this pipeline knows.
#[derive(Clone, Copy, Debug, Eq, PartialEq, Structural)]
pub enum TextTransformCase {
    NoTransform,
    Uppercase,
    Lowercase,
    Capitalize,
}

/// A character that counts as collapsible whitespace under `mode`.
pub open spec fn in_whitespace(c: char, mode: CompressionMode) -> bool {
    c == ' ' || c == '\t' || (c == '\n' && mode is CompressWhitespaceNewline)
}

/// A character that is dropped even when whitespace is preserved.
pub open spec fn always_discardable(c: char) -> bool {
    is_bidi_control_char(c)
}

/// A character dropped by the non-compressing copy under `mode`.
pub open spec fn discardable(c: char, mode: CompressionMode) -> bool {
    always_discardable(c) || (mode is CompressWhitespaceNewline && c == '\n')
}

/// One step of whitespace compression: the characters emitted for `c` and
/// the whitespace state carried to the next character.
pub open spec fn compress_step(c: char, in_ws: bool, mode: CompressionMode) -> (Seq<char>, bool) {
    if !in_whitespace(c, mode) {
        if always_discardable(c) {
            (Seq::empty(), in_ws)
        } else {
            (seq![c], false)
        }
    } else {
        if in_ws {
            (Seq::empty(), true)
        } else {
            (seq![' '], true)
        }
    }
}

/// Whitespace compression of a whole sequence, threading the state.
pub open spec fn compress_text(s: Seq<char>, in_ws: bool, mode: CompressionMode) -> (
    Seq<char>,
    bool,
)
    decreases s.len(),
{
    if s.len() == 0 {
        (Seq::empty(), in_ws)
    } else {
        let step = compress_step(s[0], in_ws, mode);
        let rest = compress_text(s.drop_first(), step.1, mode);
        (step.0 + rest.0, rest.1)
    }
}

/// The non-compressing copy: keeps everything but discardable characters.
pub open spec fn copy_text(s: Seq<char>, mode: CompressionMode) -> Seq<char>
    decreases s.len(),
{
    if s.len() == 0 {
        Seq::empty()
    } else {
        (if discardable(s[0], mode) {
            Seq::empty()
        } else {
            seq![s[0]]
        }) + copy_text(s.drop_first(), mode)
    }
}

/// What `transform_text` appends and the whitespace state it reports.
pub open spec fn transform_spec(s: Seq<char>, mode: CompressionMode, incoming: bool) -> (
    Seq<char>,
    bool,
) {
    match mode {
        CompressionMode::CompressNone => (copy_text(s, mode), false),
        _ => compress_text(s, incoming, mode),
    }
}

pub proof fn lemma_compress_snoc(s: Seq<char>, c: char, in_ws: bool, mode: CompressionMode)
    ensures
        compress_text(s.push(c), in_ws, mode).0 == compress_text(s, in_ws, mode).0 + compress_step(
            c,
            compress_text(s, in_ws, mode).1,
            mode,
        ).0,
        compress_text(s.push(c), in_ws, mode).1 == compress_step(
            c,
            compress_text(s, in_ws, mode).1,
            mode,
        ).1,
    decreases s.len(),
{
    let sp = s.push(c);
    if s.len() == 0 {
        assert(sp.len() == 1);
        assert(sp[0] == c);
        assert(sp.drop_first() =~= Seq::<char>::empty());
        let step = compress_step(c, in_ws, mode);
        assert(compress_text(sp.drop_first(), step.1, mode) == (Seq::<char>::empty(), step.1));
        assert(compress_text(sp, in_ws, mode).0 == step.0 + Seq::<char>::empty());
        assert(step.0 + Seq::<char>::empty() =~= step.0);
        assert(compress_text(s, in_ws, mode) == (Seq::<char>::empty(), in_ws));
        assert(Seq::<char>::empty() + step.0 =~= step.0);
    } else {
        assert(sp.drop_first() =~= s.drop_first().push(c));
        assert(sp[0] == s[0]);
        let step = compress_step(s[0], in_ws, mode);
        lemma_compress_snoc(s.drop_first(), c, step.1, mode);
        let mid = compress_text(s.drop_first(), step.1, mode);
        let tail = compress_step(c, mid.1, mode);
        assert(compress_text(sp.drop_first(), step.1, mode).0 == mid.0 + tail.0);
        assert(compress_text(sp, in_ws, mode).0 == step.0 + (mid.0 + tail.0));
        assert(step.0 + (mid.0 + tail.0) =~= (step.0 + mid.0) + tail.0);
        assert(compress_text(s, in_ws, mode).0 == step.0 + mid.0);
    }
}

pub proof fn lemma_copy_snoc(s: Seq<char>, c: char, mode: CompressionMode)
    ensures
        copy_text(s.push(c), mode) == copy_text(s, mode) + (if discardable(c, mode) {
            Seq::<char>::empty()
        } else {
            seq![c]
        }),
    decreases s.len(),
{
    let tail: Seq<char> = if discardable(c, mode) {
        Seq::empty()
    } else {
        seq![c]
    };
    let sp = s.push(c);
    if s.len() == 0 {
        assert(sp.len() == 1);
        assert(sp[0] == c);
        assert(sp.drop_first() =~= Seq::<char>::empty());
        assert(copy_text(sp.drop_first(), mode) == Seq::<char>::empty());
        assert(copy_text(sp, mode) == tail + Seq::<char>::empty());
        assert(tail + Seq::<char>::empty() =~= tail);
        assert(copy_text(s, mode) == Seq::<char>::empty());
        assert(Seq::<char>::empty() + tail =~= tail);
    } else {
        assert(sp.drop_first() =~= s.drop_first().push(c));
        assert(sp[0] == s[0]);
        lemma_copy_snoc(s.drop_first(), c, mode);
        let head: Seq<char> = if discardable(s[0], mode) {
            Seq::empty()
        } else {
            seq![s[0]]
        };
        assert(copy_text(sp.drop_first(), mode) == copy_text(s.drop_first(), mode) + tail);
        assert(copy_text(sp, mode) == head + (copy_text(s.drop_first(), mode) + tail));
        assert(head + (copy_text(s.drop_first(), mode) + tail) =~= (head + copy_text(
            s.drop_first(),
            mode,
        )) + tail);
        assert(copy_text(s, mode) == head + copy_text(s.drop_first(), mode));
    }
}

/// Collapses runs of whitespace and drops bidi controls, appending to
/// `output_text`; carries the whitespace state in and out, so consecutive
/// calls compress as one concatenated string.
pub fn transform_text(
    text: &str,
    mode: CompressionMode,
    incoming_whitespace: bool,
    output_text: &mut String,
) -> (out_whitespace: bool)
    ensures
        final(output_text)@ == old(output_text)@ + transform_spec(
            text@,
            mode,
            incoming_whitespace,
        ).0,
        out_whitespace == transform_spec(text@, mode, incoming_whitespace).1,
{
    let chars = str_chars(text);
    let n = chars.len();
    match mode {
        CompressionMode::CompressNone => {
            let mut i: usize = 0;
            while i < n
                invariant
                    n == chars.len(),
                    chars@ == text@,
                    i <= n,
                    output_text@ == old(output_text)@ + copy_text(text@.take(i as int), mode),
                    mode is CompressNone,
                decreases n - i,
            {
                let ch = chars[i];
                proof {
                    assert(text@.take(i + 1) =~= text@.take(i as int).push(text@[i as int]));
                    lemma_copy_snoc(text@.take(i as int), text@[i as int], mode);
                }
                if is_bidi_control(ch) {
                    // dropped
                    proof {
                        assert(output_text@ + Seq::<char>::empty() =~= output_text@);
                    }
                } else {
                    push_char(output_text, ch);
                    proof {
                        assert((old(output_text)@ + copy_text(text@.take(i as int), mode)).push(ch)
                            =~= old(output_text)@ + (copy_text(text@.take(i as int), mode)
                            + seq![ch]));
                    }
                }
                i = i + 1;
            }
            proof {
                assert(text@.take(n as int) =~= text@);
            }
            false
        },
        _ => {
            let mut in_ws: bool = incoming_whitespace;
            let mut i: usize = 0;
            while i < n
                invariant
                    n == chars.len(),
                    chars@ == text@,
                    i <= n,
                    !(mode is CompressNone),
                    output_text@ == old(output_text)@ + compress_text(
                        text@.take(i as int),
                        incoming_whitespace,
                        mode,
                    ).0,
                    in_ws == compress_text(text@.take(i as int), incoming_whitespace, mode).1,
                decreases n - i,
            {
                let ch = chars[i];
                proof {
                    assert(text@.take(i + 1) =~= text@.take(i as int).push(text@[i as int]));
                    lemma_compress_snoc(text@.take(i as int), text@[i as int], incoming_whitespace, mode);
                }
                let is_newline_ws = ch == '\n' && match mode {
                    CompressionMode::CompressWhitespaceNewline => true,
                    _ => false,
                };
                let mut next_in_ws: bool = ch == ' ' || ch == '\t' || is_newline_ws;
                if !next_in_ws {
                    if is_bidi_control(ch) {
                        // the discarded character keeps the prior whitespace state
                        next_in_ws = in_ws;
                        proof {
                            assert(output_text@ + Seq::<char>::empty() =~= output_text@);
                        }
                    } else {
                        push_char(output_text, ch);
                        proof {
                            assert((old(output_text)@ + compress_text(
                                text@.take(i as int),
                                incoming_whitespace,
                                mode,
                            ).0).push(ch) =~= old(output_text)@ + (compress_text(
                                text@.take(i as int),
                                incoming_whitespace,
                                mode,
                            ).0 + seq![ch]));
                        }
                    }
                } else {
                    if in_ws {
                        proof {
                            assert(output_text@ + Seq::<char>::empty() =~= output_text@);
                        }
                    } else {
                        push_char(output_text, ' ');
                        proof {
                            assert((old(output_text)@ + compress_text(
                                text@.take(i as int),
                                incoming_whitespace,
                                mode,
                            ).0).push(' ') =~= old(output_text)@ + (compress_text(
                                text@.take(i as int),
                                incoming_whitespace,
                                mode,
                            ).0 + seq![' ']));
                        }
                    }
                }
                in_ws = next_in_ws;
                i = i + 1;
            }
            proof {
                assert(text@.take(n as int) =~= text@);
            }
            in_ws
        },
    }
}

/// Uppercase mapping of a whole sequence (full case mapping, so the result
/// may be longer than the input).
pub open spec fn uppercase_seq(s: Seq<char>) -> Seq<char>
    decreases s.len(),
{
    if s.len() == 0 {
        Seq::empty()
    } else {
        uppercase_mapping(s[0]) + uppercase_seq(s.drop_first())
    }
}

/// Lowercase mapping of a whole sequence.
pub open spec fn lowercase_seq(s: Seq<char>) -> Seq<char>
    decreases s.len(),
{
    if s.len() == 0 {
        Seq::empty()
    } else {
        lowercase_mapping(s[0]) + lowercase_seq(s.drop_first())
    }
}

/// The capitalize transform: uppercases the first alphabetic character
/// after whitespace (or at the start, when `cap_next` starts true); the
/// pending state survives intervening non-alphabetic characters.
/// "Alphabetic" here is the Unicode property, not the CSS typographic
/// letter unit: a deliberate, documented limitation of this transform.
pub open spec fn capitalize_seq(s: Seq<char>, cap_next: bool) -> Seq<char>
    decreases s.len(),
{
    if s.len() == 0 {
        Seq::empty()
    } else {
        if cap_next && is_alphabetic_char(s[0]) {
            seq![uppercase_mapping(s[0])[0]] + capitalize_seq(s.drop_first(), false)
        } else {
            seq![s[0]] + capitalize_seq(s.drop_first(), cap_next || is_white_space_char(s[0]))
        }
    }
}

/// What the casing transform turns freshly appended text into.
pub open spec fn case_transform_spec(
    s: Seq<char>,
    case: TextTransformCase,
    last_whitespace: bool,
    is_first_run: bool,
) -> Seq<char> {
    match case {
        TextTransformCase::NoTransform => s,
        TextTransformCase::Uppercase => uppercase_seq(s),
        TextTransformCase::Lowercase => lowercase_seq(s),
        TextTransformCase::Capitalize => capitalize_seq(s, is_first_run || last_whitespace),
    }
}

pub proof fn lemma_uppercase_snoc(s: Seq<char>, c: char)
    ensures
        uppercase_seq(s.push(c)) == uppercase_seq(s) + uppercase_mapping(c),
    decreases s.len(),
{
    let sp = s.push(c);
    if s.len() == 0 {
        assert(sp[0] == c);
        assert(sp.drop_first() =~= Seq::<char>::empty());
        assert(uppercase_seq(sp.drop_first()) == Seq::<char>::empty());
        assert(uppercase_seq(s) == Seq::<char>::empty());
        assert(uppercase_seq(sp) == uppercase_mapping(c) + Seq::<char>::empty());
        assert(uppercase_mapping(c) + Seq::<char>::empty() =~= uppercase_mapping(c));
        assert(Seq::<char>::empty() + uppercase_mapping(c) =~= uppercase_mapping(c));
    } else {
        assert(sp.drop_first() =~= s.drop_first().push(c));
        assert(sp[0] == s[0]);
        lemma_uppercase_snoc(s.drop_first(), c);
        assert(uppercase_mapping(s[0]) + (uppercase_seq(s.drop_first()) + uppercase_mapping(c))
            =~= (uppercase_mapping(s[0]) + uppercase_seq(s.drop_first())) + uppercase_mapping(c));
    }
}

pub proof fn lemma_lowercase_snoc(s: Seq<char>, c: char)
    ensures
        lowercase_seq(s.push(c)) == lowercase_seq(s) + lowercase_mapping(c),
    decreases s.len(),
{
    let sp = s.push(c);
    if s.len() == 0 {
        assert(sp[0] == c);
        assert(sp.drop_first() =~= Seq::<char>::empty());
        assert(lowercase_seq(sp.drop_first()) == Seq::<char>::empty());
        assert(lowercase_seq(s) == Seq::<char>::empty());
        assert(lowercase_seq(sp) == lowercase_mapping(c) + Seq::<char>::empty());
        assert(lowercase_mapping(c) + Seq::<char>::empty() =~= lowercase_mapping(c));
        assert(Seq::<char>::empty() + lowercase_mapping(c) =~= lowercase_mapping(c));
    } else {
        assert(sp.drop_first() =~= s.drop_first().push(c));
        assert(sp[0] == s[0]);
        lemma_lowercase_snoc(s.drop_first(), c);
        assert(lowercase_mapping(s[0]) + (lowercase_seq(s.drop_first()) + lowercase_mapping(c))
            =~= (lowercase_mapping(s[0]) + lowercase_seq(s.drop_first())) + lowercase_mapping(c));
    }
}

/// The capitalize state after consuming `s` with initial state `cap_next`.
pub open spec fn capitalize_state(s: Seq<char>, cap_next: bool) -> bool
    decreases s.len(),
{
    if s.len() == 0 {
        cap_next
    } else {
        if cap_next && is_alphabetic_char(s[0]) {
            capitalize_state(s.drop_first(), false)
        } else {
            capitalize_state(s.drop_first(), cap_next || is_white_space_char(s[0]))
        }
    }
}

pub proof fn lemma_capitalize_snoc(s: Seq<char>, c: char, cap_next: bool)
    ensures
        capitalize_seq(s.push(c), cap_next) == capitalize_seq(s, cap_next) + (if capitalize_state(
            s,
            cap_next,
        ) && is_alphabetic_char(c) {
            seq![uppercase_mapping(c)[0]]
        } else {
            seq![c]
        }),
        capitalize_state(s.push(c), cap_next) == (if capitalize_state(s, cap_next)
            && is_alphabetic_char(c) {
            false
        } else {
            capitalize_state(s, cap_next) || is_white_space_char(c)
        }),
    decreases s.len(),
{
    let sp = s.push(c);
    let tail: Seq<char> = if capitalize_state(s, cap_next) && is_alphabetic_char(c) {
        seq![uppercase_mapping(c)[0]]
    } else {
        seq![c]
    };
    if s.len() == 0 {
        assert(sp[0] == c);
        assert(sp.drop_first() =~= Seq::<char>::empty());
        assert(capitalize_seq(sp.drop_first(), false) == Seq::<char>::empty());
        assert(capitalize_seq(sp.drop_first(), cap_next || is_white_space_char(c))
            == Seq::<char>::empty());
        assert(capitalize_state(sp.drop_first(), false) == false);
        assert(capitalize_state(sp.drop_first(), cap_next || is_white_space_char(c)) == (cap_next
            || is_white_space_char(c)));
        assert(capitalize_seq(s, cap_next) == Seq::<char>::empty());
        assert(capitalize_state(s, cap_next) == cap_next);
        assert(capitalize_seq(sp, cap_next) == tail + Seq::<char>::empty());
        assert(tail + Seq::<char>::empty() =~= tail);
        assert(Seq::<char>::empty() + tail =~= tail);
    } else {
        assert(sp.drop_first() =~= s.drop_first().push(c));
        assert(sp[0] == s[0]);
        let head: Seq<char> = if cap_next && is_alphabetic_char(s[0]) {
            seq![uppercase_mapping(s[0])[0]]
        } else {
            seq![s[0]]
        };
        let next: bool = if cap_next && is_alphabetic_char(s[0]) {
            false
        } else {
            cap_next || is_white_space_char(s[0])
        };
        lemma_capitalize_snoc(s.drop_first(), c, next);
        assert(head + (capitalize_seq(s.drop_first(), next) + tail) =~= (head + capitalize_seq(
            s.drop_first(),
            next,
        )) + tail);
    }
}

/// Applies the CSS text-casing transform to `string`, which holds exactly
/// the text newly appended by the preceding whitespace transform.
/// `last_whitespace` and `is_first_run` seed the capitalize state.
pub fn apply_style_transform_if_necessary(
    string: &mut String,
    text_transform: TextTransformCase,
    last_whitespace: bool,
    is_first_run: bool,
)
    ensures
        final(string)@ == case_transform_spec(
            old(string)@,
            text_transform,
            last_whitespace,
            is_first_run,
        ),
{
    match text_transform {
        TextTransformCase::NoTransform => {},
        TextTransformCase::Uppercase => {
            let chars = str_chars(string.as_str());
            let n = chars.len();
            let mut out = String::new();
            let mut i: usize = 0;
            while i < n
                invariant
                    n == chars.len(),
                    chars@ == old(string)@,
                    i <= n,
                    out@ == uppercase_seq(old(string)@.take(i as int)),
                decreases n - i,
            {
                proof {
                    assert(old(string)@.take(i + 1) =~= old(string)@.take(i as int).push(
                        old(string)@[i as int],
                    ));
                    lemma_uppercase_snoc(old(string)@.take(i as int), old(string)@[i as int]);
                }
                let mapped = char_to_uppercase(chars[i]);
                let m = mapped.len();
                let mut j: usize = 0;
                while j < m
                    invariant
                        m == mapped.len(),
                        j <= m,
                        out@ == uppercase_seq(old(string)@.take(i as int)) + mapped@.take(j as int),
                    decreases m - j,
                {
                    push_char(&mut out, mapped[j]);
                    j = j + 1;
                    proof {
                        assert(mapped@.take(j as int) =~= mapped@.take(j - 1).push(mapped@[j - 1]));
                        assert((uppercase_seq(old(string)@.take(i as int)) + mapped@.take(j - 1))
                            .push(mapped@[j - 1]) =~= uppercase_seq(old(string)@.take(i as int))
                            + mapped@.take(j as int));
                    }
                }
                proof {
                    assert(mapped@.take(m as int) =~= mapped@);
                }
                i = i + 1;
            }
            proof {
                assert(old(string)@.take(n as int) =~= old(string)@);
            }
            *string = out;
        },
        TextTransformCase::Lowercase => {
            let chars = str_chars(string.as_str());
            let n = chars.len();
            let mut out = String::new();
            let mut i: usize = 0;
            while i < n
                invariant
                    n == chars.len(),
                    chars@ == old(string)@,
                    i <= n,
                    out@ == lowercase_seq(old(string)@.take(i as int)),
                decreases n - i,
            {
                proof {
                    assert(old(string)@.take(i + 1) =~= old(string)@.take(i as int).push(
                        old(string)@[i as int],
                    ));
                    lemma_lowercase_snoc(old(string)@.take(i as int), old(string)@[i as int]);
                }
                let mapped = char_to_lowercase(chars[i]);
                let m = mapped.len();
                let mut j: usize = 0;
                while j < m
                    invariant
                        m == mapped.len(),
                        j <= m,
                        out@ == lowercase_seq(old(string)@.take(i as int)) + mapped@.take(j as int),
                    decreases m - j,
                {
                    push_char(&mut out, mapped[j]);
                    j = j + 1;
                    proof {
                        assert(mapped@.take(j as int) =~= mapped@.take(j - 1).push(mapped@[j - 1]));
                        assert((lowercase_seq(old(string)@.take(i as int)) + mapped@.take(j - 1))
                            .push(mapped@[j - 1]) =~= lowercase_seq(old(string)@.take(i as int))
                            + mapped@.take(j as int));
                    }
                }
                proof {
                    assert(mapped@.take(m as int) =~= mapped@);
                }
                i = i + 1;
            }
            proof {
                assert(old(string)@.take(n as int) =~= old(string)@);
            }
            *string = out;
        },
        TextTransformCase::Capitalize => {
            let cap0 = is_first_run || last_whitespace;
            let chars = str_chars(string.as_str());
            let n = chars.len();
            let mut out = String::new();
            let mut cap_next: bool = cap0;
            let mut i: usize = 0;
            while i < n
                invariant
                    n == chars.len(),
                    chars@ == old(string)@,
                    i <= n,
                    out@ == capitalize_seq(old(string)@.take(i as int), cap0),
                    cap_next == capitalize_state(old(string)@.take(i as int), cap0),
                decreases n - i,
            {
                proof {
                    assert(old(string)@.take(i + 1) =~= old(string)@.take(i as int).push(
                        old(string)@[i as int],
                    ));
                    lemma_capitalize_snoc(old(string)@.take(i as int), old(string)@[i as int], cap0);
                }
                let c = chars[i];
                let ghost prefix_out = capitalize_seq(old(string)@.take(i as int), cap0);
                if cap_next && char_is_alphabetic(c) {
                    let mapped = char_to_uppercase(c);
                    push_char(&mut out, mapped[0]);
                    cap_next = false;
                    proof {
                        assert(prefix_out.push(uppercase_mapping(c)[0]) =~= prefix_out + seq![
                            uppercase_mapping(c)[0],
                        ]);
                    }
                } else {
                    push_char(&mut out, c);
                    cap_next = cap_next || char_is_white_space(c);
                    proof {
                        assert(prefix_out.push(c) =~= prefix_out + seq![c]);
                    }
                }
                i = i + 1;
            }
            proof {
                assert(old(string)@.take(n as int) =~= old(string)@);
            }
            *string = out;
        },
    }
}


/// Compression is compositional: a concatenation compresses as its first
/// part followed by its second, with the whitespace state threaded
/// through. With `lemma_whitespace_run_collapses` this says any maximal
/// whitespace run inside a string collapses to exactly one space.
pub proof fn lemma_compress_concat(a: Seq<char>, b: Seq<char>, in_ws: bool, mode: CompressionMode)
    ensures
        compress_text(a + b, in_ws, mode).0 == compress_text(a, in_ws, mode).0 + compress_text(
            b,
            compress_text(a, in_ws, mode).1,
            mode,
        ).0,
        compress_text(a + b, in_ws, mode).1 == compress_text(
            b,
            compress_text(a, in_ws, mode).1,
            mode,
        ).1,
    decreases a.len(),
{
    if a.len() == 0 {
        assert(a + b =~= b);
        assert(compress_text(a, in_ws, mode) == (Seq::<char>::empty(), in_ws));
        assert(Seq::<char>::empty() + compress_text(b, in_ws, mode).0 =~= compress_text(
            b,
            in_ws,
            mode,
        ).0);
    } else {
        assert((a + b)[0] == a[0]);
        assert((a + b).drop_first() =~= a.drop_first() + b);
        let step = compress_step(a[0], in_ws, mode);
        lemma_compress_concat(a.drop_first(), b, step.1, mode);
        let mid = compress_text(a.drop_first(), step.1, mode);
        let tail = compress_text(b, mid.1, mode);
        assert(compress_text(a + b, in_ws, mode).0 == step.0 + (mid.0 + tail.0));
        assert(step.0 + (mid.0 + tail.0) =~= (step.0 + mid.0) + tail.0);
        assert(compress_text(a, in_ws, mode).0 == step.0 + mid.0);
    }
}

/// No two adjacent spaces in compressed output.
pub open spec fn no_adjacent_spaces(s: Seq<char>) -> bool {
    forall|i: int| 0 <= i < s.len() - 1 ==> !(#[trigger] s[i] == ' ' && s[i + 1] == ' ')
}

/// Whitespace compression never emits two spaces in a row, and when the
/// incoming state already says "in whitespace" the output cannot begin
/// with a space.
pub proof fn lemma_no_adjacent_spaces(s: Seq<char>, in_ws: bool, mode: CompressionMode)
    ensures
        no_adjacent_spaces(compress_text(s, in_ws, mode).0),
        in_ws ==> (compress_text(s, in_ws, mode).0.len() == 0 || compress_text(s, in_ws, mode).0[0]
            != ' '),
    decreases s.len(),
{
    if s.len() == 0 {
    } else {
        let step = compress_step(s[0], in_ws, mode);
        let rest = compress_text(s.drop_first(), step.1, mode);
        lemma_no_adjacent_spaces(s.drop_first(), step.1, mode);
        let out = compress_text(s, in_ws, mode).0;
        assert(out == step.0 + rest.0);
        if step.0.len() == 0 {
            assert(out =~= rest.0);
        } else {
            assert(step.0.len() == 1);
            assert(out[0] == step.0[0]);
            assert forall|i: int|
                0 <= i < out.len() - 1 implies !(#[trigger] out[i] == ' ' && out[i + 1] == ' ') by {
                if i == 0 {
                    if out[0] == ' ' {
                        // a space was emitted, so the carried state is "in whitespace"
                        assert(in_whitespace(s[0], mode) && !in_ws);
                        assert(step.1 == true);
                        assert(out[1] == rest.0[0]);
                    }
                } else {
                    assert(out[i] == rest.0[i - 1]);
                    assert(out[i + 1] == rest.0[i]);
                }
            }
        }
    }
}

/// A maximal whitespace run collapses to exactly one space: from a
/// non-whitespace state it emits a single space, and from a whitespace
/// state it emits nothing; either way the state afterwards is "in
/// whitespace".
pub proof fn lemma_whitespace_run_collapses(s: Seq<char>, mode: CompressionMode)
    requires
        s.len() > 0,
        forall|i: int| 0 <= i < s.len() ==> in_whitespace(#[trigger] s[i], mode),
    ensures
        compress_text(s, false, mode).0 == seq![' '],
        compress_text(s, true, mode).0 == Seq::<char>::empty(),
        compress_text(s, false, mode).1 == true,
        compress_text(s, true, mode).1 == true,
    decreases s.len(),
{
    assert(s.drop_first().len() == s.len() - 1);
    if s.len() == 1 {
        assert(s.drop_first() =~= Seq::<char>::empty());
        assert(compress_text(s.drop_first(), true, mode) == (Seq::<char>::empty(), true));
        assert(compress_text(s, false, mode).0 =~= seq![' ']);
        assert(compress_text(s, true, mode).0 =~= Seq::<char>::empty());
    } else {
        assert(forall|i: int|
            0 <= i < s.drop_first().len() ==> in_whitespace(#[trigger] s.drop_first()[i], mode));
        lemma_whitespace_run_collapses(s.drop_first(), mode);
        assert(compress_text(s, false, mode).0 =~= seq![' ']);
        assert(compress_text(s, true, mode).0 =~= Seq::<char>::empty());
    }
}

/// The non-compressing mode is the identity on strings free of bidi
/// control characters, whatever whitespace state is carried in, and it
/// always reports a non-whitespace state.
pub proof fn lemma_compress_none_identity(s: Seq<char>, incoming: bool)
    requires
        forall|i: int| 0 <= i < s.len() ==> !is_bidi_control_char(#[trigger] s[i]),
    ensures
        transform_spec(s, CompressionMode::CompressNone, incoming).0 == s,
        transform_spec(s, CompressionMode::CompressNone, incoming).1 == false,
    decreases s.len(),
{
    let mode = CompressionMode::CompressNone;
    if s.len() == 0 {
        assert(copy_text(s, mode) =~= s);
    } else {
        assert(forall|i: int|
            0 <= i < s.drop_first().len() ==> !is_bidi_control_char(#[trigger] s.drop_first()[i]));
        lemma_compress_none_identity(s.drop_first(), incoming);
        assert(copy_text(s, mode) == seq![s[0]] + copy_text(s.drop_first(), mode));
        assert(seq![s[0]] + s.drop_first() =~= s);
    }
}

/// Carrying `incoming_whitespace == true` into a string that starts with
/// whitespace emits no leading space; carrying `false` emits exactly one
/// leading collapsed space.
pub proof fn lemma_incoming_whitespace_boundary(s: Seq<char>, mode: CompressionMode)
    requires
        s.len() > 0,
        in_whitespace(s[0], mode),
    ensures
        compress_text(s, true, mode).0.len() == 0 || compress_text(s, true, mode).0[0] != ' ',
        compress_text(s, false, mode).0.len() > 0 && compress_text(s, false, mode).0[0] == ' ',
{
    lemma_no_adjacent_spaces(s, true, mode);
    let step = compress_step(s[0], false, mode);
    assert(step.0 == seq![' ']);
    let rest = compress_text(s.drop_first(), true, mode);
    assert(compress_text(s, false, mode).0 == step.0 + rest.0);
    assert((step.0 + rest.0)[0] == ' ');
}


/// A character that is neither collapsible whitespace nor a bidi control
/// survives the whitespace transform, so the output is not empty.
pub proof fn lemma_compress_keeps_char(s: Seq<char>, in_ws: bool, mode: CompressionMode, k: int)
    requires
        0 <= k < s.len(),
        !in_whitespace(s[k], mode),
        !always_discardable(s[k]),
    ensures
        compress_text(s, in_ws, mode).0.len() > 0,
    decreases s.len(),
{
    let step = compress_step(s[0], in_ws, mode);
    if k == 0 {
        assert(step.0.len() == 1);
    } else {
        lemma_compress_keeps_char(s.drop_first(), step.1, mode, k - 1);
    }
}

pub proof fn lemma_copy_keeps_char(s: Seq<char>, mode: CompressionMode, k: int)
    requires
        0 <= k < s.len(),
        !discardable(s[k], mode),
    ensures
        copy_text(s, mode).len() > 0,
    decreases s.len(),
{
    if k > 0 {
        lemma_copy_keeps_char(s.drop_first(), mode, k - 1);
    }
}

pub proof fn lemma_transform_keeps_char(s: Seq<char>, mode: CompressionMode, incoming: bool, k: int)
    requires
        0 <= k < s.len(),
        !in_whitespace(s[k], mode),
        !is_bidi_control_char(s[k]),
        mode is CompressNone ==> s[k] != '\n',
    ensures
        transform_spec(s, mode, incoming).0.len() > 0,
{
    match mode {
        CompressionMode::CompressNone => {
            lemma_copy_keeps_char(s, mode, k);
        },
        _ => {
            lemma_compress_keeps_char(s, incoming, mode, k);
        },
    }
}

pub proof fn lemma_uppercase_seq_len(s: Seq<char>)
    ensures
        uppercase_seq(s).len() >= s.len(),
    decreases s.len(),
{
    if s.len() > 0 {
        lemma_uppercase_seq_len(s.drop_first());
    }
}

pub proof fn lemma_lowercase_seq_len(s: Seq<char>)
    ensures
        lowercase_seq(s).len() >= s.len(),
    decreases s.len(),
{
    if s.len() > 0 {
        lemma_lowercase_seq_len(s.drop_first());
    }
}

pub proof fn lemma_capitalize_len(s: Seq<char>, cap_next: bool)
    ensures
        capitalize_seq(s, cap_next).len() == s.len(),
    decreases s.len(),
{
    if s.len() > 0 {
        if cap_next && is_alphabetic_char(s[0]) {
            lemma_capitalize_len(s.drop_first(), false);
        } else {
            lemma_capitalize_len(s.drop_first(), cap_next || is_white_space_char(s[0]));
        }
    }
}

/// The casing transform never empties non-empty text.
pub proof fn lemma_case_transform_keeps(
    s: Seq<char>,
    case: TextTransformCase,
    last_whitespace: bool,
    is_first_run: bool,
)
    requires
        s.len() > 0,
    ensures
        case_transform_spec(s, case, last_whitespace, is_first_run).len() > 0,
{
    match case {
        TextTransformCase::NoTransform => {},
        TextTransformCase::Uppercase => {
            lemma_uppercase_seq_len(s);
        },
        TextTransformCase::Lowercase => {
            lemma_lowercase_seq_len(s);
        },
        TextTransformCase::Capitalize => {
            lemma_capitalize_len(s, is_first_run || last_whitespace);
        },
    }
}


/// Every character the compression emits is either the single collapsed
/// space or a kept input character: never a tab, and, when newlines
/// collapse, never a newline.
pub proof fn lemma_compress_output_chars(s: Seq<char>, in_ws: bool, mode: CompressionMode)
    ensures
        (forall|k: int|
            0 <= k < compress_text(s, in_ws, mode).0.len() ==> (#[trigger] compress_text(
                s,
                in_ws,
                mode,
            ).0[k] == ' ' || (!in_whitespace(compress_text(s, in_ws, mode).0[k], mode)
                && !always_discardable(compress_text(s, in_ws, mode).0[k])))),
    decreases s.len(),
{
    if s.len() > 0 {
        let step = compress_step(s[0], in_ws, mode);
        lemma_compress_output_chars(s.drop_first(), step.1, mode);
        let rest = compress_text(s.drop_first(), step.1, mode);
        assert(compress_text(s, in_ws, mode).0 == step.0 + rest.0);
        assert forall|k: int|
            0 <= k < compress_text(s, in_ws, mode).0.len() implies (#[trigger] compress_text(
            s,
            in_ws,
            mode,
        ).0[k] == ' ' || (!in_whitespace(compress_text(s, in_ws, mode).0[k], mode)
            && !always_discardable(compress_text(s, in_ws, mode).0[k]))) by {
            if k < step.0.len() {
                assert(compress_text(s, in_ws, mode).0[k] == step.0[k]);
            } else {
                assert(compress_text(s, in_ws, mode).0[k] == rest.0[k - step.0.len()]);
            }
        }
    }
}

/// The per-maximal-run characterization in one statement: around a
/// non-empty all-whitespace run, compression is the compression of the
/// part before it, then exactly one space (or nothing, when the state
/// coming out of that part is already "in whitespace"), then the
/// compression of the part after it in the "in whitespace" state.
pub proof fn lemma_maximal_run_collapses(
    a: Seq<char>,
    w: Seq<char>,
    b: Seq<char>,
    in_ws: bool,
    mode: CompressionMode,
)
    requires
        w.len() > 0,
        forall|i: int| 0 <= i < w.len() ==> in_whitespace(#[trigger] w[i], mode),
    ensures
        compress_text(a + w + b, in_ws, mode).0 == compress_text(a, in_ws, mode).0 + (if
        compress_text(a, in_ws, mode).1 {
            Seq::<char>::empty()
        } else {
            seq![' ']
        }) + compress_text(b, true, mode).0,
{
    let ca = compress_text(a, in_ws, mode);
    lemma_compress_concat(a, w + b, in_ws, mode);
    assert(a + w + b =~= a + (w + b));
    lemma_compress_concat(w, b, ca.1, mode);
    lemma_whitespace_run_collapses(w, mode);
    let mid: Seq<char> = if ca.1 {
        Seq::empty()
    } else {
        seq![' ']
    };
    assert(compress_text(w, ca.1, mode).0 == mid);
    assert(compress_text(w, ca.1, mode).1 == true);
    assert(compress_text(a + (w + b), in_ws, mode).0 == ca.0 + (mid + compress_text(
        b,
        true,
        mode,
    ).0));
    assert(ca.0 + (mid + compress_text(b, true, mode).0) =~= (ca.0 + mid) + compress_text(
        b,
        true,
        mode,
    ).0);
}

} // verus!

//! Mathematical model of the wire format.
//!
//! Every contract in the crate is stated over the spec functions in this
//! module: the escaped form of a payload, the unescaping of a scanned range,
//! the exact output size of the size pass, the positions of delimiter bytes,
//! and the packets-plus-remainder view of a streamed buffer.

use crate::constants::{END, ESC, ESC_END, ESC_ESC};
use vstd::prelude::*;

verus! {

/// The escaped form of one payload byte: `END` and `ESC` become two-byte
/// escape sequences, every other byte passes through unchanged.
pub open spec fn encode_byte(b: u8) -> Seq<u8> {
    if b == END {
        seq![ESC, ESC_END]
    } else if b == ESC {
        seq![ESC, ESC_ESC]
    } else {
        seq![b]
    }
}

/// The escaped form of a whole payload, without the surrounding delimiters.
pub open spec fn encode_seq(s: Seq<u8>) -> Seq<u8>
    decreases s.len(),
{
    if s.len() == 0 {
        Seq::empty()
    } else {
        encode_byte(s[0]) + encode_seq(s.skip(1))
    }
}

/// A complete framed sequence: the escaped payload bounded by delimiters.
pub open spec fn framed(s: Seq<u8>) -> Seq<u8> {
    seq![END] + encode_seq(s) + seq![END]
}

/// Unescape a scanned range.  Delimiter bytes contribute nothing, an escape
/// byte must be immediately followed by one of the two substitutes, and any
/// other byte is copied through.  `None` means the range is not valid SLIP
/// encoding: an escape byte with a foreign successor, or one that ends the
/// range.
pub open spec fn unescape_seq(s: Seq<u8>) -> Option<Seq<u8>>
    decreases s.len(),
{
    if s.len() == 0 {
        Some(Seq::empty())
    } else if s[0] == ESC {
        if s.len() >= 2 && (s[1] == ESC_END || s[1] == ESC_ESC) {
            match unescape_seq(s.skip(2)) {
                Some(rest) => Some(seq![if s[1] == ESC_END { END } else { ESC }] + rest),
                None => None,
            }
        } else {
            None
        }
    } else if s[0] == END {
        unescape_seq(s.skip(1))
    } else {
        match unescape_seq(s.skip(1)) {
            Some(rest) => Some(seq![s[0]] + rest),
            None => None,
        }
    }
}

/// The output length the size pass computes for a scanned range: an escape
/// byte counts one and consumes its successor, a delimiter counts zero, any
/// other byte counts one.
pub open spec fn decoded_len(s: Seq<u8>) -> nat
    decreases s.len(),
{
    if s.len() == 0 {
        0
    } else if s[0] == ESC {
        if s.len() == 1 {
            1
        } else {
            (1 + decoded_len(s.skip(2))) as nat
        }
    } else if s[0] == END {
        decoded_len(s.skip(1))
    } else {
        (1 + decoded_len(s.skip(1))) as nat
    }
}

/// Index of the first `END` byte at or after `from`; `s.len()` when there is
/// none (or when `from` lies outside the buffer).
pub open spec fn first_end_from(s: Seq<u8>, from: int) -> int
    decreases s.len() - from,
{
    if !(0 <= from < s.len()) {
        s.len() as int
    } else if s[from] == END {
        from
    } else {
        first_end_from(s, from + 1)
    }
}

/// Whether the buffer holds any delimiter byte at all.
pub open spec fn has_end(s: Seq<u8>) -> bool {
    first_end_from(s, 0) < s.len()
}

/// Where single-buffer decoding starts: the first delimiter, or the second of
/// a doubled pair of leading delimiters (a spurious empty leading frame is
/// skipped).
pub open spec fn start_pos(s: Seq<u8>) -> int {
    let f = first_end_from(s, 0);
    if f + 1 < s.len() && s[f + 1] == END {
        f + 1
    } else {
        f
    }
}

/// Index of the last `END` byte strictly before `upto`; `-1` when there is
/// none.
pub open spec fn last_end_before(s: Seq<u8>, upto: int) -> int
    decreases upto,
{
    if upto <= 0 || upto > s.len() {
        -1
    } else if s[upto - 1] == END {
        upto - 1
    } else {
        last_end_before(s, upto - 1)
    }
}

/// Where the backward scan ends: the last delimiter, or the first of a
/// doubled pair of trailing delimiters.
pub open spec fn end_pos(s: Seq<u8>) -> int {
    let l = last_end_before(s, s.len() as int);
    if l >= 1 && s[l - 1] == END {
        l - 1
    } else {
        l
    }
}

/// Decoded payloads of the complete frames of `s`, which is positioned at a
/// frame's opening delimiter.  Each further delimiter closes the current
/// frame; a doubled delimiter at a boundary is one logical delimiter.  A
/// frame whose escape sequences are malformed is skipped.
pub open spec fn stream_frames(s: Seq<u8>) -> Seq<Seq<u8>>
    decreases s.len(),
    via stream_frames_decreases
{
    let e = first_end_from(s, 1);
    if e >= s.len() {
        Seq::empty()
    } else {
        let nxt = if e + 1 < s.len() && s[e + 1] == END {
            e + 1
        } else {
            e
        };
        let rest = stream_frames(s.skip(nxt));
        match unescape_seq(s.subrange(0, e)) {
            Some(p) => seq![p] + rest,
            None => rest,
        }
    }
}

#[via_fn]
proof fn stream_frames_decreases(s: Seq<u8>) {
    if s.len() >= 1 {
        lemma_first_end_from(s, 1);
    }
}

/// The unconsumed suffix of `s` (positioned at a frame's opening delimiter)
/// that remains after all complete frames have been decoded: it starts at the
/// last unterminated frame's opening delimiter.
pub open spec fn stream_rest(s: Seq<u8>) -> Seq<u8>
    decreases s.len(),
    via stream_rest_decreases
{
    let e = first_end_from(s, 1);
    if e >= s.len() {
        s
    } else {
        let nxt = if e + 1 < s.len() && s[e + 1] == END {
            e + 1
        } else {
            e
        };
        stream_rest(s.skip(nxt))
    }
}

#[via_fn]
proof fn stream_rest_decreases(s: Seq<u8>) {
    if s.len() >= 1 {
        lemma_first_end_from(s, 1);
    }
}

/// All decoded packets of a streamed buffer: empty when no delimiter has been
/// seen yet, otherwise the frames from the first (doubled-skipped) delimiter
/// on.
pub open spec fn stream_packets(s: Seq<u8>) -> Seq<Seq<u8>> {
    if !has_end(s) {
        Seq::empty()
    } else {
        stream_frames(s.skip(start_pos(s)))
    }
}

/// The remainder of a streamed buffer: the whole buffer when no delimiter has
/// been seen yet, otherwise the suffix from the last unterminated frame's
/// opening delimiter.
pub open spec fn stream_remainder(s: Seq<u8>) -> Seq<u8> {
    if !has_end(s) {
        s
    } else {
        stream_rest(s.skip(start_pos(s)))
    }
}

/// `first_end_from` really is the first delimiter position: it lies between
/// `from` and the length, points at an `END` when it is inside the buffer,
/// and nothing before it (from `from` on) is an `END`.
pub proof fn lemma_first_end_from(s: Seq<u8>, from: int)
    requires
        0 <= from <= s.len(),
    ensures
        from <= first_end_from(s, from) <= s.len(),
        first_end_from(s, from) < s.len() ==> s[first_end_from(s, from)] == END,
        forall|j: int| from <= j < first_end_from(s, from) ==> s[j] != END,
    decreases s.len() - from,
{
    if from < s.len() && s[from] != END {
        lemma_first_end_from(s, from + 1);
    }
}

/// A position that is an `END` with no `END` between `from` and it pins
/// `first_end_from` down; `i == s.len()` stands for "no delimiter at all".
pub proof fn lemma_first_end_from_at(s: Seq<u8>, from: int, i: int)
    requires
        0 <= from <= i <= s.len(),
        forall|j: int| from <= j < i ==> s[j] != END,
        i < s.len() ==> s[i] == END,
    ensures
        first_end_from(s, from) == i,
    decreases i - from,
{
    if from < i {
        lemma_first_end_from_at(s, from + 1, i);
    }
}

/// `last_end_before` really is the last delimiter position: it lies below
/// `upto`, points at an `END` when it is inside the buffer, and nothing after
/// it (up to `upto`) is an `END`.
pub proof fn lemma_last_end_before(s: Seq<u8>, upto: int)
    requires
        0 <= upto <= s.len(),
    ensures
        -1 <= last_end_before(s, upto) < upto,
        last_end_before(s, upto) >= 0 ==> s[last_end_before(s, upto)] == END,
        forall|j: int| last_end_before(s, upto) < j < upto ==> s[j] != END,
    decreases upto,
{
    if upto > 0 && s[upto - 1] != END {
        lemma_last_end_before(s, upto - 1);
    }
}

/// A position that is an `END` with no `END` after it (before `upto`) pins
/// `last_end_before` down; `i == -1` stands for "no delimiter at all".
pub proof fn lemma_last_end_before_at(s: Seq<u8>, upto: int, i: int)
    requires
        -1 <= i < upto <= s.len(),
        forall|j: int| i < j < upto ==> s[j] != END,
        i >= 0 ==> s[i] == END,
    ensures
        last_end_before(s, upto) == i,
    decreases upto,
{
    if upto - 1 > i {
        lemma_last_end_before_at(s, upto - 1, i);
    }
}

/// In a buffer with a delimiter, the scanned frame range is well formed: the
/// start position and the end position are inside the buffer, and the start
/// never lies more than one past the end (the degenerate case is an empty
/// range between a doubled pair).
pub proof fn lemma_frame_bounds(s: Seq<u8>)
    requires
        has_end(s),
    ensures
        0 <= start_pos(s) < s.len(),
        0 <= end_pos(s) < s.len(),
        start_pos(s) <= end_pos(s) + 1,
{
    let f = first_end_from(s, 0);
    let l = last_end_before(s, s.len() as int);
    lemma_first_end_from(s, 0);
    lemma_last_end_before(s, s.len() as int);
    assert(s[f] == END);
    assert(l >= f) by {
        if l < f {
            assert(s[f] != END);
        }
    }
    if f + 1 < s.len() && s[f + 1] == END {
        assert(l >= f + 1) by {
            if l < f + 1 {
                assert(s[f + 1] != END);
            }
        }
    }
}

/// Searching a suffix is searching the whole buffer, shifted.
pub proof fn lemma_first_end_from_shift(s: Seq<u8>, d: int, from: int)
    requires
        0 <= d <= s.len(),
        0 <= from,
    ensures
        first_end_from(s.skip(d), from) == first_end_from(s, from + d) - d,
    decreases s.len() - d - from,
{
    if from < s.len() - d {
        assert(s.skip(d)[from] == s[from + d]);
        if s[from + d] != END {
            lemma_first_end_from_shift(s, d, from + 1);
        }
    }
}

/// Searching a prefix finds the same delimiter, or nothing where the whole
/// buffer's first delimiter lies beyond the prefix.
pub proof fn lemma_first_end_from_take(s: Seq<u8>, k: int, from: int)
    requires
        0 <= from,
        0 <= k <= s.len(),
    ensures
        first_end_from(s.take(k), from) == if first_end_from(s, from) < k {
            first_end_from(s, from)
        } else {
            k
        },
    decreases k - from,
{
    lemma_first_end_from(s, if from <= s.len() { from } else { s.len() as int });
    if from < k {
        assert(s.take(k)[from] == s[from]);
        if s[from] != END {
            lemma_first_end_from_take(s, k, from + 1);
        }
    }
}

} // verus!

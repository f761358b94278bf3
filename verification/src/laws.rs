//! The general laws of the codec, proved for all inputs.
//!
//! Each proof function here relates the spec functions that the executable
//! functions' contracts are stated over, so the law carries to the
//! executable functions themselves.

use crate::constants::{END, ESC, ESC_END, ESC_ESC};
use crate::model::{
    decoded_len, encode_byte, encode_seq, end_pos, first_end_from, framed, has_end,
    last_end_before, lemma_first_end_from, lemma_first_end_from_at, lemma_first_end_from_take,
    lemma_frame_bounds, lemma_last_end_before, lemma_last_end_before_at, start_pos, stream_frames,
    stream_packets, stream_remainder, stream_rest, unescape_seq,
};
use vstd::prelude::*;

verus! {

/// Idempotence of the size precomputation: on every valid scanned range, the
/// size pass computes exactly the number of bytes the transcode pass writes.
pub proof fn lemma_size_pass_exact(s: Seq<u8>)
    requires
        unescape_seq(s) is Some,
    ensures
        decoded_len(s) == unescape_seq(s)->0.len(),
    decreases s.len(),
{
    if s.len() == 0 {
    } else if s[0] == ESC {
        lemma_size_pass_exact(s.skip(2));
    } else {
        lemma_size_pass_exact(s.skip(1));
    }
}

/// Unescaping undoes escaping: the escaped form of a payload, closed by a
/// delimiter, decodes back to the payload.
proof fn lemma_unescape_of_encoded(p: Seq<u8>)
    ensures
        unescape_seq(encode_seq(p) + seq![END]) == Some(p),
    decreases p.len(),
{
    let s = encode_seq(p) + seq![END];
    if p.len() == 0 {
        assert(s =~= seq![END]);
        let e = Seq::<u8>::empty();
        assert(unescape_seq(e) == Some(e));
        assert(s.skip(1) =~= e);
        assert(unescape_seq(s) == unescape_seq(s.skip(1)));
        assert(p =~= e);
    } else {
        let b = p[0];
        let rest = encode_seq(p.skip(1)) + seq![END];
        lemma_unescape_of_encoded(p.skip(1));
        assert(s =~= encode_byte(b) + rest);
        if b == END {
            assert(s[0] == ESC && s[1] == ESC_END);
            assert(s.skip(2) =~= rest);
            assert(unescape_seq(s) == Some(seq![END] + p.skip(1)));
        } else if b == ESC {
            assert(s[0] == ESC && s[1] == ESC_ESC);
            assert(s.skip(2) =~= rest);
            assert(unescape_seq(s) == Some(seq![ESC] + p.skip(1)));
        } else {
            assert(s[0] == b);
            assert(s.skip(1) =~= rest);
            assert(unescape_seq(s) == Some(seq![b] + p.skip(1)));
        }
        assert(seq![b] + p.skip(1) =~= p);
    }
}

/// The escaped form of a payload never contains a delimiter byte, and is at
/// least as long as the payload.
proof fn lemma_encode_seq_no_end(p: Seq<u8>)
    ensures
        encode_seq(p).len() >= p.len(),
        forall|i: int| 0 <= i < encode_seq(p).len() ==> encode_seq(p)[i] != END,
    decreases p.len(),
{
    if p.len() > 0 {
        lemma_encode_seq_no_end(p.skip(1));
        let head = encode_byte(p[0]);
        assert forall|i: int| 0 <= i < encode_seq(p).len() implies encode_seq(p)[i] != END by {
            if i < head.len() {
                assert(encode_seq(p)[i] == head[i]);
            } else {
                assert(encode_seq(p)[i] == encode_seq(p.skip(1))[i - head.len()]);
            }
        }
    }
}

/// Round trip: for every raw payload, decoding its framed, escaped form
/// succeeds and yields the payload back.  Together with the contracts of
/// `encode` and `decode`, this says `decode(encode(p)) == Ok(p)`.
pub proof fn lemma_round_trip(p: Seq<u8>)
    ensures
        has_end(framed(p)),
        unescape_seq(framed(p).subrange(start_pos(framed(p)), end_pos(framed(p)) + 1)) == Some(p),
{
    let enc = framed(p);
    let n = enc.len() as int;
    assert(enc[0] == END);
    assert(enc[n - 1] == END);
    lemma_first_end_from_at(enc, 0, 0);
    assert(last_end_before(enc, n) == n - 1);
    if p.len() == 0 {
        assert(enc =~= seq![END, END]);
        assert(enc[1] == END);
        assert(start_pos(enc) == 1);
        assert(end_pos(enc) == 0);
        assert(enc.subrange(1, 1) =~= Seq::<u8>::empty());
        assert(unescape_seq(Seq::<u8>::empty()) == Some(Seq::<u8>::empty()));
        assert(p =~= Seq::<u8>::empty());
    } else {
        lemma_encode_seq_no_end(p);
        let body = encode_seq(p);
        assert(enc[1] == body[0]);
        assert(enc[1] != END);
        assert(start_pos(enc) == 0);
        assert(enc[n - 2] == body[body.len() - 1]);
        assert(enc[n - 2] != END);
        assert(end_pos(enc) == n - 1);
        assert(enc.subrange(0, n) =~= enc);
        assert(enc.skip(1) =~= body + seq![END]);
        lemma_unescape_of_encoded(p);
        assert(unescape_seq(enc) == unescape_seq(body + seq![END]));
    }
}

/// Leading noise tolerance: bytes before the first delimiter shift the
/// scanned frame range without changing its contents, so the single-buffer
/// decoder returns the same result with or without them.
pub proof fn lemma_leading_noise(noise: Seq<u8>, s: Seq<u8>)
    requires
        forall|i: int| 0 <= i < noise.len() ==> noise[i] != END,
    ensures
        has_end(noise + s) == has_end(s),
        has_end(s) ==> (noise + s).subrange(start_pos(noise + s), end_pos(noise + s) + 1)
            == s.subrange(start_pos(s), end_pos(s) + 1),
        has_end(s) ==> unescape_seq(
            (noise + s).subrange(start_pos(noise + s), end_pos(noise + s) + 1),
        ) == unescape_seq(s.subrange(start_pos(s), end_pos(s) + 1)),
{
    let w = noise + s;
    let nl = noise.len() as int;
    let f = first_end_from(s, 0);
    lemma_first_end_from(s, 0);
    assert(forall|j: int| 0 <= j < nl + f ==> w[j] != END);
    if f < s.len() {
        // the first delimiter shifts by the noise length
        assert(w[nl + f] == END);
        lemma_first_end_from_at(w, 0, nl + f);
        if f + 1 < s.len() {
            assert(w[nl + f + 1] == s[f + 1]);
        }
        assert(start_pos(w) == nl + start_pos(s));
        // the last delimiter shifts by the noise length too
        let l = last_end_before(s, s.len() as int);
        lemma_last_end_before(s, s.len() as int);
        assert(l >= 0) by {
            if l < 0 {
                assert(s[f] != END);
            }
        }
        assert(w[nl + l] == s[l]);
        assert forall|j: int| nl + l < j < w.len() implies w[j] != END by {
            assert(w[j] == s[j - nl]);
        }
        lemma_last_end_before_at(w, w.len() as int, nl + l);
        if nl + l >= 1 {
            if l >= 1 {
                assert(w[nl + l - 1] == s[l - 1]);
            } else {
                assert(w[nl + l - 1] == noise[nl - 1]);
            }
        }
        assert(end_pos(w) == nl + end_pos(s));
        lemma_frame_bounds(s);
        assert(w.subrange(nl + start_pos(s), nl + end_pos(s) + 1) =~= s.subrange(
            start_pos(s),
            end_pos(s) + 1,
        ));
    } else {
        lemma_first_end_from_at(w, 0, w.len() as int);
    }
}

/// Doubled-delimiter skip: a buffer beginning with two consecutive delimiters
/// decodes exactly as one beginning with a single delimiter at the same
/// logical position.
pub proof fn lemma_doubled_delimiter(rest: Seq<u8>)
    ensures
        has_end(seq![END, END] + rest) && has_end(seq![END] + rest),
        unescape_seq(
            (seq![END, END] + rest).subrange(
                start_pos(seq![END, END] + rest),
                end_pos(seq![END, END] + rest) + 1,
            ),
        ) == unescape_seq(
            (seq![END] + rest).subrange(start_pos(seq![END] + rest), end_pos(seq![END] + rest) + 1),
        ),
{
    let s2 = seq![END, END] + rest;
    let s1 = seq![END] + rest;
    assert(s2 =~= seq![END] + s1);
    assert(s1[0] == END);
    assert(s2[0] == END);
    assert(s2[1] == END);
    lemma_first_end_from_at(s1, 0, 0);
    lemma_first_end_from_at(s2, 0, 0);
    assert(start_pos(s2) == 1);
    let n1 = s1.len() as int;
    let l1 = last_end_before(s1, n1);
    lemma_last_end_before(s1, n1);
    assert(l1 >= 0) by {
        if l1 < 0 {
            assert(s1[0] != END);
        }
    }
    // the last delimiter of the longer buffer sits one place further right
    assert(s2[1 + l1] == s1[l1]);
    assert forall|j: int| 1 + l1 < j < s2.len() implies s2[j] != END by {
        assert(s2[j] == s1[j - 1]);
    }
    lemma_last_end_before_at(s2, s2.len() as int, 1 + l1);
    if l1 == 0 {
        // the only delimiter of s1 is its head: both scanned ranges decode
        // to the empty payload
        assert(end_pos(s1) == 0);
        assert(end_pos(s2) == 0);
        assert(s2.subrange(1, 1) =~= Seq::<u8>::empty());
        if s1.len() >= 2 {
            assert(s1[1] != END);
        }
        assert(start_pos(s1) == 0);
        assert(s1.subrange(0, 1) =~= seq![END]);
        assert(seq![END].skip(1) =~= Seq::<u8>::empty());
        assert(unescape_seq(seq![END]) == unescape_seq(seq![END].skip(1)));
        assert(unescape_seq(Seq::<u8>::empty()) == Some(Seq::<u8>::empty()));
    } else {
        assert(s2[l1] == s1[l1 - 1]);
        assert(end_pos(s2) == 1 + end_pos(s1));
        assert(end_pos(s1) >= 0);
        assert(s2.subrange(1, end_pos(s2) + 1) =~= s1.subrange(0, end_pos(s1) + 1));
        let r1 = s1.subrange(0, end_pos(s1) + 1);
        if s1.len() >= 2 && s1[1] == END {
            // s1 itself begins with a doubled pair; its own start skips one,
            // and unescaping drops the leading delimiter either way
            assert(start_pos(s1) == 1);
            assert(r1[0] == END);
            assert(r1.skip(1) =~= s1.subrange(1, end_pos(s1) + 1));
            assert(unescape_seq(r1) == unescape_seq(r1.skip(1)));
        } else {
            assert(start_pos(s1) == 0);
        }
    }
}

/// No three consecutive delimiter bytes anywhere in the buffer.
pub open spec fn no_triple_end(s: Seq<u8>) -> bool {
    forall|i: int|
        #![trigger s[i]]
        0 <= i && i + 2 < s.len() ==> !(s[i] == END && s[i + 1] == END && s[i + 2] == END)
}

/// A suffix of a buffer without triple delimiters has none either.
proof fn lemma_no_triple_skip(s: Seq<u8>, d: int)
    requires
        0 <= d <= s.len(),
        no_triple_end(s),
    ensures
        no_triple_end(s.skip(d)),
{
    assert forall|i: int|
        #![trigger s.skip(d)[i]]
        0 <= i && i + 2 < s.skip(d).len() implies !(s.skip(d)[i] == END && s.skip(d)[i + 1] == END
        && s.skip(d)[i + 2] == END) by {
        assert(s.skip(d)[i] == s[d + i]);
        assert(s.skip(d)[i + 1] == s[d + i + 1]);
        assert(s.skip(d)[i + 2] == s[d + i + 2]);
    }
}

/// A buffer positioned at a frame's opening delimiter with the doubled-pair
/// normalization already applied: a second delimiter never follows directly.
spec fn frame_start(t: Seq<u8>) -> bool {
    &&& t.len() >= 1
    &&& t[0] == END
    &&& (t.len() >= 2 ==> t[1] != END)
}

/// At a normalized frame start, the streamed view needs no further
/// normalization: packets and remainder are the frames and rest themselves.
proof fn lemma_packets_at_frame_start(t: Seq<u8>)
    requires
        frame_start(t),
    ensures
        stream_packets(t) == stream_frames(t),
        stream_remainder(t) == stream_rest(t),
{
    lemma_first_end_from_at(t, 0, 0);
    assert(start_pos(t) == 0);
    assert(t.skip(0) =~= t);
}

/// Splitting at a normalized frame start: decoding a prefix and then the
/// returned rest joined with the suffix yields the frames and rest of the
/// whole buffer.
proof fn lemma_frames_split(t: Seq<u8>, j: int)
    requires
        frame_start(t),
        no_triple_end(t),
        1 <= j <= t.len(),
    ensures
        stream_frames(t.take(j)) + stream_packets(stream_rest(t.take(j)) + t.skip(j))
            == stream_frames(t),
        stream_remainder(stream_rest(t.take(j)) + t.skip(j)) == stream_rest(t),
    decreases t.len(),
{
    let tk = t.take(j);
    let e = first_end_from(t, 1);
    lemma_first_end_from(t, 1);
    lemma_first_end_from_take(t, j, 1);
    if e >= j {
        // no closing delimiter inside the prefix: it is all rest, and
        // rejoining it with the suffix restores the buffer unchanged
        assert(first_end_from(tk, 1) == j);
        assert(stream_frames(tk) == Seq::<Seq<u8>>::empty());
        assert(stream_rest(tk) == tk);
        assert(tk + t.skip(j) =~= t);
        lemma_packets_at_frame_start(t);
        assert(Seq::<Seq<u8>>::empty() + stream_frames(t) =~= stream_frames(t));
    } else {
        // the first frame closes at e, inside the prefix, and is decoded the
        // same way on both sides
        assert(first_end_from(tk, 1) == e);
        assert(1 <= e < j);
        assert(t[e] == END);
        let frame = t.subrange(0, e);
        assert(tk.subrange(0, e) =~= frame);
        let nxt = if e + 1 < t.len() && t[e + 1] == END {
            e + 1
        } else {
            e
        };
        let t2 = t.skip(nxt);
        assert(t2[0] == t[nxt]);
        assert(t2[0] == END);
        assert(t2.len() >= 2 ==> t2[1] != END) by {
            if t2.len() >= 2 {
                assert(t2[1] == t[nxt + 1]);
                if nxt == e + 1 {
                    assert(t[e] == END && t[e + 1] == END);
                }
            }
        }
        lemma_no_triple_skip(t, nxt);
        if e + 1 < j {
            // the cut lies beyond the next frame start: recurse there
            assert(tk[e + 1] == t[e + 1]);
            assert(tk.skip(nxt) =~= t2.take(j - nxt));
            lemma_frames_split(t2, j - nxt);
            assert(t.skip(j) =~= t2.skip(j - nxt));
            let c = stream_rest(t2.take(j - nxt)) + t2.skip(j - nxt);
            assert(stream_rest(tk) == stream_rest(t2.take(j - nxt)));
            assert(stream_rest(t) == stream_rest(t2));
            if unescape_seq(frame) is Some {
                let p = unescape_seq(frame)->0;
                assert(stream_frames(t) == seq![p] + stream_frames(t2));
                assert(stream_frames(tk) == seq![p] + stream_frames(t2.take(j - nxt)));
                assert((seq![p] + stream_frames(t2.take(j - nxt))) + stream_packets(c)
                    =~= seq![p] + (stream_frames(t2.take(j - nxt)) + stream_packets(c)));
            } else {
                assert(stream_frames(t) == stream_frames(t2));
                assert(stream_frames(tk) == stream_frames(t2.take(j - nxt)));
            }
        } else {
            // the cut lies right after the closing delimiter: the prefix's
            // rest is that one delimiter, which re-opens the same frame
            // start when the suffix is joined back on
            assert(e + 1 == j);
            assert(tk.skip(e) =~= seq![END]);
            assert(first_end_from(seq![END], 1) == 1);
            assert(stream_frames(seq![END]) == Seq::<Seq<u8>>::empty());
            assert(stream_rest(tk) == stream_rest(tk.skip(e)));
            assert(stream_rest(seq![END]) == seq![END]);
            assert(stream_rest(tk) == seq![END]);
            assert(seq![END] + t.skip(j) =~= t.skip(e));
            let u = t.skip(e);
            assert(u[0] == t[e]);
            lemma_first_end_from_at(u, 0, 0);
            if nxt == e + 1 {
                assert(u.len() >= 2);
                assert(u[1] == t[e + 1]);
                assert(u[1] == END);
                assert(start_pos(u) == 1);
                assert(u.skip(1) =~= t2);
                assert(stream_packets(u) == stream_frames(t2));
                assert(stream_remainder(u) == stream_rest(t2));
            } else {
                assert(start_pos(u) == 0) by {
                    if u.len() >= 2 {
                        assert(u[1] == t[e + 1]);
                    }
                }
                assert(u.skip(0) =~= u);
                assert(u =~= t2);
                assert(stream_packets(u) == stream_frames(t2));
                assert(stream_remainder(u) == stream_rest(t2));
            }
            assert(stream_rest(t) == stream_rest(t2));
            if unescape_seq(frame) is Some {
                let p = unescape_seq(frame)->0;
                assert(stream_frames(t) == seq![p] + stream_frames(t2));
                assert(stream_frames(tk) == seq![p] + Seq::<Seq<u8>>::empty());
                assert((seq![p] + Seq::<Seq<u8>>::empty()) + stream_frames(t2) =~= seq![p]
                    + stream_frames(t2));
            } else {
                assert(stream_frames(t) == stream_frames(t2));
                assert(stream_frames(tk) == Seq::<Seq<u8>>::empty());
                assert(Seq::<Seq<u8>>::empty() + stream_frames(t2) =~= stream_frames(t2));
            }
        }
    }
}

/// Streaming split invariance: cutting a buffer at any point, decoding the
/// first part, and decoding the returned remainder joined with the second
/// part, together yield exactly the packets and the final remainder of
/// decoding the whole buffer at once.
///
/// The buffer must not hold three consecutive delimiter bytes: a doubled
/// delimiter at a boundary is normalized away as padding, and a cut inside a
/// longer run of delimiters could turn the run's spurious empty frame into a
/// skipped pair, or the other way round.
pub proof fn lemma_stream_split(b: Seq<u8>, k: int)
    requires
        0 <= k <= b.len(),
        no_triple_end(b),
    ensures
        stream_packets(b.take(k)) + stream_packets(stream_remainder(b.take(k)) + b.skip(k))
            == stream_packets(b),
        stream_remainder(stream_remainder(b.take(k)) + b.skip(k)) == stream_remainder(b),
{
    let bk = b.take(k);
    let f = first_end_from(b, 0);
    lemma_first_end_from(b, 0);
    lemma_first_end_from_take(b, k, 0);
    if f >= k {
        // no delimiter in the cut prefix: it is all remainder, and rejoining
        // it with the suffix restores the buffer unchanged
        assert(first_end_from(bk, 0) == k);
        assert(stream_packets(bk) == Seq::<Seq<u8>>::empty());
        assert(stream_remainder(bk) == bk);
        assert(bk + b.skip(k) =~= b);
        assert(Seq::<Seq<u8>>::empty() + stream_packets(b) =~= stream_packets(b));
    } else {
        assert(first_end_from(bk, 0) == f);
        assert(b[f] == END);
        if f + 1 < k {
            // the cut lies beyond the (possibly doubled) start position
            assert(bk[f + 1] == b[f + 1]);
            let m = start_pos(b);
            assert(start_pos(bk) == m);
            let t = b.skip(m);
            assert(t[0] == b[m]);
            assert(t[0] == END);
            assert(t.len() >= 2 ==> t[1] != END) by {
                if t.len() >= 2 {
                    assert(t[1] == b[m + 1]);
                    if m == f + 1 {
                        assert(b[f] == END && b[f + 1] == END);
                    }
                }
            }
            lemma_no_triple_skip(b, m);
            assert(bk.skip(m) =~= t.take(k - m));
            lemma_frames_split(t, k - m);
            assert(b.skip(k) =~= t.skip(k - m));
            assert(stream_packets(bk) == stream_frames(t.take(k - m)));
            assert(stream_remainder(bk) == stream_rest(t.take(k - m)));
            assert(stream_packets(b) == stream_frames(t));
            assert(stream_remainder(b) == stream_rest(t));
        } else {
            // the cut lies right at the first delimiter: the prefix's
            // remainder is that one delimiter, which re-opens the stream at
            // the same place when the suffix is joined back on
            assert(f + 1 == k);
            assert(start_pos(bk) == f);
            assert(bk.skip(f) =~= seq![END]);
            assert(first_end_from(seq![END], 1) == 1);
            assert(stream_frames(seq![END]) == Seq::<Seq<u8>>::empty());
            assert(stream_rest(seq![END]) == seq![END]);
            assert(stream_packets(bk) == Seq::<Seq<u8>>::empty());
            assert(stream_remainder(bk) == seq![END]);
            assert(seq![END] + b.skip(k) =~= b.skip(f));
            let u = b.skip(f);
            assert(u[0] == b[f]);
            lemma_first_end_from_at(u, 0, 0);
            let m = start_pos(b);
            if f + 1 < b.len() && b[f + 1] == END {
                assert(m == f + 1);
                assert(u.len() >= 2);
                assert(u[1] == b[f + 1]);
                assert(start_pos(u) == 1);
                assert(u.skip(1) =~= b.skip(m));
                assert(stream_packets(u) == stream_frames(b.skip(m)));
                assert(stream_remainder(u) == stream_rest(b.skip(m)));
            } else {
                assert(m == f);
                assert(start_pos(u) == 0) by {
                    if u.len() >= 2 {
                        assert(u[1] == b[f + 1]);
                    }
                }
                assert(u.skip(0) =~= u);
                assert(u =~= b.skip(m));
                assert(stream_packets(u) == stream_frames(b.skip(m)));
                assert(stream_remainder(u) == stream_rest(b.skip(m)));
            }
            assert(stream_packets(b) == stream_frames(b.skip(m)));
            assert(stream_remainder(b) == stream_rest(b.skip(m)));
            assert(Seq::<Seq<u8>>::empty() + stream_packets(u) =~= stream_packets(u));
        }
    }
}

} // verus!


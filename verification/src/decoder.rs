//! The decoders: single-buffer decoding and streaming decoding.

use crate::constants::{END, ESC, ESC_END, ESC_ESC};
use crate::error::SlipError;
use crate::model::{
    decoded_len, end_pos, first_end_from, has_end, lemma_first_end_from, lemma_first_end_from_at,
    lemma_first_end_from_shift, lemma_frame_bounds, lemma_last_end_before_at, start_pos,
    stream_frames, stream_packets, stream_remainder, stream_rest, unescape_seq,
};
use vstd::prelude::*;
use vstd::slice::{slice_subrange, slice_to_vec};

verus! {

/// Finds the start of the first frame: the first `END` byte, or the second of
/// a doubled pair of leading `END` bytes.
pub fn find_delimiter(buffer: &[u8]) -> (r: Result<usize, SlipError>)
    ensures
        r is Ok <==> has_end(buffer@),
        r matches Ok(i) ==> i == start_pos(buffer@) && i < buffer@.len(),
        r is Err ==> r == Err::<usize, SlipError>(SlipError::NoEndDelimiter),
{
    let n = buffer.len();
    let mut i: usize = 0;
    while i < n
        invariant
            n == buffer@.len(),
            i <= n,
            forall|j: int| 0 <= j < i ==> buffer@[j] != END,
        decreases n - i,
    {
        if buffer[i] == END {
            proof {
                lemma_first_end_from_at(buffer@, 0, i as int);
            }
            if i + 1 < n && buffer[i + 1] == END {
                return Ok(i + 1);
            } else {
                return Ok(i);
            }
        }
        i = i + 1;
    }
    proof {
        lemma_first_end_from_at(buffer@, 0, n as int);
    }
    Err(SlipError::NoEndDelimiter)
}

/// Finds the next `END` byte at or after `start_idx`.
pub fn find_next_delimiter(buffer: &[u8], start_idx: usize) -> (r: Option<usize>)
    ensures
        r matches Some(i) ==> i == first_end_from(buffer@, start_idx as int)
            && i < buffer@.len(),
        r is None ==> first_end_from(buffer@, start_idx as int) == buffer@.len(),
{
    let n = buffer.len();
    let mut idx: usize = start_idx;
    while idx < n
        invariant
            n == buffer@.len(),
            start_idx <= idx,
            forall|j: int| start_idx <= j < idx ==> buffer@[j] != END,
        decreases n - idx,
    {
        if buffer[idx] == END {
            proof {
                lemma_first_end_from_at(buffer@, start_idx as int, idx as int);
            }
            return Some(idx);
        }
        idx = idx + 1;
    }
    proof {
        if start_idx <= n {
            lemma_first_end_from_at(buffer@, start_idx as int, n as int);
        }
    }
    None
}

/// Finds the end of the frame by scanning backward: the last `END` byte, or
/// the first of a doubled pair of trailing `END` bytes.
pub fn find_last_delimiter(buffer: &[u8]) -> (r: Result<usize, SlipError>)
    ensures
        r is Ok <==> has_end(buffer@),
        r matches Ok(i) ==> i == end_pos(buffer@),
        r is Err ==> r == Err::<usize, SlipError>(SlipError::NoEndDelimiter),
{
    let n = buffer.len();
    let mut i: usize = n;
    while i > 0
        invariant
            n == buffer@.len(),
            i <= n,
            forall|j: int| i <= j < n ==> buffer@[j] != END,
        decreases i,
    {
        let idx = i - 1;
        if buffer[idx] == END {
            proof {
                lemma_last_end_before_at(buffer@, n as int, idx as int);
                lemma_first_end_from(buffer@, 0);
            }
            if idx > 0 && buffer[idx - 1] == END {
                return Ok(idx - 1);
            } else {
                return Ok(idx);
            }
        }
        i = idx;
    }
    proof {
        lemma_last_end_before_at(buffer@, n as int, -1);
        lemma_first_end_from_at(buffer@, 0, n as int);
    }
    Err(SlipError::NoEndDelimiter)
}

/// Computes the exact decoded size of a scanned range in one forward pass,
/// before any allocation.
pub fn calc_decode_buffer_size(encoded_buffer: &[u8]) -> (sum: usize)
    ensures
        sum == decoded_len(encoded_buffer@),
{
    let n = encoded_buffer.len();
    let mut sum: usize = 0;
    let mut idx: usize = 0;
    proof {
        assert(encoded_buffer@.skip(0) =~= encoded_buffer@);
    }
    while idx < n
        invariant
            n == encoded_buffer@.len(),
            idx <= n,
            sum <= idx,
            sum + decoded_len(encoded_buffer@.skip(idx as int)) == decoded_len(encoded_buffer@),
        decreases n - idx,
    {
        let byte = encoded_buffer[idx];
        if byte == ESC {
            sum = sum + 1;
            if n - idx >= 2 {
                proof {
                    assert(encoded_buffer@.skip(idx as int).skip(2) =~= encoded_buffer@.skip(
                        idx + 2,
                    ));
                }
                idx = idx + 2;
            } else {
                idx = n;
            }
        } else if byte == END {
            proof {
                assert(encoded_buffer@.skip(idx as int).skip(1) =~= encoded_buffer@.skip(idx + 1));
            }
            idx = idx + 1;
        } else {
            proof {
                assert(encoded_buffer@.skip(idx as int).skip(1) =~= encoded_buffer@.skip(idx + 1));
            }
            sum = sum + 1;
            idx = idx + 1;
        }
    }
    proof {
        assert(encoded_buffer@.skip(n as int) =~= Seq::<u8>::empty());
    }
    sum
}

/// Writes the unescaped form of the byte that followed an escape marker and
/// advances both cursors: the read cursor by two, the write cursor by one.
/// Any successor other than the two substitutes is invalid encoding.
pub fn unescape(
    val: &u8,
    read_idx: usize,
    write_idx: usize,
    write_buffer: &mut Vec<u8>,
) -> (r: Result<(usize, usize), SlipError>)
    requires
        write_idx < old(write_buffer).len(),
        read_idx + 2 <= usize::MAX,
    ensures
        r is Ok <==> (*val == ESC_ESC || *val == ESC_END),
        r matches Ok(t) ==> t.0 == read_idx + 2 && t.1 == write_idx + 1 && final(write_buffer)@
            == old(write_buffer)@.update(write_idx as int, if *val == ESC_ESC { ESC } else { END }),
        r is Err ==> r == Err::<(usize, usize), SlipError>(SlipError::InvalidEncoding)
            && final(write_buffer)@ == old(write_buffer)@,
{
    if *val == ESC_ESC {
        write_buffer[write_idx] = ESC;
        Ok((read_idx + 2, write_idx + 1))
    } else if *val == ESC_END {
        write_buffer[write_idx] = END;
        Ok((read_idx + 2, write_idx + 1))
    } else {
        Err(SlipError::InvalidEncoding)
    }
}

/// Transcodes one scanned range into a buffer at least as large as the size
/// pass computed.  Delimiter bytes are dropped, escape sequences are
/// unescaped, everything else is copied; only the prefix up to the computed
/// size is written, everything above it is left as it was.  Fails with
/// `InvalidEncoding` exactly when the range is not valid SLIP encoding; a
/// trailing escape byte is rejected rather than read past.
pub fn simple_decode(encoded_buffer: &[u8], decoded_buffer: &mut Vec<u8>) -> (r: Result<
    (),
    SlipError,
>)
    requires
        old(decoded_buffer)@.len() >= decoded_len(encoded_buffer@),
    ensures
        r is Ok <==> unescape_seq(encoded_buffer@) is Some,
        r is Ok ==> unescape_seq(encoded_buffer@) == Some(
            final(decoded_buffer)@.take(decoded_len(encoded_buffer@) as int),
        ),
        final(decoded_buffer)@.len() == old(decoded_buffer)@.len(),
        final(decoded_buffer)@.skip(decoded_len(encoded_buffer@) as int) == old(
            decoded_buffer,
        )@.skip(decoded_len(encoded_buffer@) as int),
        r is Err ==> r == Err::<(), SlipError>(SlipError::InvalidEncoding),
{
    let ghost s = encoded_buffer@;
    let n = encoded_buffer.len();
    let mut read_idx: usize = 0;
    let mut write_idx: usize = 0;
    proof {
        assert(s.skip(0) =~= s);
        if unescape_seq(s) is Some {
            assert(decoded_buffer@.take(0) =~= Seq::<u8>::empty());
            assert(Seq::<u8>::empty() + unescape_seq(s)->0 =~= unescape_seq(s)->0);
        }
    }
    while read_idx < n
        invariant
            n == s.len(),
            s == encoded_buffer@,
            read_idx <= n,
            decoded_buffer@.len() == old(decoded_buffer)@.len(),
            decoded_buffer@.len() >= decoded_len(s),
            decoded_buffer@.skip(decoded_len(s) as int) == old(decoded_buffer)@.skip(
                decoded_len(s) as int,
            ),
            write_idx + decoded_len(s.skip(read_idx as int)) == decoded_len(s),
            unescape_seq(s.skip(read_idx as int)) is None ==> unescape_seq(s) is None,
            unescape_seq(s.skip(read_idx as int)) matches Some(q) ==> unescape_seq(s) == Some(
                decoded_buffer@.take(write_idx as int) + q,
            ),
        decreases n - read_idx,
    {
        let byte = encoded_buffer[read_idx];
        let ghost mid = s.skip(read_idx as int);
        proof {
            assert(mid[0] == byte);
            assert(decoded_len(mid) >= 1 || byte == END);
        }
        if byte == ESC {
            if read_idx + 1 < n {
                let next_byte = encoded_buffer[read_idx + 1];
                proof {
                    assert(mid.skip(2) =~= s.skip(read_idx + 2));
                    assert(mid[1] == s[read_idx + 1]);
                }
                match unescape(&next_byte, read_idx, write_idx, decoded_buffer) {
                    Ok(cursors) => {
                        proof {
                            let wb = if next_byte == ESC_ESC {
                                ESC
                            } else {
                                END
                            };
                            assert(decoded_buffer@.take(write_idx + 1) =~= decoded_buffer@.take(
                                write_idx as int,
                            ).push(wb));
                            if unescape_seq(s.skip(read_idx + 2)) is Some {
                                let q2 = unescape_seq(s.skip(read_idx + 2))->0;
                                assert(unescape_seq(mid) == Some(seq![wb] + q2));
                                assert(decoded_buffer@.take(write_idx as int) + (seq![wb] + q2)
                                    =~= decoded_buffer@.take(write_idx + 1) + q2);
                            }
                            assert(decoded_buffer@.skip(decoded_len(s) as int)
                                =~= old(decoded_buffer)@.skip(decoded_len(s) as int));
                        }
                        read_idx = cursors.0;
                        write_idx = cursors.1;
                    },
                    Err(e) => {
                        proof {
                            assert(unescape_seq(mid) is None);
                        }
                        return Err(e);
                    },
                }
            } else {
                // A trailing escape byte with no successor: reject it instead
                // of reading past the end of the buffer.
                proof {
                    assert(unescape_seq(mid) is None);
                }
                return Err(SlipError::InvalidEncoding);
            }
        } else if byte == END {
            proof {
                assert(mid.skip(1) =~= s.skip(read_idx + 1));
            }
            read_idx = read_idx + 1;
        } else {
            proof {
                assert(mid.skip(1) =~= s.skip(read_idx + 1));
                assert(write_idx < decoded_buffer.len());
            }
            decoded_buffer[write_idx] = byte;
            proof {
                assert(decoded_buffer@.take(write_idx + 1) =~= decoded_buffer@.take(
                    write_idx as int,
                ).push(byte));
                if unescape_seq(s.skip(read_idx + 1)) is Some {
                    let q2 = unescape_seq(s.skip(read_idx + 1))->0;
                    assert(unescape_seq(mid) == Some(seq![byte] + q2));
                    assert(decoded_buffer@.take(write_idx as int) + (seq![byte] + q2)
                        =~= decoded_buffer@.take(write_idx + 1) + q2);
                }
                assert(decoded_buffer@.skip(decoded_len(s) as int) =~= old(decoded_buffer)@.skip(
                    decoded_len(s) as int,
                ));
            }
            read_idx = read_idx + 1;
            write_idx = write_idx + 1;
        }
    }
    proof {
        assert(s.skip(n as int) =~= Seq::<u8>::empty());
        assert(write_idx == decoded_len(s));
        assert(decoded_buffer@.take(write_idx as int) + Seq::<u8>::empty() =~= decoded_buffer@.take(
            write_idx as int,
        ));
    }
    Ok(())
}

/// Decodes data following the SLIP protocol.
///
/// Bytes before the first delimiter are ignored as leading noise, a doubled
/// leading delimiter counts as a single one, and a backward scan locates the
/// frame's end, so bytes after the last delimiter are ignored as trailing
/// noise.  The range between start and end is unescaped into a buffer
/// pre-sized by the size pass.  Fails with `NoEndDelimiter` when the buffer
/// holds no delimiter at all, and with `InvalidEncoding` exactly when the
/// scanned range is not valid SLIP encoding.
pub fn decode(encoded_buffer: &[u8]) -> (r: Result<Vec<u8>, SlipError>)
    ensures
        !has_end(encoded_buffer@) ==> r == Err::<Vec<u8>, SlipError>(SlipError::NoEndDelimiter),
        has_end(encoded_buffer@) ==> match unescape_seq(
            encoded_buffer@.subrange(start_pos(encoded_buffer@), end_pos(encoded_buffer@) + 1),
        ) {
            Some(p) => r matches Ok(v) && v@ == p,
            None => r == Err::<Vec<u8>, SlipError>(SlipError::InvalidEncoding),
        },
{
    let trim_start = match find_delimiter(encoded_buffer) {
        Ok(i) => i,
        Err(e) => {
            return Err(e);
        },
    };
    let trim_end = match find_last_delimiter(encoded_buffer) {
        Ok(i) => i,
        Err(e) => {
            return Err(e);
        },
    };
    proof {
        lemma_frame_bounds(encoded_buffer@);
        assert(trim_end < encoded_buffer.len());
    }
    let frame = slice_subrange(encoded_buffer, trim_start, trim_end + 1);
    let decoded_buffer_size = calc_decode_buffer_size(frame);
    let mut decoded_buffer: Vec<u8> = vec![0u8; decoded_buffer_size];
    match simple_decode(frame, &mut decoded_buffer) {
        Ok(_) => {
            proof {
                assert(decoded_buffer@.take(decoded_len(frame@) as int) =~= decoded_buffer@);
            }
            Ok(decoded_buffer)
        },
        Err(e) => Err(e),
    }
}

/// Decodes a buffer that may hold any number of complete frames plus a
/// trailing partial frame, returning the decoded payloads in order together
/// with the undecoded remainder.
///
/// When the buffer holds no delimiter at all, nothing is decoded and the
/// whole buffer is the remainder: more data is simply needed.  Otherwise the
/// remainder starts at the last unterminated frame's opening delimiter, so
/// that appending the next chunk to it continues the decoding seamlessly —
/// one delimiter may close a frame and open the next at once.  The remainder
/// is therefore never empty once a delimiter has been seen: even when the
/// scan consumes the buffer exactly, the closing delimiter stays in the
/// remainder, since dropping it would lose the opening of a following
/// shared-delimiter frame at a chunk boundary.  This is the price of split
/// invariance: cutting the stream anywhere and re-feeding the remainder
/// never changes the decoded packets (see the split law in the laws module).
/// A frame whose escape sequences are malformed is skipped and decoding
/// continues with the next frame.
pub fn decode_packets(encoded_buffer: &[u8]) -> (r: (Vec<Vec<u8>>, Vec<u8>))
    ensures
        r.0@.map_values(|v: Vec<u8>| v@) == stream_packets(encoded_buffer@),
        r.1@ == stream_remainder(encoded_buffer@),
{
    let ghost s = encoded_buffer@;
    let mut parent_decoded_buffer: Vec<Vec<u8>> = Vec::new();
    let trim_start = match find_delimiter(encoded_buffer) {
        Ok(i) => i,
        Err(_) => {
            proof {
                assert(parent_decoded_buffer@.map_values(|v: Vec<u8>| v@) =~= stream_packets(s));
            }
            return (parent_decoded_buffer, slice_to_vec(encoded_buffer));
        },
    };
    let n = encoded_buffer.len();
    let mut trim_end = trim_start;
    proof {
        let mv = parent_decoded_buffer@.map_values(|v: Vec<u8>| v@);
        assert(mv =~= Seq::<Seq<u8>>::empty());
        assert(mv + stream_frames(s.skip(trim_start as int)) =~= stream_frames(
            s.skip(trim_start as int),
        ));
        assert(s[start_pos(s)] == END) by {
            lemma_first_end_from(s, 0);
        }
    }
    loop
        invariant
            n == s.len(),
            s == encoded_buffer@,
            trim_end < n,
            s[trim_end as int] == END,
            stream_packets(s) == parent_decoded_buffer@.map_values(|v: Vec<u8>| v@)
                + stream_frames(s.skip(trim_end as int)),
            stream_remainder(s) == stream_rest(s.skip(trim_end as int)),
        decreases n - trim_end,
    {
        let ghost t = s.skip(trim_end as int);
        proof {
            lemma_first_end_from_shift(s, trim_end as int, 1);
        }
        match find_next_delimiter(encoded_buffer, trim_end + 1) {
            Some(next_end) => {
                proof {
                    lemma_first_end_from(s, trim_end + 1);
                    assert(first_end_from(t, 1) == next_end - trim_end);
                    assert(t.subrange(0, next_end - trim_end) =~= s.subrange(
                        trim_end as int,
                        next_end as int,
                    ));
                }
                let frame = slice_subrange(encoded_buffer, trim_end, next_end);
                let decoded_buffer_size = calc_decode_buffer_size(frame);
                let mut local_decoded_buffer: Vec<u8> = vec![0u8; decoded_buffer_size];
                match simple_decode(frame, &mut local_decoded_buffer) {
                    Ok(_) => {
                        proof {
                            assert(local_decoded_buffer@.take(decoded_len(frame@) as int)
                                =~= local_decoded_buffer@);
                            let mv = parent_decoded_buffer@.map_values(|v: Vec<u8>| v@);
                            assert(parent_decoded_buffer@.push(local_decoded_buffer).map_values(
                                |v: Vec<u8>| v@,
                            ) =~= mv.push(local_decoded_buffer@));
                            assert(mv + (seq![local_decoded_buffer@] + stream_frames(
                                t.skip(next_end - trim_end),
                            )) =~= mv.push(local_decoded_buffer@) + stream_frames(
                                t.skip(next_end - trim_end),
                            ));
                        }
                        parent_decoded_buffer.push(local_decoded_buffer);
                    },
                    Err(_) => {
                        // A malformed frame is skipped; decoding goes on with
                        // the frames that follow it.
                    },
                }
                let new_trim = if next_end + 1 < n && encoded_buffer[next_end + 1] == END {
                    next_end + 1
                } else {
                    next_end
                };
                proof {
                    assert(t.skip(next_end - trim_end) =~= s.skip(next_end as int));
                    if next_end + 1 < n && s[next_end + 1] == END {
                        assert(t.skip(next_end + 1 - trim_end) =~= s.skip(next_end + 1));
                    }
                }
                trim_end = new_trim;
            },
            None => {
                proof {
                    assert(first_end_from(t, 1) >= t.len());
                    let mv = parent_decoded_buffer@.map_values(|v: Vec<u8>| v@);
                    assert(mv + Seq::<Seq<u8>>::empty() =~= mv);
                }
                return (parent_decoded_buffer, slice_to_vec(slice_subrange(encoded_buffer,
                    trim_end, n)));
            },
        }
    }
}

} // verus!

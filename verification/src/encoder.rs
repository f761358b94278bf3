//! The encoder: raw payload to framed, escaped byte sequence.

use crate::constants::{END, ESC, ESC_END, ESC_ESC};
use crate::error::SlipError;
use crate::model::{encode_byte, encode_seq, framed};
use vstd::prelude::*;

verus! {

/// Appending one payload byte appends its escaped form.
proof fn lemma_encode_seq_push(s: Seq<u8>, b: u8)
    ensures
        encode_seq(s.push(b)) == encode_seq(s) + encode_byte(b),
    decreases s.len(),
{
    if s.len() == 0 {
        let e = s.push(b).skip(1);
        assert(e =~= Seq::<u8>::empty());
        assert(encode_seq(s.push(b)) == encode_byte(b) + encode_seq(e));
        assert(encode_byte(b) + Seq::<u8>::empty() =~= encode_byte(b));
        assert(encode_seq(s) + encode_byte(b) =~= encode_byte(b));
    } else {
        assert(s.push(b).skip(1) =~= s.skip(1).push(b));
        lemma_encode_seq_push(s.skip(1), b);
        assert(encode_seq(s.push(b)) == encode_byte(s[0]) + (encode_seq(s.skip(1)) + encode_byte(
            b,
        )));
        assert(encode_byte(s[0]) + (encode_seq(s.skip(1)) + encode_byte(b)) =~= (encode_byte(s[0])
            + encode_seq(s.skip(1))) + encode_byte(b));
    }
}

/// Encodes data following the SLIP protocol.
///
/// The payload is framed by a leading and a trailing delimiter; every `END`
/// byte inside it becomes `ESC ESC_END` and every `ESC` byte becomes
/// `ESC ESC_ESC`.  Encoding never fails and the result is always at least two
/// bytes long.
pub fn encode(raw_buffer: &[u8]) -> (r: Result<Vec<u8>, SlipError>)
    ensures
        r matches Ok(v) && v@ == framed(raw_buffer@),
{
    let mut encoded_buffer: Vec<u8> = Vec::new();
    encoded_buffer.push(END);
    let n = raw_buffer.len();
    let mut i: usize = 0;
    while i < n
        invariant
            n == raw_buffer@.len(),
            i <= n,
            encoded_buffer@ == seq![END] + encode_seq(raw_buffer@.take(i as int)),
        decreases n - i,
    {
        let byte = raw_buffer[i];
        proof {
            assert(raw_buffer@.take(i + 1) =~= raw_buffer@.take(i as int).push(raw_buffer@[i as int]));
            lemma_encode_seq_push(raw_buffer@.take(i as int), raw_buffer@[i as int]);
        }
        if byte == END {
            encoded_buffer.push(ESC);
            encoded_buffer.push(ESC_END);
        } else if byte == ESC {
            encoded_buffer.push(ESC);
            encoded_buffer.push(ESC_ESC);
        } else {
            encoded_buffer.push(byte);
        }
        proof {
            assert(encoded_buffer@ =~= seq![END] + encode_seq(raw_buffer@.take(i + 1)));
        }
        i = i + 1;
    }
    encoded_buffer.push(END);
    proof {
        assert(raw_buffer@.take(n as int) =~= raw_buffer@);
        assert(encoded_buffer@ =~= framed(raw_buffer@));
    }
    Ok(encoded_buffer)
}

} // verus!

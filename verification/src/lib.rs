//! A SLIP (RFC 1055 style) byte-stuffing framing codec.
//!
//! Discrete packets are delimited inside a continuous byte stream by a
//! reserved delimiter byte (`END`); occurrences of the delimiter or of the
//! escape byte inside payload data are protected by two-byte escape
//! sequences, so framing is never corrupted by payload contents.
//!
//! The codec is stateless: every operation is a pure function of the byte
//! buffers handed to it.  The streaming decoder returns the undecoded tail of
//! its input as a remainder that the caller prepends to the next chunk.

pub mod constants;
pub mod decoder;
pub mod encoder;
pub mod error;
pub mod laws;
pub mod model;

pub use constants::{END, ESC, ESC_END, ESC_ESC};
pub use decoder::{
    calc_decode_buffer_size, decode, decode_packets, find_delimiter, find_last_delimiter,
    find_next_delimiter, simple_decode, unescape,
};
pub use encoder::encode;
pub use error::SlipError;

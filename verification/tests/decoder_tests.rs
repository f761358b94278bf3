use simple_slip::{
    calc_decode_buffer_size, decode, find_delimiter, find_last_delimiter, find_next_delimiter,
    simple_decode, unescape, SlipError, END, ESC, ESC_END, ESC_ESC,
};

#[test]
fn decodes_data() {
    let input: Vec<u8> = vec![
        0xA1, 0xA2, 0xA3, END, END, 0x01, ESC, ESC_ESC, 0x49, ESC, ESC_END, 0x15, END,
    ];
    let expected: Vec<u8> = vec![0x01, ESC, 0x49, END, 0x15];

    let res: Vec<u8> = decode(&input).unwrap();

    assert_eq!(res, expected);
}

#[test]
fn errors_when_no_delimiter() {
    let error_input: [u8; 10] = [
        0xA1, 0xA2, 0xA3, 0x01, ESC, ESC_ESC, 0x49, ESC, ESC_END, 0x15,
    ];
    assert!(decode(&error_input).is_err());
}

#[test]
fn decode_reserved_bytes() {
    let input: Vec<u8> = vec![0xC0, 0x01, 0xDB, 0xDD, 0x49, 0xDB, 0xDC, 0x15, 0xC0];
    let expected: Vec<u8> = vec![0x01, 0xDB, 0x49, 0xC0, 0x15];

    let result: Vec<u8> = decode(&input).unwrap();
    assert_eq!(result, expected);
}

#[test]
fn decode_without_delimiter_is_rejected() {
    let input: Vec<u8> = vec![0x01, 0x02, 0x03];
    assert_eq!(decode(&input), Err(SlipError::NoEndDelimiter));
}

#[test]
fn decode_empty_frame() {
    let input: Vec<u8> = vec![END, END];
    let expected: Vec<u8> = Vec::new();
    assert_eq!(decode(&input).unwrap(), expected);
}

#[test]
fn leading_noise_is_ignored() {
    let frame: Vec<u8> = vec![END, 0x01, ESC, ESC_END, 0x02, END];
    let mut noisy: Vec<u8> = vec![0xA1, 0xA2, 0xA3];
    noisy.extend_from_slice(&frame);
    assert_eq!(decode(&noisy), decode(&frame));
    assert_eq!(decode(&frame).unwrap(), vec![0x01, END, 0x02]);
}

#[test]
fn doubled_leading_delimiter_is_one_delimiter() {
    let single: Vec<u8> = vec![END, 0x01, 0x02, END];
    let doubled: Vec<u8> = vec![END, END, 0x01, 0x02, END];
    assert_eq!(decode(&doubled), decode(&single));
    assert_eq!(decode(&doubled).unwrap(), vec![0x01, 0x02]);
}

#[test]
fn trailing_escape_in_frame_is_invalid_encoding() {
    // An escape that the closing delimiter cuts short is invalid encoding:
    // it is the last payload byte of the scanned range, so there is no
    // substitute byte to unescape.
    assert_eq!(decode(&[END, 0x01, ESC, END]), Err(SlipError::InvalidEncoding));
    assert_eq!(decode(&[END, ESC, END]), Err(SlipError::InvalidEncoding));
    // In a raw scanned range a bare trailing ESC is rejected by the bounds
    // check instead of being read past.
    let range: Vec<u8> = vec![END, ESC];
    let mut out: Vec<u8> = vec![0; calc_decode_buffer_size(&range)];
    assert_eq!(simple_decode(&range, &mut out), Err(SlipError::InvalidEncoding));
}

#[test]
fn trailing_noise_is_ignored() {
    // Bytes after the frame's closing delimiter do not reach the decoder:
    // neither stray payload bytes nor a stray escape byte.
    assert_eq!(decode(&[END, 0x01, END, 0xFF]), Ok(vec![0x01]));
    assert_eq!(decode(&[END, 0x01, END, ESC]), Ok(vec![0x01]));
    // With a single delimiter the frame is empty and everything after it is
    // an unterminated tail, ignored just the same.
    assert_eq!(decode(&[END, 0x01, ESC]), Ok(vec![]));
}

#[test]
fn foreign_escape_successor_is_invalid_encoding() {
    let input: Vec<u8> = vec![END, ESC, 0xAA, END];
    assert_eq!(decode(&input), Err(SlipError::InvalidEncoding));
}

#[test]
fn size_pass_matches_transcode_pass() {
    let frames: Vec<Vec<u8>> = vec![
        vec![END, END],
        vec![END, 0x01, 0x02, 0x03, END],
        vec![END, ESC, ESC_END, ESC, ESC_ESC, 0x07, END],
    ];
    for frame in frames {
        let size = calc_decode_buffer_size(&frame);
        let decoded = decode(&frame).unwrap();
        assert_eq!(size, decoded.len());
    }
    assert_eq!(calc_decode_buffer_size(&[ESC, ESC_END, 0x01]), 2);
    assert_eq!(calc_decode_buffer_size(&[]), 0);
}

#[test]
fn find_delimiter_skips_doubled_pair() {
    assert_eq!(find_delimiter(&[0x01, END, END, 0x02]), Ok(2));
    assert_eq!(find_delimiter(&[END, 0x01]), Ok(0));
    assert_eq!(find_delimiter(&[END]), Ok(0));
    assert_eq!(find_delimiter(&[0x01, 0x02]), Err(SlipError::NoEndDelimiter));
}

#[test]
fn find_next_delimiter_scans_forward() {
    let buffer: Vec<u8> = vec![END, 0x01, END, 0x02];
    assert_eq!(find_next_delimiter(&buffer, 1), Some(2));
    assert_eq!(find_next_delimiter(&buffer, 3), None);
}

#[test]
fn find_last_delimiter_skips_doubled_pair() {
    assert_eq!(find_last_delimiter(&[0x01, END, 0x02]), Ok(1));
    assert_eq!(find_last_delimiter(&[0x01, END, END]), Ok(1));
    assert_eq!(find_last_delimiter(&[END]), Ok(0));
    assert_eq!(
        find_last_delimiter(&[0x01, 0x02]),
        Err(SlipError::NoEndDelimiter)
    );
}

#[test]
fn unescape_writes_the_literal_byte() {
    let mut buffer: Vec<u8> = vec![0x00, 0x00];
    assert_eq!(unescape(&ESC_ESC, 3, 0, &mut buffer), Ok((5, 1)));
    assert_eq!(buffer, vec![ESC, 0x00]);
    assert_eq!(unescape(&ESC_END, 5, 1, &mut buffer), Ok((7, 2)));
    assert_eq!(buffer, vec![ESC, END]);
    assert_eq!(
        unescape(&0xAA, 0, 0, &mut buffer),
        Err(SlipError::InvalidEncoding)
    );
    assert_eq!(buffer, vec![ESC, END]);
}

#[test]
fn simple_decode_fills_presized_buffer() {
    let frame: Vec<u8> = vec![END, 0x01, ESC, ESC_ESC, 0x49, ESC, ESC_END, 0x15, END];
    let mut out: Vec<u8> = vec![0; calc_decode_buffer_size(&frame)];
    assert_eq!(simple_decode(&frame, &mut out), Ok(()));
    assert_eq!(out, vec![0x01, ESC, 0x49, END, 0x15]);

    let bad: Vec<u8> = vec![END, ESC, 0xAA];
    let mut out_bad: Vec<u8> = vec![0; calc_decode_buffer_size(&bad)];
    assert_eq!(simple_decode(&bad, &mut out_bad), Err(SlipError::InvalidEncoding));
}

#[test]
fn simple_decode_leaves_extra_space_untouched() {
    let frame: Vec<u8> = vec![END, 0x01, ESC, ESC_END, 0x02, END];
    let size = calc_decode_buffer_size(&frame);
    assert_eq!(size, 3);
    let mut out: Vec<u8> = vec![0xEE; size + 3];
    assert_eq!(simple_decode(&frame, &mut out), Ok(()));
    assert_eq!(out, vec![0x01, END, 0x02, 0xEE, 0xEE, 0xEE]);
}

#[test]
fn error_messages_name_the_failure() {
    assert_eq!(
        SlipError::NoEndDelimiter.message(),
        "no 'END' (0xC0) delimiter byte found in buffer"
    );
    assert_eq!(
        SlipError::InvalidEncoding.message(),
        "buffer not encoded to SLIP protocol"
    );
}

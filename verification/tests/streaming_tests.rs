use simple_slip::{decode_packets, END, ESC, ESC_END, ESC_ESC};

#[test]
fn decodes_large_buffer() {
    let input: Vec<u8> = vec![
        0xA1, 0xA2, 0xA3, END, END, 0x01, ESC, ESC_ESC, 0x49, ESC, ESC_END, 0x15, END, END, 0x01,
        ESC, ESC_ESC, 0x49, ESC, ESC_END, 0x15, END, END, 0x01, ESC, ESC_ESC, 0x49, ESC, ESC_END,
        0x15, END, END, 0x01, ESC, ESC_ESC, 0x49, ESC,
    ];

    let expected_packets: Vec<Vec<u8>> = vec![
        vec![0x01, ESC, 0x49, END, 0x15],
        vec![0x01, ESC, 0x49, END, 0x15],
        vec![0x01, ESC, 0x49, END, 0x15],
    ];
    let expected_remainder: &[u8] = &input[31..];

    let (packets, remainder): (Vec<Vec<u8>>, Vec<u8>) = decode_packets(&input);
    assert_eq!(packets, expected_packets);
    assert_eq!(remainder, expected_remainder);
}

#[test]
fn three_packets_and_a_partial_frame() {
    let input: Vec<u8> = vec![
        0xC0, 0x01, 0xDB, 0xDD, 0x49, 0xDB, 0xDC, 0x15, 0xC0, 0xC0, 0x02, 0xDB, 0xDD, 0x49, 0xDB,
        0xDC, 0x15, 0xC0, 0xC0, 0x03, 0xDB, 0xDD, 0x49, 0xDB, 0xDC, 0x15, 0xC0, 0xC0, 0x01,
    ];

    let expected: Vec<Vec<u8>> = vec![
        vec![1, 219, 73, 192, 21],
        vec![2, 219, 73, 192, 21],
        vec![3, 219, 73, 192, 21],
    ];

    let (result, remainder): (Vec<Vec<u8>>, Vec<u8>) = decode_packets(&input);

    assert_eq!(result, expected);
    assert_eq!(remainder, [0xC0, 0x01]);
}

#[test]
fn no_delimiter_means_more_data_needed() {
    let input: Vec<u8> = vec![0x01, 0x02, 0x03];
    let (packets, remainder) = decode_packets(&input);
    assert!(packets.is_empty());
    assert_eq!(remainder, input);
}

#[test]
fn empty_buffer_yields_nothing() {
    let input: Vec<u8> = Vec::new();
    let (packets, remainder) = decode_packets(&input);
    assert!(packets.is_empty());
    assert!(remainder.is_empty());
}

#[test]
fn shared_delimiter_closes_and_opens() {
    // One END both closes a frame and opens the next; the final END stays in
    // the remainder so it can open the next frame of a later chunk.
    let input: Vec<u8> = vec![END, 0x01, END, 0x02, END];
    let (packets, remainder) = decode_packets(&input);
    assert_eq!(packets, vec![vec![0x01], vec![0x02]]);
    assert_eq!(remainder, vec![END]);
}

#[test]
fn malformed_frame_is_skipped() {
    let input: Vec<u8> = vec![END, ESC, 0xAA, END, 0x02, END];
    let (packets, remainder) = decode_packets(&input);
    assert_eq!(packets, vec![vec![0x02]]);
    assert_eq!(remainder, vec![END]);
}

#[test]
fn split_anywhere_decodes_the_same_packets() {
    let whole: Vec<u8> = vec![
        END, 0x01, ESC, ESC_END, END, END, 0x02, END, END, 0x03, ESC, ESC_ESC, 0x04,
    ];
    let (all_packets, all_remainder) = decode_packets(&whole);
    assert_eq!(all_packets, vec![vec![0x01, END], vec![0x02]]);

    for k in 0..=whole.len() {
        let (mut packets, first_remainder) = decode_packets(&whole[..k]);
        let mut rejoined: Vec<u8> = first_remainder;
        rejoined.extend_from_slice(&whole[k..]);
        let (later_packets, final_remainder) = decode_packets(&rejoined);
        packets.extend(later_packets);
        assert_eq!(packets, all_packets);
        assert_eq!(final_remainder, all_remainder);
    }
}

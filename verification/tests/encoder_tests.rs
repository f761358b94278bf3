use simple_slip::{decode, encode, END, ESC, ESC_END, ESC_ESC};

#[test]
fn encode_data() {
    let input: Vec<u8> = vec![0x01, ESC, 0x49, END, 0x15];
    let expected: Vec<u8> = vec![END, 0x01, ESC, ESC_ESC, 0x49, ESC, ESC_END, 0x15, END];

    let res: Vec<u8> = encode(&input).unwrap();
    assert_eq!(res, expected);
}

#[test]
fn encode_reserved_bytes() {
    let input: Vec<u8> = vec![0x01, 0xDB, 0x49, 0xC0, 0x15];
    let expected: Vec<u8> = vec![0xC0, 0x01, 0xDB, 0xDD, 0x49, 0xDB, 0xDC, 0x15, 0xC0];

    let result: Vec<u8> = encode(&input).unwrap();
    assert_eq!(result, expected);
}

#[test]
fn encode_empty_payload() {
    let input: Vec<u8> = Vec::new();
    let expected: Vec<u8> = vec![END, END];

    let result: Vec<u8> = encode(&input).unwrap();
    assert_eq!(result, expected);
}

#[test]
fn round_trip_returns_payload() {
    let payloads: Vec<Vec<u8>> = vec![
        vec![],
        vec![0x00],
        vec![END],
        vec![ESC],
        vec![END, ESC, END, ESC],
        vec![0x01, END, 0x02, ESC, 0x03, ESC_END, 0x04, ESC_ESC, 0x05],
        vec![0xFF; 300],
    ];
    for payload in payloads {
        let encoded = encode(&payload).unwrap();
        let decoded = decode(&encoded).unwrap();
        assert_eq!(decoded, payload);
    }
}

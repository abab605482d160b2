use beast::decoder::BeastDecoder;
use beast::decoder::BeastFrame;
use beast::decoder::DecodeError;
use beast::decoder::FrameType;
use beast::decoder::encode_frame;

fn assert_decode(input: Vec<u8>, expected: Vec<BeastFrame>) {
    let mut decoder = BeastDecoder::new(input);

    let result: Vec<BeastFrame> = decoder.decode_all().unwrap();

    assert_eq!(
        result.len(),
        expected.len(),
        "length difference result: {} - expected: {}",
        result.len(),
        expected.len()
    );

    result
        .iter()
        .zip(expected.iter())
        .for_each(|(res, exp)| assert_eq!(res, exp));
}

#[test]
fn test_single_mode_s_short() {
    let input = vec![
        0x1a, 0x32, 0x00, 0x06, 0x4f, 0x79, 0xa3, 0x83, 0x40, 0x5d, 0x3c, 0x48, 0xe8, 0xac, 0xfc,
        0x49,
    ];
    let expected = vec![BeastFrame {
        frame_type: FrameType::ModeSShort,
        timestamp: 27103175555,
        rssi: 64,
        data: vec![0x5d, 0x3c, 0x48, 0xe8, 0xac, 0xfc, 0x49],
    }];
    assert_decode(input, expected);
}

#[test]
fn test_single_mode_s_long() {
    let input = vec![
        0x1a, 0x33, 0x00, 0x06, 0x4f, 0x78, 0x33, 0x35, 0xa5, 0x8d, 0x40, 0x09, 0xda, 0x99, 0x09,
        0xa9, 0x02, 0xd8, 0x04, 0x8b, 0xd7, 0xe4, 0xde,
    ];
    let expected = vec![BeastFrame {
        frame_type: FrameType::ModeSLong,
        timestamp: 27103081269,
        rssi: 165,
        data: vec![
            0x8d, 0x40, 0x09, 0xda, 0x99, 0x09, 0xa9, 0x02, 0xd8, 0x04, 0x8b, 0xd7, 0xe4, 0xde,
        ],
    }];
    assert_decode(input, expected);
}

#[test]
fn test_id_frame_then_mode_s_long() {
    let input = vec![
        0x1a, 0xe3, 0x13, 0x47, 0xcb, 0xef, 0xb8, 0x1a, 0x1a, 0x8a, 0x98, 0x1a, 0x32, 0x00, 0x08,
        0xff, 0xd5, 0x5b, 0xae, 0x74, 0x20, 0x20, 0x05, 0x8b, 0x4f, 0xc5, 0x82,
    ];
    let expected = vec![BeastFrame {
        frame_type: FrameType::ModeSShort,
        timestamp: 38651911086,
        rssi: 116,
        data: vec![0x20, 0x20, 0x05, 0x8b, 0x4f, 0xc5, 0x82],
    }];
    assert_decode(input, expected);
}

#[test]
fn test_unescape_from_doc() {
    let input = vec![
        0x1a, 0x32, 0x08, 0x3e, 0x27, 0xb6, 0xcb, 0x6a, 0x1a, 0x1a, 0x00, 0xa1, 0x84, 0x1a, 0x1a,
        0xc3, 0xb3, 0x1d,
    ];

    let expected = vec![BeastFrame {
        frame_type: FrameType::ModeSShort,
        timestamp: 9063047285610,
        rssi: 0x1a,
        data: vec![0x00, 0xa1, 0x84, 0x1a, 0xc3, 0xb3, 0x1d],
    }];
    assert_decode(input, expected);
}

#[test]
fn test_multiple_frames() {
    let mut input = vec![
        0x1a, 0x33, 0x00, 0x06, 0x4f, 0x78, 0x33, 0x35, 0xa5, 0x8d, 0x40, 0x09, 0xda, 0x99, 0x09,
        0xa9, 0x02, 0xd8, 0x04, 0x8b, 0xd7, 0xe4, 0xde,
    ];
    input.extend(vec![
        0x1a, 0x33, 0x00, 0x06, 0x4f, 0x78, 0x4c, 0x23, 0x53, 0x8d, 0x4d, 0x22, 0xc5, 0x60, 0xab,
        0x02, 0xfa, 0x7b, 0x8d, 0x29, 0xc5, 0x17, 0x92,
    ]);
    input.extend(vec![
        0x1a, 0x32, 0x00, 0x06, 0x4f, 0x79, 0xa3, 0x83, 0x40, 0x5d, 0x3c, 0x48, 0xe8, 0xac, 0xfc,
        0x49,
    ]);

    let expected = vec![
        BeastFrame {
            frame_type: FrameType::ModeSLong,
            timestamp: 27103081269,
            rssi: 165,
            data: vec![
                0x8d, 0x40, 0x09, 0xda, 0x99, 0x09, 0xa9, 0x02, 0xd8, 0x04, 0x8b, 0xd7, 0xe4, 0xde,
            ],
        },
        BeastFrame {
            frame_type: FrameType::ModeSLong,
            timestamp: 27103087651,
            rssi: 83,
            data: vec![
                0x8d, 0x4d, 0x22, 0xc5, 0x60, 0xab, 0x02, 0xfa, 0x7b, 0x8d, 0x29, 0xc5, 0x17, 0x92,
            ],
        },
        BeastFrame {
            frame_type: FrameType::ModeSShort,
            timestamp: 27103175555,
            rssi: 64,
            data: vec![0x5d, 0x3c, 0x48, 0xe8, 0xac, 0xfc, 0x49],
        },
    ];
    assert_decode(input, expected);
}

#[test]
fn test_empty_input_is_clean_end() {
    let mut decoder = BeastDecoder::new(Vec::new());
    assert!(matches!(decoder.next_frame(), Ok(None)));
    let mut decoder = BeastDecoder::new(Vec::new());
    assert_eq!(decoder.decode_all().unwrap().len(), 0);
}

#[test]
fn test_truncated_mid_timestamp() {
    let input = vec![0x1a, 0x32, 0x00, 0x06, 0x4f];
    let mut decoder = BeastDecoder::new(input);
    assert_eq!(decoder.next_frame(), Err(DecodeError::TruncatedFrame));
}

#[test]
fn test_truncated_inside_escape_pair() {
    // The payload field ends on a lone escape byte.
    let input = vec![
        0x1a, 0x32, 0x00, 0x06, 0x4f, 0x79, 0xa3, 0x83, 0x40, 0x5d, 0x3c, 0x48, 0xe8, 0xac, 0xfc,
        0x1a,
    ];
    let mut decoder = BeastDecoder::new(input);
    assert_eq!(decoder.next_frame(), Err(DecodeError::TruncatedFrame));
}

#[test]
fn test_truncation_at_every_offset_fails() {
    let whole = vec![
        0x1a, 0x32, 0x08, 0x3e, 0x27, 0xb6, 0xcb, 0x6a, 0x1a, 0x1a, 0x00, 0xa1, 0x84, 0x1a, 0x1a,
        0xc3, 0xb3, 0x1d,
    ];
    for cut in 1..whole.len() {
        let mut decoder = BeastDecoder::new(whole[..cut].to_vec());
        assert_eq!(
            decoder.next_frame(),
            Err(DecodeError::TruncatedFrame),
            "cut at {}",
            cut
        );
    }
}

#[test]
fn test_unexpected_lead_byte() {
    let input = vec![0xff, 0x32, 0x00, 0x06, 0x4f, 0x79];
    let mut decoder = BeastDecoder::new(input);
    assert_eq!(decoder.next_frame(), Err(DecodeError::UnexpectedLeadByte));
}

#[test]
fn test_unknown_frame_type() {
    let input = vec![0x1a, 0x40, 0x00, 0x06, 0x4f, 0x79];
    let mut decoder = BeastDecoder::new(input);
    assert_eq!(decoder.next_frame(), Err(DecodeError::UnknownFrameType));
}

#[test]
fn test_invalid_escape_sequence() {
    // Inside the timestamp field an escape byte is followed by 0x05.
    let input = vec![0x1a, 0x32, 0x1a, 0x05, 0x00, 0x00, 0x00, 0x00];
    let mut decoder = BeastDecoder::new(input);
    assert_eq!(decoder.next_frame(), Err(DecodeError::InvalidEscapeSequence));
}

#[test]
fn test_encode_round_trip_each_kind() {
    let frames = vec![
        BeastFrame {
            frame_type: FrameType::ModeAC,
            timestamp: 0x1a1a1a1a1a1a,
            rssi: 0x1a,
            data: vec![0x1a, 0x1a],
        },
        BeastFrame {
            frame_type: FrameType::ModeSShort,
            timestamp: 27103175555,
            rssi: 64,
            data: vec![0x5d, 0x3c, 0x48, 0xe8, 0xac, 0xfc, 0x49],
        },
        BeastFrame {
            frame_type: FrameType::ModeSLong,
            timestamp: 0xffffffffffff,
            rssi: 255,
            data: vec![
                0x8d, 0x40, 0x09, 0xda, 0x99, 0x09, 0xa9, 0x02, 0xd8, 0x04, 0x8b, 0xd7, 0xe4, 0xde,
            ],
        },
    ];
    for frame in frames {
        let wire = encode_frame(&frame);
        let mut decoder = BeastDecoder::new(wire);
        let back = decoder.next_frame().unwrap().unwrap();
        assert_eq!(back, frame);
        assert!(matches!(decoder.next_frame(), Ok(None)));
    }
}

#[test]
fn test_encode_doubles_escape_bytes() {
    let frame = BeastFrame {
        frame_type: FrameType::ModeAC,
        timestamp: 0,
        rssi: 0x1a,
        data: vec![0x1a, 0x07],
    };
    let wire = encode_frame(&frame);
    assert_eq!(
        wire,
        vec![0x1a, 0x31, 0, 0, 0, 0, 0, 0, 0x1a, 0x1a, 0x1a, 0x1a, 0x07]
    );
}

#[test]
fn test_sequencing_concatenated_frames() {
    let frames = vec![
        BeastFrame {
            frame_type: FrameType::ModeAC,
            timestamp: 1,
            rssi: 2,
            data: vec![3, 4],
        },
        BeastFrame {
            frame_type: FrameType::ModeSShort,
            timestamp: 0x1a00000000,
            rssi: 0x1a,
            data: vec![0, 0x1a, 2, 3, 4, 5, 6],
        },
        BeastFrame {
            frame_type: FrameType::ModeAC,
            timestamp: 281474976710655,
            rssi: 0,
            data: vec![0x1a, 0x1a],
        },
    ];
    let mut wire: Vec<u8> = Vec::new();
    for frame in &frames {
        wire.extend(encode_frame(frame));
    }
    assert_decode(wire, frames);
}

#[test]
fn test_identity_frames_between_encoded_frames() {
    let frame = BeastFrame {
        frame_type: FrameType::ModeSShort,
        timestamp: 38651911086,
        rssi: 116,
        data: vec![0x20, 0x20, 0x05, 0x8b, 0x4f, 0xc5, 0x82],
    };
    // identity frame whose 8-byte body holds an escaped 0x1a
    let identity = vec![0x1a, 0xe3, 0x01, 0x02, 0x1a, 0x1a, 0x04, 0x05, 0x06, 0x07, 0x08];
    let mut wire = identity.clone();
    wire.extend(encode_frame(&frame));
    wire.extend(identity);
    assert_decode(
        wire,
        vec![BeastFrame {
            frame_type: FrameType::ModeSShort,
            timestamp: 38651911086,
            rssi: 116,
            data: vec![0x20, 0x20, 0x05, 0x8b, 0x4f, 0xc5, 0x82],
        }],
    );
}

#[test]
fn test_read_encoded_collapses_pairs() {
    let mut decoder = BeastDecoder::new(vec![0x01, 0x1a, 0x1a, 0x03, 0x99]);
    assert_eq!(decoder.read_encoded(3), Ok(vec![0x01, 0x1a, 0x03]));
    // exactly four raw bytes were consumed for three logical ones
    assert_eq!(decoder.read_encoded(1), Ok(vec![0x99]));
}

#[test]
fn test_read_encoded_rejects_lone_escape() {
    let mut decoder = BeastDecoder::new(vec![0x01, 0x1a, 0x03]);
    assert_eq!(decoder.read_encoded(3), Err(DecodeError::InvalidEscapeSequence));
    let mut decoder = BeastDecoder::new(vec![0x01, 0x1a]);
    assert_eq!(decoder.read_encoded(2), Err(DecodeError::TruncatedFrame));
}

#[test]
fn test_payload_len_per_kind() {
    assert_eq!(FrameType::ModeAC.payload_len(), 2);
    assert_eq!(FrameType::ModeSShort.payload_len(), 7);
    assert_eq!(FrameType::ModeSLong.payload_len(), 14);
}

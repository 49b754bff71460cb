use keymapctl::{
    build_chunk_read, build_chunk_write, chunk_read_payload, format_row, pack_dipsw, parse_dipsw,
    parse_toml_string, serialize_to_toml_string, simple_get_payload, truncate_nul_str, Error,
    Frame, PROFILE_DATA_LEN,
};

fn sample_profile() -> Vec<u8> {
    let mut data = Vec::with_capacity(PROFILE_DATA_LEN);
    for i in 0..PROFILE_DATA_LEN {
        data.push(((i * 31 + 7) % 256) as u8);
    }
    data
}

#[test]
fn round_trip_preserves_every_byte() {
    let data = sample_profile();
    let text = serialize_to_toml_string(&data);
    let back = parse_toml_string(&text).expect("canonical document must parse");
    assert_eq!(back, data);
}

#[test]
fn round_trip_all_zero_buffer() {
    let data = vec![0u8; PROFILE_DATA_LEN];
    let text = serialize_to_toml_string(&data);
    assert_eq!(text.matches("[[layers]]").count(), 4);
    assert_eq!(text.matches("0x0000,").count(), 480);
    let back = parse_toml_string(&text).expect("all-zero document must parse");
    assert_eq!(back, data);
}

#[test]
fn round_trip_all_byte_values() {
    let mut data = vec![0u8; PROFILE_DATA_LEN];
    for (i, b) in data.iter_mut().enumerate() {
        *b = (i % 256) as u8;
    }
    let text = serialize_to_toml_string(&data);
    let back = parse_toml_string(&text).expect("document must parse");
    assert_eq!(back, data);
}

#[test]
fn document_is_valid_toml_with_expected_shape() {
    let data = sample_profile();
    let text = serialize_to_toml_string(&data);
    let table: toml::Table = text.parse().expect("document must be valid TOML");
    let layers = table
        .get("layers")
        .expect("layers present")
        .as_array()
        .expect("layers is an array");
    assert_eq!(layers.len(), 4);
    for layer in layers {
        let scancodes = layer
            .get("scancodes")
            .expect("scancodes present")
            .as_array()
            .expect("scancodes is an array");
        assert_eq!(scancodes.len(), 120);
    }
    // Spot-check one value against the raw bytes: layer 0, scancode 1.
    let first = layers[0].get("scancodes").unwrap().as_array().unwrap();
    let expected = (data[2] as i64) * 256 + data[3] as i64;
    assert_eq!(first[1].as_integer().unwrap(), expected);
}

#[test]
fn wrong_layer_count_is_rejected() {
    let data = vec![0u8; PROFILE_DATA_LEN];
    let text = serialize_to_toml_string(&data);
    // Cut the final layer section off: 3 layers instead of 4.
    let pos = text.rfind("[[layers]]").unwrap();
    let truncated = &text[..pos];
    assert_eq!(parse_toml_string(truncated), Err(Error::StructureError));
}

#[test]
fn wrong_scancode_count_is_rejected() {
    let data = vec![0u8; PROFILE_DATA_LEN];
    let text = serialize_to_toml_string(&data);
    // Remove one scancode entry (8 bytes) from the first row: 119 in a layer.
    let pos = text.find("0x0000, ").unwrap();
    let mut shorter = String::new();
    shorter.push_str(&text[..pos]);
    shorter.push_str(&text[pos + 8..]);
    assert_eq!(parse_toml_string(&shorter), Err(Error::StructureError));
}

#[test]
fn non_hex_token_is_rejected() {
    let data = vec![0u8; PROFILE_DATA_LEN];
    let text = serialize_to_toml_string(&data);
    let bad = text.replacen("0x0000", "0xzz00", 1);
    assert_eq!(parse_toml_string(&bad), Err(Error::StructureError));
    let bad2 = text.replacen("0x0000", "0X0000", 1);
    assert_eq!(parse_toml_string(&bad2), Err(Error::StructureError));
}

#[test]
fn empty_and_garbage_documents_are_rejected() {
    assert_eq!(parse_toml_string(""), Err(Error::StructureError));
    assert_eq!(parse_toml_string("layers = 3"), Err(Error::StructureError));
    assert_eq!(
        parse_toml_string("[[layers]]\nscancodes = []\n"),
        Err(Error::StructureError)
    );
}

#[test]
fn oversized_chunk_write_fails_before_any_io() {
    let payload = vec![0xabu8; 29];
    match build_chunk_write(0x0100, &payload) {
        Err(Error::PayloadTooLarge) => (),
        other => panic!("expected PayloadTooLarge, got {:?}", other.map(|_| ())),
    }
}

#[test]
fn chunk_write_frame_layout() {
    let payload = vec![1u8, 2, 3];
    let frame = build_chunk_write(0x0204, &payload).expect("3 bytes fit");
    let bytes = frame.bytes();
    assert_eq!(bytes.len(), 32);
    assert_eq!(bytes[0], 0x13);
    assert_eq!(bytes[1], 0x02);
    assert_eq!(bytes[2], 0x04);
    assert_eq!(bytes[3], 3);
    assert_eq!(&bytes[4..7], &[1, 2, 3]);
    assert!(bytes[7..].iter().all(|&b| b == 0));
}

#[test]
fn dipsw_parses_bytewise() {
    let raw = [0u8, 1, 0, 2, 0, 255];
    let flags = parse_dipsw(&raw);
    assert_eq!(flags, vec![false, true, false, true, false, true]);
}

#[test]
fn dipsw_packs_msb_first() {
    assert_eq!(pack_dipsw(&[1, 0, 1, 0, 1, 0]), 0b101010);
    assert_eq!(pack_dipsw(&[0, 0, 0, 0, 0, 1]), 0b000001);
    assert_eq!(pack_dipsw(&[]), 0);
}

#[test]
fn nul_truncation_keeps_text_prefix() {
    assert_eq!(truncate_nul_str(b"abc\0def"), b"abc".to_vec());
    assert_eq!(truncate_nul_str(b"abc"), b"abc".to_vec());
    assert_eq!(truncate_nul_str(b"\0abc"), Vec::<u8>::new());
}

#[test]
fn format_row_plain_cells() {
    let widths = [5u8, 5, 5];
    let labels = vec!["0041".to_string(), "0042".to_string(), "00".to_string()];
    // Each cell: a bar, then the label padded or cut to 4 columns.
    assert_eq!(format_row(&widths, &labels), "|0041|0042|00  |");
}

#[test]
fn format_row_blank_and_zero_cells() {
    let blank = 0x80u8;
    let widths = [5u8, blank | 3, 0, 5];
    let labels = vec![
        "aa".to_string(),
        "xx".to_string(),
        "yy".to_string(),
        "bb".to_string(),
    ];
    // Labelled, blank (bar then spaces), zero-width skipped, labelled again.
    assert_eq!(format_row(&widths, &labels), "|aa  |  |bb  |");
}

#[test]
fn format_row_truncates_long_labels() {
    let widths = [4u8];
    let labels = vec!["abcdef".to_string()];
    assert_eq!(format_row(&widths, &labels), "|abc|");
}

#[test]
fn frame_must_be_exactly_32_bytes() {
    assert!(Frame::from_bytes(vec![0u8; 32]).is_ok());
    assert_eq!(Frame::from_bytes(vec![0u8; 31]).err(), Some(Error::ProtocolSizeError));
    assert_eq!(Frame::from_bytes(vec![0u8; 33]).err(), Some(Error::ProtocolSizeError));
}

#[test]
fn simple_get_payload_is_bytes_3_to_32() {
    let mut raw = vec![0u8; 32];
    for (i, b) in raw.iter_mut().enumerate() {
        *b = i as u8;
    }
    let frame = Frame::from_bytes(raw).unwrap();
    let payload = simple_get_payload(&frame);
    assert_eq!(payload.len(), 29);
    assert_eq!(payload[0], 3);
    assert_eq!(payload[28], 31);
}

#[test]
fn chunk_read_payload_uses_the_echoed_length() {
    let mut raw = vec![0u8; 32];
    raw[3] = 5;
    for i in 0..5 {
        raw[4 + i] = 0x40 + i as u8;
    }
    let frame = Frame::from_bytes(raw).unwrap();
    assert_eq!(chunk_read_payload(&frame), Ok(vec![0x40, 0x41, 0x42, 0x43, 0x44]));

    let mut bad = vec![0u8; 32];
    bad[3] = 29;
    let frame = Frame::from_bytes(bad).unwrap();
    assert_eq!(chunk_read_payload(&frame), Err(Error::ProtocolSizeError));
}

#[test]
fn build_chunk_read_frame_layout() {
    let frame = build_chunk_read(0x01a2, 26);
    let bytes = frame.bytes();
    assert_eq!(bytes[0], 0x12);
    assert_eq!(bytes[1], 0x01);
    assert_eq!(bytes[2], 0xa2);
    assert_eq!(bytes[3], 26);
    assert!(bytes[4..].iter().all(|&b| b == 0));
}

#[test]
fn every_error_has_a_description() {
    for e in [
        Error::IoError,
        Error::ProtocolSizeError,
        Error::StructureError,
        Error::PayloadTooLarge,
    ] {
        assert!(!e.describe().is_empty());
    }
}

#[test]
fn reencoding_a_parsed_document_reproduces_it() {
    let data = sample_profile();
    let text = serialize_to_toml_string(&data);
    let parsed = parse_toml_string(&text).unwrap();
    assert_eq!(serialize_to_toml_string(&parsed), text);
}

#[test]
fn trailing_newline_is_accepted() {
    let data = sample_profile();
    let text = serialize_to_toml_string(&data);
    let mut with_newline = text.clone();
    with_newline.push('\n');
    assert_eq!(parse_toml_string(&with_newline), Ok(data));
}

#[test]
fn whitespace_layout_is_free() {
    let data = sample_profile();
    let text = serialize_to_toml_string(&data);
    // Re-indent, join rows, pad the commas: the token stream is unchanged.
    let reformatted = text
        .replace("\n  0x", "\n\t\t0x")
        .replace(", 0x", ",\n0x")
        .replace(",\n]", " ,\r\n  ]\n\n");
    assert_eq!(parse_toml_string(&reformatted), Ok(data.clone()));
    let leading = format!("\n\n  {text}");
    assert_eq!(parse_toml_string(&leading), Ok(data));
}

#[test]
fn short_and_uppercase_literals_are_accepted() {
    let data = vec![0u8; PROFILE_DATA_LEN];
    let text = serialize_to_toml_string(&data);
    // An edited document may drop leading zeros or use capital digits.
    let short = text.replacen("0x0000,", "0x0,", 1);
    assert_eq!(parse_toml_string(&short), Ok(data.clone()));
    let mut patched = data.clone();
    patched[0] = 0xab;
    patched[1] = 0xcd;
    let upper = text.replacen("0x0000,", "0xABCD,", 1);
    assert_eq!(parse_toml_string(&upper), Ok(patched));
}

#[test]
fn five_digit_literal_is_rejected() {
    let data = vec![0u8; PROFILE_DATA_LEN];
    let text = serialize_to_toml_string(&data);
    let bad = text.replacen("0x0000,", "0x00000,", 1);
    assert_eq!(parse_toml_string(&bad), Err(Error::StructureError));
}

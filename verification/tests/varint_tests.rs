use shape_router::varint::{encode_u32, decode_u32, encoded_size, VarintError};

#[test]
fn test_varint_roundtrip() {
    let test_values = vec![
        0, 1, 127, 128, 255, 256,
        16383, 16384, 65535, 65536,
        1048575, 1048576,
        (1u32 << 31) - 1,
    ];

    for value in test_values {
        let mut buf = Vec::new();
        encode_u32(&mut buf, value);

        let (decoded, bytes_read) = decode_u32(&buf).unwrap();

        assert_eq!(decoded, value, "Failed for value {}", value);
        assert_eq!(bytes_read, buf.len(), "Bytes read mismatch for value {}", value);
        assert_eq!(encoded_size(value), buf.len(), "Size calculation wrong for value {}", value);

        println!("Value {} encoded in {} bytes", value, buf.len());
    }
}

#[test]
fn test_typical_shape_ids() {
    let mut total_bytes = 0;
    let count = 1000;

    for id in 0..count {
        let mut buf = Vec::new();
        encode_u32(&mut buf, id);
        total_bytes += buf.len();
    }

    let avg_bytes = total_bytes as f64 / count as f64;
    println!("Average bytes per ID (0-999): {:.2}", avg_bytes);
    assert!(avg_bytes < 2.0, "Should average less than 2 bytes for small IDs");
}

#[test]
fn test_varint_boundaries() {
    let cases = [(127u32, 1usize), (128, 2), (16383, 2), (16384, 3)];
    for (value, size) in cases {
        let mut buf = Vec::new();
        encode_u32(&mut buf, value);
        assert_eq!(buf.len(), size, "size for {}", value);
        let (decoded, used) = decode_u32(&buf).unwrap();
        assert_eq!(decoded, value);
        assert_eq!(used, size);
    }
}

#[test]
fn test_varint_truncated() {
    assert_eq!(decode_u32(&[]), Err(VarintError::Truncated));
    assert_eq!(decode_u32(&[0x80]), Err(VarintError::Truncated));
    assert_eq!(decode_u32(&[0x80, 0x80, 0x80]), Err(VarintError::Truncated));
}

#[test]
fn test_varint_unterminated() {
    assert_eq!(
        decode_u32(&[0x80, 0x80, 0x80, 0x80, 0x80]),
        Err(VarintError::Unterminated)
    );
    assert_eq!(
        decode_u32(&[0xFF, 0xFF, 0xFF, 0xFF, 0xFF, 0x01]),
        Err(VarintError::Unterminated)
    );
}

#[test]
fn test_varint_trailing_bytes_ignored() {
    let mut buf = Vec::new();
    encode_u32(&mut buf, 300);
    let used_expected = buf.len();
    buf.push(0xAB);
    buf.push(0xCD);
    let (decoded, used) = decode_u32(&buf).unwrap();
    assert_eq!(decoded, 300);
    assert_eq!(used, used_expected);
}

use bitpack::codec::CodecError;
use bitpack::header::BlockHeader;

#[test]
fn header_encodes_to_five_bytes() {
    let h = BlockHeader { bit_width: 4, count: 8 };
    let bytes = h.encode();
    assert_eq!(bytes, vec![4u8, 8, 0, 0, 0]);
}

#[test]
fn header_count_is_little_endian() {
    let h = BlockHeader { bit_width: 64, count: 0xDEAD_BEEF };
    let bytes = h.encode();
    assert_eq!(bytes, vec![64u8, 0xEF, 0xBE, 0xAD, 0xDE]);
}

#[test]
fn header_round_trip() {
    let cases = vec![
        BlockHeader { bit_width: 0, count: 0 },
        BlockHeader { bit_width: 1, count: 1 },
        BlockHeader { bit_width: 5, count: 13 },
        BlockHeader { bit_width: 64, count: u32::MAX },
        BlockHeader { bit_width: 33, count: 0x0102_0304 },
    ];
    for h in cases {
        let bytes = h.encode();
        assert_eq!(BlockHeader::decode(&bytes), Ok(h));
    }
}

#[test]
fn header_rejects_wrong_length() {
    assert_eq!(BlockHeader::decode(&vec![]), Err(CodecError::MalformedBuffer));
    assert_eq!(BlockHeader::decode(&vec![4u8, 8, 0, 0]), Err(CodecError::MalformedBuffer));
    assert_eq!(
        BlockHeader::decode(&vec![4u8, 8, 0, 0, 0, 0]),
        Err(CodecError::MalformedBuffer)
    );
}

#[test]
fn header_rejects_invalid_width() {
    assert_eq!(
        BlockHeader::decode(&vec![65u8, 8, 0, 0, 0]),
        Err(CodecError::InvalidWidth)
    );
    assert_eq!(
        BlockHeader::decode(&vec![255u8, 0, 0, 0, 0]),
        Err(CodecError::InvalidWidth)
    );
}

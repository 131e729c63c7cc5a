use bitpack::codec::{pack, unpack, word_count_for, CodecError};
use bitpack::width::{bit_length, select_width};

fn mask_for(width: u8) -> u64 {
    if width == 64 {
        u64::MAX
    } else if width == 0 {
        0
    } else {
        (1u64 << width) - 1
    }
}

#[test]
fn round_trip_all_widths() {
    for width in 0u8..=64 {
        let mask = mask_for(width);
        let values: Vec<u64> = (0..100u64)
            .map(|i| i.wrapping_mul(0x9e3779b97f4a7c15) & mask)
            .collect();
        let packed = pack(&values, width).expect("pack should accept fitting values");
        assert_eq!(packed.len(), word_count_for(values.len(), width));
        let unpacked = unpack(&packed, width, values.len()).expect("unpack should succeed");
        assert_eq!(unpacked, values);
    }
}

#[test]
fn round_trip_lengths() {
    for n in 0usize..40 {
        let values: Vec<u64> = (0..n as u64).map(|i| (i * 3) % 8).collect();
        let packed = pack(&values, 3).expect("pack should accept fitting values");
        assert_eq!(packed.len(), (n * 3 + 63) / 64);
        let unpacked = unpack(&packed, 3, n).expect("unpack should succeed");
        assert_eq!(unpacked, values);
    }
}

#[test]
fn select_width_is_minimal() {
    let cases: Vec<(Vec<u64>, u8)> = vec![
        (vec![0], 0),
        (vec![0, 0, 0], 0),
        (vec![1], 1),
        (vec![2], 2),
        (vec![3], 2),
        (vec![4], 3),
        (vec![255], 8),
        (vec![256], 9),
        (vec![0, 1, 2, 3, 4, 5, 6, 7], 3),
        (vec![u64::MAX], 64),
        (vec![1u64 << 63], 64),
        (vec![(1u64 << 63) - 1], 63),
    ];
    for (values, expected) in cases {
        assert_eq!(select_width(&values), expected, "block {:?}", values);
    }
}

#[test]
fn bit_length_values() {
    assert_eq!(bit_length(0), 0);
    assert_eq!(bit_length(1), 1);
    assert_eq!(bit_length(15), 4);
    assert_eq!(bit_length(16), 5);
    assert_eq!(bit_length(u64::MAX), 64);
    for w in 1u8..=63 {
        let p = 1u64 << w;
        assert_eq!(bit_length(p - 1), w);
        assert_eq!(bit_length(p), w + 1);
    }
}

#[test]
fn zero_width_degeneracy() {
    let values = vec![0u64; 17];
    let packed = pack(&values, 0).expect("all-zero block packs at width 0");
    assert_eq!(packed, Vec::<u64>::new());
    let unpacked = unpack(&Vec::new(), 0, 17).expect("empty buffer unpacks at width 0");
    assert_eq!(unpacked, vec![0u64; 17]);
}

#[test]
fn boundary_straddling() {
    // 13 five-bit values: value 12 starts at bit 60 and spans into word 1.
    let values = vec![31u64; 13];
    let packed = pack(&values, 5).expect("31 fits in five bits");
    assert_eq!(packed.len(), 2);
    assert_eq!(word_count_for(13, 5), 2);
    let unpacked = unpack(&packed, 5, 13).expect("unpack should succeed");
    assert_eq!(unpacked, values);
}

#[test]
fn full_width_is_a_faithful_copy() {
    let values = vec![u64::MAX, 0, 1, 0x0123_4567_89ab_cdef, 1u64 << 63];
    let packed = pack(&values, 64).expect("everything fits at width 64");
    assert_eq!(packed, values);
    let unpacked = unpack(&packed, 64, values.len()).expect("unpack should succeed");
    assert_eq!(unpacked, values);
}

#[test]
fn overflow_rejection() {
    assert_eq!(pack(&vec![16u64], 4), Err(CodecError::BitWidthOverflow));
    assert_eq!(pack(&vec![15u64, 16, 2], 4), Err(CodecError::BitWidthOverflow));
    assert_eq!(pack(&vec![0u64, 1], 0), Err(CodecError::BitWidthOverflow));
    assert_eq!(pack(&vec![u64::MAX], 63), Err(CodecError::BitWidthOverflow));
}

#[test]
fn malformed_buffer_rejection() {
    // 13 five-bit values need 2 words; offer only 1.
    let short = vec![0u64];
    assert_eq!(unpack(&short, 5, 13), Err(CodecError::MalformedBuffer));
    // One word too many is rejected as well.
    let long = vec![0u64; 3];
    assert_eq!(unpack(&long, 5, 13), Err(CodecError::MalformedBuffer));
    // A non-empty buffer at width 0.
    assert_eq!(unpack(&vec![0u64], 0, 4), Err(CodecError::MalformedBuffer));
}

#[test]
fn invalid_width_rejection() {
    assert_eq!(pack(&vec![1u64], 65), Err(CodecError::InvalidWidth));
    assert_eq!(unpack(&vec![1u64], 65, 1), Err(CodecError::InvalidWidth));
    assert_eq!(pack(&vec![1u64], u8::MAX), Err(CodecError::InvalidWidth));
}

#[test]
fn concrete_scenario() {
    let values = vec![3u64, 15, 0, 7, 1, 12, 4, 9];
    assert_eq!(select_width(&values), 4);
    let packed = pack(&values, 4).expect("every value fits in four bits");
    assert_eq!(packed, vec![0x94C1_70F3u64]);
    let unpacked = unpack(&packed, 4, 8).expect("unpack should succeed");
    assert_eq!(unpacked, values);
}

#[test]
fn word_count_values() {
    assert_eq!(word_count_for(0, 0), 0);
    assert_eq!(word_count_for(0, 64), 0);
    assert_eq!(word_count_for(17, 0), 0);
    assert_eq!(word_count_for(8, 4), 1);
    assert_eq!(word_count_for(16, 4), 1);
    assert_eq!(word_count_for(17, 4), 2);
    assert_eq!(word_count_for(13, 5), 2);
    assert_eq!(word_count_for(3, 64), 3);
    assert_eq!(word_count_for(usize::MAX, 1), usize::MAX / 64 + 1);
}

#[test]
fn tail_bits_of_last_word_are_zero() {
    // 3 values of 5 bits use 15 bits of one word; the rest must be zero.
    let values = vec![31u64, 31, 31];
    let packed = pack(&values, 5).expect("31 fits in five bits");
    assert_eq!(packed, vec![0x7FFFu64]);
}

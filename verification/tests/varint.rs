use zk::error::DecodeError;
use zk::varint::{
    bits_to_i64, bits_to_u64, bits_to_usize, i64_to_bits, split_varint, u64_to_bits,
    usize_to_bits, vli64, vlusize,
};

fn eval_usize(value: usize, expected: &[u8]) {
    let res = usize_to_bits(value);
    assert_eq!(&res[..], expected);
    match vlusize(&res) {
        Ok((_, n)) => assert_eq!(n, value),
        Err(e) => panic!("Unexpected error: {:?}", e),
    }
}

fn eval_i64(value: i64, expected: &[u8]) {
    let res = i64_to_bits(value);
    assert_eq!(&res[..], expected);
    match vli64(&res) {
        Ok((_, n)) => assert_eq!(n, value),
        Err(e) => panic!("Unexpected error: {:?}", e),
    }
}

#[test]
fn test_vlusize() {
    eval_usize(0, &[0]);
    eval_usize(1, &[1]);
    eval_usize(2, &[2]);
    eval_usize(3, &[3]);
    eval_usize(127, &[127]);
    eval_usize(128, &[128, 1]);
    eval_usize(129, &[129, 1]);
    eval_usize(255, &[255, 1]);
    eval_usize(256, &[128, 2]);
    eval_usize(383, &[255, 2]);
    eval_usize(384, &[128, 3]);
    eval_usize(16383, &[255, 127]);
    eval_usize(16384, &[128, 128, 1]);
    eval_usize(16385, &[129, 128, 1]);
    eval_usize(65535, &[255, 255, 3]);
    eval_usize(65536, &[128, 128, 4]);
    eval_usize(65537, &[129, 128, 4]);
    eval_usize(2097151, &[255, 255, 127]);
    eval_usize(2097152, &[128, 128, 128, 1]);
    eval_usize(2097153, &[129, 128, 128, 1]);
}

#[test]
fn test_vli64() {
    eval_i64(0, &[0]);
    eval_i64(-1, &[1]);
    eval_i64(1, &[2]);
    eval_i64(-2, &[3]);
    eval_i64(2, &[4]);
    eval_i64(-63, &[125]);
    eval_i64(63, &[126]);
    eval_i64(-64, &[127]);
    eval_i64(64, &[128, 1]);
    eval_i64(-65, &[129, 1]);
    eval_i64(-128, &[255, 1]);
    eval_i64(128, &[128, 2]);
    eval_i64(-192, &[255, 2]);
    eval_i64(192, &[128, 3]);
    eval_i64(-8192, &[255, 127]);
    eval_i64(8192, &[128, 128, 1]);
    eval_i64(-8193, &[129, 128, 1]);
    eval_i64(-32768, &[255, 255, 3]);
    eval_i64(32768, &[128, 128, 4]);
    eval_i64(-32769, &[129, 128, 4]);
    eval_i64(-1048576, &[255, 255, 127]);
    eval_i64(1048576, &[128, 128, 128, 1]);
    eval_i64(-1048577, &[129, 128, 128, 1]);
}

#[test]
fn vlusize_max_round_trips() {
    let bits = usize_to_bits(usize::MAX);
    assert_eq!(vlusize(&bits), Ok((&[][..], usize::MAX)));
}

#[test]
fn u64_max_takes_ten_bytes() {
    let bits = u64_to_bits(u64::MAX);
    assert_eq!(bits, vec![255, 255, 255, 255, 255, 255, 255, 255, 255, 1]);
    assert_eq!(bits_to_u64(&bits), Ok(u64::MAX));
}

#[test]
fn vli64_extremes_round_trip() {
    let low = i64_to_bits(i64::MIN);
    assert_eq!(low, vec![255, 255, 255, 255, 255, 255, 255, 255, 255, 1]);
    assert_eq!(vli64(&low), Ok((&[][..], i64::MIN)));
    let high = i64_to_bits(i64::MAX);
    assert_eq!(high, vec![254, 255, 255, 255, 255, 255, 255, 255, 255, 1]);
    assert_eq!(vli64(&high), Ok((&[][..], i64::MAX)));
}

#[test]
fn vlusize_leaves_the_rest_unread() {
    assert_eq!(vlusize(&[128, 1, 7, 9]), Ok((&[7u8, 9][..], 128)));
    assert_eq!(vli64(&[3, 200]), Ok((&[200u8][..], -2)));
}

#[test]
fn varint_cut_short_is_truncated() {
    assert_eq!(vlusize(&[]), Err(DecodeError::TruncatedInput));
    assert_eq!(vlusize(&[128]), Err(DecodeError::TruncatedInput));
    assert_eq!(vlusize(&[255, 255, 255]), Err(DecodeError::TruncatedInput));
    assert_eq!(vli64(&[129, 128]), Err(DecodeError::TruncatedInput));
    assert_eq!(vli64(&[255; 12]), Err(DecodeError::TruncatedInput));
    assert_eq!(split_varint(&[200, 201]), None);
}

#[test]
fn varint_too_wide_overflows() {
    let wide = [255, 255, 255, 255, 255, 255, 255, 255, 255, 2];
    assert_eq!(vlusize(&wide), Err(DecodeError::IntegerOverflow));
    assert_eq!(vli64(&wide), Err(DecodeError::IntegerOverflow));
    let long = [128, 128, 128, 128, 128, 128, 128, 128, 128, 128, 1];
    assert_eq!(bits_to_u64(&long), Err(DecodeError::IntegerOverflow));
    assert_eq!(bits_to_usize(&long), Err(DecodeError::IntegerOverflow));
    assert_eq!(bits_to_i64(&long), Err(DecodeError::IntegerOverflow));
}

#[test]
fn padded_zero_groups_keep_the_value() {
    let padded = [133, 128, 128, 128, 128, 128, 128, 128, 128, 128, 128, 0];
    assert_eq!(vlusize(&padded), Ok((&[][..], 5)));
    assert_eq!(vli64(&padded), Ok((&[][..], -3)));
}

#[test]
fn split_varint_parts() {
    assert_eq!(split_varint(&[129, 2, 3]), Some((&[129u8, 2][..], &[3u8][..])));
    assert_eq!(bits_to_usize(&[129, 2]), Ok(257));
    assert_eq!(bits_to_i64(&[129, 2]), Ok(-129));
    assert_eq!(bits_to_usize(&[]), Ok(0));
}

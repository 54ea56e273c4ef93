use zellular::encoding::{dec_to_be48, hex_to_bytes};

#[test]
fn decimal_decodes_to_exact_big_endian_value() {
    let v = dec_to_be48("123").unwrap();
    assert_eq!(v.len(), 48);
    assert_eq!(v[47], 123);
    assert!(v[..47].iter().all(|b| *b == 0));

    let v = dec_to_be48("65536").unwrap();
    assert_eq!(&v[45..48], &[1, 0, 0]);

    // 2^384 - 1: the largest value that fits 48 bytes.
    let max = "39402006196394479212279040100143613805079739270465446667948293404245721771497210611414266254884915640806627990306815";
    let v = dec_to_be48(max).unwrap();
    assert!(v.iter().all(|b| *b == 0xff));
}

#[test]
fn decimal_rejects_non_numbers_and_overflow() {
    assert!(dec_to_be48("").is_none());
    assert!(dec_to_be48("12a").is_none());
    assert!(dec_to_be48("-5").is_none());
    // 2^384 itself no longer fits 48 bytes.
    let too_big = "39402006196394479212279040100143613805079739270465446667948293404245721771497210611414266254884915640806627990306816";
    assert!(dec_to_be48(too_big).is_none());
}

#[test]
fn leading_zeros_are_accepted() {
    let v = dec_to_be48("000042").unwrap();
    assert_eq!(v[47], 42);
}

#[test]
fn hex_decodes_pairs_in_either_case() {
    assert_eq!(hex_to_bytes("0aff").unwrap(), vec![0x0a, 0xff]);
    assert_eq!(hex_to_bytes("AB").unwrap(), vec![0xab]);
    assert_eq!(hex_to_bytes("").unwrap(), Vec::<u8>::new());
}

#[test]
fn hex_rejects_odd_length_and_bad_digits() {
    assert!(hex_to_bytes("abc").is_none());
    assert!(hex_to_bytes("zz").is_none());
    assert!(hex_to_bytes("0g").is_none());
}

use avro_decimal::decimal::{Decimal, DecimalError};

fn encode(bytes: &[u8], len: usize) -> Result<Vec<u8>, DecimalError> {
    Decimal::from(bytes.to_vec()).to_sign_extended_bytes_with_len(len)
}

#[test]
fn equality_ignores_length() {
    let a = Decimal::from(vec![0x00, 0x05]);
    let b = Decimal::from(vec![0x05]);
    assert_eq!(a.len(), 2);
    assert_eq!(b.len(), 1);
    assert!(a == b);
    assert!(Decimal::from(vec![0xFF]) == Decimal::from(vec![0xFF, 0xFF, 0xFF]));
    assert!(Decimal::from(vec![]) == Decimal::from(vec![0x00]));
}

#[test]
fn different_values_are_unequal() {
    assert!(Decimal::from(vec![0x01]) != Decimal::from(vec![0x02]));
    assert!(Decimal::from(vec![0x00, 0xFF]) != Decimal::from(vec![0xFF]));
    assert!(Decimal::from(vec![0x80]) != Decimal::from(vec![0x00, 0x80]));
}

#[test]
fn sign_extension_of_minus_one() {
    assert_eq!(encode(&[0xFF], 3), Ok(vec![0xFF, 0xFF, 0xFF]));
}

#[test]
fn sign_extension_of_five() {
    assert_eq!(encode(&[0x05], 3), Ok(vec![0x00, 0x00, 0x05]));
}

#[test]
fn largest_one_byte_value_fits() {
    assert_eq!(encode(&[0x7F], 1), Ok(vec![0x7F]));
}

#[test]
fn one_hundred_twenty_eight_needs_two_bytes() {
    assert_eq!(
        encode(&[0x00, 0x80], 1),
        Err(DecimalError::SignExtend { requested: 1, needed: 2 })
    );
}

#[test]
fn smallest_one_byte_value_fits() {
    assert_eq!(encode(&[0x80], 1), Ok(vec![0x80]));
}

#[test]
fn minus_one_hundred_twenty_nine_needs_two_bytes() {
    assert_eq!(
        encode(&[0xFF, 0x7F], 1),
        Err(DecimalError::SignExtend { requested: 1, needed: 2 })
    );
}

#[test]
fn redundant_leading_bytes_are_dropped_when_shrinking() {
    assert_eq!(encode(&[0x00, 0x00, 0x05], 1), Ok(vec![0x05]));
    assert_eq!(encode(&[0xFF, 0xFF, 0x80], 1), Ok(vec![0x80]));
    assert_eq!(encode(&[0x00, 0x00, 0x80], 2), Ok(vec![0x00, 0x80]));
}

#[test]
fn widening_keeps_the_value() {
    assert_eq!(encode(&[0xFB, 0x9B], 4), Ok(vec![0xFF, 0xFF, 0xFB, 0x9B]));
    assert_eq!(encode(&[0x12, 0x34], 4), Ok(vec![0x00, 0x00, 0x12, 0x34]));
}

#[test]
fn zero_length_never_fits() {
    assert_eq!(encode(&[0x00], 0), Err(DecimalError::SignExtend { requested: 0, needed: 1 }));
    assert_eq!(encode(&[0x01, 0x00], 0), Err(DecimalError::SignExtend { requested: 0, needed: 2 }));
}

#[test]
fn round_trip_at_the_read_length() {
    let cases: Vec<Vec<u8>> = vec![
        vec![0x00],
        vec![0xFF],
        vec![0x00, 0x05],
        vec![0xFF, 0xFF, 0x80],
        vec![0x00, 0x00, 0x00, 0x00],
        vec![0x80, 0x00, 0x00, 0x00, 0x00, 0x00, 0x00, 0x00, 0x00, 0x00, 0x00, 0x00, 0x00, 0x00, 0x00, 0x00, 0x01],
        vec![0x7F, 0xFF, 0xFF, 0xFF, 0xFF, 0xFF, 0xFF, 0xFF, 0xFF, 0xFF, 0xFF, 0xFF, 0xFF, 0xFF, 0xFF, 0xFF, 0xFF],
    ];
    for bytes in cases {
        let d = Decimal::from(bytes.clone());
        assert_eq!(d.to_vec(), Ok(bytes.clone()));
        assert_eq!(d.to_sign_extended_bytes_with_len(bytes.len()), Ok(bytes));
    }
}

#[test]
fn empty_bytes_decode_to_zero() {
    let d = Decimal::from(vec![]);
    assert_eq!(d.len(), 0);
    assert_eq!(d.to_i64(), Ok(0));
    assert!(d == Decimal::from(vec![0x00]));
    assert_eq!(d.to_vec(), Err(DecimalError::SignExtend { requested: 0, needed: 1 }));
    assert_eq!(d.to_sign_extended_bytes_with_len(2), Ok(vec![0x00, 0x00]));
}

#[test]
fn largest_i64_projects() {
    let d = Decimal::from(vec![0x7F, 0xFF, 0xFF, 0xFF, 0xFF, 0xFF, 0xFF, 0xFF]);
    assert_eq!(d.to_i64(), Ok(i64::MAX));
}

#[test]
fn two_to_the_sixty_three_overflows() {
    let d = Decimal::from(vec![0x00, 0x80, 0x00, 0x00, 0x00, 0x00, 0x00, 0x00, 0x00]);
    assert_eq!(d.to_i64(), Err(DecimalError::Overflow));
}

#[test]
fn smallest_i64_projects_and_one_below_overflows() {
    let d = Decimal::from(vec![0xFF, 0x80, 0x00, 0x00, 0x00, 0x00, 0x00, 0x00, 0x00]);
    assert_eq!(d.to_i64(), Ok(i64::MIN));
    let e = Decimal::from(vec![0xFF, 0x7F, 0xFF, 0xFF, 0xFF, 0xFF, 0xFF, 0xFF, 0xFF]);
    assert_eq!(e.to_i64(), Err(DecimalError::Overflow));
}

#[test]
fn small_values_project_exactly() {
    assert_eq!(Decimal::from(vec![0x01, 0x00]).to_i64(), Ok(256));
    assert_eq!(Decimal::from(vec![0xFB, 0x9B]).to_i64(), Ok(-1125));
    assert_eq!(Decimal::from(vec![0x00, 0x00, 0x00, 0x00, 0x00, 0x00, 0x00, 0x00, 0x00, 0x00, 0x2A]).to_i64(), Ok(42));
}

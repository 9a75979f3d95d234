use muted::primitive::PrimValue;
use muted::primitive::PrimWidth;
use muted::MutedError;
use muted::PrimitiveMuted;

#[test]
fn widens_32_bit_signed_values() {
    let vals = vec![PrimValue::I32(-1), PrimValue::I32(2), PrimValue::I32(i32::MIN)];
    let mut m = PrimitiveMuted::new(vals, PrimWidth::I32).unwrap();
    assert_eq!(m.read(0), Some(PrimValue::I32(-1)));
    assert_eq!(m.read(1), Some(PrimValue::I32(2)));
    assert_eq!(m.read(2), Some(PrimValue::I32(i32::MIN)));
    assert_eq!(m.read(3), None);
    assert_eq!(m.write(1, PrimValue::I32(-77)), Ok(()));
    assert_eq!(m.read(1), Some(PrimValue::I32(-77)));
}

#[test]
fn widens_32_bit_unsigned_values() {
    let vals = vec![PrimValue::U32(u32::MAX), PrimValue::U32(0)];
    let m = PrimitiveMuted::new(vals, PrimWidth::U32).unwrap();
    assert_eq!(m.read(0), Some(PrimValue::U32(u32::MAX)));
    assert_eq!(m.read(1), Some(PrimValue::U32(0)));
}

#[test]
fn stores_64_bit_values_unchanged() {
    let vals = vec![PrimValue::U64(u64::MAX), PrimValue::U64(7)];
    let mut m = PrimitiveMuted::new(vals, PrimWidth::U64).unwrap();
    assert_eq!(m.read(0), Some(PrimValue::U64(u64::MAX)));
    assert_eq!(m.push_vec(vec![PrimValue::U64(1), PrimValue::U64(2)]), Ok(()));
    assert_eq!(m.read(2), Some(PrimValue::U64(1)));
    assert_eq!(m.read(3), Some(PrimValue::U64(2)));
    assert_eq!(m.flatten(), vec![
        PrimValue::U64(u64::MAX),
        PrimValue::U64(7),
        PrimValue::U64(1),
        PrimValue::U64(2),
    ]);
}

#[test]
fn width_mismatch_is_a_configuration_error() {
    let bad = vec![PrimValue::I32(1), PrimValue::I64(2)];
    match PrimitiveMuted::new(bad, PrimWidth::I32) {
        Err(MutedError::ConfigMismatch) => {},
        _ => panic!("a mismatched width must be reported, not coerced"),
    }
    let mut m = PrimitiveMuted::new(vec![PrimValue::I64(5)], PrimWidth::I64).unwrap();
    assert_eq!(m.push_vec(vec![PrimValue::U64(1)]), Err(MutedError::ConfigMismatch));
    assert_eq!(m.write(0, PrimValue::I32(1)), Err(MutedError::ConfigMismatch));
    // Nothing mutated on the failures.
    assert_eq!(m.read(0), Some(PrimValue::I64(5)));
    assert_eq!(m.read(1), None);
}

#[test]
fn signed_push_round_trip() {
    let mut m = PrimitiveMuted::new(vec![PrimValue::I32(1)], PrimWidth::I32).unwrap();
    assert_eq!(m.push_vec(vec![PrimValue::I32(-5), PrimValue::I32(6)]), Ok(()));
    assert_eq!(m.read(1), Some(PrimValue::I32(-5)));
    assert_eq!(m.read(2), Some(PrimValue::I32(6)));
    assert_eq!(m.write(1, PrimValue::I32(i32::MAX)), Ok(()));
    assert_eq!(m.read(1), Some(PrimValue::I32(i32::MAX)));
    assert_eq!(m.write(9, PrimValue::I32(0)), Err(MutedError::OutOfBounds));
}

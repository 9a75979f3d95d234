use muted::raw_buf::offset;
use muted::raw_buf::IntWidth;
use muted::raw_buf::PrivateTypes;
use muted::raw_buf::BIT;
use muted::MutedError;
use muted::RawBuf;

#[test]
fn fresh_buffer_is_zeroed() {
    let b = RawBuf::new(2);
    assert_eq!(b.len, 16);
    assert_eq!(b.last_index, 0);
    for p in 0..16 {
        assert_eq!(b.read_bit(p), Ok(0));
    }
    assert_eq!(b.read_bit(16), Err(MutedError::OutOfBounds));
}

#[test]
fn byte_pattern_round_trip() {
    let mut b = RawBuf::new(2);
    assert_eq!(b.write_bits(offset::Bit(0), 0b1011_0001, 8, false), Ok(()));
    assert_eq!(b.read_bits(0, 8, false, IntWidth::U8), Ok(PrivateTypes::U8(177)));
    assert_eq!(b.last_index, 8);
}

#[test]
fn signed_read_with_sign_bit_set_overflows() {
    let mut b = RawBuf::new(2);
    assert_eq!(b.write_bits(offset::Bit(0), 0b1011_0001, 8, false), Ok(()));
    // The numeral 177 does not fit an 8-bit signed range: the decode is an
    // unsigned base-2 read, not a two's-complement one.
    assert_eq!(b.read_bits(0, 8, false, IntWidth::I8), Err(MutedError::ParseOverflow));
    // Without the sign bit the signed read succeeds.
    assert_eq!(b.read_bits(1, 8, false, IntWidth::I8), Ok(PrivateTypes::I8(49)));
}

#[test]
fn single_bits_msb_first() {
    let mut b = RawBuf::new(1);
    assert_eq!(b.write_bit(offset::Bit(0), BIT::One, false), Ok(()));
    assert_eq!(b.write_bit(offset::Bit(7), BIT::One, false), Ok(()));
    assert_eq!(b.read_bit(0), Ok(1));
    assert_eq!(b.read_bit(1), Ok(0));
    assert_eq!(b.read_bit(7), Ok(1));
    // 0b1000_0001 read as a numeral.
    assert_eq!(b.read_bits(0, 8, false, IntWidth::U8), Ok(PrivateTypes::U8(129)));
    // The cursor advanced by exactly one per write, absolute offsets included.
    assert_eq!(b.last_index, 2);
    assert_eq!(b.write_bit(offset::Bit(8), BIT::One, false), Err(MutedError::OutOfBounds));
}

#[test]
fn append_mode_follows_cursor() {
    let mut b = RawBuf::new(2);
    assert_eq!(b.write_bit(offset::Bit(12345), BIT::One, true), Ok(()));
    assert_eq!(b.write_bit(offset::Bit(12345), BIT::Zero, true), Ok(()));
    assert_eq!(b.write_bit(offset::Bit(12345), BIT::One, true), Ok(()));
    assert_eq!(b.read_bits(0, 3, false, IntWidth::U8), Ok(PrivateTypes::U8(0b101)));
    assert_eq!(b.last_index, 3);
    assert_eq!(b.write_bits(offset::Bit(0), 0b11, 2, true), Ok(()));
    assert_eq!(b.last_index, 5);
    assert_eq!(b.read_bits(0, 5, false, IntWidth::U8), Ok(PrivateTypes::U8(0b10111)));
}

#[test]
fn byte_granular_offsets() {
    let mut b = RawBuf::new(3);
    assert_eq!(b.write_bits(offset::Byte(1), 0xAB, 8, false), Ok(()));
    assert_eq!(b.read_bits(8, 16, false, IntWidth::U16), Ok(PrivateTypes::U16(0xAB)));
    assert_eq!(b.read_bits(0, 8, false, IntWidth::U8), Ok(PrivateTypes::U8(0)));
}

#[test]
fn out_of_range_writes_mutate_nothing() {
    let mut b = RawBuf::new(1);
    assert_eq!(b.write_bits(offset::Bit(4), 0xF, 8, false), Err(MutedError::OutOfBounds));
    assert_eq!(b.read_bits(0, 8, false, IntWidth::U8), Ok(PrivateTypes::U8(0)));
    assert_eq!(b.last_index, 0);
    assert_eq!(b.read_bits(0, 9, false, IntWidth::U8), Err(MutedError::OutOfBounds));
    assert_eq!(b.read_bits(5, 3, false, IntWidth::U8), Err(MutedError::OutOfBounds));
}

#[test]
fn wider_reads_and_overflow_per_width() {
    let mut b = RawBuf::new(4);
    assert_eq!(b.write_bits(offset::Bit(0), 0xDEAD_BEEF, 32, false), Ok(()));
    assert_eq!(b.read_bits(0, 32, false, IntWidth::U32), Ok(PrivateTypes::U32(0xDEAD_BEEF)));
    assert_eq!(b.read_bits(0, 32, false, IntWidth::U64), Ok(PrivateTypes::U64(0xDEAD_BEEF)));
    assert_eq!(b.read_bits(0, 32, false, IntWidth::I64), Ok(PrivateTypes::I64(0xDEAD_BEEF)));
    // 0xDEAD_BEEF has the sign bit of a 32-bit word set.
    assert_eq!(b.read_bits(0, 32, false, IntWidth::I32), Err(MutedError::ParseOverflow));
    assert_eq!(b.read_bits(0, 16, false, IntWidth::U16), Ok(PrivateTypes::U16(0xDEAD)));
    assert_eq!(b.read_bits(0, 16, false, IntWidth::U8), Err(MutedError::ParseOverflow));
    assert_eq!(b.read_bits(0, 16, false, IntWidth::I16), Err(MutedError::ParseOverflow));
}

#[test]
fn extend_grows_capacity_and_keeps_bits() {
    let mut b = RawBuf::new(1);
    assert_eq!(b.write_bits(offset::Bit(0), 0b1011_0001, 8, false), Ok(()));
    assert_eq!(b.write_bits(offset::Bit(8), 1, 1, false), Err(MutedError::OutOfBounds));
    b.extend_by(1);
    assert_eq!(b.len, 16);
    assert_eq!(b.read_bits(0, 8, false, IntWidth::U8), Ok(PrivateTypes::U8(177)));
    assert_eq!(b.read_bits(8, 16, false, IntWidth::U8), Ok(PrivateTypes::U8(0)));
    assert_eq!(b.write_bits(offset::Bit(8), 1, 1, false), Ok(()));
    assert_eq!(b.read_bit(8), Ok(1));
}

#[test]
fn cursor_based_reads() {
    let mut b = RawBuf::new(2);
    assert_eq!(b.write_bits(offset::Bit(0), 0b1111, 4, false), Ok(()));
    assert_eq!(b.write_bits(offset::Bit(0), 0b0101, 4, true), Ok(()));
    // The cursor now sits at 8; a cursor-based read starts there.
    assert_eq!(b.read_bits(0, 8, true, IntWidth::U8), Ok(PrivateTypes::U8(0)));
    assert_eq!(b.read_bits(0, 8, false, IntWidth::U8), Ok(PrivateTypes::U8(0b1111_0101)));
}

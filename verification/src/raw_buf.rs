//! A byte-backed, bit-addressable buffer with an append cursor.
//!
//! Bits are addressed MSB-first within each byte: absolute bit position `p`
//! lives in byte `p / 8` at shift `7 - p % 8`. The buffer supports single-bit
//! and fixed-width multi-bit reads and writes, and decoding a bit range as an
//! unsigned base-2 numeral into a chosen integer width.

use vstd::prelude::*;

use crate::errors::MutedError;

verus! {

/// The bit buffer: a zero-initialized byte region of fixed bit capacity
/// (`len == 8 * data.len()`), and an append cursor tracking the last bit
/// touched.
#[derive(Debug, PartialEq, Eq)]
pub struct RawBuf {
    pub data: Vec<u8>,
    pub last_index: u32,
    pub len: u32,
}

/// A single bit value to write.
#[derive(Debug, Clone, Copy)]
pub enum BIT {
    One,
    Zero,
}

/// A byte-granular quantity.
#[derive(Debug, Clone, Copy)]
pub struct BYTE(pub u64);

/// A buffer position, counted in bits or in bytes.
#[allow(non_camel_case_types)]
#[derive(Debug, Clone, Copy)]
pub enum offset {
    Bit(u64),
    Byte(u64),
}

/// A decoded fixed-width integer, tagged with its width and signedness.
#[derive(Debug, Clone, Copy, PartialEq, Eq, Structural)]
pub enum PrivateTypes {
    U32(u32),
    U64(u64),
    U16(u16),
    U8(u8),
    I32(i32),
    I64(i64),
    I16(i16),
    I8(i8),
}

/// The explicit width/signedness witness that selects how `read_bits`
/// converts a decoded numeral.
#[derive(Debug, Clone, Copy, PartialEq, Eq, Structural)]
pub enum IntWidth {
    U8,
    U16,
    U32,
    U64,
    I8,
    I16,
    I32,
    I64,
}

/// The bit at absolute position `pos`, MSB-first within each byte.
pub open spec fn bit_at(bytes: Seq<u8>, pos: int) -> u8 {
    (bytes[pos / 8] >> ((7 - pos % 8) as u8)) & 1
}

/// The unsigned base-2 numeral spelled by bits `[from, until)`, MSB first.
pub open spec fn bits_num(bytes: Seq<u8>, from: int, until: int) -> int
    decreases until - from,
{
    if until <= from {
        0
    } else {
        bits_num(bytes, from, until - 1) * 2 + bit_at(bytes, until - 1)
    }
}

/// A base-2 numeral is never negative.
pub proof fn lemma_bits_num_nonneg(bytes: Seq<u8>, from: int, until: int)
    ensures
        bits_num(bytes, from, until) >= 0,
    decreases until - from,
{
    if until > from {
        lemma_bits_num_nonneg(bytes, from, until - 1);
    }
}

/// Reading more bits never shrinks the numeral; one more bit at least
/// doubles it.
pub proof fn lemma_bits_num_grows(bytes: Seq<u8>, from: int, i: int, until: int)
    requires
        from <= i <= until,
    ensures
        bits_num(bytes, from, until) >= bits_num(bytes, from, i),
        i < until ==> bits_num(bytes, from, until) >= 2 * bits_num(bytes, from, i),
    decreases until - i,
{
    lemma_bits_num_nonneg(bytes, from, i);
    if i < until {
        lemma_bits_num_grows(bytes, from, i + 1, until);
        lemma_bits_num_nonneg(bytes, from, until - 1);
    }
}

/// The largest value representable by a width witness; a decoded numeral is
/// unsigned, so a signed width accepts only its non-negative half.
pub open spec fn width_max(w: IntWidth) -> int {
    match w {
        IntWidth::U8 => u8::MAX as int,
        IntWidth::U16 => u16::MAX as int,
        IntWidth::U32 => u32::MAX as int,
        IntWidth::U64 => u64::MAX as int,
        IntWidth::I8 => i8::MAX as int,
        IntWidth::I16 => i16::MAX as int,
        IntWidth::I32 => i32::MAX as int,
        IntWidth::I64 => i64::MAX as int,
    }
}

/// The numeral `v`, packed into the integer type a width witness names.
pub open spec fn pack(w: IntWidth, v: int) -> PrivateTypes {
    match w {
        IntWidth::U8 => PrivateTypes::U8(v as u8),
        IntWidth::U16 => PrivateTypes::U16(v as u16),
        IntWidth::U32 => PrivateTypes::U32(v as u32),
        IntWidth::U64 => PrivateTypes::U64(v as u64),
        IntWidth::I8 => PrivateTypes::I8(v as i8),
        IntWidth::I16 => PrivateTypes::I16(v as i16),
        IntWidth::I32 => PrivateTypes::I32(v as i32),
        IntWidth::I64 => PrivateTypes::I64(v as i64),
    }
}

impl RawBuf {
    /// The capacity bookkeeping matches the backing bytes: `len` is the bit
    /// capacity of `data`.
    pub open spec fn wf(&self) -> bool {
        self.len == self.data@.len() * 8
    }

    /// A zero-filled buffer of `byte_size * 8` bit capacity, cursor at 0.
    pub fn new(byte_size: u32) -> (r: RawBuf)
        requires
            byte_size * 8 <= u32::MAX,
        ensures
            r.wf(),
            r.len == byte_size * 8,
            r.last_index == 0,
            r.data@.len() == byte_size,
            forall|p: int| 0 <= p < r.len ==> bit_at(r.data@, p) == 0,
    {
        let data = vec![0u8; byte_size as usize];
        proof {
            assert(forall|i: int| 0 <= i < data@.len() ==> #[trigger] data@[i] == 0u8);
            assert(forall|sh: u8| sh < 8 ==> #[trigger] ((0u8 >> sh) & 1) == 0) by (bit_vector);
            assert forall|p: int| 0 <= p < byte_size * 8 implies bit_at(data@, p) == 0 by {
                assert(0 <= p / 8 < data@.len());
                assert(0 <= p % 8 < 8);
            }
        }
        RawBuf { data, last_index: 0, len: byte_size * 8 }
    }

    /// The bit at `pos`, without bookkeeping (callers check bounds).
    fn get_bit(&self, pos: u32) -> (r: u8)
        requires
            self.wf(),
            pos < self.len,
        ensures
            r == bit_at(self.data@, pos as int),
            r <= 1,
    {
        proof {
            assert(0 <= pos as int / 8 < self.data@.len());
        }
        let byte_index = (pos / 8) as usize;
        let sh: u8 = 7 - (pos % 8) as u8;
        let b = self.data[byte_index];
        proof {
            assert(forall|x: u8, s: u8| s < 8 ==> #[trigger] ((x >> s) & 1) <= 1) by (bit_vector);
        }
        (b >> sh) & 1
    }

    /// Reads the bit at an absolute position. Fails with `OutOfBounds` —
    /// rather than fatally — at or past the capacity.
    pub fn read_bit(&self, bit_offset: u32) -> (r: Result<u8, MutedError>)
        requires
            self.wf(),
        ensures
            bit_offset < self.len ==> r == Ok::<u8, MutedError>(
                bit_at(self.data@, bit_offset as int),
            ),
            bit_offset >= self.len ==> r == Err::<u8, MutedError>(MutedError::OutOfBounds),
    {
        if bit_offset >= self.len {
            Err(MutedError::OutOfBounds)
        } else {
            Ok(self.get_bit(bit_offset))
        }
    }

    /// Sets or clears the bit at `pos`, leaving every other bit alone.
    fn set_bit_at(&mut self, pos: u32, one: bool)
        requires
            old(self).wf(),
            pos < old(self).len,
        ensures
            final(self).wf(),
            final(self).len == old(self).len,
            final(self).last_index == old(self).last_index,
            bit_at(final(self).data@, pos as int) == if one {
                1u8
            } else {
                0u8
            },
            forall|p: int|
                0 <= p < old(self).len && p != pos ==> bit_at(final(self).data@, p) == bit_at(
                    old(self).data@,
                    p,
                ),
    {
        proof {
            assert(0 <= pos as int / 8 < self.data@.len());
        }
        let byte_index = (pos / 8) as usize;
        let sh: u8 = 7 - (pos % 8) as u8;
        let b = self.data[byte_index];
        let nb: u8 = if one {
            b | (1u8 << sh)
        } else {
            b & !(1u8 << sh)
        };
        self.data[byte_index] = nb;
        proof {
            let bb = b;
            let s = sh;
            assert(((bb | (1u8 << s)) >> s) & 1 == 1 && ((bb & !(1u8 << s)) >> s) & 1
                == 0) by (bit_vector)
                requires
                    s < 8,
            ;
            assert(bit_at(self.data@, pos as int) == if one {
                1u8
            } else {
                0u8
            });
            assert forall|p: int|
                0 <= p < old(self).len && p != pos implies bit_at(self.data@, p) == bit_at(
                old(self).data@,
                p,
            ) by {
                assert(0 <= p / 8 < self.data@.len());
                if p / 8 == pos as int / 8 {
                    assert(p % 8 != pos as int % 8);
                    let k: u8 = (7 - p % 8) as u8;
                    assert(((bb | (1u8 << s)) >> k) & 1 == (bb >> k) & 1 && ((bb & !(1u8 << s))
                        >> k) & 1 == (bb >> k) & 1) by (bit_vector)
                        requires
                            k < 8,
                            s < 8,
                            k != s,
                    ;
                    assert(self.data@[p / 8] == nb);
                    assert(old(self).data@[p / 8] == bb);
                } else {
                    assert(self.data@[p / 8] == old(self).data@[p / 8]);
                }
            }
        }
    }

    /// Writes one bit: at the append cursor in append mode (the supplied
    /// position is then ignored), or at the supplied absolute bit position.
    /// The cursor always advances by exactly one — it tracks the last bit
    /// touched, not the next free slot. Fails with `OutOfBounds` at or past
    /// the capacity, mutating nothing.
    pub fn write_bit(&mut self, bit_offset: offset, bit: BIT, append_mode: bool) -> (r: Result<
        (),
        MutedError,
    >)
        requires
            old(self).wf(),
            bit_offset is Bit,
            old(self).last_index < u32::MAX,
        ensures
            final(self).wf(),
            final(self).len == old(self).len,
            ({
                let pos: int = if append_mode {
                    old(self).last_index as int
                } else {
                    bit_offset->Bit_0 as int
                };
                &&& (r is Ok <==> pos < old(self).len)
                &&& (r is Err ==> *final(self) == *old(self) && r == Err::<(), MutedError>(
                    MutedError::OutOfBounds,
                ))
                &&& (r is Ok ==> {
                    &&& bit_at(final(self).data@, pos) == (if bit is One {
                        1u8
                    } else {
                        0u8
                    })
                    &&& forall|p: int|
                        0 <= p < old(self).len && p != pos ==> bit_at(final(self).data@, p)
                            == bit_at(old(self).data@, p)
                    &&& final(self).last_index == old(self).last_index + 1
                })
            }),
    {
        let pos64: u64 = match bit_offset {
            offset::Bit(x) => x,
            offset::Byte(_) => {
                proof {
                    assert(false);
                }
                0
            },
        };
        let pos: u32 = if append_mode {
            self.last_index
        } else {
            if pos64 >= self.len as u64 {
                return Err(MutedError::OutOfBounds);
            }
            pos64 as u32
        };
        if pos >= self.len {
            return Err(MutedError::OutOfBounds);
        }
        let one = match bit {
            BIT::One => true,
            BIT::Zero => false,
        };
        self.set_bit_at(pos, one);
        self.last_index = self.last_index + 1;
        Ok(())
    }

    /// Writes the low `bit_count` bits of `write`, MSB first, starting at
    /// the append cursor (append mode) or at the supplied offset; on success
    /// the cursor is forced to `start + bit_count`. Fails with `OutOfBounds`
    /// when `start + bit_count` exceeds the capacity, mutating nothing.
    pub fn write_bits(&mut self, bit_offset: offset, write: u64, bit_count: u32, append_mode: bool) -> (r:
        Result<(), MutedError>)
        requires
            old(self).wf(),
            bit_count <= 64,
        ensures
            final(self).wf(),
            final(self).len == old(self).len,
            ({
                let start: int = if append_mode {
                    old(self).last_index as int
                } else {
                    match bit_offset {
                        offset::Bit(x) => x as int,
                        offset::Byte(x) => 8 * (x as int),
                    }
                };
                &&& (r is Ok <==> start + bit_count <= old(self).len)
                &&& (r is Err ==> *final(self) == *old(self) && r == Err::<(), MutedError>(
                    MutedError::OutOfBounds,
                ))
                &&& (r is Ok ==> {
                    &&& forall|p: int|
                        start <= p < start + bit_count ==> #[trigger] bit_at(final(self).data@, p)
                            == ((write >> ((bit_count - 1 - (p - start)) as u64)) & 1) as u8
                    &&& forall|p: int|
                        0 <= p < old(self).len && !(start <= p < start + bit_count) ==> bit_at(
                            final(self).data@,
                            p,
                        ) == bit_at(old(self).data@, p)
                    &&& final(self).last_index == start + bit_count
                })
            }),
    {
        let start64: u64 = if append_mode {
            self.last_index as u64
        } else {
            match bit_offset {
                offset::Bit(x) => {
                    if x > self.len as u64 {
                        return Err(MutedError::OutOfBounds);
                    }
                    x
                },
                offset::Byte(x) => {
                    if x > self.len as u64 {
                        return Err(MutedError::OutOfBounds);
                    }
                    x * 8
                },
            }
        };
        if start64 > self.len as u64 || bit_count as u64 > self.len as u64 - start64 {
            return Err(MutedError::OutOfBounds);
        }
        let start: u32 = start64 as u32;
        let ghost pre = self.data@;
        let mut i: u32 = 0;
        while i < bit_count
            invariant
                self.wf(),
                self.len == old(self).len,
                self.last_index == old(self).last_index,
                pre == old(self).data@,
                start + bit_count <= self.len,
                bit_count <= 64,
                0 <= i <= bit_count,
                forall|k: int|
                    0 <= k < i ==> #[trigger] bit_at(self.data@, start + k) == ((write >> ((
                    bit_count - 1 - k) as u64)) & 1) as u8,
                forall|p: int|
                    0 <= p < self.len && !(start <= p < start + i) ==> bit_at(self.data@, p)
                        == bit_at(pre, p),
            decreases bit_count - i,
        {
            let sh: u64 = (bit_count - 1 - i) as u64;
            let bitv: u64 = (write >> sh) & 1;
            proof {
                assert((write >> sh) & 1 <= 1) by (bit_vector);
            }
            self.set_bit_at(start + i, bitv == 1);
            i += 1;
        }
        self.last_index = start + bit_count;
        proof {
            assert forall|p: int|
                start <= p < start + bit_count implies #[trigger] bit_at(self.data@, p) == ((write
                >> ((bit_count - 1 - (p - start)) as u64)) & 1) as u8 by {
                let k = p - start as int;
                assert(bit_at(self.data@, start as int + k) == ((write >> ((bit_count - 1
                    - k) as u64)) & 1) as u8);
            }
        }
        Ok(())
    }

    /// Reads bits `[from, until)` — `from` replaced by the append cursor
    /// when `use_cursor` is set — as an unsigned base-2 numeral and converts
    /// it to the integer width the witness names.
    ///
    /// Fails with `OutOfBounds` for a range outside the capacity, and with
    /// `ParseOverflow` when the numeral does not fit the width's range. The
    /// numeral is unsigned, so a signed witness accepts only patterns whose
    /// leading bit range stays within the non-negative half: a pattern with
    /// the sign bit set overflows, by design, rather than decoding as two's
    /// complement.
    pub fn read_bits(&self, from: u32, until: u32, use_cursor: bool, width: IntWidth) -> (r: Result<
        PrivateTypes,
        MutedError,
    >)
        requires
            self.wf(),
        ensures
            ({
                let f: int = if use_cursor {
                    self.last_index as int
                } else {
                    from as int
                };
                let v = bits_num(self.data@, f, until as int);
                &&& (!(f <= until as int <= self.len) ==> r == Err::<PrivateTypes, MutedError>(
                    MutedError::OutOfBounds,
                ))
                &&& (f <= until as int <= self.len ==> {
                    &&& (v <= width_max(width) ==> r == Ok::<PrivateTypes, MutedError>(
                        pack(width, v),
                    ))
                    &&& (v > width_max(width) ==> r == Err::<PrivateTypes, MutedError>(
                        MutedError::ParseOverflow,
                    ))
                })
            }),
    {
        let f: u32 = if use_cursor {
            self.last_index
        } else {
            from
        };
        if f > until || until > self.len {
            return Err(MutedError::OutOfBounds);
        }
        let ghost v = bits_num(self.data@, f as int, until as int);
        let mut acc: u64 = 0;
        let mut i: u32 = f;
        while i < until
            invariant
                self.wf(),
                f as int == (if use_cursor {
                    self.last_index as int
                } else {
                    from as int
                }),
                f <= i <= until <= self.len,
                v == bits_num(self.data@, f as int, until as int),
                acc == bits_num(self.data@, f as int, i as int),
            decreases until - i,
        {
            if acc >= 0x8000_0000_0000_0000u64 {
                proof {
                    lemma_bits_num_grows(self.data@, f as int, i as int, until as int);
                    assert(v >= 2 * (acc as int));
                    assert(width_max(width) <= u64::MAX as int);
                }
                return Err(MutedError::ParseOverflow);
            }
            let b = self.get_bit(i);
            acc = acc * 2 + b as u64;
            i += 1;
        }
        proof {
            lemma_bits_num_nonneg(self.data@, f as int, until as int);
        }
        match width {
            IntWidth::U8 => {
                if acc <= u8::MAX as u64 {
                    Ok(PrivateTypes::U8(acc as u8))
                } else {
                    Err(MutedError::ParseOverflow)
                }
            },
            IntWidth::U16 => {
                if acc <= u16::MAX as u64 {
                    Ok(PrivateTypes::U16(acc as u16))
                } else {
                    Err(MutedError::ParseOverflow)
                }
            },
            IntWidth::U32 => {
                if acc <= u32::MAX as u64 {
                    Ok(PrivateTypes::U32(acc as u32))
                } else {
                    Err(MutedError::ParseOverflow)
                }
            },
            IntWidth::U64 => Ok(PrivateTypes::U64(acc)),
            IntWidth::I8 => {
                if acc <= i8::MAX as u64 {
                    Ok(PrivateTypes::I8(acc as i8))
                } else {
                    Err(MutedError::ParseOverflow)
                }
            },
            IntWidth::I16 => {
                if acc <= i16::MAX as u64 {
                    Ok(PrivateTypes::I16(acc as i16))
                } else {
                    Err(MutedError::ParseOverflow)
                }
            },
            IntWidth::I32 => {
                if acc <= i32::MAX as u64 {
                    Ok(PrivateTypes::I32(acc as i32))
                } else {
                    Err(MutedError::ParseOverflow)
                }
            },
            IntWidth::I64 => {
                if acc <= i64::MAX as u64 {
                    Ok(PrivateTypes::I64(acc as i64))
                } else {
                    Err(MutedError::ParseOverflow)
                }
            },
        }
    }

    /// Grows the backing region by `bytes` zero-filled bytes; the capacity
    /// bookkeeping grows by the bit equivalent and the cursor is untouched.
    pub fn extend_by(&mut self, bytes: usize)
        requires
            old(self).wf(),
            old(self).len + 8 * bytes <= u32::MAX,
        ensures
            final(self).wf(),
            final(self).len == old(self).len + 8 * bytes,
            final(self).last_index == old(self).last_index,
            final(self).data@.len() == old(self).data@.len() + bytes,
            forall|p: int|
                0 <= p < old(self).len ==> bit_at(final(self).data@, p) == bit_at(
                    old(self).data@,
                    p,
                ),
    {
        let old_len = self.data.len();
        self.data.resize(old_len + bytes, 0u8);
        self.len = self.len + (bytes as u32) * 8;
        proof {
            assert(self.data@.subrange(0, old_len as int) == old(self).data@);
            assert forall|p: int| 0 <= p < old(self).len implies bit_at(self.data@, p) == bit_at(
                old(self).data@,
                p,
            ) by {
                assert(0 <= p / 8 < old_len);
                assert(self.data@[p / 8] == self.data@.subrange(0, old_len as int)[p / 8]);
            }
        }
    }
}

} // verus!

//! The primitive normalization store.
//!
//! A specialization of the segmented sequence for fixed-width integers: a
//! width/signedness witness is fixed at construction, and every inserted
//! value is canonicalized to one 64-bit physical representation — 32-bit
//! signed values sign-extend, 32-bit unsigned values zero-extend — so the
//! slot array has a single uniform shape. A value whose width or signedness
//! does not match the witness is a reported configuration error, never a
//! silent coercion.

use vstd::prelude::*;

use crate::errors::MutedError;
use crate::generic;
use crate::generic::flat_of;
use crate::generic::wrapped;
use crate::generic::SlotView;

verus! {

/// The width/signedness witness, chosen once at construction.
#[derive(Debug, Clone, Copy, PartialEq, Eq, Structural)]
pub enum PrimWidth {
    I32,
    U32,
    I64,
    U64,
}

/// A fixed-width integer value, tagged with its source width and signedness.
#[derive(Debug, Clone, Copy, PartialEq, Eq, Structural)]
pub enum PrimValue {
    I32(i32),
    U32(u32),
    I64(i64),
    U64(u64),
}

/// The value carries exactly the width and signedness the witness names.
pub open spec fn matches_width(v: PrimValue, w: PrimWidth) -> bool {
    match (v, w) {
        (PrimValue::I32(_), PrimWidth::I32) => true,
        (PrimValue::U32(_), PrimWidth::U32) => true,
        (PrimValue::I64(_), PrimWidth::I64) => true,
        (PrimValue::U64(_), PrimWidth::U64) => true,
        _ => false,
    }
}

/// The canonical 64-bit physical representation: 32-bit signed values
/// sign-extend, 32-bit unsigned values zero-extend, 64-bit values keep
/// their bit pattern.
pub open spec fn canon(v: PrimValue) -> u64 {
    match v {
        PrimValue::I32(x) => (x as i64) as u64,
        PrimValue::U32(x) => x as u64,
        PrimValue::I64(x) => x as u64,
        PrimValue::U64(x) => x,
    }
}

/// Reads a stored 64-bit pattern back as the witness's value type.
pub open spec fn decode(w: PrimWidth, b: u64) -> PrimValue {
    match w {
        PrimWidth::I32 => PrimValue::I32((b as i64) as i32),
        PrimWidth::U32 => PrimValue::U32(b as u32),
        PrimWidth::I64 => PrimValue::I64(b as i64),
        PrimWidth::U64 => PrimValue::U64(b),
    }
}

/// Decoding inverts canonicalization for every value matching the witness.
pub proof fn lemma_canon_roundtrip(v: PrimValue, w: PrimWidth)
    requires
        matches_width(v, w),
    ensures
        decode(w, canon(v)) == v,
{
    match v {
        PrimValue::I32(x) => {
            let y: i64 = x as i64;
            assert((y as u64) as i64 == y) by (bit_vector);
            assert(y as i32 == x);
        },
        PrimValue::U32(x) => {
            assert((x as u64) as u32 == x);
        },
        PrimValue::I64(x) => {
            assert((x as u64) as i64 == x) by (bit_vector);
        },
        PrimValue::U64(_) => {},
    }
}

/// Canonicalizes one value under the witness, or reports the mismatch.
fn canon_value(v: PrimValue, w: PrimWidth) -> (r: Option<u64>)
    ensures
        r is Some <==> matches_width(v, w),
        r matches Some(b) ==> b == canon(v),
{
    match (v, w) {
        (PrimValue::I32(x), PrimWidth::I32) => Some((x as i64) as u64),
        (PrimValue::U32(x), PrimWidth::U32) => Some(x as u64),
        (PrimValue::I64(x), PrimWidth::I64) => Some(x as u64),
        (PrimValue::U64(x), PrimWidth::U64) => Some(x),
        _ => None,
    }
}

/// Reads one stored pattern back under the witness.
fn decode_value(w: PrimWidth, b: u64) -> (r: PrimValue)
    ensures
        r == decode(w, b),
{
    match w {
        PrimWidth::I32 => PrimValue::I32((b as i64) as i32),
        PrimWidth::U32 => PrimValue::U32(b as u32),
        PrimWidth::I64 => PrimValue::I64(b as i64),
        PrimWidth::U64 => PrimValue::U64(b),
    }
}

/// Canonicalizes a whole collection, or reports the first mismatch with
/// nothing converted.
fn canon_vec(values: &Vec<PrimValue>, w: PrimWidth) -> (r: Result<Vec<u64>, MutedError>)
    ensures
        r is Ok <==> (forall|i: int|
            0 <= i < values@.len() ==> matches_width(#[trigger] values@[i], w)),
        r is Err ==> r == Err::<Vec<u64>, MutedError>(MutedError::ConfigMismatch),
        r matches Ok(out) ==> out@ == values@.map_values(|v: PrimValue| canon(v)),
{
    let mut out: Vec<u64> = Vec::new();
    let mut i: usize = 0;
    while i < values.len()
        invariant
            0 <= i <= values@.len(),
            out@.len() == i,
            forall|j: int| 0 <= j < i ==> matches_width(#[trigger] values@[j], w),
            forall|j: int| 0 <= j < i ==> #[trigger] out@[j] == canon(values@[j]),
        decreases values@.len() - i,
    {
        match canon_value(values[i], w) {
            Some(b) => out.push(b),
            None => {
                return Err(MutedError::ConfigMismatch);
            },
        }
        i += 1;
    }
    proof {
        assert(out@ =~= values@.map_values(|v: PrimValue| canon(v)));
    }
    Ok(out)
}

/// The primitive normalization store: a segmented sequence of canonical
/// 64-bit patterns, plus the witness they are decoded under.
pub struct PrimitiveMuted {
    store: generic::Muted<u64>,
    width: PrimWidth,
}

impl PrimitiveMuted {
    /// The underlying segmented sequence of canonical patterns, as the
    /// contracts see it.
    pub closed spec fn store(&self) -> generic::Muted<u64> {
        self.store
    }

    /// The witness fixed at construction.
    pub closed spec fn width(&self) -> PrimWidth {
        self.width
    }

    /// The store's invariant is its underlying sequence's.
    pub open spec fn wf(&self) -> bool {
        self.store().wf()
    }

    /// The total logical length, dead space included.
    pub open spec fn total_len(&self) -> int {
        self.store().total_len()
    }

    /// The decoded value at a logical index.
    pub open spec fn value_at(&self, idx: int) -> Option<PrimValue> {
        match self.store().value_at(idx) {
            Some(b) => Some(decode(self.width(), b)),
            None => None,
        }
    }

    /// Constructs a store under the given witness: each canonicalized value
    /// becomes its own inline slot. Every value must match the witness;
    /// a mismatch is a configuration error and nothing is built.
    pub fn new(other: Vec<PrimValue>, width: PrimWidth) -> (r: Result<PrimitiveMuted, MutedError>)
        ensures
            r is Ok <==> (forall|i: int|
                0 <= i < other@.len() ==> matches_width(#[trigger] other@[i], width)),
            r is Err ==> r == Err::<PrimitiveMuted, MutedError>(MutedError::ConfigMismatch),
            r matches Ok(m) ==> {
                &&& m.wf()
                &&& m.width() == width
                &&& m.total_len() == other@.len()
                &&& m.store()@ == wrapped(other@.map_values(|v: PrimValue| canon(v)))
                &&& forall|i: int| 0 <= i < other@.len() ==> m.value_at(i) == Some(other@[i])
            },
    {
        match canon_vec(&other, width) {
            Ok(vals) => {
                let ghost vs = vals@;
                let store = generic::Muted::new(vals);
                let m = PrimitiveMuted { store, width };
                proof {
                    m.store().lemma_fresh_value_at(vs);
                    assert forall|i: int| 0 <= i < other@.len() implies m.value_at(i) == Some(
                        other@[i],
                    ) by {
                        assert(m.store().value_at(i) == Some(canon(other@[i])));
                        lemma_canon_roundtrip(other@[i], width);
                    }
                }
                Ok(m)
            },
            Err(e) => Err(e),
        }
    }

    /// Canonicalizes a collection and splices it as one owned segment: one
    /// new slot and one new ownership-table entry, whatever the length.
    /// A width mismatch is a configuration error and nothing mutates.
    pub fn push_vec(&mut self, other: Vec<PrimValue>) -> (r: Result<(), MutedError>)
        requires
            old(self).wf(),
            old(self).total_len() + other@.len() <= usize::MAX,
        ensures
            final(self).wf(),
            final(self).width() == old(self).width(),
            r is Ok <==> (forall|i: int|
                0 <= i < other@.len() ==> matches_width(#[trigger] other@[i], old(self).width())),
            r is Err ==> *final(self) == *old(self) && r == Err::<(), MutedError>(
                MutedError::ConfigMismatch,
            ),
            r is Ok ==> {
                &&& final(self).store()@ == old(self).store()@.push(
                    SlotView::Seg(
                        old(self).store().table().len() as int,
                        other@.map_values(|v: PrimValue| canon(v)),
                    ),
                )
                &&& final(self).total_len() == old(self).total_len() + other@.len()
            },
    {
        let w = self.width;
        match canon_vec(&other, w) {
            Ok(vals) => {
                self.store.push_vec_convert(vals);
                Ok(())
            },
            Err(e) => Err(e),
        }
    }

    /// Reads the decoded value at a logical index; `None` exactly where the
    /// underlying sequence holds nothing.
    pub fn read(&self, index: usize) -> (r: Option<PrimValue>)
        requires
            self.wf(),
        ensures
            r == self.value_at(index as int),
    {
        match self.store.read(index) {
            Some(b) => Some(decode_value(self.width, *b)),
            None => None,
        }
    }

    /// Overwrites the value at a logical index with a canonicalized value.
    /// A width mismatch is a configuration error; an index that holds no
    /// value is out of bounds; nothing mutates on either failure.
    pub fn write(&mut self, index: usize, val: PrimValue) -> (r: Result<(), MutedError>)
        requires
            old(self).wf(),
        ensures
            final(self).wf(),
            final(self).width() == old(self).width(),
            !matches_width(val, old(self).width()) ==> r == Err::<(), MutedError>(
                MutedError::ConfigMismatch,
            ),
            r is Err ==> *final(self) == *old(self),
            matches_width(val, old(self).width()) ==> {
                &&& (r is Ok <==> old(self).value_at(index as int) is Some)
                &&& (r is Err ==> r == Err::<(), MutedError>(MutedError::OutOfBounds))
            },
            r is Ok ==> final(self).value_at(index as int) == Some(val),
            r is Ok ==> forall|j: int|
                !generic::seq_is_slot(
                    old(self).store().prefix(),
                    old(self).store().slot_of(index as int),
                    j,
                ) ==> final(self).value_at(j) == old(self).value_at(j),
    {
        let b = match canon_value(val, self.width) {
            Some(b) => b,
            None => {
                return Err(MutedError::ConfigMismatch);
            },
        };
        match self.store.write(index, b) {
            Some(()) => {
                proof {
                    lemma_canon_roundtrip(val, self.width);
                }
                Ok(())
            },
            None => Err(MutedError::OutOfBounds),
        }
    }

    /// Renders the flattened ordered view, decoded under the witness.
    pub fn flatten(&self) -> (r: Vec<PrimValue>)
        requires
            self.wf(),
        ensures
            r@ == flat_of(self.store()@).map_values(|b: u64| decode(self.width(), b)),
    {
        let raw = self.store.flatten();
        let mut out: Vec<PrimValue> = Vec::new();
        let mut i: usize = 0;
        while i < raw.len()
            invariant
                0 <= i <= raw@.len(),
                raw@ == flat_of(self.store()@),
                out@.len() == i,
                forall|j: int|
                    0 <= j < i ==> #[trigger] out@[j] == decode(self.width(), raw@[j]),
            decreases raw@.len() - i,
        {
            out.push(decode_value(self.width, raw[i]));
            i += 1;
        }
        proof {
            assert(out@ =~= flat_of(self.store()@).map_values(
                |b: u64| decode(self.width(), b),
            ));
        }
        out
    }
}

} // verus!

//! The segmented sequence with a bit-packed tag buffer.
//!
//! This variant keeps, beside the slot array, a side buffer of 2-bit codes —
//! one per physical slot — recording each slot's kind independently of the
//! slot's own storage: empty 0, segment reference 1, inline value 2. The
//! container's invariant ties the two together: the code at position `i`
//! always equals the logical tag of slot `i`, and every mutation of a slot's
//! tag writes the buffer in the same operation.

use vstd::prelude::*;

use crate::errors::MutedError;
use crate::generic;
use crate::generic::all_vals;
use crate::generic::flat_of;
use crate::generic::unwrap_val_slots;
use crate::generic::unwrap_vals;
use crate::generic::wrapped;
use crate::generic::Data;
use crate::generic::SlotView;
use crate::raw_buf::bit_at;
use crate::raw_buf::offset;
use crate::raw_buf::RawBuf;

verus! {

/// The 2-bit code recording a segment-reference slot.
pub const RP: u8 = 1;

/// The 2-bit code recording an inline-value slot.
pub const VALUE: u8 = 2;

/// The 2-bit code recording an empty slot.
pub const EMPTY: u8 = 0;

/// The tag code a slot's kind is recorded as.
pub open spec fn tag_code<T>(s: SlotView<T>) -> int {
    match s {
        SlotView::Empty => 0,
        SlotView::Seg(_, _) => 1,
        SlotView::Val(_) => 2,
    }
}

/// The 2-bit code stored for slot `i`: the MSB-first field at bit `2 * i`.
pub open spec fn marker_code(bytes: Seq<u8>, i: int) -> int {
    2 * bit_at(bytes, 2 * i) + bit_at(bytes, 2 * i + 1)
}

/// The segmented sequence container, with the external tag buffer.
pub struct Muted<T> {
    inner: generic::Muted<T>,
    pub variant_marker: RawBuf,
}

/// Writes the 2-bit code of slot `i` into a tag buffer, leaving every other
/// slot's code alone.
fn write_tag(marker: &mut RawBuf, i: usize, code: u8)
    requires
        old(marker).wf(),
        2 * i + 2 <= old(marker).len,
        code < 4,
    ensures
        final(marker).wf(),
        final(marker).len == old(marker).len,
        marker_code(final(marker).data@, i as int) == code,
        forall|j: int|
            0 <= j && 2 * j + 2 <= old(marker).len && j != i ==> marker_code(
                final(marker).data@,
                j,
            ) == marker_code(old(marker).data@, j),
{
    let r = marker.write_bits(offset::Bit((2 * i) as u64), code as u64, 2, false);
    proof {
        assert(r is Ok);
        let c = code;
        assert(((c as u64 >> 1u64) & 1) < 2 && ((c as u64 >> 0u64) & 1) < 2 && (c < 4 ==> c as u64
            == 2 * ((c as u64 >> 1u64) & 1) + ((c as u64 >> 0u64) & 1))) by (bit_vector);
        assert(bit_at(marker.data@, 2 * i) == ((code as u64 >> 1u64) & 1) as u8);
        assert(bit_at(marker.data@, 2 * i + 1) == ((code as u64 >> 0u64) & 1) as u8);
        assert forall|j: int|
            0 <= j && 2 * j + 2 <= old(marker).len && j != i implies marker_code(
            final(marker).data@,
            j,
        ) == marker_code(old(marker).data@, j) by {
            assert(bit_at(marker.data@, 2 * j) == bit_at(old(marker).data@, 2 * j));
            assert(bit_at(marker.data@, 2 * j + 1) == bit_at(old(marker).data@, 2 * j + 1));
        }
    }
}

impl<T> Muted<T> {
    /// The underlying segmented sequence, as the contracts see it.
    pub closed spec fn repr(&self) -> generic::Muted<T> {
        self.inner
    }

    /// The tag buffer, as the contracts see it.
    pub closed spec fn marker(&self) -> RawBuf {
        self.variant_marker
    }

    /// The abstract ownership table.
    pub open spec fn table(&self) -> Seq<Option<(int, int, Seq<T>)>> {
        self.repr().table()
    }

    /// The abstract prefix table.
    pub open spec fn prefix(&self) -> Seq<int> {
        self.repr().prefix()
    }

    /// The total logical length, dead space included.
    pub open spec fn total_len(&self) -> int {
        self.repr().total_len()
    }

    /// The value held at a logical index, resolved as in the plain variant.
    pub open spec fn value_at(&self, idx: int) -> Option<T> {
        self.repr().value_at(idx)
    }

    /// The tag buffer mirrors the slot array: the code at position `i`
    /// always equals the logical tag of slot `i`.
    pub open spec fn tags_ok(&self) -> bool {
        forall|i: int|
            0 <= i < self@.len() ==> marker_code(self.marker().data@, i) == tag_code(
                #[trigger] self@[i],
            )
    }

    /// The container's invariant: the underlying sequence is well formed,
    /// the tag buffer covers every slot, and the two stay synchronized.
    pub open spec fn wf(&self) -> bool {
        &&& self.repr().wf()
        &&& self.marker().wf()
        &&& 2 * self@.len() <= self.marker().len
        &&& self.tags_ok()
    }

    /// Constructs the container from an ordered collection: one inline-value
    /// slot per element, each recorded in the tag buffer as a value.
    pub fn new(vec: Vec<T>) -> (r: Self)
        requires
            2 * vec@.len() + 16 <= u32::MAX,
        ensures
            r.wf(),
            r@ == wrapped(vec@),
            r.table() == Seq::<Option<(int, int, Seq<T>)>>::empty(),
            r.total_len() == vec@.len(),
    {
        let n = vec.len();
        let inner = generic::Muted::new(vec);
        let mut marker = RawBuf::new(((n as u32) / 8) * 2 + 2);
        proof {
            assert(2 * n <= marker.len);
        }
        let mut i: usize = 0;
        while i < n
            invariant
                0 <= i <= n,
                marker.wf(),
                2 * n <= marker.len,
                forall|j: int| 0 <= j < i ==> marker_code(marker.data@, j) == 2,
            decreases n - i,
        {
            write_tag(&mut marker, i, VALUE);
            i += 1;
        }
        let r = Muted { inner, variant_marker: marker };
        proof {
            assert forall|j: int| 0 <= j < r@.len() implies marker_code(
                r.variant_marker.data@,
                j,
            ) == tag_code(r@[j]) by {
                assert(r@[j] is Val);
            }
        }
        r
    }

    /// Constructs the container from pre-wrapped slots. Rejects any `Rp`
    /// element — a slot array may not be built around references to further
    /// segments — mutating nothing.
    pub fn new_no_conv(vec: Vec<Data<T>>) -> (r: Result<Self, MutedError>)
        requires
            2 * vec@.len() + 16 <= u32::MAX,
        ensures
            r is Ok <==> all_vals(vec@),
            r is Err ==> r == Err::<Self, MutedError>(MutedError::NestedRef),
            r matches Ok(m) ==> {
                &&& m.wf()
                &&& m@ == wrapped(unwrap_vals(vec@))
                &&& m.table() == Seq::<Option<(int, int, Seq<T>)>>::empty()
                &&& m.total_len() == vec@.len()
            },
    {
        match unwrap_val_slots(vec) {
            Ok(vals) => Ok(Self::new(vals)),
            Err(e) => Err(e),
        }
    }

    /// Wraps plain values as inline-value slots, ready for `push_vec`.
    pub fn muted_from(other: Vec<T>) -> (r: Vec<Data<T>>)
        ensures
            r@ == other@.map_values(|v: T| Data::Val(v)),
    {
        generic::Muted::muted_from(other)
    }

    /// Grows the tag buffer, if needed, to cover `needed` slots.
    fn ensure_tag_capacity(&mut self, needed: usize)
        requires
            old(self).variant_marker.wf(),
            2 * needed + 16 <= u32::MAX,
        ensures
            final(self).variant_marker.wf(),
            final(self).variant_marker.len >= 2 * needed,
            final(self).variant_marker.len >= old(self).variant_marker.len,
            final(self).inner == old(self).inner,
            forall|p: int|
                0 <= p < old(self).variant_marker.len ==> bit_at(
                    final(self).variant_marker.data@,
                    p,
                ) == bit_at(old(self).variant_marker.data@, p),
    {
        let needed_bits: u64 = 2 * (needed as u64);
        if (self.variant_marker.len as u64) < needed_bits {
            let missing: u64 = needed_bits - self.variant_marker.len as u64;
            let bytes: usize = ((missing + 7) / 8) as usize;
            self.variant_marker.extend_by(bytes);
        }
    }

    /// Splices a pre-wrapped segment to the end: one new slot, one new live
    /// ownership-table entry, and one new tag-buffer code (a segment
    /// reference). Rejects a segment holding an `Rp` element, mutating
    /// nothing.
    pub fn push_vec(&mut self, other: Vec<Data<T>>) -> (r: Result<(), MutedError>)
        requires
            old(self).wf(),
            old(self).total_len() + other@.len() <= usize::MAX,
            2 * (old(self)@.len() + 1) + 16 <= u32::MAX,
        ensures
            final(self).wf(),
            r is Ok <==> all_vals(other@),
            r is Err ==> *final(self) == *old(self) && r == Err::<(), MutedError>(
                MutedError::NestedRef,
            ),
            r is Ok ==> final(self)@ == old(self)@.push(
                SlotView::Seg(old(self).table().len() as int, unwrap_vals(other@)),
            ),
            r is Ok ==> final(self).table() == old(self).table().push(
                Some((old(self)@.len() as int, other@.len() as int, unwrap_vals(other@))),
            ),
            r is Ok ==> final(self).total_len() == old(self).total_len() + other@.len(),
    {
        match unwrap_val_slots(other) {
            Ok(vals) => {
                self.push_vals(vals);
                Ok(())
            },
            Err(e) => Err(e),
        }
    }

    /// Converts plain values and splices them as one segment: the conversion
    /// is linear, the splice bookkeeping constant.
    pub fn push_vec_convert(&mut self, other: Vec<T>)
        requires
            old(self).wf(),
            old(self).total_len() + other@.len() <= usize::MAX,
            2 * (old(self)@.len() + 1) + 16 <= u32::MAX,
        ensures
            final(self).wf(),
            final(self)@ == old(self)@.push(SlotView::Seg(old(self).table().len() as int, other@)),
            final(self).table() == old(self).table().push(
                Some((old(self)@.len() as int, other@.len() as int, other@)),
            ),
            final(self).total_len() == old(self).total_len() + other@.len(),
    {
        self.push_vals(other);
    }

    /// Shared splice: appends the owned segment and records its tag.
    fn push_vals(&mut self, vals: Vec<T>)
        requires
            old(self).wf(),
            old(self).total_len() + vals@.len() <= usize::MAX,
            2 * (old(self)@.len() + 1) + 16 <= u32::MAX,
        ensures
            final(self).wf(),
            final(self)@ == old(self)@.push(SlotView::Seg(old(self).table().len() as int, vals@)),
            final(self).table() == old(self).table().push(
                Some((old(self)@.len() as int, vals@.len() as int, vals@)),
            ),
            final(self).total_len() == old(self).total_len() + vals@.len(),
    {
        let new_slot = self.inner.slot_count();
        self.ensure_tag_capacity(new_slot + 1);
        let ghost m1 = self.variant_marker;
        self.inner.push_vec_convert(vals);
        write_tag(&mut self.variant_marker, new_slot, RP);
        proof {
            assert forall|j: int| 0 <= j && 2 * j + 2 <= old(self).variant_marker.len implies
                marker_code(m1.data@, j) == marker_code(old(self).variant_marker.data@, j) by {
                assert(bit_at(m1.data@, 2 * j) == bit_at(old(self).variant_marker.data@, 2 * j));
                assert(bit_at(m1.data@, 2 * j + 1) == bit_at(
                    old(self).variant_marker.data@,
                    2 * j + 1,
                ));
            }
            assert forall|i: int| 0 <= i < self@.len() implies marker_code(
                self.variant_marker.data@,
                i,
            ) == tag_code(self@[i]) by {
                if i < self@.len() - 1 {
                    assert(self@[i] == old(self)@[i]);
                    assert(marker_code(old(self).variant_marker.data@, i) == tag_code(
                        old(self)@[i],
                    ));
                }
            }
        }
    }

    /// The number of physical slots.
    pub fn slot_count(&self) -> (r: usize)
        ensures
            r == self@.len(),
    {
        self.inner.slot_count()
    }

    /// True when the container has no physical slots.
    pub fn is_empty(&self) -> (r: bool)
        ensures
            r == (self@.len() == 0),
    {
        self.inner.is_empty()
    }

    /// The total logical length of the sequence, dead space included.
    pub fn len(&self) -> (r: usize)
        requires
            self.wf(),
        ensures
            r == self.total_len(),
    {
        self.inner.len()
    }

    /// Reads the value at a logical index, exactly as the plain variant
    /// does.
    pub fn read(&self, index: usize) -> (r: Option<&T>)
        requires
            self.wf(),
        ensures
            match r {
                Some(v) => self.value_at(index as int) == Some(*v),
                None => self.value_at(index as int) is None,
            },
    {
        self.inner.read(index)
    }

    /// Overwrites the value at a logical index. A write never changes a
    /// slot's kind, so the tag buffer needs no update.
    pub fn write(&mut self, index: usize, val: T) -> (r: Option<()>)
        requires
            old(self).wf(),
        ensures
            final(self).wf(),
            final(self).prefix() == old(self).prefix(),
            r is Some <==> old(self).value_at(index as int) is Some,
            r is None ==> *final(self) == *old(self),
            r is Some ==> final(self).value_at(index as int) == Some(val),
    {
        let r = self.inner.write(index, val);
        proof {
            if r is Some {
                let i = old(self).repr().slot_of(index as int);
                assert forall|k: int| 0 <= k < self@.len() implies marker_code(
                    self.variant_marker.data@,
                    k,
                ) == tag_code(self@[k]) by {
                    assert(marker_code(old(self).variant_marker.data@, k) == tag_code(
                        old(self)@[k],
                    ));
                    if k == i {
                        assert(tag_code(self@[k]) == tag_code(old(self)@[k]));
                    } else {
                        assert(self@[k] == old(self)@[k]);
                    }
                }
            }
        }
        r
    }

    /// Removes a spliced segment by slot index or handle, as the plain
    /// variant does, and records the emptied slot in the tag buffer in the
    /// same operation.
    pub fn drop_vec(&mut self, index: Option<usize>, handle: Option<usize>) -> (r: Result<
        (),
        MutedError,
    >)
        requires
            old(self).wf(),
        ensures
            final(self).wf(),
            final(self).prefix() == old(self).prefix(),
            r is Err ==> *final(self) == *old(self),
            match (index, handle) {
                (Some(i), None) => {
                    &&& (r is Ok <==> i < old(self)@.len() && old(self)@[i as int] is Seg)
                    &&& (r is Ok ==> final(self)@ == old(self)@.update(i as int, SlotView::Empty))
                },
                (None, Some(h)) => {
                    &&& (r is Ok <==> h < old(self).table().len() && old(self).table()[h as int]
                        is Some)
                    &&& ((h as int) < old(self).table().len() ==> (old(self).table()[h as int] matches Some(
                        rec,
                    ) ==> final(self)@ == old(self)@.update(rec.0, SlotView::Empty)))
                },
                _ => r == Err::<(), MutedError>(MutedError::NotFound),
            },
            r is Ok ==> final(self).total_len() == old(self).total_len(),
    {
        let slot_opt: Option<usize> = match (index, handle) {
            (Some(i), None) => Some(i),
            (None, Some(h)) => match self.inner.lookup(h) {
                Some(p) => Some(p.0),
                None => None,
            },
            _ => None,
        };
        let r = self.inner.drop_vec(index, handle);
        match r {
            Ok(()) => {
                let i = match slot_opt {
                    Some(i) => i,
                    None => {
                        proof {
                            assert(false);
                        }
                        0
                    },
                };
                write_tag(&mut self.variant_marker, i, EMPTY);
                proof {
                    assert forall|k: int| 0 <= k < self@.len() implies marker_code(
                        self.variant_marker.data@,
                        k,
                    ) == tag_code(self@[k]) by {
                        assert(marker_code(old(self).variant_marker.data@, k) == tag_code(
                            old(self)@[k],
                        ));
                        if k != i {
                            assert(self@[k] == old(self)@[k]);
                        }
                    }
                }
                Ok(())
            },
            Err(e) => Err(e),
        }
    }

    /// Replaces an empty slot with a newly owned segment, as the plain
    /// variant's `insert_vec` does, and records the slot's new tag in the
    /// same operation.
    pub fn insert_vec(&mut self, index: usize, other: Vec<T>) -> (r: Result<(), MutedError>)
        requires
            old(self).wf(),
            old(self).total_len() + other@.len() <= usize::MAX,
        ensures
            final(self).wf(),
            r is Err ==> *final(self) == *old(self),
            r is Ok <==> index < old(self)@.len() && old(self)@[index as int] is Empty,
            r is Ok ==> final(self)@ == old(self)@.update(
                index as int,
                SlotView::Seg(old(self).table().len() as int, other@),
            ),
            r is Ok ==> final(self).table() == old(self).table().push(
                Some((index as int, other@.len() as int, other@)),
            ),
    {
        let r = self.inner.insert_vec(index, other);
        match r {
            Ok(()) => {
                proof {
                    assert(2 * index + 2 <= self.variant_marker.len);
                }
                write_tag(&mut self.variant_marker, index, RP);
                proof {
                    assert forall|k: int| 0 <= k < self@.len() implies marker_code(
                        self.variant_marker.data@,
                        k,
                    ) == tag_code(self@[k]) by {
                        assert(marker_code(old(self).variant_marker.data@, k) == tag_code(
                            old(self)@[k],
                        ));
                        if k != index {
                            assert(self@[k] == old(self)@[k]);
                        }
                    }
                }
                Ok(())
            },
            Err(e) => Err(e),
        }
    }
}

impl<T> View for Muted<T> {
    type V = Seq<SlotView<T>>;

    /// The abstract slot array.
    open spec fn view(&self) -> Seq<SlotView<T>> {
        self.repr()@
    }
}

impl<T: Copy> Muted<T> {
    /// Renders the flattened ordered view of the logical sequence.
    pub fn flatten(&self) -> (r: Vec<T>)
        requires
            self.wf(),
        ensures
            r@ == flat_of(self@),
    {
        self.inner.flatten()
    }
}

} // verus!

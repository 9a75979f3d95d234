//! The segmented sequence container.
//!
//! A `Muted<T>` is a physical array of slots, each holding one inline value,
//! a reference to an owned segment, or nothing. A prefix-sum table maps a
//! logical index to a physical slot by binary search, and an ownership table
//! keyed by stable integer handles owns every spliced-in segment.

use vstd::prelude::*;

use crate::errors::MutedError;

verus! {

/// One physical slot: an inline value, or a segment reference.
///
/// `Rp(Some(h))` references the owned segment with handle `h` in the
/// ownership table; `Rp(None)` is an empty slot left behind by a removal.
pub enum Data<T> {
    Val(T),
    Rp(Option<usize>),
}

/// One ownership-table record: the owned segment, the physical slot that
/// references it, and its logical length.
struct SegEntry<T> {
    seg: Vec<T>,
    slot_index: usize,
    len: usize,
}

/// The abstract content of one physical slot, as the contracts see it.
///
/// `Seg(h, s)` carries the segment's handle `h` and its contents `s`.
pub enum SlotView<T> {
    Empty,
    Val(T),
    Seg(int, Seq<T>),
}

/// The segmented sequence container.
pub struct Muted<T> {
    data: Vec<Data<T>>,
    r_hold: Vec<Option<SegEntry<T>>>,
    prefix_vec: Vec<usize>,
}

/// The prefix table is non-negative and non-decreasing.
pub open spec fn prefix_sorted(p: Seq<int>) -> bool {
    &&& forall|i: int| 0 <= i < p.len() ==> #[trigger] p[i] >= 0
    &&& forall|i: int, j: int| 0 <= i <= j < p.len() ==> #[trigger] p[i] <= #[trigger] p[j]
}

/// The first logical index covered by slot `i` under prefix table `p`.
pub open spec fn slot_start(p: Seq<int>, i: int) -> int {
    if i == 0 {
        0
    } else {
        p[i - 1]
    }
}

/// Slot `i` covers logical index `idx` under prefix table `p`.
pub open spec fn seq_is_slot(p: Seq<int>, i: int, idx: int) -> bool {
    &&& 0 <= i < p.len()
    &&& slot_start(p, i) <= idx < p[i]
}

/// The slot covering logical index `idx` under prefix table `p` (meaningful
/// when one exists).
pub open spec fn seq_slot_of(p: Seq<int>, idx: int) -> int {
    choose|i: int| seq_is_slot(p, i, idx)
}

/// A logical index is covered by at most one slot.
pub proof fn lemma_slot_unique(p: Seq<int>, i: int, j: int, idx: int)
    requires
        prefix_sorted(p),
        seq_is_slot(p, i, idx),
        seq_is_slot(p, j, idx),
    ensures
        i == j,
{
    if i < j {
        assert(p[i] <= p[j - 1]);
    }
    if j < i {
        assert(p[j] <= p[i - 1]);
    }
}

/// Every logical index below the final prefix total is covered by some slot.
pub proof fn lemma_slot_exists(p: Seq<int>, idx: int)
    requires
        prefix_sorted(p),
        p.len() > 0,
        0 <= idx < p.last(),
    ensures
        exists|i: int| seq_is_slot(p, i, idx),
    decreases p.len(),
{
    let n = p.len() as int;
    if slot_start(p, n - 1) <= idx {
        assert(seq_is_slot(p, n - 1, idx));
    } else {
        let q = p.drop_last();
        assert forall|a: int, b: int| 0 <= a <= b < q.len() implies #[trigger] q[a]
            <= #[trigger] q[b] by {
            assert(p[a] <= p[b]);
        }
        assert(prefix_sorted(q));
        assert(q.last() == p[n - 2]);
        lemma_slot_exists(q, idx);
        let i = choose|i: int| seq_is_slot(q, i, idx);
        assert(seq_is_slot(p, i, idx));
    }
}

/// No slot covers an index outside `[0, p.last())`.
pub proof fn lemma_no_slot_outside(p: Seq<int>, idx: int)
    requires
        prefix_sorted(p),
        p.len() == 0 || idx >= p.last() || idx < 0,
    ensures
        !exists|i: int| seq_is_slot(p, i, idx),
{
    if exists|i: int| seq_is_slot(p, i, idx) {
        let i = choose|i: int| seq_is_slot(p, i, idx);
        assert(p[i] <= p[p.len() - 1]);
        if i > 0 {
            assert(p[i - 1] >= 0);
        }
    }
}

/// The number of live entries in an ownership table.
pub open spec fn live_count<T>(t: Seq<Option<(int, int, Seq<T>)>>) -> nat
    decreases t.len(),
{
    if t.len() == 0 {
        0
    } else {
        live_count(t.drop_last()) + if t.last() is Some {
            1nat
        } else {
            0nat
        }
    }
}

/// Appending an entry to an ownership table raises the live count by one
/// exactly when the entry is live.
pub proof fn lemma_live_count_push<T>(t: Seq<Option<(int, int, Seq<T>)>>, e: Option<(int, int, Seq<T>)>)
    ensures
        live_count(t.push(e)) == live_count(t) + if e is Some {
            1nat
        } else {
            0nat
        },
{
    assert(t.push(e).drop_last() =~= t);
}

/// Clearing one entry of an ownership table lowers the live count by one
/// exactly when the entry was live.
pub proof fn lemma_live_count_clear<T>(t: Seq<Option<(int, int, Seq<T>)>>, h: int)
    requires
        0 <= h < t.len(),
    ensures
        live_count(t.update(h, None)) + if t[h] is Some {
            1nat
        } else {
            0nat
        } == live_count(t),
    decreases t.len(),
{
    let u = t.update(h, None);
    if h == t.len() - 1 {
        assert(u.drop_last() =~= t.drop_last());
    } else {
        assert(u.drop_last() =~= t.drop_last().update(h, None));
        lemma_live_count_clear(t.drop_last(), h);
    }
}

/// The inline values of a slot sequence, each wrapped as its own `Val` slot.
pub open spec fn wrapped<T>(s: Seq<T>) -> Seq<SlotView<T>> {
    s.map_values(|v: T| SlotView::Val(v))
}

/// Strips the `Val` wrappers from a sequence of slots (meaningful when every
/// element is a `Val`).
pub open spec fn unwrap_vals<T>(s: Seq<Data<T>>) -> Seq<T> {
    s.map_values(
        |d: Data<T>|
            match d {
                Data::Val(v) => v,
                Data::Rp(_) => arbitrary(),
            },
    )
}

/// Every element of a pushed segment is an inline value; segment references
/// inside a segment would be a second level of indirection.
pub open spec fn all_vals<T>(s: Seq<Data<T>>) -> bool {
    forall|i: int| 0 <= i < s.len() ==> #[trigger] s[i] is Val
}

impl<T> View for Muted<T> {
    type V = Seq<SlotView<T>>;

    /// The abstract slot array.
    closed spec fn view(&self) -> Seq<SlotView<T>> {
        Seq::new(
            self.data@.len(),
            |i: int|
                match self.data@[i] {
                    Data::Val(v) => SlotView::Val(v),
                    Data::Rp(None) => SlotView::Empty,
                    Data::Rp(Some(h)) => SlotView::Seg(
                        h as int,
                        if h < self.r_hold@.len() && self.r_hold@[h as int] is Some {
                            self.r_hold@[h as int].unwrap().seg@
                        } else {
                            Seq::empty()
                        },
                    ),
                },
        )
    }
}

impl<T> Muted<T> {
    /// The abstract ownership table: entry `h` is the record of the live
    /// segment with handle `h` — its slot index, logical length and contents
    /// — or `None` after that segment was removed.
    pub closed spec fn table(&self) -> Seq<Option<(int, int, Seq<T>)>> {
        self.r_hold@.map_values(
            |e: Option<SegEntry<T>>|
                match e {
                    Some(en) => Some((en.slot_index as int, en.len as int, en.seg@)),
                    None => None,
                },
        )
    }

    /// The abstract prefix table: entry `i` is the cumulative logical length
    /// through slot `i`.
    pub closed spec fn prefix(&self) -> Seq<int> {
        self.prefix_vec@.map_values(|v: usize| v as int)
    }

    /// The total logical length: the last cumulative total, or 0 with no
    /// slots.
    pub open spec fn total_len(&self) -> int {
        if self.prefix().len() == 0 {
            0
        } else {
            self.prefix().last()
        }
    }

    /// The first logical index covered by slot `i`.
    pub open spec fn start_of(&self, i: int) -> int {
        slot_start(self.prefix(), i)
    }

    /// The slot covering logical index `idx` (meaningful when one exists).
    pub open spec fn slot_of(&self, idx: int) -> int {
        seq_slot_of(self.prefix(), idx)
    }

    /// The value the container holds at logical index `idx`: the inline value
    /// of a `Val` slot, or the element at the intra-slot offset of a live
    /// segment. `None` past the total length, at an empty slot, and at an
    /// offset past a segment's own end.
    pub open spec fn value_at(&self, idx: int) -> Option<T> {
        if exists|i: int| seq_is_slot(self.prefix(), i, idx) {
            let i = self.slot_of(idx);
            if 0 <= i < self@.len() {
                match self@[i] {
                    SlotView::Val(v) => Some(v),
                    SlotView::Empty => None,
                    SlotView::Seg(_, s) => {
                        let off = idx - self.start_of(i);
                        if off < s.len() {
                            Some(s[off])
                        } else {
                            None
                        }
                    },
                }
            } else {
                None
            }
        } else {
            None
        }
    }

    /// The container's invariant: prefix table and slot array have one entry
    /// per slot, the prefix table is non-decreasing, and slots and
    /// ownership-table entries reference each other exactly.
    pub open spec fn wf(&self) -> bool {
        &&& self.prefix().len() == self@.len()
        &&& prefix_sorted(self.prefix())
        &&& forall|i: int|
            0 <= i < self@.len() ==> (match #[trigger] self@[i] {
                SlotView::Seg(h, s) => {
                    &&& 0 <= h < self.table().len()
                    &&& self.table()[h] == Some((i, s.len() as int, s))
                },
                _ => true,
            })
        &&& forall|h: int|
            0 <= h < self.table().len() ==> (match #[trigger] self.table()[h] {
                Some(rec) => {
                    &&& 0 <= rec.0 < self@.len()
                    &&& self@[rec.0] == SlotView::Seg(h, rec.2)
                    &&& rec.1 == rec.2.len()
                },
                None => true,
            })
    }

    /// In a well-formed container, `slot_of` resolves every logical index
    /// below the total length to the one slot covering it.
    pub proof fn lemma_slot_of(&self, idx: int)
        requires
            self.wf(),
            0 <= idx < self.total_len(),
        ensures
            seq_is_slot(self.prefix(), self.slot_of(idx), idx),
            forall|j: int| seq_is_slot(self.prefix(), j, idx) ==> j == self.slot_of(idx),
    {
        lemma_slot_exists(self.prefix(), idx);
        let i = self.slot_of(idx);
        assert(seq_is_slot(self.prefix(), i, idx));
        assert forall|j: int| seq_is_slot(self.prefix(), j, idx) implies j == i by {
            lemma_slot_unique(self.prefix(), j, i, idx);
        }
    }

    /// In a freshly constructed container, every logical index reads the
    /// value it was constructed from.
    pub proof fn lemma_fresh_value_at(&self, s: Seq<T>)
        requires
            self.wf(),
            self@ == wrapped(s),
            self.prefix() == Seq::new(s.len(), |i: int| i + 1),
        ensures
            forall|i: int| 0 <= i < s.len() ==> self.value_at(i) == Some(s[i]),
    {
        assert forall|i: int| 0 <= i < s.len() implies self.value_at(i) == Some(s[i]) by {
            assert(seq_is_slot(self.prefix(), i, i));
            let k = seq_slot_of(self.prefix(), i);
            assert(seq_is_slot(self.prefix(), k, i));
            lemma_slot_unique(self.prefix(), k, i, i);
            assert(self@[i] == SlotView::Val(s[i]));
        }
    }

    /// Constructs a container from an ordered collection: each element
    /// becomes its own inline-value slot, and the prefix table counts
    /// `1, 2, 3, …`.
    pub fn new(vec: Vec<T>) -> (r: Self)
        ensures
            r.wf(),
            r@ == wrapped(vec@),
            r.table() == Seq::<Option<(int, int, Seq<T>)>>::empty(),
            r.prefix() == Seq::new(vec@.len(), |i: int| i + 1),
            r.total_len() == vec@.len(),
    {
        let ghost orig = vec@;
        let n = vec.len();
        let mut data: Vec<Data<T>> = Vec::new();
        for d in it: vec.into_iter()
            invariant
                it.seq() == orig,
                data@.len() == it.index(),
                forall|j: int| 0 <= j < data@.len() ==> data@[j] == Data::Val(orig[j]),
        {
            data.push(Data::Val(d));
        }
        let mut prefix_vec: Vec<usize> = Vec::new();
        for i in pit: 0..n
            invariant
                prefix_vec@.len() == i,
                forall|j: int| 0 <= j < i ==> #[trigger] prefix_vec@[j] == j + 1,
        {
            prefix_vec.push(i + 1);
        }
        let r = Muted { data, r_hold: Vec::new(), prefix_vec };
        proof {
            assert(r@ =~= wrapped(orig));
            assert(r.table() =~= Seq::<Option<(int, int, Seq<T>)>>::empty());
            assert(r.prefix() =~= Seq::new(orig.len(), |i: int| i + 1));
            if n > 0 {
                assert(r.prefix().last() == n);
            }
        }
        r
    }

    /// Wraps plain values as inline-value slots, ready for `push_vec`.
    pub fn muted_from(other: Vec<T>) -> (r: Vec<Data<T>>)
        ensures
            r@ == other@.map_values(|v: T| Data::Val(v)),
    {
        let ghost orig = other@;
        let mut new: Vec<Data<T>> = Vec::new();
        for d in it: other.into_iter()
            invariant
                it.seq() == orig,
                new@.len() == it.index(),
                forall|j: int| 0 <= j < new@.len() ==> new@[j] == Data::Val(orig[j]),
        {
            new.push(Data::Val(d));
        }
        proof {
            assert(new@ =~= orig.map_values(|v: T| Data::Val(v)));
        }
        new
    }

    /// The number of physical slots.
    pub fn slot_count(&self) -> (r: usize)
        ensures
            r == self@.len(),
    {
        self.data.len()
    }

    /// True when the container has no physical slots.
    pub fn is_empty(&self) -> (r: bool)
        ensures
            r == (self@.len() == 0),
    {
        self.data.len() == 0
    }

    /// Resolves a segment handle to its ownership record: the physical slot
    /// referencing it and its logical length. `None` for an unknown handle
    /// and for one whose segment was removed.
    pub fn lookup(&self, handle: usize) -> (r: Option<(usize, usize)>)
        requires
            self.wf(),
        ensures
            match r {
                Some(p) => {
                    &&& handle < self.table().len()
                    &&& (self.table()[handle as int] matches Some(rec) && rec.0 == p.0 && rec.1
                        == p.1)
                },
                None => !(handle < self.table().len() && self.table()[handle as int] is Some),
            },
    {
        if handle >= self.r_hold.len() {
            return None;
        }
        match &self.r_hold[handle] {
            Some(e) => Some((e.slot_index, e.len)),
            None => None,
        }
    }

    /// The total logical length of the sequence, dead space included.
    pub fn len(&self) -> (r: usize)
        requires
            self.wf(),
        ensures
            r == self.total_len(),
    {
        if self.prefix_vec.len() == 0 {
            0
        } else {
            self.prefix_vec[self.prefix_vec.len() - 1]
        }
    }
}

impl<T> Muted<T> {
    /// Reads the value at a logical index: the inline value of a `Val` slot,
    /// or the element at the intra-slot offset of a live segment.
    ///
    /// Returns `None` — rather than failing fatally — for an index at or past
    /// the total length, for an index falling in an empty slot, and for an
    /// offset past the owned segment's own end.
    pub fn read(&self, index: usize) -> (r: Option<&T>)
        requires
            self.wf(),
        ensures
            match r {
                Some(v) => self.value_at(index as int) == Some(*v),
                None => self.value_at(index as int) is None,
            },
    {
        if self.prefix_vec.len() == 0 {
            proof {
                lemma_no_slot_outside(self.prefix(), index as int);
            }
            return None;
        }
        let total = self.prefix_vec[self.prefix_vec.len() - 1];
        if index >= total {
            proof {
                lemma_no_slot_outside(self.prefix(), index as int);
            }
            return None;
        }
        let i = find_slot(&self.prefix_vec, index);
        proof {
            self.lemma_slot_of(index as int);
        }
        match &self.data[i] {
            Data::Val(v) => Some(v),
            Data::Rp(None) => None,
            Data::Rp(Some(h)) => {
                let h = *h;
                let start: usize = if i == 0 {
                    0
                } else {
                    self.prefix_vec[i - 1]
                };
                let off = index - start;
                proof {
                    assert(self@[i as int] matches SlotView::Seg(hh, s) && hh == h as int);
                }
                match &self.r_hold[h] {
                    Some(e) => {
                        if off < e.seg.len() {
                            Some(&e.seg[off])
                        } else {
                            None
                        }
                    },
                    None => {
                        proof {
                            assert(self.table()[h as int] is Some);
                            assert(false);
                        }
                        None
                    },
                }
            },
        }
    }

    /// Overwrites the value at a logical index, resolving the index exactly
    /// as `read` does. Legal only where `read` would find a value: against a
    /// `Val` slot, or an element inside a live segment. Fails — returning
    /// `None`, with nothing mutated — on an out-of-bounds index, an empty
    /// slot's range, and an offset past the segment's end.
    pub fn write(&mut self, index: usize, val: T) -> (r: Option<()>)
        requires
            old(self).wf(),
        ensures
            final(self).wf(),
            final(self).prefix() == old(self).prefix(),
            r is Some <==> old(self).value_at(index as int) is Some,
            r is None ==> *final(self) == *old(self),
            r is Some ==> final(self).value_at(index as int) == Some(val),
            r is Some ==> ({
                let i = old(self).slot_of(index as int);
                let off = index - old(self).start_of(i);
                match old(self)@[i] {
                    SlotView::Val(_) => final(self)@ == old(self)@.update(i, SlotView::Val(val))
                        && final(self).table() == old(self).table(),
                    SlotView::Seg(h, s) => final(self)@ == old(self)@.update(
                        i,
                        SlotView::Seg(h, s.update(off, val)),
                    ) && final(self).table() == old(self).table().update(
                        h,
                        Some((i, s.len() as int, s.update(off, val))),
                    ),
                    SlotView::Empty => false,
                }
            }),
            r is Some ==> forall|j: int|
                !seq_is_slot(old(self).prefix(), old(self).slot_of(index as int), j)
                    ==> final(self).value_at(j) == old(self).value_at(j),
    {
        if self.prefix_vec.len() == 0 {
            proof {
                lemma_no_slot_outside(self.prefix(), index as int);
            }
            return None;
        }
        let total = self.prefix_vec[self.prefix_vec.len() - 1];
        if index >= total {
            proof {
                lemma_no_slot_outside(self.prefix(), index as int);
            }
            return None;
        }
        let i = find_slot(&self.prefix_vec, index);
        proof {
            self.lemma_slot_of(index as int);
        }
        let start: usize = if i == 0 {
            0
        } else {
            self.prefix_vec[i - 1]
        };
        let off = index - start;
        let tag: Option<Option<usize>> = match &self.data[i] {
            Data::Val(_) => None,
            Data::Rp(o) => Some(*o),
        };
        match tag {
            None => {
                self.data[i] = Data::Val(val);
                proof {
                    assert(self@ =~= old(self)@.update(i as int, SlotView::Val(val)));
                    self.lemma_write_frame(*old(self), i as int, index as int, val);
                }
                Some(())
            },
            Some(None) => None,
            Some(Some(h)) => {
                proof {
                    assert(old(self)@[i as int] matches SlotView::Seg(hh, s) && hh == h as int);
                    assert(old(self).table()[h as int] is Some);
                }
                let seg_len: usize = match &self.r_hold[h] {
                    Some(e) => e.seg.len(),
                    None => {
                        proof {
                            assert(false);
                        }
                        0
                    },
                };
                if off >= seg_len {
                    return None;
                }
                if let Some(e) = &mut self.r_hold[h] {
                    {
                        e.seg[off] = val;
                        proof {
                            let s = old(self)@[i as int]->Seg_1;
                            assert(self.table() =~= old(self).table().update(
                                h as int,
                                Some((i as int, s.len() as int, s.update(off as int, val))),
                            ));
                            assert forall|j: int| 0 <= j < self@.len() implies self@[j] == old(
                                self,
                            )@.update(i as int, SlotView::Seg(h as int, s.update(off as int, val)))[j] by {
                                if j != i {
                                    match old(self)@[j] {
                                        SlotView::Seg(h2, s2) => {
                                            assert(old(self).table()[h2] == Some(
                                                (j, s2.len() as int, s2),
                                            ));
                                        },
                                        _ => {},
                                    }
                                }
                            }
                            assert(self@ =~= old(self)@.update(
                                i as int,
                                SlotView::Seg(h as int, s.update(off as int, val)),
                            ));
                            self.lemma_write_frame(*old(self), i as int, index as int, val);
                        }
                        Some(())
                    }
                } else {
                    proof {
                        assert(false);
                    }
                    None
                }
            },
        }
    }

    /// After a write resolved to slot `i`, the container stays well formed,
    /// the written index reads back the new value, and every index outside
    /// slot `i` is unchanged.
    proof fn lemma_write_frame(&self, pre: Muted<T>, i: int, idx: int, val: T)
        requires
            pre.wf(),
            seq_is_slot(pre.prefix(), i, idx),
            pre.slot_of(idx) == i,
            self.prefix() == pre.prefix(),
            self.table().len() == pre.table().len(),
            match pre@[i] {
                SlotView::Val(_) => self@ == pre@.update(i, SlotView::Val(val)) && self.table()
                    == pre.table(),
                SlotView::Seg(h, s) => {
                    &&& 0 <= idx - slot_start(pre.prefix(), i) < s.len()
                    &&& self@ == pre@.update(
                        i,
                        SlotView::Seg(h, s.update(idx - slot_start(pre.prefix(), i), val)),
                    )
                    &&& self.table() == pre.table().update(
                        h,
                        Some((
                            i,
                            s.len() as int,
                            s.update(idx - slot_start(pre.prefix(), i), val),
                        )),
                    )
                },
                SlotView::Empty => false,
            },
        ensures
            self.wf(),
            self.value_at(idx) == Some(val),
            forall|j: int|
                !seq_is_slot(pre.prefix(), i, j) ==> self.value_at(j) == pre.value_at(j),
    {
        assert forall|k: int| 0 <= k < self@.len() implies (match #[trigger] self@[k] {
            SlotView::Seg(h2, s2) => {
                &&& 0 <= h2 < self.table().len()
                &&& self.table()[h2] == Some((k, s2.len() as int, s2))
            },
            _ => true,
        }) by {
            match pre@[k] {
                SlotView::Seg(h2, s2) => {
                    assert(pre.table()[h2] == Some((k, s2.len() as int, s2)));
                },
                _ => {},
            }
        }
        assert forall|h2: int| 0 <= h2 < self.table().len() implies (match #[trigger] self.table()[h2] {
            Some(rec) => {
                &&& 0 <= rec.0 < self@.len()
                &&& self@[rec.0] == SlotView::Seg(h2, rec.2)
                &&& rec.1 == rec.2.len()
            },
            None => true,
        }) by {
            match pre.table()[h2] {
                Some(rec) => {
                    assert(pre@[rec.0] == SlotView::Seg(h2, rec.2));
                },
                None => {},
            }
        }
        assert(self.value_at(idx) == Some(val));
        assert forall|j: int| !seq_is_slot(pre.prefix(), i, j) implies self.value_at(j)
            == pre.value_at(j) by {
            if exists|k: int| seq_is_slot(pre.prefix(), k, j) {
                let k = seq_slot_of(pre.prefix(), j);
                assert(seq_is_slot(pre.prefix(), k, j));
                assert(k != i);
                assert(self@[k] == pre@[k]);
            }
        }
    }
}

/// Strips the `Val` wrappers from a pre-wrapped collection, rejecting any
/// `Rp` element: segment contents must be flat values, never references to
/// further segments.
pub fn unwrap_val_slots<T>(other: Vec<Data<T>>) -> (r: Result<Vec<T>, MutedError>)
    ensures
        r is Ok <==> all_vals(other@),
        r is Err ==> r == Err::<Vec<T>, MutedError>(MutedError::NestedRef),
        r matches Ok(seg) ==> seg@ == unwrap_vals(other@),
{
    let ghost orig = other@;
    let mut k: usize = 0;
    while k < other.len()
        invariant
            0 <= k <= orig.len(),
            other@ == orig,
            forall|j: int| 0 <= j < k ==> #[trigger] orig[j] is Val,
        decreases orig.len() - k,
    {
        match &other[k] {
            Data::Rp(_) => {
                return Err(MutedError::NestedRef);
            },
            Data::Val(_) => {},
        }
        k += 1;
    }
    let mut seg: Vec<T> = Vec::new();
    for d in it: other.into_iter()
        invariant
            it.seq() == orig,
            all_vals(orig),
            seg@.len() == it.index(),
            forall|j: int| 0 <= j < seg@.len() ==> #[trigger] seg@[j] == unwrap_vals(orig)[j],
    {
        match d {
            Data::Val(v) => seg.push(v),
            Data::Rp(_) => {
                proof {
                    assert(false);
                }
            },
        }
    }
    proof {
        assert(seg@ =~= unwrap_vals(orig));
    }
    Ok(seg)
}

impl<T> Muted<T> {
    /// Splices a pre-wrapped segment to the end: one new physical slot, one
    /// new live ownership-table entry, one new cumulative total — whatever
    /// the segment's length.
    ///
    /// Rejects a segment holding a `Rp` element: segment contents must be
    /// flat values, one level of indirection only. Nothing mutates on
    /// rejection.
    pub fn push_vec(&mut self, other: Vec<Data<T>>) -> (r: Result<(), MutedError>)
        requires
            old(self).wf(),
            old(self).total_len() + other@.len() <= usize::MAX,
        ensures
            final(self).wf(),
            r is Ok <==> all_vals(other@),
            r is Err ==> *final(self) == *old(self) && r == Err::<(), MutedError>(
                MutedError::NestedRef,
            ),
            r is Ok ==> final(self)@ == old(self)@.push(
                SlotView::Seg(old(self).table().len() as int, unwrap_vals(other@)),
            ),
            r is Ok ==> final(self).table() == old(self).table().push(
                Some((old(self)@.len() as int, other@.len() as int, unwrap_vals(other@))),
            ),
            r is Ok ==> final(self).prefix() == old(self).prefix().push(
                old(self).total_len() + other@.len(),
            ),
            r is Ok ==> final(self).total_len() == old(self).total_len() + other@.len(),
            r is Ok ==> live_count(final(self).table()) == live_count(old(self).table()) + 1,
    {
        match unwrap_val_slots(other) {
            Ok(seg) => {
                self.push_segment(seg);
                Ok(())
            },
            Err(e) => Err(e),
        }
    }

    /// Converts plain values into the per-element representation and splices
    /// them as one segment; the conversion is linear, the splice bookkeeping
    /// constant.
    pub fn push_vec_convert(&mut self, other: Vec<T>)
        requires
            old(self).wf(),
            old(self).total_len() + other@.len() <= usize::MAX,
        ensures
            final(self).wf(),
            final(self)@ == old(self)@.push(SlotView::Seg(old(self).table().len() as int, other@)),
            final(self).table() == old(self).table().push(
                Some((old(self)@.len() as int, other@.len() as int, other@)),
            ),
            final(self).prefix() == old(self).prefix().push(
                old(self).total_len() + other@.len(),
            ),
            final(self).total_len() == old(self).total_len() + other@.len(),
            live_count(final(self).table()) == live_count(old(self).table()) + 1,
    {
        self.push_segment(other);
    }

    /// Registers a new owned segment, appends its `Rp` slot, and extends the
    /// prefix table by the segment's length.
    fn push_segment(&mut self, seg: Vec<T>)
        requires
            old(self).wf(),
            old(self).total_len() + seg@.len() <= usize::MAX,
        ensures
            final(self).wf(),
            final(self)@ == old(self)@.push(SlotView::Seg(old(self).table().len() as int, seg@)),
            final(self).table() == old(self).table().push(
                Some((old(self)@.len() as int, seg@.len() as int, seg@)),
            ),
            final(self).prefix() == old(self).prefix().push(old(self).total_len() + seg@.len()),
            final(self).total_len() == old(self).total_len() + seg@.len(),
            live_count(final(self).table()) == live_count(old(self).table()) + 1,
    {
        let n = seg.len();
        let h = self.r_hold.len();
        let slot = self.data.len();
        let last: usize = if self.prefix_vec.len() == 0 {
            0
        } else {
            self.prefix_vec[self.prefix_vec.len() - 1]
        };
        self.r_hold.push(Some(SegEntry { seg, slot_index: slot, len: n }));
        self.data.push(Data::Rp(Some(h)));
        self.prefix_vec.push(last + n);
        proof {
            let entry = Some((slot as int, n as int, self.r_hold@[h as int].unwrap().seg@));
            assert(self.table() =~= old(self).table().push(entry));
            lemma_live_count_push(old(self).table(), entry);
            assert(self.prefix() =~= old(self).prefix().push(
                old(self).total_len() + n as int,
            ));
            assert forall|j: int| 0 <= j < self@.len() implies self@[j] == old(self)@.push(
                SlotView::Seg(h as int, entry.unwrap().2),
            )[j] by {
                if j < slot {
                    match old(self)@[j] {
                        SlotView::Seg(h2, s2) => {
                            assert(old(self).table()[h2] == Some((j, s2.len() as int, s2)));
                        },
                        _ => {},
                    }
                }
            }
            assert(self@ =~= old(self)@.push(SlotView::Seg(h as int, entry.unwrap().2)));
            assert forall|a: int, b: int|
                0 <= a <= b < self.prefix().len() implies #[trigger] self.prefix()[a]
                <= #[trigger] self.prefix()[b] by {
                if b < self.prefix().len() - 1 {
                    assert(old(self).prefix()[a] <= old(self).prefix()[b]);
                } else if a < b {
                    assert(old(self).prefix()[a] <= old(self).prefix()[old(self).prefix().len()
                        - 1]);
                }
            }
            assert forall|k: int| 0 <= k < self@.len() implies (match #[trigger] self@[k] {
                SlotView::Seg(h2, s2) => {
                    &&& 0 <= h2 < self.table().len()
                    &&& self.table()[h2] == Some((k, s2.len() as int, s2))
                },
                _ => true,
            }) by {
                if k < slot {
                    match old(self)@[k] {
                        SlotView::Seg(h2, s2) => {
                            assert(old(self).table()[h2] == Some((k, s2.len() as int, s2)));
                        },
                        _ => {},
                    }
                }
            }
            assert forall|h2: int|
                0 <= h2 < self.table().len() implies (match #[trigger] self.table()[h2] {
                Some(rec) => {
                    &&& 0 <= rec.0 < self@.len()
                    &&& self@[rec.0] == SlotView::Seg(h2, rec.2)
                    &&& rec.1 == rec.2.len()
                },
                None => true,
            }) by {
                if h2 < self.table().len() - 1 {
                    match old(self).table()[h2] {
                        Some(rec) => {
                            assert(old(self)@[rec.0] == SlotView::Seg(h2, rec.2));
                        },
                        None => {},
                    }
                }
            }
        }
    }

    /// Clears slot `i` and releases the ownership-table entry `h` that it
    /// references, in one step: no state exists where one half is done.
    fn remove_pair(&mut self, i: usize, h: usize)
        requires
            old(self).wf(),
            i < old(self)@.len(),
            old(self)@[i as int] matches SlotView::Seg(hh, _) && hh == h as int,
        ensures
            final(self).wf(),
            final(self).prefix() == old(self).prefix(),
            final(self)@ == old(self)@.update(i as int, SlotView::Empty),
            final(self).table() == old(self).table().update(h as int, None),
            live_count(final(self).table()) + 1 == live_count(old(self).table()),
    {
        proof {
            let s = old(self)@[i as int]->Seg_1;
            assert(old(self).table()[h as int] == Some((i as int, s.len() as int, s)));
        }
        self.data[i] = Data::Rp(None);
        self.r_hold[h] = None;
        proof {
            assert(self.table() =~= old(self).table().update(h as int, None));
            lemma_live_count_clear(old(self).table(), h as int);
            assert forall|j: int| 0 <= j < self@.len() implies self@[j] == old(self)@.update(
                i as int,
                SlotView::Empty,
            )[j] by {
                if j != i {
                    match old(self)@[j] {
                        SlotView::Seg(h2, s2) => {
                            assert(old(self).table()[h2] == Some((j, s2.len() as int, s2)));
                        },
                        _ => {},
                    }
                }
            }
            assert(self@ =~= old(self)@.update(i as int, SlotView::Empty));
            assert forall|k: int| 0 <= k < self@.len() implies (match #[trigger] self@[k] {
                SlotView::Seg(h2, s2) => {
                    &&& 0 <= h2 < self.table().len()
                    &&& self.table()[h2] == Some((k, s2.len() as int, s2))
                },
                _ => true,
            }) by {
                if k != i {
                    match old(self)@[k] {
                        SlotView::Seg(h2, s2) => {
                            assert(old(self).table()[h2] == Some((k, s2.len() as int, s2)));
                        },
                        _ => {},
                    }
                }
            }
            assert forall|h2: int|
                0 <= h2 < self.table().len() implies (match #[trigger] self.table()[h2] {
                Some(rec) => {
                    &&& 0 <= rec.0 < self@.len()
                    &&& self@[rec.0] == SlotView::Seg(h2, rec.2)
                    &&& rec.1 == rec.2.len()
                },
                None => true,
            }) by {
                if h2 != h {
                    match old(self).table()[h2] {
                        Some(rec) => {
                            assert(old(self)@[rec.0] == SlotView::Seg(h2, rec.2));
                        },
                        None => {},
                    }
                }
            }
        }
    }

    /// Removes a spliced segment, selected by its physical slot index or by
    /// its ownership-table handle (exactly one of the two).
    ///
    /// On success the slot reads as empty, the ownership-table entry is gone
    /// and the owned segment is released, atomically; the prefix table keeps
    /// the removed segment's contributed length as dead space. Fails with
    /// `OutOfBounds` for a slot index past the slot array, `SlotState` for a
    /// slot that is not a live segment reference, and `NotFound` for an
    /// unknown handle or an invalid selector combination; nothing mutates on
    /// failure.
    pub fn drop_vec(&mut self, index: Option<usize>, handle: Option<usize>) -> (r: Result<
        (),
        MutedError,
    >)
        requires
            old(self).wf(),
        ensures
            final(self).wf(),
            final(self).prefix() == old(self).prefix(),
            r is Err ==> *final(self) == *old(self),
            match (index, handle) {
                (Some(i), None) => {
                    &&& (r is Ok <==> i < old(self)@.len() && old(self)@[i as int] is Seg)
                    &&& (i >= old(self)@.len() ==> r == Err::<(), MutedError>(
                        MutedError::OutOfBounds,
                    ))
                    &&& (i < old(self)@.len() && !(old(self)@[i as int] is Seg) ==> r == Err::<
                        (),
                        MutedError,
                    >(MutedError::SlotState))
                    &&& ((i as int) < old(self)@.len() ==> (old(self)@[i as int] matches SlotView::Seg(h, _)
                        ==> {
                        &&& final(self)@ == old(self)@.update(i as int, SlotView::Empty)
                        &&& final(self).table() == old(self).table().update(h, None)
                    }))
                },
                (None, Some(h)) => {
                    &&& (r is Ok <==> h < old(self).table().len() && old(self).table()[h as int]
                        is Some)
                    &&& (!(h < old(self).table().len() && old(self).table()[h as int] is Some)
                        ==> r == Err::<(), MutedError>(MutedError::NotFound))
                    &&& ((h as int) < old(self).table().len() ==> (old(self).table()[h as int] matches Some(
                        rec,
                    ) ==> {
                        &&& final(self)@ == old(self)@.update(rec.0, SlotView::Empty)
                        &&& final(self).table() == old(self).table().update(h as int, None)
                    }))
                },
                _ => r == Err::<(), MutedError>(MutedError::NotFound),
            },
            r is Ok ==> live_count(final(self).table()) + 1 == live_count(old(self).table()),
            final(self).total_len() == old(self).total_len(),
    {
        match (index, handle) {
            (Some(i), None) => {
                if i >= self.data.len() {
                    return Err(MutedError::OutOfBounds);
                }
                let h_opt: Option<usize> = match &self.data[i] {
                    Data::Rp(Some(h)) => Some(*h),
                    _ => None,
                };
                match h_opt {
                    None => Err(MutedError::SlotState),
                    Some(h) => {
                        self.remove_pair(i, h);
                        Ok(())
                    },
                }
            },
            (None, Some(h)) => {
                if h >= self.r_hold.len() {
                    return Err(MutedError::NotFound);
                }
                let i_opt: Option<usize> = match &self.r_hold[h] {
                    Some(e) => Some(e.slot_index),
                    None => None,
                };
                match i_opt {
                    None => Err(MutedError::NotFound),
                    Some(i) => {
                        proof {
                            let rec = old(self).table()[h as int].unwrap();
                            assert(old(self)@[rec.0] == SlotView::Seg(h as int, rec.2));
                        }
                        self.remove_pair(i, h);
                        Ok(())
                    },
                }
            },
            _ => Err(MutedError::NotFound),
        }
    }

    /// Every logical index in an empty slot's range reads as absent: removal
    /// leaves no stale data behind.
    pub proof fn lemma_empty_range_reads_none(&self, i: int)
        requires
            self.wf(),
            0 <= i < self@.len(),
            self@[i] is Empty,
        ensures
            forall|j: int| seq_is_slot(self.prefix(), i, j) ==> self.value_at(j) is None,
    {
        assert forall|j: int| seq_is_slot(self.prefix(), i, j) implies self.value_at(j)
            is None by {
            let k = seq_slot_of(self.prefix(), j);
            assert(seq_is_slot(self.prefix(), k, j));
            lemma_slot_unique(self.prefix(), k, i, j);
        }
    }

    /// Two well-formed states with the same prefix table that differ in at
    /// most slot `i` read the same value at every index outside slot `i`.
    pub proof fn lemma_value_frame(&self, pre: Muted<T>, i: int)
        requires
            self.prefix() == pre.prefix(),
            self@.len() == pre@.len(),
            pre.prefix().len() == pre@.len(),
            forall|k: int| 0 <= k < pre@.len() && k != i ==> self@[k] == pre@[k],
        ensures
            forall|j: int|
                !seq_is_slot(pre.prefix(), i, j) ==> self.value_at(j) == pre.value_at(j),
    {
        assert forall|j: int| !seq_is_slot(pre.prefix(), i, j) implies self.value_at(j)
            == pre.value_at(j) by {
            if exists|k: int| seq_is_slot(pre.prefix(), k, j) {
                let k = seq_slot_of(pre.prefix(), j);
                assert(seq_is_slot(pre.prefix(), k, j));
                assert(k != i);
                assert(self@[k] == pre@[k]);
            }
        }
    }

    /// After a splice, every logical index in the new segment's range reads
    /// the corresponding segment element, and every index below the old
    /// total length reads what it read before.
    pub proof fn lemma_pushed_segment_reads(&self, pre: Muted<T>, vals: Seq<T>)
        requires
            pre.wf(),
            self.wf(),
            self@ == pre@.push(SlotView::Seg(pre.table().len() as int, vals)),
            self.prefix() == pre.prefix().push(pre.total_len() + vals.len()),
        ensures
            forall|k: int|
                0 <= k < vals.len() ==> self.value_at(pre.total_len() + k) == Some(vals[k]),
            forall|j: int| 0 <= j < pre.total_len() ==> self.value_at(j) == pre.value_at(j),
    {
        let i = pre@.len() as int;
        let p = pre.prefix();
        let q = self.prefix();
        assert forall|k: int| 0 <= k < vals.len() implies self.value_at(pre.total_len() + k)
            == Some(vals[k]) by {
            let idx = pre.total_len() + k;
            assert(slot_start(q, i) == pre.total_len());
            assert(seq_is_slot(q, i, idx));
            let m = seq_slot_of(q, idx);
            assert(seq_is_slot(q, m, idx));
            lemma_slot_unique(q, m, i, idx);
            assert(self@[i] == SlotView::Seg(pre.table().len() as int, vals));
        }
        assert forall|j: int| 0 <= j < pre.total_len() implies self.value_at(j) == pre.value_at(
            j,
        ) by {
            lemma_slot_exists(p, j);
            let m = seq_slot_of(p, j);
            assert(seq_is_slot(p, m, j));
            assert(seq_is_slot(q, m, j));
            let m2 = seq_slot_of(q, j);
            assert(seq_is_slot(q, m2, j));
            if m2 == i {
                assert(slot_start(q, i) == pre.total_len());
                assert(false);
            }
            assert(seq_is_slot(p, m2, j));
            lemma_slot_unique(p, m2, m, j);
            assert(self@[m] == pre@[m]);
        }
    }

    /// Every index in a live segment slot's range whose intra-slot offset
    /// stays within the segment reads the corresponding segment element.
    pub proof fn lemma_segment_slot_reads(&self, i: int)
        requires
            self.wf(),
            0 <= i < self@.len(),
            self@[i] is Seg,
        ensures
            forall|k: int|
                0 <= k < (self@[i]->Seg_1).len() && self.start_of(i) + k < self.prefix()[i]
                    ==> self.value_at(self.start_of(i) + k) == Some((self@[i]->Seg_1)[k]),
    {
        let p = self.prefix();
        assert forall|k: int|
            0 <= k < (self@[i]->Seg_1).len() && self.start_of(i) + k < p[i] implies self.value_at(
            self.start_of(i) + k,
        ) == Some((self@[i]->Seg_1)[k]) by {
            let idx = self.start_of(i) + k;
            assert(seq_is_slot(p, i, idx));
            let m = seq_slot_of(p, idx);
            assert(seq_is_slot(p, m, idx));
            lemma_slot_unique(p, m, i, idx);
        }
    }

    /// Replaces an empty slot with a newly owned segment: registers it in
    /// the ownership table, turns the slot into a segment reference, and
    /// extends every later cumulative total by the segment's length. The
    /// dead space the slot's prior occupant left is not reclaimed: the old
    /// reserved length and the new segment's length both keep counting
    /// toward the total.
    ///
    /// Fails with `OutOfBounds` past the slot array and `SlotState` against
    /// a non-empty slot; nothing mutates on failure.
    pub fn insert_vec(&mut self, index: usize, other: Vec<T>) -> (r: Result<(), MutedError>)
        requires
            old(self).wf(),
            old(self).total_len() + other@.len() <= usize::MAX,
        ensures
            final(self).wf(),
            r is Err ==> *final(self) == *old(self),
            index >= old(self)@.len() ==> r == Err::<(), MutedError>(MutedError::OutOfBounds),
            index < old(self)@.len() && !(old(self)@[index as int] is Empty) ==> r == Err::<
                (),
                MutedError,
            >(MutedError::SlotState),
            r is Ok <==> index < old(self)@.len() && old(self)@[index as int] is Empty,
            r is Ok ==> ({
                &&& final(self)@ == old(self)@.update(
                    index as int,
                    SlotView::Seg(old(self).table().len() as int, other@),
                )
                &&& final(self).table() == old(self).table().push(
                    Some((index as int, other@.len() as int, other@)),
                )
                &&& final(self).prefix() == Seq::new(
                    old(self).prefix().len(),
                    |j: int|
                        if j <= index {
                            old(self).prefix()[j]
                        } else {
                            old(self).prefix()[j] + other@.len()
                        },
                )
                &&& live_count(final(self).table()) == live_count(old(self).table()) + 1
                &&& final(self).total_len() == old(self).total_len() + (
                if (index as int) < old(self)@.len() - 1 {
                    other@.len() as int
                } else {
                    0
                })
            }),
    {
        self.insert_vec_inner(index, other, false)
    }

    /// `insert_vec` without the prefix-table adjustment: the caller is
    /// responsible for rebuilding the index afterwards, as in a bulk rebuild.
    /// Every cumulative total stays as it was, so the new segment is only
    /// reachable through the dead space its slot already covered.
    pub fn insert_vec_unchecked(&mut self, index: usize, other: Vec<T>) -> (r: Result<
        (),
        MutedError,
    >)
        requires
            old(self).wf(),
        ensures
            final(self).wf(),
            final(self).prefix() == old(self).prefix(),
            r is Err ==> *final(self) == *old(self),
            index >= old(self)@.len() ==> r == Err::<(), MutedError>(MutedError::OutOfBounds),
            index < old(self)@.len() && !(old(self)@[index as int] is Empty) ==> r == Err::<
                (),
                MutedError,
            >(MutedError::SlotState),
            r is Ok <==> index < old(self)@.len() && old(self)@[index as int] is Empty,
            r is Ok ==> ({
                &&& final(self)@ == old(self)@.update(
                    index as int,
                    SlotView::Seg(old(self).table().len() as int, other@),
                )
                &&& final(self).table() == old(self).table().push(
                    Some((index as int, other@.len() as int, other@)),
                )
                &&& live_count(final(self).table()) == live_count(old(self).table()) + 1
            }),
    {
        self.insert_vec_inner(index, other, true)
    }

    /// Shared body of `insert_vec` and `insert_vec_unchecked`.
    fn insert_vec_inner(&mut self, index: usize, other: Vec<T>, skip_calibration: bool) -> (r:
        Result<(), MutedError>)
        requires
            old(self).wf(),
            !skip_calibration ==> old(self).total_len() + other@.len() <= usize::MAX,
        ensures
            final(self).wf(),
            r is Err ==> *final(self) == *old(self),
            index >= old(self)@.len() ==> r == Err::<(), MutedError>(MutedError::OutOfBounds),
            index < old(self)@.len() && !(old(self)@[index as int] is Empty) ==> r == Err::<
                (),
                MutedError,
            >(MutedError::SlotState),
            r is Ok <==> index < old(self)@.len() && old(self)@[index as int] is Empty,
            r is Ok ==> ({
                &&& final(self)@ == old(self)@.update(
                    index as int,
                    SlotView::Seg(old(self).table().len() as int, other@),
                )
                &&& final(self).table() == old(self).table().push(
                    Some((index as int, other@.len() as int, other@)),
                )
                &&& live_count(final(self).table()) == live_count(old(self).table()) + 1
            }),
            r is Ok && skip_calibration ==> final(self).prefix() == old(self).prefix(),
            r is Ok && !skip_calibration ==> final(self).prefix() == Seq::new(
                old(self).prefix().len(),
                |j: int|
                    if j <= index {
                        old(self).prefix()[j]
                    } else {
                        old(self).prefix()[j] + other@.len()
                    },
            ),
    {
        if index >= self.data.len() {
            return Err(MutedError::OutOfBounds);
        }
        let ok = match &self.data[index] {
            Data::Rp(None) => true,
            _ => false,
        };
        if !ok {
            return Err(MutedError::SlotState);
        }
        let n = other.len();
        let h = self.r_hold.len();
        self.r_hold.push(Some(SegEntry { seg: other, slot_index: index, len: n }));
        self.data[index] = Data::Rp(Some(h));
        proof {
            let entry = Some((index as int, n as int, self.r_hold@[h as int].unwrap().seg@));
            assert(self.table() =~= old(self).table().push(entry));
            lemma_live_count_push(old(self).table(), entry);
            assert forall|j: int| 0 <= j < self@.len() implies self@[j] == old(self)@.update(
                index as int,
                SlotView::Seg(h as int, entry.unwrap().2),
            )[j] by {
                if j != index {
                    match old(self)@[j] {
                        SlotView::Seg(h2, s2) => {
                            assert(old(self).table()[h2] == Some((j, s2.len() as int, s2)));
                        },
                        _ => {},
                    }
                }
            }
            assert(self@ =~= old(self)@.update(
                index as int,
                SlotView::Seg(h as int, entry.unwrap().2),
            ));
            assert forall|k: int| 0 <= k < self@.len() implies (match #[trigger] self@[k] {
                SlotView::Seg(h2, s2) => {
                    &&& 0 <= h2 < self.table().len()
                    &&& self.table()[h2] == Some((k, s2.len() as int, s2))
                },
                _ => true,
            }) by {
                if k != index {
                    match old(self)@[k] {
                        SlotView::Seg(h2, s2) => {
                            assert(old(self).table()[h2] == Some((k, s2.len() as int, s2)));
                        },
                        _ => {},
                    }
                }
            }
            assert forall|h2: int|
                0 <= h2 < self.table().len() implies (match #[trigger] self.table()[h2] {
                Some(rec) => {
                    &&& 0 <= rec.0 < self@.len()
                    &&& self@[rec.0] == SlotView::Seg(h2, rec.2)
                    &&& rec.1 == rec.2.len()
                },
                None => true,
            }) by {
                if h2 != h {
                    match old(self).table()[h2] {
                        Some(rec) => {
                            assert(old(self)@[rec.0] == SlotView::Seg(h2, rec.2));
                            assert(rec.0 != index);
                        },
                        None => {},
                    }
                }
            }
        }
        if !skip_calibration {
            let ghost mid = *self;
            let mut j = index + 1;
            while j < self.prefix_vec.len()
                invariant
                    index < j <= self.prefix_vec@.len(),
                    self.data == mid.data,
                    self.r_hold == mid.r_hold,
                    self.prefix_vec@.len() == mid.prefix_vec@.len(),
                    mid.prefix() == old(self).prefix(),
                    prefix_sorted(old(self).prefix()),
                    old(self).prefix().len() == old(self)@.len(),
                    old(self).total_len() + n <= usize::MAX,
                    forall|k: int|
                        0 <= k < j ==> #[trigger] self.prefix()[k] == if k <= index {
                            old(self).prefix()[k]
                        } else {
                            old(self).prefix()[k] + n
                        },
                    forall|k: int|
                        j <= k < self.prefix().len() ==> #[trigger] self.prefix()[k] == old(
                            self,
                        ).prefix()[k],
                decreases self.prefix_vec@.len() - j,
            {
                let ghost prev = self.prefix();
                proof {
                    assert(old(self).prefix()[j as int] <= old(self).prefix()[old(
                        self,
                    ).prefix().len() - 1]);
                    assert(old(self).total_len() == old(self).prefix()[old(self).prefix().len()
                        - 1]);
                    assert(prev[j as int] == old(self).prefix()[j as int]);
                }
                let v = self.prefix_vec[j];
                proof {
                    assert(v as int == prev[j as int]);
                }
                self.prefix_vec[j] = v + n;
                proof {
                    assert(self.prefix() =~= prev.update(j as int, v + n));
                }
                j += 1;
            }
            proof {
                assert(self.prefix() =~= Seq::new(
                    old(self).prefix().len(),
                    |k: int|
                        if k <= index {
                            old(self).prefix()[k]
                        } else {
                            old(self).prefix()[k] + n
                        },
                ));
                assert(self@ == mid@);
                assert(self.table() == mid.table());
                assert forall|a: int, b: int|
                    0 <= a <= b < self.prefix().len() implies #[trigger] self.prefix()[a]
                    <= #[trigger] self.prefix()[b] by {
                    assert(old(self).prefix()[a] <= old(self).prefix()[b]);
                }
            }
        }
        Ok(())
    }
}

/// The values one slot contributes to the flattened rendering: an inline
/// value, a live segment's contents, or nothing for an empty slot.
pub open spec fn slot_items<T>(s: SlotView<T>) -> Seq<T> {
    match s {
        SlotView::Val(v) => seq![v],
        SlotView::Empty => Seq::empty(),
        SlotView::Seg(_, sq) => sq,
    }
}

/// The flattened ordered view of a slot array: every slot resolved, inline
/// or through its owned segment, into one ordered list.
pub open spec fn flat_of<T>(view: Seq<SlotView<T>>) -> Seq<T>
    decreases view.len(),
{
    if view.len() == 0 {
        Seq::empty()
    } else {
        flat_of(view.drop_last()) + slot_items(view.last())
    }
}

impl<T: Copy> Muted<T> {
    /// Renders the flattened ordered view of the logical sequence: inline
    /// values and live segments' contents in slot order; empty slots
    /// contribute nothing.
    pub fn flatten(&self) -> (r: Vec<T>)
        requires
            self.wf(),
        ensures
            r@ == flat_of(self@),
    {
        let mut out: Vec<T> = Vec::new();
        let mut i: usize = 0;
        while i < self.data.len()
            invariant
                self.wf(),
                0 <= i <= self@.len(),
                out@ == flat_of(self@.take(i as int)),
            decreases self@.len() - i,
        {
            proof {
                assert(self@.take(i as int + 1).drop_last() =~= self@.take(i as int));
                assert(self@.take(i as int + 1).last() == self@[i as int]);
            }
            match &self.data[i] {
                Data::Val(v) => {
                    out.push(*v);
                    proof {
                        assert(out@ =~= flat_of(self@.take(i as int + 1)));
                    }
                },
                Data::Rp(None) => {
                    proof {
                        assert(out@ =~= flat_of(self@.take(i as int + 1)));
                    }
                },
                Data::Rp(Some(h)) => {
                    let h = *h;
                    proof {
                        assert(self@[i as int] matches SlotView::Seg(hh, _) && hh == h as int);
                        assert(self.table()[h as int] is Some);
                    }
                    match &self.r_hold[h] {
                        Some(e) => {
                            let ghost base = out@;
                            let mut j: usize = 0;
                            while j < e.seg.len()
                                invariant
                                    0 <= j <= e.seg@.len(),
                                    out@ == base + e.seg@.take(j as int),
                                decreases e.seg@.len() - j,
                            {
                                out.push(e.seg[j]);
                                proof {
                                    assert(out@ =~= base + e.seg@.take(j as int + 1));
                                }
                                j += 1;
                            }
                            proof {
                                assert(e.seg@.take(e.seg@.len() as int) =~= e.seg@);
                                assert(slot_items(self@[i as int]) == e.seg@);
                                assert(out@ =~= flat_of(self@.take(i as int + 1)));
                            }
                        },
                        None => {
                            proof {
                                assert(false);
                            }
                        },
                    }
                },
            }
            i += 1;
        }
        proof {
            assert(self@.take(self@.len() as int) =~= self@);
        }
        out
    }
}

/// Binary search for the slot covering logical index `idx`: the least `i`
/// whose cumulative total exceeds `idx`.
fn find_slot(p: &Vec<usize>, idx: usize) -> (r: usize)
    requires
        prefix_sorted(p@.map_values(|v: usize| v as int)),
        p@.len() > 0,
        (idx as int) < p@[p@.len() - 1],
    ensures
        seq_is_slot(p@.map_values(|v: usize| v as int), r as int, idx as int),
{
    let ghost pm = p@.map_values(|v: usize| v as int);
    let mut lo: usize = 0;
    let mut hi: usize = p.len();
    while lo < hi
        invariant
            0 <= lo <= hi <= p@.len(),
            pm == p@.map_values(|v: usize| v as int),
            prefix_sorted(pm),
            pm.len() == p@.len() > 0,
            (idx as int) < pm[pm.len() - 1],
            forall|j: int| 0 <= j < lo ==> #[trigger] pm[j] <= idx,
            forall|j: int| hi <= j < pm.len() ==> #[trigger] pm[j] > idx,
        decreases hi - lo,
    {
        let mid = lo + (hi - lo) / 2;
        if p[mid] <= idx {
            assert forall|j: int| 0 <= j < mid + 1 implies #[trigger] pm[j] <= idx by {
                assert(pm[j] <= pm[mid as int]);
            }
            lo = mid + 1;
        } else {
            hi = mid;
        }
    }
    assert(lo < p@.len()) by {
        if lo == p@.len() {
            assert(pm[pm.len() - 1] <= idx);
        }
    }
    lo
}

} // verus!

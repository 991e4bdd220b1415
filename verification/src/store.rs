//! An in-memory lump store: the model of one storage device's contents that
//! the server dispatch layer operates on.  Lumps are kept in ascending key
//! order, so enumerations come out sorted.

use vstd::prelude::*;

use crate::lump::MAX_LUMP_DATA_SIZE;
use crate::wire::copy_range;

verus! {

/// First-match lookup of a key among store entries.
pub open spec fn lookup_lump(entries: Seq<(u128, Vec<u8>)>, id: u128) -> Option<Seq<u8>>
    decreases entries.len(),
{
    if entries.len() == 0 {
        None
    } else if entries[0].0 == id {
        Some(entries[0].1@)
    } else {
        lookup_lump(entries.drop_first(), id)
    }
}

/// Lookup distributes over concatenation: the front of the list wins.
pub proof fn lemma_lookup_lump_concat(a: Seq<(u128, Vec<u8>)>, b: Seq<(u128, Vec<u8>)>, id: u128)
    ensures
        lookup_lump(a + b, id) == (if lookup_lump(a, id) is Some {
            lookup_lump(a, id)
        } else {
            lookup_lump(b, id)
        }),
    decreases a.len(),
{
    if a.len() == 0 {
        assert(a + b =~= b);
    } else {
        assert((a + b).drop_first() =~= a.drop_first() + b);
        lemma_lookup_lump_concat(a.drop_first(), b, id);
    }
}

/// A key absent from every entry is absent from the lookup.
pub proof fn lemma_lookup_lump_absent(entries: Seq<(u128, Vec<u8>)>, id: u128)
    requires
        forall|j: int| 0 <= j < entries.len() ==> entries[j].0 != id,
    ensures
        lookup_lump(entries, id) is None,
    decreases entries.len(),
{
    if entries.len() > 0 {
        assert(forall|j: int|
            0 <= j < entries.drop_first().len() ==> entries.drop_first()[j] == entries[j + 1]);
        lemma_lookup_lump_absent(entries.drop_first(), id);
    }
}

/// Lookup at the first index that holds a key.
pub proof fn lemma_lookup_lump_at(entries: Seq<(u128, Vec<u8>)>, id: u128, i: int)
    requires
        0 <= i < entries.len(),
        entries[i].0 == id,
        forall|j: int| 0 <= j < i ==> entries[j].0 != id,
    ensures
        lookup_lump(entries, id) == Some(entries[i].1@),
    decreases i,
{
    if i > 0 {
        assert(forall|j: int|
            0 <= j < entries.drop_first().len() ==> entries.drop_first()[j] == entries[j + 1]);
        lemma_lookup_lump_at(entries.drop_first(), id, i - 1);
    }
}

/// An in-memory lump store, sorted strictly by key.
pub struct LumpStore {
    entries: Vec<(u128, Vec<u8>)>,
}

impl LumpStore {
    /// The stored lumps as a map from key to payload bytes.
    pub closed spec fn contents(&self) -> Map<u128, Seq<u8>> {
        Map::new(
            |id: u128| lookup_lump(self.entries@, id) is Some,
            |id: u128| lookup_lump(self.entries@, id).unwrap(),
        )
    }

    /// The stored keys, in storage (ascending) order.
    pub closed spec fn ids(&self) -> Seq<u128> {
        self.entries@.map_values(|e: (u128, Vec<u8>)| e.0)
    }

    /// Keys are strictly ascending and every payload fits the engine's
    /// maximum lump size.
    pub closed spec fn wf(&self) -> bool {
        &&& forall|i: int, j: int|
            0 <= i < j < self.entries@.len() ==> self.entries@[i].0 < self.entries@[j].0
        &&& forall|i: int|
            0 <= i < self.entries@.len() ==> self.entries@[i].1@.len() <= MAX_LUMP_DATA_SIZE
    }

    /// An empty store.
    pub fn new() -> (r: Self)
        ensures
            r.wf(),
            r.contents() == Map::<u128, Seq<u8>>::empty(),
            r.ids() == Seq::<u128>::empty(),
    {
        let r = LumpStore { entries: Vec::new() };
        proof {
            assert(r.contents() =~= Map::<u128, Seq<u8>>::empty());
            assert(r.ids() =~= Seq::<u128>::empty());
        }
        r
    }

    /// Finds the first position whose key is at least `id`.
    fn lower_bound(&self, id: u128) -> (r: usize)
        requires
            self.wf(),
        ensures
            r <= self.entries@.len(),
            forall|j: int| 0 <= j < r ==> self.entries@[j].0 < id,
            forall|j: int| r <= j < self.entries@.len() ==> self.entries@[j].0 >= id,
    {
        let mut i: usize = 0;
        while i < self.entries.len()
            invariant
                self.wf(),
                i <= self.entries@.len(),
                forall|j: int| 0 <= j < i ==> self.entries@[j].0 < id,
            decreases self.entries@.len() - i,
        {
            if self.entries[i].0 >= id {
                return i;
            }
            i = i + 1;
        }
        i
    }

    /// Whether a lump is stored under `id`.
    pub fn contains(&self, id: u128) -> (r: bool)
        requires
            self.wf(),
        ensures
            r == self.contents().dom().contains(id),
    {
        let i = self.lower_bound(id);
        if i < self.entries.len() && self.entries[i].0 == id {
            proof {
                lemma_lookup_lump_at(self.entries@, id, i as int);
            }
            true
        } else {
            proof {
                lemma_lookup_lump_absent(self.entries@, id);
            }
            false
        }
    }

    /// Reads the payload stored under `id`, if any.
    pub fn get(&self, id: u128) -> (r: Option<Vec<u8>>)
        requires
            self.wf(),
        ensures
            match r {
                Some(b) => self.contents().dom().contains(id) && b@ == self.contents()[id]
                    && b@.len() <= MAX_LUMP_DATA_SIZE,
                None => !self.contents().dom().contains(id),
            },
    {
        let i = self.lower_bound(id);
        if i < self.entries.len() && self.entries[i].0 == id {
            proof {
                lemma_lookup_lump_at(self.entries@, id, i as int);
            }
            let b = &self.entries[i].1;
            Some(copy_range(b.as_slice(), 0, b.len()))
        } else {
            proof {
                lemma_lookup_lump_absent(self.entries@, id);
            }
            None
        }
    }

    /// The approximate size of the lump stored under `id`, if any.
    pub fn head(&self, id: u128) -> (r: Option<u32>)
        requires
            self.wf(),
        ensures
            match r {
                Some(n) => self.contents().dom().contains(id) && n == self.contents()[id].len(),
                None => !self.contents().dom().contains(id),
            },
    {
        let i = self.lower_bound(id);
        if i < self.entries.len() && self.entries[i].0 == id {
            proof {
                lemma_lookup_lump_at(self.entries@, id, i as int);
            }
            Some(self.entries[i].1.len() as u32)
        } else {
            proof {
                lemma_lookup_lump_absent(self.entries@, id);
            }
            None
        }
    }

    /// Stores `data` under `id`, replacing any previous payload.  Returns
    /// whether the lump was newly created rather than overwritten.
    pub fn put(&mut self, id: u128, data: Vec<u8>) -> (r: bool)
        requires
            old(self).wf(),
            data@.len() <= MAX_LUMP_DATA_SIZE,
        ensures
            final(self).wf(),
            final(self).contents() == old(self).contents().insert(id, data@),
            r == !old(self).contents().dom().contains(id),
    {
        let ghost m0 = self.contents();
        let ghost before = self.entries@;
        let i = self.lower_bound(id);
        if i < self.entries.len() && self.entries[i].0 == id {
            proof {
                lemma_lookup_lump_at(before, id, i as int);
            }
            self.entries[i] = (id, data);
            proof {
                Self::lemma_lookup_replace_at(before, i as int, self.entries@[i as int], id);
                assert(self.contents() =~= m0.insert(id, data@));
            }
            false
        } else {
            proof {
                lemma_lookup_lump_absent(before, id);
            }
            self.entries.insert(i, (id, data));
            proof {
                let e = (id, data);
                assert(self.entries@ =~= before.take(i as int) + (seq![e] + before.skip(
                    i as int,
                )));
                assert(before =~= before.take(i as int) + before.skip(i as int));
                assert forall|q: u128|
                    #[trigger] lookup_lump(self.entries@, q) == (if q == id {
                        Some(data@)
                    } else {
                        lookup_lump(before, q)
                    }) by {
                    lemma_lookup_lump_concat(
                        before.take(i as int),
                        seq![e] + before.skip(i as int),
                        q,
                    );
                    lemma_lookup_lump_concat(seq![e], before.skip(i as int), q);
                    lemma_lookup_lump_concat(before.take(i as int), before.skip(i as int), q);
                    assert(seq![e].drop_first() =~= Seq::<(u128, Vec<u8>)>::empty());
                    assert(lookup_lump(Seq::<(u128, Vec<u8>)>::empty(), q) is None);
                    assert(lookup_lump(seq![e], q) == (if e.0 == q {
                        Some(e.1@)
                    } else {
                        None::<Seq<u8>>
                    }));
                    if q == id {
                        assert(forall|j: int|
                            0 <= j < before.take(i as int).len() ==> #[trigger] before.take(
                                i as int,
                            )[j].0 != q);
                        lemma_lookup_lump_absent(before.take(i as int), q);
                    }
                }
                assert(self.contents() =~= m0.insert(id, data@));
            }
            true
        }
    }

    /// Lookup after replacing the entry at the first index that holds a key
    /// with another entry carrying the same key.
    proof fn lemma_lookup_replace_at(
        entries: Seq<(u128, Vec<u8>)>,
        i: int,
        e: (u128, Vec<u8>),
        id: u128,
    )
        requires
            0 <= i < entries.len(),
            entries[i].0 == id,
            e.0 == id,
            forall|j: int| 0 <= j < i ==> entries[j].0 != id,
        ensures
            forall|q: u128|
                #[trigger] lookup_lump(entries.update(i, e), q) == (if q == id {
                    Some(e.1@)
                } else {
                    lookup_lump(entries, q)
                }),
    {
        assert forall|q: u128|
            #[trigger] lookup_lump(entries.update(i, e), q) == (if q == id {
                Some(e.1@)
            } else {
                lookup_lump(entries, q)
            }) by {
            if q == id {
                assert(forall|j: int|
                    0 <= j < i ==> #[trigger] entries.update(i, e)[j].0 != q);
                lemma_lookup_lump_at(entries.update(i, e), q, i);
            } else {
                Self::lemma_lookup_update_other(entries, i, e, q);
            }
        }
    }

    /// Lookup of another key is unchanged by replacing one entry with an
    /// entry that does not carry that key either.
    proof fn lemma_lookup_update_other(
        entries: Seq<(u128, Vec<u8>)>,
        i: int,
        e: (u128, Vec<u8>),
        q: u128,
    )
        requires
            0 <= i < entries.len(),
            entries[i].0 != q,
            e.0 != q,
        ensures
            lookup_lump(entries.update(i, e), q) == lookup_lump(entries, q),
        decreases i,
    {
        if i == 0 {
            assert(entries.update(0, e).drop_first() =~= entries.drop_first());
        } else {
            assert(entries.update(i, e).drop_first() =~= entries.drop_first().update(i - 1, e));
            Self::lemma_lookup_update_other(entries.drop_first(), i - 1, e, q);
        }
    }

    /// Deletes the lump stored under `id`.  Returns whether one was there.
    pub fn delete(&mut self, id: u128) -> (r: bool)
        requires
            old(self).wf(),
        ensures
            final(self).wf(),
            final(self).contents() == old(self).contents().remove(id),
            r == old(self).contents().dom().contains(id),
    {
        let ghost m0 = self.contents();
        let ghost before = self.entries@;
        let i = self.lower_bound(id);
        if i < self.entries.len() && self.entries[i].0 == id {
            proof {
                lemma_lookup_lump_at(before, id, i as int);
            }
            let removed = self.entries.remove(i);
            proof {
                assert(self.entries@ =~= before.take(i as int) + before.skip(i as int + 1));
                assert(before =~= before.take(i as int) + (seq![before[i as int]] + before.skip(
                    i as int + 1,
                )));
                assert forall|q: u128|
                    #[trigger] lookup_lump(self.entries@, q) == (if q == id {
                        None::<Seq<u8>>
                    } else {
                        lookup_lump(before, q)
                    }) by {
                    lemma_lookup_lump_concat(
                        before.take(i as int),
                        before.skip(i as int + 1),
                        q,
                    );
                    lemma_lookup_lump_concat(
                        before.take(i as int),
                        seq![before[i as int]] + before.skip(i as int + 1),
                        q,
                    );
                    lemma_lookup_lump_concat(
                        seq![before[i as int]],
                        before.skip(i as int + 1),
                        q,
                    );
                    assert(seq![before[i as int]].drop_first() =~= Seq::<(
                        u128,
                        Vec<u8>,
                    )>::empty());
                    assert(lookup_lump(Seq::<(u128, Vec<u8>)>::empty(), q) is None);
                    assert(lookup_lump(seq![before[i as int]], q) == (if before[i as int].0 == q {
                        Some(before[i as int].1@)
                    } else {
                        None::<Seq<u8>>
                    }));
                    if q == id {
                        assert(forall|j: int|
                            0 <= j < before.take(i as int).len() ==> #[trigger] before.take(
                                i as int,
                            )[j].0 != q);
                        lemma_lookup_lump_absent(before.take(i as int), q);
                        assert(forall|j: int|
                            0 <= j < before.skip(i as int + 1).len() ==> #[trigger] before.skip(
                                i as int + 1,
                            )[j] == before[j + i + 1]);
                        assert(forall|j: int|
                            0 <= j < before.skip(i as int + 1).len() ==> #[trigger] before.skip(
                                i as int + 1,
                            )[j].0 != q);
                        lemma_lookup_lump_absent(before.skip(i as int + 1), q);
                    }
                }
                assert(self.contents() =~= m0.remove(id));
            }
            true
        } else {
            proof {
                lemma_lookup_lump_absent(before, id);
                assert(self.contents() =~= m0.remove(id));
            }
            false
        }
    }

    /// Enumerates the stored keys, in ascending order.
    pub fn list(&self) -> (r: Vec<u128>)
        requires
            self.wf(),
        ensures
            r@ == self.ids(),
            forall|i: int, j: int| 0 <= i < j < r@.len() ==> r@[i] < r@[j],
            forall|q: u128| self.contents().dom().contains(q) <==> r@.contains(q),
    {
        let mut out: Vec<u128> = Vec::new();
        let mut i: usize = 0;
        while i < self.entries.len()
            invariant
                self.wf(),
                i <= self.entries@.len(),
                out@.len() == i,
                forall|j: int| 0 <= j < i ==> out@[j] == self.entries@[j].0,
            decreases self.entries@.len() - i,
        {
            out.push(self.entries[i].0);
            i = i + 1;
        }
        proof {
            assert(out@ =~= self.ids());
            assert forall|q: u128|
                self.contents().dom().contains(q) <==> out@.contains(q) by {
                if self.contents().dom().contains(q) {
                    Self::lemma_lookup_exists_index(self.entries@, q);
                    let k = choose|k: int|
                        0 <= k < self.entries@.len() && self.entries@[k].0 == q;
                    assert(out@[k] == q);
                }
                if out@.contains(q) {
                    let k = choose|k: int| 0 <= k < out@.len() && out@[k] == q;
                    assert(forall|j: int| 0 <= j < k ==> self.entries@[j].0 != q);
                    lemma_lookup_lump_at(self.entries@, q, k);
                }
            }
        }
        out
    }


    /// The byte count of the lumps whose keys fall in `[start, end)`.
    pub closed spec fn spec_usage(entries: Seq<(u128, Vec<u8>)>, start: u128, end: u128) -> int
        decreases entries.len(),
    {
        if entries.len() == 0 {
            0
        } else {
            (if start <= entries[0].0 < end {
                entries[0].1@.len() as int
            } else {
                0
            }) + Self::spec_usage(entries.drop_first(), start, end)
        }
    }

    /// Usage is never negative.
    proof fn lemma_usage_nonneg(entries: Seq<(u128, Vec<u8>)>, start: u128, end: u128)
        ensures
            Self::spec_usage(entries, start, end) >= 0,
        decreases entries.len(),
    {
        if entries.len() > 0 {
            Self::lemma_usage_nonneg(entries.drop_first(), start, end);
        }
    }

    /// Usage distributes over concatenation.
    proof fn lemma_usage_concat(
        a: Seq<(u128, Vec<u8>)>,
        b: Seq<(u128, Vec<u8>)>,
        start: u128,
        end: u128,
    )
        ensures
            Self::spec_usage(a + b, start, end) == Self::spec_usage(a, start, end)
                + Self::spec_usage(b, start, end),
        decreases a.len(),
    {
        if a.len() == 0 {
            assert(a + b =~= b);
        } else {
            assert((a + b).drop_first() =~= a.drop_first() + b);
            Self::lemma_usage_concat(a.drop_first(), b, start, end);
        }
    }

    /// The stored byte count over `[start, end)`, as seen by this store.
    pub closed spec fn usage_of(&self, start: u128, end: u128) -> int {
        Self::spec_usage(self.entries@, start, end)
    }

    /// Computes the approximate usage over `[start, end)`: the byte count of
    /// the lumps in the range, saturating at the 64-bit maximum.
    pub fn usage_range(&self, start: u128, end: u128) -> (r: u64)
        requires
            self.wf(),
        ensures
            r == (if self.usage_of(start, end) > u64::MAX {
                u64::MAX as int
            } else {
                self.usage_of(start, end)
            }),
    {
        let mut acc: u64 = 0;
        let mut i: usize = 0;
        proof {
            assert(self.entries@.take(0) =~= Seq::<(u128, Vec<u8>)>::empty());
        }
        while i < self.entries.len()
            invariant
                self.wf(),
                i <= self.entries@.len(),
                acc == (if Self::spec_usage(self.entries@.take(i as int), start, end)
                    > u64::MAX {
                    u64::MAX as int
                } else {
                    Self::spec_usage(self.entries@.take(i as int), start, end)
                }),
            decreases self.entries@.len() - i,
        {
            proof {
                assert(self.entries@.take(i as int + 1) =~= self.entries@.take(i as int)
                    + self.entries@.subrange(i as int, i as int + 1));
                Self::lemma_usage_concat(
                    self.entries@.take(i as int),
                    self.entries@.subrange(i as int, i as int + 1),
                    start,
                    end,
                );
                assert(self.entries@.subrange(i as int, i as int + 1).drop_first() =~= Seq::<(
                    u128,
                    Vec<u8>,
                )>::empty());
                assert(self.entries@.subrange(i as int, i as int + 1)[0] == self.entries@[
                    i as int]);
                assert(Self::spec_usage(Seq::<(u128, Vec<u8>)>::empty(), start, end) == 0);
                assert(Self::spec_usage(
                    self.entries@.subrange(i as int, i as int + 1),
                    start,
                    end,
                ) == (if start <= self.entries@[i as int].0 < end {
                    self.entries@[i as int].1@.len() as int
                } else {
                    0
                }));
                Self::lemma_usage_nonneg(self.entries@.take(i as int), start, end);
            }
            if start <= self.entries[i].0 && self.entries[i].0 < end {
                let len = self.entries[i].1.len() as u64;
                if len > u64::MAX - acc {
                    acc = u64::MAX;
                } else {
                    acc = acc + len;
                }
            }
            i = i + 1;
        }
        proof {
            assert(self.entries@.take(self.entries@.len() as int) =~= self.entries@);
        }
        acc
    }

    /// The stored keys in `[start, end)`, in ascending order.
    pub closed spec fn range_ids(&self, start: u128, end: u128) -> Seq<u128> {
        Self::range_ids_in(self.entries@, start, end)
    }

    /// The keys of a list of entries that fall in `[start, end)`, in list
    /// order.
    pub closed spec fn range_ids_in(entries: Seq<(u128, Vec<u8>)>, start: u128, end: u128) -> Seq<
        u128,
    >
        decreases entries.len(),
    {
        if entries.len() == 0 {
            Seq::empty()
        } else if start <= entries[0].0 < end {
            seq![entries[0].0] + Self::range_ids_in(entries.drop_first(), start, end)
        } else {
            Self::range_ids_in(entries.drop_first(), start, end)
        }
    }

    /// Range ids distribute over concatenation.
    proof fn lemma_range_ids_concat(
        a: Seq<(u128, Vec<u8>)>,
        b: Seq<(u128, Vec<u8>)>,
        start: u128,
        end: u128,
    )
        ensures
            Self::range_ids_in(a + b, start, end) =~= Self::range_ids_in(a, start, end)
                + Self::range_ids_in(b, start, end),
        decreases a.len(),
    {
        if a.len() == 0 {
            assert(a + b =~= b);
        } else {
            assert((a + b).drop_first() =~= a.drop_first() + b);
            Self::lemma_range_ids_concat(a.drop_first(), b, start, end);
        }
    }

    /// A key is among the range ids exactly when it is stored and falls in
    /// the range.
    proof fn lemma_range_ids_complete(
        entries: Seq<(u128, Vec<u8>)>,
        start: u128,
        end: u128,
        q: u128,
    )
        ensures
            Self::range_ids_in(entries, start, end).contains(q) == (lookup_lump(entries, q)
                is Some && start <= q < end),
        decreases entries.len(),
    {
        if entries.len() > 0 {
            Self::lemma_range_ids_complete(entries.drop_first(), start, end, q);
            let rest = Self::range_ids_in(entries.drop_first(), start, end);
            if start <= entries[0].0 < end {
                let whole = seq![entries[0].0] + rest;
                assert(Self::range_ids_in(entries, start, end) == whole);
                if q == entries[0].0 {
                    assert(whole[0] == q);
                    assert(whole.contains(q));
                } else {
                    assert(whole.contains(q) == rest.contains(q)) by {
                        if rest.contains(q) {
                            let k = choose|k: int| 0 <= k < rest.len() && rest[k] == q;
                            assert(whole[k + 1] == q);
                        }
                        if whole.contains(q) {
                            let k = choose|k: int| 0 <= k < whole.len() && whole[k] == q;
                            assert(k != 0);
                            assert(rest[k - 1] == q);
                        }
                    }
                }
            } else {
                if q == entries[0].0 {
                    assert(!(start <= q < end));
                }
            }
        }
    }

    /// The keys of a sorted entry list that fall in a range come out in
    /// ascending order.
    proof fn lemma_range_ids_sorted(entries: Seq<(u128, Vec<u8>)>, start: u128, end: u128)
        requires
            forall|i: int, j: int| 0 <= i < j < entries.len() ==> entries[i].0 < entries[j].0,
        ensures
            forall|i: int, j: int|
                0 <= i < j < Self::range_ids_in(entries, start, end).len()
                    ==> Self::range_ids_in(entries, start, end)[i] < Self::range_ids_in(
                    entries,
                    start,
                    end,
                )[j],
        decreases entries.len(),
    {
        if entries.len() > 0 {
            let rest = entries.drop_first();
            assert(forall|j: int| 0 <= j < rest.len() ==> rest[j] == entries[j + 1]);
            Self::lemma_range_ids_sorted(rest, start, end);
            let tail = Self::range_ids_in(rest, start, end);
            assert forall|q: u128| tail.contains(q) implies entries[0].0 < q by {
                Self::lemma_range_ids_complete(rest, start, end, q);
                Self::lemma_lookup_exists_index(rest, q);
                let k = choose|k: int| 0 <= k < rest.len() && rest[k].0 == q;
                assert(entries[k + 1].0 == q);
            }
            if start <= entries[0].0 < end {
                let whole = seq![entries[0].0] + tail;
                assert forall|i: int, j: int|
                    0 <= i < j < whole.len() implies whole[i] < whole[j] by {
                    if i == 0 {
                        assert(whole[j] == tail[j - 1]);
                        assert(tail.contains(tail[j - 1]));
                    } else {
                        assert(whole[i] == tail[i - 1] && whole[j] == tail[j - 1]);
                    }
                }
            }
        }
    }

    /// Deletes every lump whose key falls in `[start, end)` and returns the
    /// deleted keys: exactly the stored keys of the range, in ascending
    /// order.
    pub fn delete_range(&mut self, start: u128, end: u128) -> (r: Vec<u128>)
        requires
            old(self).wf(),
        ensures
            final(self).wf(),
            r@ == old(self).range_ids(start, end),
            forall|i: int, j: int| 0 <= i < j < r@.len() ==> r@[i] < r@[j],
            forall|q: u128|
                r@.contains(q) == (old(self).contents().dom().contains(q) && start <= q < end),
            forall|q: u128|
                final(self).contents().dom().contains(q) == (old(
                    self,
                ).contents().dom().contains(q) && !(start <= q < end)),
            forall|q: u128|
                final(self).contents().dom().contains(q) ==> final(self).contents()[q] == old(
                    self,
                ).contents()[q],
    {
        let ghost m0 = self.contents();
        let ghost entries0 = self.entries@;
        // First pass: the keys to delete, in storage order.
        let mut targets: Vec<u128> = Vec::new();
        let mut i: usize = 0;
        proof {
            assert(entries0.take(0) =~= Seq::<(u128, Vec<u8>)>::empty());
        }
        while i < self.entries.len()
            invariant
                self.wf(),
                self.entries@ == entries0,
                i <= entries0.len(),
                targets@ =~= Self::range_ids_in(entries0.take(i as int), start, end),
            decreases entries0.len() - i,
        {
            proof {
                assert(entries0.take(i as int + 1) =~= entries0.take(i as int)
                    + entries0.subrange(i as int, i as int + 1));
                Self::lemma_range_ids_concat(
                    entries0.take(i as int),
                    entries0.subrange(i as int, i as int + 1),
                    start,
                    end,
                );
                assert(entries0.subrange(i as int, i as int + 1).drop_first() =~= Seq::<(
                    u128,
                    Vec<u8>,
                )>::empty());
                assert(entries0.subrange(i as int, i as int + 1)[0] == entries0[i as int]);
                assert(Self::range_ids_in(Seq::<(u128, Vec<u8>)>::empty(), start, end)
                    =~= Seq::<u128>::empty());
                assert(Self::range_ids_in(
                    entries0.subrange(i as int, i as int + 1),
                    start,
                    end,
                ) =~= (if start <= entries0[i as int].0 < end {
                    seq![entries0[i as int].0]
                } else {
                    Seq::<u128>::empty()
                }));
            }
            if start <= self.entries[i].0 && self.entries[i].0 < end {
                targets.push(self.entries[i].0);
            }
            i = i + 1;
        }
        proof {
            assert(entries0.take(entries0.len() as int) =~= entries0);
        }
        // Second pass: delete each of them.
        let mut k: usize = 0;
        while k < targets.len()
            invariant
                self.wf(),
                k <= targets@.len(),
                targets@ == Self::range_ids_in(entries0, start, end),
                self.contents() =~= m0.remove_keys(
                    Set::new(|x: u128| targets@.take(k as int).contains(x)),
                ),
            decreases targets@.len() - k,
        {
            let id = targets[k];
            self.delete(id);
            proof {
                assert(targets@.take(k as int + 1) =~= targets@.take(k as int).push(
                    targets@[k as int],
                ));
                assert forall|x: u128|
                    targets@.take(k as int + 1).contains(x) == (targets@.take(
                        k as int,
                    ).contains(x) || x == targets@[k as int]) by {
                    let a = targets@.take(k as int);
                    let b = targets@.take(k as int + 1);
                    if b.contains(x) {
                        let j = choose|j: int| 0 <= j < b.len() && b[j] == x;
                        if j < k {
                            assert(a[j] == x);
                        }
                    }
                    if a.contains(x) {
                        let j = choose|j: int| 0 <= j < a.len() && a[j] == x;
                        assert(b[j] == x);
                    }
                    if x == targets@[k as int] {
                        assert(b[k as int] == x);
                    }
                }
                assert(self.contents() =~= m0.remove_keys(
                    Set::new(|x: u128| targets@.take(k as int + 1).contains(x)),
                ));
            }
            k = k + 1;
        }
        proof {
            assert(targets@.take(targets@.len() as int) =~= targets@);
            assert forall|q: u128|
                self.contents().dom().contains(q) == (m0.dom().contains(q) && !(start <= q
                    < end)) by {
                Self::lemma_range_ids_complete(entries0, start, end, q);
            }
            assert forall|q: u128|
                self.contents().dom().contains(q) implies self.contents()[q] == m0[q] by {}
            assert forall|q: u128|
                targets@.contains(q) == (m0.dom().contains(q) && start <= q < end) by {
                Self::lemma_range_ids_complete(entries0, start, end, q);
            }
            Self::lemma_range_ids_sorted(entries0, start, end);
        }
        targets
    }

    /// A successful lookup names some entry of the list.
    proof fn lemma_lookup_exists_index(entries: Seq<(u128, Vec<u8>)>, id: u128)
        requires
            lookup_lump(entries, id) is Some,
        ensures
            exists|i: int| 0 <= i < entries.len() && entries[i].0 == id,
        decreases entries.len(),
    {
        if entries[0].0 == id {
        } else {
            Self::lemma_lookup_exists_index(entries.drop_first(), id);
            let j = choose|j: int|
                0 <= j < entries.drop_first().len() && entries.drop_first()[j].0 == id;
            assert(entries[j + 1].0 == id);
        }
    }
}

} // verus!

//! In-memory tier of the question/answer cache.
//!
//! A bounded map from question keys to compressed answer blobs, held in
//! first-in-first-out order, plus a pending-write staging area. When the
//! cache is full, an insert of a new key moves the oldest resident entry
//! into the pending area instead of dropping it; the pending area shrinks
//! only when a batch is drained for persistence.

use vstd::prelude::*;

verus! {

/// View of one stored pair: the key's characters and the blob's bytes.
pub open spec fn pair_view(p: (String, Vec<u8>)) -> (Seq<char>, Seq<u8>) {
    (p.0@, p.1@)
}

/// View of a list of stored pairs.
pub open spec fn pairs_view(s: Seq<(String, Vec<u8>)>) -> Seq<(Seq<char>, Seq<u8>)> {
    s.map_values(|p: (String, Vec<u8>)| pair_view(p))
}

pub broadcast proof fn lemma_pairs_view_index(s: Seq<(String, Vec<u8>)>, i: int)
    requires
        0 <= i < s.len(),
    ensures
        #[trigger] pairs_view(s)[i] == pair_view(s[i]),
{
}

/// Whether some pair in `s` has key `k`.
pub open spec fn contains_key(s: Seq<(Seq<char>, Seq<u8>)>, k: Seq<char>) -> bool {
    exists|i: int| 0 <= i < s.len() && #[trigger] s[i].0 == k
}

/// The value stored under `k`; meaningful when `k` occurs exactly once.
pub open spec fn value_of(s: Seq<(Seq<char>, Seq<u8>)>, k: Seq<char>) -> Seq<u8> {
    s[choose|i: int| 0 <= i < s.len() && #[trigger] s[i].0 == k].1
}

/// No two pairs share a key.
pub open spec fn distinct_keys(s: Seq<(Seq<char>, Seq<u8>)>) -> bool {
    forall|i: int, j: int| 0 <= i < j < s.len() ==> #[trigger] s[i].0 != #[trigger] s[j].0
}

/// `s` with the value under `k` replaced by `v` (keys and order unchanged).
pub open spec fn update_at(s: Seq<(Seq<char>, Seq<u8>)>, k: Seq<char>, v: Seq<u8>) -> Seq<
    (Seq<char>, Seq<u8>),
> {
    Seq::new(s.len(), |i: int| if s[i].0 == k { (s[i].0, v) } else { s[i] })
}

/// Store `v` under `k`: replace in place when the key is present, append
/// otherwise.
pub open spec fn put(s: Seq<(Seq<char>, Seq<u8>)>, k: Seq<char>, v: Seq<u8>) -> Seq<
    (Seq<char>, Seq<u8>),
> {
    if contains_key(s, k) {
        update_at(s, k, v)
    } else {
        s.push((k, v))
    }
}

/// Store every pair of `items` into `s`, oldest first.
pub open spec fn put_all(s: Seq<(Seq<char>, Seq<u8>)>, items: Seq<(Seq<char>, Seq<u8>)>) -> Seq<
    (Seq<char>, Seq<u8>),
>
    decreases items.len(),
{
    if items.len() == 0 {
        s
    } else {
        put_all(put(s, items[0].0, items[0].1), items.drop_first())
    }
}

/// One step of the cache transition: what `insert` does to the resident
/// entries and the pending area.
pub open spec fn spec_insert(
    entries: Seq<(Seq<char>, Seq<u8>)>,
    pending: Seq<(Seq<char>, Seq<u8>)>,
    max_items: int,
    k: Seq<char>,
    v: Seq<u8>,
) -> (Seq<(Seq<char>, Seq<u8>)>, Seq<(Seq<char>, Seq<u8>)>) {
    if contains_key(entries, k) {
        (update_at(entries, k, v), pending)
    } else if entries.len() >= max_items {
        (entries.drop_first().push((k, v)), put(pending, entries[0].0, entries[0].1))
    } else {
        (entries.push((k, v)), pending)
    }
}

/// The cache transition folded over a list of inserts, oldest first.
pub open spec fn spec_insert_all(
    entries: Seq<(Seq<char>, Seq<u8>)>,
    pending: Seq<(Seq<char>, Seq<u8>)>,
    max_items: int,
    items: Seq<(Seq<char>, Seq<u8>)>,
) -> (Seq<(Seq<char>, Seq<u8>)>, Seq<(Seq<char>, Seq<u8>)>)
    decreases items.len(),
{
    if items.len() == 0 {
        (entries, pending)
    } else {
        let prev = spec_insert_all(entries, pending, max_items, items.drop_last());
        spec_insert(prev.0, prev.1, max_items, items.last().0, items.last().1)
    }
}

/// Folding distinct inserts into an empty cache keeps the newest
/// `max_items` of them resident, in insertion order, and stages exactly the
/// overflow, oldest first.
pub proof fn lemma_insert_all_from_empty(items: Seq<(Seq<char>, Seq<u8>)>, max_items: int)
    requires
        distinct_keys(items),
        max_items >= 1,
    ensures
        ({
            let r = spec_insert_all(Seq::empty(), Seq::empty(), max_items, items);
            &&& items.len() <= max_items ==> r.0 == items && r.1 == Seq::<
                (Seq<char>, Seq<u8>),
            >::empty()
            &&& items.len() > max_items ==> r.0 == items.subrange(
                items.len() - max_items,
                items.len() as int,
            ) && r.1 == items.subrange(0, items.len() - max_items)
        }),
    decreases items.len(),
{
    let r = spec_insert_all(Seq::empty(), Seq::empty(), max_items, items);
    if items.len() == 0 {
        assert(r.0 =~= items);
    } else {
        let len = items.len() as int;
        let pre = items.drop_last();
        let last = items.last();
        assert(distinct_keys(pre));
        lemma_insert_all_from_empty(pre, max_items);
        let prev = spec_insert_all(Seq::empty(), Seq::empty(), max_items, pre);
        if pre.len() < max_items {
            assert(prev.0 == pre);
            assert forall|i: int| 0 <= i < prev.0.len() implies prev.0[i].0 != last.0 by {
                assert(items[i].0 != items[len - 1].0);
            }
            assert(!contains_key(prev.0, last.0));
            assert(r.0 =~= items);
        } else if pre.len() == max_items {
            assert(prev.0 == pre);
            assert forall|i: int| 0 <= i < prev.0.len() implies prev.0[i].0 != last.0 by {
                assert(items[i].0 != items[len - 1].0);
            }
            assert(!contains_key(prev.0, last.0));
            assert(r.0 =~= items.subrange(len - max_items, len));
            assert(!contains_key(prev.1, pre[0].0));
            assert(r.1 =~= items.subrange(0, len - max_items));
        } else {
            let a = pre.len() - max_items;
            assert(prev.0 == pre.subrange(a, pre.len() as int));
            assert(prev.1 == pre.subrange(0, a));
            assert forall|i: int| 0 <= i < prev.0.len() implies prev.0[i].0 != last.0 by {
                assert(prev.0[i] == items[a + i]);
                assert(items[a + i].0 != items[len - 1].0);
            }
            assert(!contains_key(prev.0, last.0));
            assert(prev.0.len() == max_items);
            assert(r.0 =~= items.subrange(len - max_items, len));
            assert(prev.0[0] == items[a]);
            assert forall|i: int| 0 <= i < prev.1.len() implies prev.1[i].0 != prev.0[0].0 by {
                assert(prev.1[i] == items[i]);
                assert(items[i].0 != items[a].0);
            }
            assert(!contains_key(prev.1, prev.0[0].0));
            assert(r.1 =~= items.subrange(0, len - max_items));
        }
    }
}

/// FIFO eviction: with capacity `k`, after `k + 1` inserts of distinct keys
/// into an empty cache, the first-inserted key has left the resident tier
/// for the pending area, and the other `k` keys remain resident.
pub proof fn lemma_fifo_eviction(items: Seq<(Seq<char>, Seq<u8>)>, k: int)
    requires
        distinct_keys(items),
        items.len() == k + 1,
        k >= 1,
    ensures
        ({
            let r = spec_insert_all(Seq::empty(), Seq::empty(), k, items);
            &&& !contains_key(r.0, items[0].0)
            &&& contains_key(r.1, items[0].0)
            &&& forall|i: int| 1 <= i <= k ==> contains_key(r.0, #[trigger] items[i].0)
        }),
{
    lemma_insert_all_from_empty(items, k);
    let r = spec_insert_all(Seq::empty(), Seq::empty(), k, items);
    assert(r.0 == items.subrange(1, k + 1));
    assert(r.1 == items.subrange(0, 1));
    assert forall|i: int| 0 <= i < r.0.len() implies r.0[i].0 != items[0].0 by {
        assert(r.0[i] == items[i + 1]);
        assert(items[0].0 != items[i + 1].0);
    }
    assert(r.1[0] == items[0]);
    assert forall|i: int| 1 <= i <= k implies contains_key(r.0, #[trigger] items[i].0) by {
        assert(r.0[i - 1] == items[i]);
    }
}

/// Batch drain: after `k + n` inserts of distinct keys into an empty cache
/// of capacity `k`, exactly the first `n` pairs are staged, so a drain of
/// batch size `n` removes them all and empties the pending area.
pub proof fn lemma_batch_drain(items: Seq<(Seq<char>, Seq<u8>)>, k: int, n: int)
    requires
        distinct_keys(items),
        items.len() == k + n,
        k >= 1,
        n >= 1,
    ensures
        ({
            let r = spec_insert_all(Seq::empty(), Seq::empty(), k, items);
            &&& r.1 == items.subrange(0, n)
            &&& r.1.len() == n
            &&& r.1.subrange(n, r.1.len() as int) == Seq::<(Seq<char>, Seq<u8>)>::empty()
        }),
{
    lemma_insert_all_from_empty(items, k);
    let r = spec_insert_all(Seq::empty(), Seq::empty(), k, items);
    assert(r.1.subrange(n, r.1.len() as int) =~= Seq::<(Seq<char>, Seq<u8>)>::empty());
}

/// Bounded FIFO cache with a pending-write staging area.
pub struct MemoryCache {
    entries: Vec<(String, Vec<u8>)>,
    pending: Vec<(String, Vec<u8>)>,
    max_items: usize,
}

impl MemoryCache {
    /// Resident entries, oldest first.
    pub closed spec fn entries_view(&self) -> Seq<(Seq<char>, Seq<u8>)> {
        pairs_view(self.entries@)
    }

    /// Entries staged for persistence.
    pub closed spec fn pending_view(&self) -> Seq<(Seq<char>, Seq<u8>)> {
        pairs_view(self.pending@)
    }

    /// The configured capacity of the resident tier.
    pub closed spec fn spec_max_items(&self) -> usize {
        self.max_items
    }

    /// Well-formedness: unique keys on both sides and the capacity bound.
    pub open spec fn wf(&self) -> bool {
        &&& distinct_keys(self.entries_view())
        &&& distinct_keys(self.pending_view())
        &&& self.entries_view().len() <= self.spec_max_items()
        &&& self.spec_max_items() >= 1
    }

    pub fn new(max_items: usize) -> (r: Self)
        requires
            max_items >= 1,
        ensures
            r.wf(),
            r.entries_view().len() == 0,
            r.pending_view().len() == 0,
            r.spec_max_items() == max_items,
    {
        let r = MemoryCache { entries: Vec::new(), pending: Vec::new(), max_items };
        proof {
            assert(r.entries_view() =~= Seq::empty());
            assert(r.pending_view() =~= Seq::empty());
        }
        r
    }

    /// Looks a key up among the resident entries.
    pub fn get(&self, key: &str) -> (r: Option<Vec<u8>>)
        requires
            self.wf(),
        ensures
            match r {
                Some(v) => contains_key(self.entries_view(), key@) && v@ == value_of(
                    self.entries_view(),
                    key@,
                ),
                None => !contains_key(self.entries_view(), key@),
            },
    {
        broadcast use lemma_pairs_view_index;

        match find_key(&self.entries, key) {
            Some(i) => {
                proof {
                    let s = self.entries_view();
                    assert(s[i as int].0 == key@);
                    let j = choose|j: int| 0 <= j < s.len() && #[trigger] s[j].0 == key@;
                    assert(j == i as int);
                }
                Some(clone_bytes(&self.entries[i].1))
            },
            None => None,
        }
    }

    /// Inserts a pair. A key already resident has its value replaced in
    /// place; a new key is appended, evicting the oldest entry into the
    /// pending area when the cache is full.
    pub fn insert(&mut self, key: String, value: Vec<u8>)
        requires
            old(self).wf(),
        ensures
            final(self).wf(),
            (final(self).entries_view(), final(self).pending_view()) == spec_insert(
                old(self).entries_view(),
                old(self).pending_view(),
                old(self).spec_max_items() as int,
                key@,
                value@,
            ),
            final(self).spec_max_items() == old(self).spec_max_items(),
    {
        broadcast use lemma_pairs_view_index;

        let ghost old_entries = self.entries_view();
        let ghost old_pending = self.pending_view();
        match find_key(&self.entries, key.as_str()) {
            Some(i) => {
                self.entries[i] = (key, value);
                proof {
                    let s = self.entries_view();
                    let t = update_at(old_entries, key@, value@);
                    assert forall|a: int| 0 <= a < s.len() implies s[a] == t[a] by {
                        assert(pairs_view(self.entries@)[a] == pair_view(self.entries@[a]));
                        if a != i as int {
                            assert(old_entries[a].0 != old_entries[i as int].0);
                        }
                    }
                    assert(s =~= t);
                    assert forall|a: int, b: int| 0 <= a < b < s.len() implies s[a].0 != s[b].0 by {
                        assert(old_entries[a].0 != old_entries[b].0);
                    }
                }
            },
            None => {
                if self.entries.len() == self.max_items {
                    let ghost prev = self.entries@;
                    let oldest = self.entries.remove(0);
                    self.put_pending(oldest.0, oldest.1);
                    self.entries.push((key, value));
                    proof {
                        let s = self.entries_view();
                        let t = old_entries.drop_first().push((key@, value@));
                        assert forall|a: int| 0 <= a < s.len() implies s[a] == t[a] by {
                            assert(pairs_view(self.entries@)[a] == pair_view(self.entries@[a]));
                            if a < s.len() - 1 {
                                assert(self.entries@[a] == prev[a + 1]);
                                assert(pairs_view(prev)[a + 1] == pair_view(prev[a + 1]));
                            }
                        }
                        assert(s =~= t);
                        assert forall|a: int, b: int|
                            0 <= a < b < s.len() implies s[a].0 != s[b].0 by {
                            if b < s.len() - 1 {
                                assert(old_entries[a + 1].0 != old_entries[b + 1].0);
                            } else {
                                assert(s[a] == old_entries[a + 1]);
                                assert(!contains_key(old_entries, key@));
                            }
                        }
                    }
                } else {
                    let ghost prev = self.entries@;
                    self.entries.push((key, value));
                    proof {
                        let s = self.entries_view();
                        let t = old_entries.push((key@, value@));
                        assert forall|a: int| 0 <= a < s.len() implies s[a] == t[a] by {
                            assert(pairs_view(self.entries@)[a] == pair_view(self.entries@[a]));
                            if a < s.len() - 1 {
                                assert(pairs_view(prev)[a] == pair_view(prev[a]));
                            }
                        }
                        assert(s =~= t);
                        assert forall|a: int, b: int|
                            0 <= a < b < s.len() implies s[a].0 != s[b].0 by {
                            if b < s.len() - 1 {
                                assert(old_entries[a].0 != old_entries[b].0);
                            } else {
                                assert(s[a] == old_entries[a]);
                                assert(!contains_key(old_entries, key@));
                            }
                        }
                    }
                }
            },
        }
    }

    /// Moves `v` into the pending area under `k`.
    fn put_pending(&mut self, k: String, v: Vec<u8>)
        requires
            distinct_keys(old(self).pending_view()),
        ensures
            final(self).pending_view() == put(old(self).pending_view(), k@, v@),
            distinct_keys(final(self).pending_view()),
            final(self).entries == old(self).entries,
            final(self).max_items == old(self).max_items,
    {
        broadcast use lemma_pairs_view_index;

        let ghost old_pending = self.pending_view();
        match find_key(&self.pending, k.as_str()) {
            Some(i) => {
                self.pending[i] = (k, v);
                proof {
                    let s = self.pending_view();
                    let t = update_at(old_pending, k@, v@);
                    assert forall|a: int| 0 <= a < s.len() implies s[a] == t[a] by {
                        assert(pairs_view(self.pending@)[a] == pair_view(self.pending@[a]));
                        if a != i as int {
                            assert(old_pending[a].0 != old_pending[i as int].0);
                        }
                    }
                    assert(s =~= t);
                    assert forall|a: int, b: int| 0 <= a < b < s.len() implies s[a].0 != s[b].0 by {
                        assert(old_pending[a].0 != old_pending[b].0);
                    }
                }
            },
            None => {
                let ghost prev = self.pending@;
                self.pending.push((k, v));
                proof {
                    let s = self.pending_view();
                    let t = old_pending.push((k@, v@));
                    assert forall|a: int| 0 <= a < s.len() implies s[a] == t[a] by {
                        assert(pairs_view(self.pending@)[a] == pair_view(self.pending@[a]));
                        if a < s.len() - 1 {
                            assert(pairs_view(prev)[a] == pair_view(prev[a]));
                        }
                    }
                    assert(s =~= t);
                    assert forall|a: int, b: int| 0 <= a < b < s.len() implies s[a].0 != s[b].0 by {
                        if b < s.len() - 1 {
                            assert(old_pending[a].0 != old_pending[b].0);
                        } else {
                            assert(s[a] == old_pending[a]);
                            assert(!contains_key(old_pending, k@));
                        }
                    }
                }
            },
        }
    }

    /// Removes and returns up to `batch_size` staged pairs, oldest first.
    pub fn take_pending_writes(&mut self, batch_size: usize) -> (r: Vec<(String, Vec<u8>)>)
        requires
            old(self).wf(),
        ensures
            final(self).wf(),
            r@.len() == vstd::math::min(batch_size as int, old(self).pending_view().len() as int),
            pairs_view(r@) == old(self).pending_view().subrange(0, r@.len() as int),
            final(self).pending_view() == old(self).pending_view().subrange(
                r@.len() as int,
                old(self).pending_view().len() as int,
            ),
            final(self).entries_view() == old(self).entries_view(),
            final(self).spec_max_items() == old(self).spec_max_items(),
    {
        broadcast use lemma_pairs_view_index;

        let ghost old_pending = self.pending_view();
        let mut r: Vec<(String, Vec<u8>)> = Vec::new();
        let m = if batch_size < self.pending.len() {
            batch_size
        } else {
            self.pending.len()
        };
        let mut j: usize = 0;
        while j < m
            invariant
                j <= m,
                m == vstd::math::min(batch_size as int, old_pending.len() as int),
                self.pending@.len() == old_pending.len() - j,
                pairs_view(r@) =~= old_pending.subrange(0, j as int),
                self.pending_view() =~= old_pending.subrange(j as int, old_pending.len() as int),
                r@.len() == j,
                self.entries_view() == old(self).entries_view(),
                self.spec_max_items() == old(self).spec_max_items(),
                distinct_keys(self.entries_view()),
                self.entries_view().len() <= self.spec_max_items(),
                self.spec_max_items() >= 1,
            decreases m - j,
        {
            let ghost prev = self.pending@;
            let p = self.pending.remove(0);
            proof {
                assert(pairs_view(prev)[0] == pair_view(prev[0]));
            }
            r.push(p);
            j += 1;
            proof {
                assert forall|i: int| 0 <= i < self.pending@.len() implies pairs_view(
                    self.pending@,
                )[i] == old_pending[j + i] by {
                    assert(self.pending@[i] == prev[i + 1]);
                    assert(pairs_view(prev)[i + 1] == pair_view(prev[i + 1]));
                }
                assert(pairs_view(r@) =~= old_pending.subrange(0, j as int));
                assert(self.pending_view() =~= old_pending.subrange(
                    j as int,
                    old_pending.len() as int,
                ));
            }
        }
        proof {
            assert forall|a: int, b: int|
                0 <= a < b < self.pending_view().len() implies self.pending_view()[a].0
                != self.pending_view()[b].0 by {
                assert(old_pending[j + a].0 != old_pending[j + b].0);
            }
        }
        r
    }

    /// Moves every resident entry into the pending area, oldest first, and
    /// returns the moved pairs in that order.
    pub fn flush_all_to_pending(&mut self) -> (r: Vec<(String, Vec<u8>)>)
        requires
            old(self).wf(),
        ensures
            final(self).wf(),
            pairs_view(r@) == old(self).entries_view(),
            final(self).entries_view().len() == 0,
            final(self).pending_view() == put_all(
                old(self).pending_view(),
                old(self).entries_view(),
            ),
            final(self).spec_max_items() == old(self).spec_max_items(),
    {
        broadcast use lemma_pairs_view_index;

        let ghost old_entries = self.entries_view();
        let ghost old_pending = self.pending_view();
        let mut r: Vec<(String, Vec<u8>)> = Vec::new();
        while self.entries.len() > 0
            invariant
                distinct_keys(self.pending_view()),
                distinct_keys(self.entries_view()),
                self.entries_view().len() <= self.spec_max_items(),
                self.spec_max_items() >= 1,
                r@.len() + self.entries@.len() == old_entries.len(),
                pairs_view(r@) =~= old_entries.subrange(0, r@.len() as int),
                self.entries_view() =~= old_entries.subrange(
                    r@.len() as int,
                    old_entries.len() as int,
                ),
                put_all(old_pending, old_entries) == put_all(
                    self.pending_view(),
                    self.entries_view(),
                ),
                self.spec_max_items() == old(self).spec_max_items(),
            decreases self.entries@.len(),
        {
            let ghost pending_before = self.pending_view();
            let ghost entries_before = self.entries_view();
            let ghost prev = self.entries@;
            let e = self.entries.remove(0);
            proof {
                assert(pairs_view(prev)[0] == pair_view(prev[0]));
            }
            let key_copy = clone_string(&e.0);
            let value_copy = clone_bytes(&e.1);
            self.put_pending(key_copy, value_copy);
            r.push(e);
            proof {
                assert forall|i: int| 0 <= i < self.entries@.len() implies pairs_view(
                    self.entries@,
                )[i] == entries_before[i + 1] by {
                    assert(self.entries@[i] == prev[i + 1]);
                    assert(pairs_view(prev)[i + 1] == pair_view(prev[i + 1]));
                }
                assert(pairs_view(r@) =~= old_entries.subrange(0, r@.len() as int));
                assert(self.entries_view() =~= entries_before.drop_first());
                assert(self.entries_view() =~= old_entries.subrange(
                    r@.len() as int,
                    old_entries.len() as int,
                ));
                assert(self.pending_view() == put(
                    pending_before,
                    entries_before[0].0,
                    entries_before[0].1,
                ));
                assert(put_all(pending_before, entries_before) == put_all(
                    self.pending_view(),
                    entries_before.drop_first(),
                ));
            }
        }
        proof {
            assert(pairs_view(r@) =~= old_entries);
            assert(self.entries_view() =~= Seq::empty());
            assert(put_all(self.pending_view(), self.entries_view()) == self.pending_view());
        }
        r
    }

    /// Number of staged pairs.
    pub fn pending_count(&self) -> (r: usize)
        ensures
            r == self.pending_view().len(),
    {
        self.pending.len()
    }

    /// Number of resident entries.
    pub fn cache_count(&self) -> (r: usize)
        ensures
            r == self.entries_view().len(),
    {
        self.entries.len()
    }
}

/// Index of the pair whose key equals `key`, if any.
fn find_key(v: &Vec<(String, Vec<u8>)>, key: &str) -> (r: Option<usize>)
    ensures
        match r {
            Some(i) => i < v@.len() && pairs_view(v@)[i as int].0 == key@,
            None => !contains_key(pairs_view(v@), key@),
        },
{
    broadcast use lemma_pairs_view_index;

    let n = v.len();
    let mut i: usize = 0;
    while i < n
        invariant
            i <= n,
            n == v@.len(),
            forall|j: int| 0 <= j < i ==> #[trigger] pairs_view(v@)[j].0 != key@,
        decreases n - i,
    {
        if str_eq(v[i].0.as_str(), key) {
            return Some(i);
        }
        i += 1;
    }
    None
}

/// Byte-copy of a blob.
pub fn clone_bytes(v: &Vec<u8>) -> (r: Vec<u8>)
    ensures
        r@ == v@,
{
    let mut r: Vec<u8> = Vec::new();
    let n = v.len();
    let mut i: usize = 0;
    while i < n
        invariant
            i <= n,
            n == v@.len(),
            r@ =~= v@.subrange(0, i as int),
        decreases n - i,
    {
        r.push(v[i]);
        i += 1;
    }
    proof {
        assert(r@ =~= v@);
    }
    r
}

/// Copy of a string.
pub fn clone_string(s: &String) -> (r: String)
    ensures
        r@ == s@,
{
    s.clone()
}

/// Relies on `str::eq` (the `==` operator of string slices): equality of
/// the underlying character sequences.
#[verifier::external_body]
pub fn str_eq(a: &str, b: &str) -> (r: bool)
    ensures
        r == (a@ == b@),
{
    a == b
}

} // verus!

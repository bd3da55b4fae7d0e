//! An ordered collection of [`ItemStats`] records sharing one reference
//! time and one half-life.
//!
//! Storage order is always sorted by key, so lookup is a binary search;
//! score order is computed on demand by [`FrecencyStore::sorted`].

use crate::args::SortMethod;
use crate::decay::{
    anchored, exponent_units, lemma_anchor_at_zero, lemma_decay_at_zero, lemma_zero_exponent,
    round_units, FREC_LIMIT, MAX_EXPONENT, SCALE, TIME_LIMIT,
};
use crate::keys::{chars_lt, cmp_keys, lemma_chars_lt_trans, lemma_chars_trichotomy};
use crate::stats::ItemStats;
use core::cmp::Ordering;
use vstd::prelude::*;
use vstd::string::StringExecFns;

verus! {

/// The half-life given to a store created from scratch: three days, in
/// seconds.
pub const DEFAULT_HALF_LIFE: i64 = 259200;

/// Every key strictly precedes the keys after it.
pub open spec fn keys_sorted(items: Seq<ItemStats>) -> bool {
    forall|i: int, j: int|
        0 <= i < j < items.len() ==> chars_lt(items[i].item@, items[j].item@)
}

/// No two records share a key.
pub open spec fn keys_unique(items: Seq<ItemStats>) -> bool {
    forall|i: int, j: int|
        0 <= i < j < items.len() ==> items[i].item@ != items[j].item@
}

/// Some record carries the given key.
pub open spec fn contains_key(items: Seq<ItemStats>, key: Seq<char>) -> bool {
    exists|i: int| 0 <= i < items.len() && items[i].item@ == key
}

/// The first record carrying the given key, if any.
pub open spec fn spec_find(items: Seq<ItemStats>, key: Seq<char>) -> Option<ItemStats>
    decreases items.len(),
{
    if items.len() == 0 {
        None
    } else if items[0].item@ == key {
        Some(items[0])
    } else {
        spec_find(items.drop_first(), key)
    }
}

/// Key-sorted storage leaves no room for a duplicate key.
pub proof fn lemma_sorted_keys_unique(items: Seq<ItemStats>)
    requires
        keys_sorted(items),
    ensures
        keys_unique(items),
{
    assert forall|i: int, j: int|
        0 <= i < j < items.len() implies items[i].item@ != items[j].item@ by {
        lemma_chars_trichotomy(items[i].item@, items[j].item@);
    }
}

/// With unique keys, the record found for a key is the record at any index
/// that carries it.
proof fn lemma_find_at(items: Seq<ItemStats>, key: Seq<char>, i: int)
    requires
        keys_unique(items),
        0 <= i < items.len(),
        items[i].item@ == key,
    ensures
        spec_find(items, key) == Some(items[i]),
    decreases i,
{
    if i > 0 {
        let rest = items.drop_first();
        assert(items[0].item@ != key);
        assert(keys_unique(rest)) by {
            assert(forall|a: int, b: int|
                0 <= a < b < rest.len() ==> #[trigger] rest[a].item@ == items[a + 1].item@
                    && #[trigger] rest[b].item@ == items[b + 1].item@);
        }
        assert(rest[i - 1] == items[i]);
        lemma_find_at(rest, key, i - 1);
    }
}

/// A key carried by no record is found nowhere.
proof fn lemma_find_none(items: Seq<ItemStats>, key: Seq<char>)
    requires
        forall|i: int| 0 <= i < items.len() ==> items[i].item@ != key,
    ensures
        spec_find(items, key) == None::<ItemStats>,
    decreases items.len(),
{
    if items.len() > 0 {
        let rest = items.drop_first();
        assert(forall|i: int|
            0 <= i < rest.len() ==> #[trigger] rest[i].item@ == items[i + 1].item@);
        lemma_find_none(rest, key);
    }
}

/// A key is found exactly when some record carries it.
pub proof fn lemma_find_contains(items: Seq<ItemStats>, key: Seq<char>)
    ensures
        spec_find(items, key) is Some <==> contains_key(items, key),
    decreases items.len(),
{
    if items.len() > 0 && items[0].item@ != key {
        let rest = items.drop_first();
        lemma_find_contains(rest, key);
        assert(forall|i: int|
            0 <= i < rest.len() ==> #[trigger] rest[i] == items[i + 1]);
        if contains_key(items, key) {
            let i = choose|i: int| 0 <= i < items.len() && items[i].item@ == key;
            assert(rest[i - 1].item@ == key);
        }
        if contains_key(rest, key) {
            let i = choose|i: int| 0 <= i < rest.len() && rest[i].item@ == key;
            assert(items[i + 1].item@ == key);
        }
    }
}

/// Replacing the record at `i` leaves every other key's find unchanged.
proof fn lemma_find_update_other(items: Seq<ItemStats>, i: int, v: ItemStats, k: Seq<char>)
    requires
        0 <= i < items.len(),
        k != v.item@,
        k != items[i].item@,
    ensures
        spec_find(items.update(i, v), k) == spec_find(items, k),
    decreases items.len(),
{
    let u = items.update(i, v);
    if i == 0 {
        assert(u.drop_first() =~= items.drop_first());
    } else {
        assert(u[0] == items[0]);
        if items[0].item@ != k {
            assert(u.drop_first() =~= items.drop_first().update(i - 1, v));
            lemma_find_update_other(items.drop_first(), i - 1, v, k);
        }
    }
}

/// Inserting a record leaves every other key's find unchanged.
proof fn lemma_find_insert_other(items: Seq<ItemStats>, i: int, v: ItemStats, k: Seq<char>)
    requires
        0 <= i <= items.len(),
        k != v.item@,
    ensures
        spec_find(items.insert(i, v), k) == spec_find(items, k),
    decreases items.len(),
{
    let u = items.insert(i, v);
    if i == 0 {
        assert(u[0] == v);
        assert(u.drop_first() =~= items);
    } else {
        assert(u[0] == items[0]);
        if items[0].item@ != k {
            assert(u.drop_first() =~= items.drop_first().insert(i - 1, v));
            lemma_find_insert_other(items.drop_first(), i - 1, v, k);
        }
    }
}

/// A freshly inserted record is what its key finds, provided the key was
/// absent before.
proof fn lemma_find_insert_self(items: Seq<ItemStats>, i: int, v: ItemStats)
    requires
        0 <= i <= items.len(),
        forall|j: int| 0 <= j < items.len() ==> items[j].item@ != v.item@,
    ensures
        spec_find(items.insert(i, v), v.item@) == Some(v),
    decreases i,
{
    let u = items.insert(i, v);
    if i == 0 {
        assert(u[0] == v);
    } else {
        assert(u[0] == items[0]);
        assert(items[0].item@ != v.item@);
        assert(u.drop_first() =~= items.drop_first().insert(i - 1, v));
        assert(forall|j: int|
            0 <= j < items.drop_first().len() ==> #[trigger] items.drop_first()[j].item@
                == items[j + 1].item@);
        lemma_find_insert_self(items.drop_first(), i - 1, v);
    }
}

/// Removing the record at `i` leaves every other key's find unchanged.
proof fn lemma_find_remove_other(items: Seq<ItemStats>, i: int, k: Seq<char>)
    requires
        0 <= i < items.len(),
        k != items[i].item@,
    ensures
        spec_find(items.remove(i), k) == spec_find(items, k),
    decreases items.len(),
{
    let u = items.remove(i);
    if i == 0 {
        assert(u =~= items.drop_first());
    } else {
        assert(u[0] == items[0]);
        if items[0].item@ != k {
            assert(u.drop_first() =~= items.drop_first().remove(i - 1));
            lemma_find_remove_other(items.drop_first(), i - 1, k);
        }
    }
}

/// A collection of statistics about the stored items.
pub struct FrecencyStore {
    /// The time origin shared by every record.
    pub reference_time: i64,
    /// Decay half-life in seconds, shared by every record.
    pub half_life: i64,
    /// The records, sorted by key.
    pub items: Vec<ItemStats>,
}

impl FrecencyStore {
    /// Storage invariant: bounded shared parameters, every record
    /// well-formed and agreeing with them, and keys strictly sorted.
    pub open spec fn wf(self) -> bool {
        &&& 0 <= self.reference_time <= TIME_LIMIT
        &&& 0 < self.half_life <= TIME_LIMIT
        &&& keys_sorted(self.items@)
        &&& forall|i: int| 0 <= i < self.items@.len() ==> (#[trigger] self.items@[i]).wf()
        &&& forall|i: int|
            0 <= i < self.items@.len() ==> (#[trigger] self.items@[i]).half_life
                == self.half_life && self.items@[i].reference_time == self.reference_time
    }

    /// The decay exponent shared by every record at time `now`.
    pub open spec fn exponent_at(self, now: int) -> int {
        exponent_units(now - self.reference_time, self.half_life as int)
    }

    /// `now` lies ahead of the shared anchor, near enough that decay
    /// factors stay within the machine's range.
    pub open spec fn within_window(self, now: int) -> bool {
        &&& self.reference_time <= now <= TIME_LIMIT
        &&& self.exponent_at(now) <= MAX_EXPONENT * SCALE
    }

    /// Create an empty store.
    pub fn new(reference_time: i64, half_life: i64) -> (r: FrecencyStore)
        requires
            0 <= reference_time <= TIME_LIMIT,
            0 < half_life <= TIME_LIMIT,
        ensures
            r.reference_time == reference_time,
            r.half_life == half_life,
            r.items@.len() == 0,
            r.wf(),
    {
        FrecencyStore { reference_time, half_life, items: Vec::new() }
    }

    /// Binary search for a key: `Ok` carries the position of the matching
    /// record, `Err` the position where it would be inserted.
    fn find_index(&self, item: &str) -> (r: Result<usize, usize>)
        requires
            self.wf(),
        ensures
            match r {
                Ok(i) => i < self.items@.len() && self.items@[i as int].item@ == item@,
                Err(i) => {
                    &&& i <= self.items@.len()
                    &&& forall|j: int|
                        0 <= j < i ==> chars_lt(#[trigger] self.items@[j].item@, item@)
                    &&& forall|j: int|
                        i <= j < self.items@.len() ==> chars_lt(
                            item@,
                            #[trigger] self.items@[j].item@,
                        )
                },
            },
    {
        let mut lo: usize = 0;
        let mut hi: usize = self.items.len();
        while lo < hi
            invariant
                self.wf(),
                lo <= hi <= self.items@.len(),
                forall|j: int| 0 <= j < lo ==> chars_lt(#[trigger] self.items@[j].item@, item@),
                forall|j: int|
                    hi <= j < self.items@.len() ==> chars_lt(item@, #[trigger] self.items@[j].item@),
            decreases hi - lo,
        {
            let mid = lo + (hi - lo) / 2;
            match cmp_keys(self.items[mid].item.as_str(), item) {
                Ordering::Less => {
                    assert forall|j: int| 0 <= j < mid + 1 implies chars_lt(
                        #[trigger] self.items@[j].item@,
                        item@,
                    ) by {
                        if j < mid {
                            lemma_chars_lt_trans(
                                self.items@[j].item@,
                                self.items@[mid as int].item@,
                                item@,
                            );
                        }
                    }
                    lo = mid + 1;
                },
                Ordering::Greater => {
                    assert forall|j: int| mid <= j < self.items@.len() implies chars_lt(
                        item@,
                        #[trigger] self.items@[j].item@,
                    ) by {
                        if j > mid {
                            lemma_chars_lt_trans(
                                item@,
                                self.items@[mid as int].item@,
                                self.items@[j].item@,
                            );
                        }
                    }
                    hi = mid;
                },
                Ordering::Equal => {
                    return Result::Ok(mid);
                },
            }
        }
        Result::Err(lo)
    }

    /// Position of the record for `item`, creating a fresh record at its
    /// sorted position when the key is new.
    pub fn get(&mut self, item: &str) -> (idx: usize)
        requires
            old(self).wf(),
        ensures
            final(self).wf(),
            final(self).reference_time == old(self).reference_time,
            final(self).half_life == old(self).half_life,
            idx < final(self).items@.len(),
            final(self).items@[idx as int].item@ == item@,
            spec_find(final(self).items@, item@) == Some(final(self).items@[idx as int]),
            forall|k: Seq<char>|
                k != item@ ==> spec_find(final(self).items@, k) == spec_find(old(self).items@, k),
            match spec_find(old(self).items@, item@) {
                Some(b) => *final(self) == *old(self) && b == final(self).items@[idx as int],
                None => {
                    &&& final(self).items@.len() == old(self).items@.len() + 1
                    &&& final(self).items@ == old(self).items@.insert(
                        idx as int,
                        final(self).items@[idx as int],
                    )
                    &&& final(self).items@[idx as int].half_life == old(self).half_life
                    &&& final(self).items@[idx as int].reference_time == old(
                        self,
                    ).reference_time
                    &&& final(self).items@[idx as int].frecency == 0
                    &&& final(self).items@[idx as int].last_accessed == 0
                    &&& final(self).items@[idx as int].num_accesses == 0
                },
            },
    {
        proof {
            lemma_sorted_keys_unique(self.items@);
        }
        match self.find_index(item) {
            Ok(idx) => {
                proof {
                    lemma_find_at(self.items@, item@, idx as int);
                }
                idx
            },
            Err(idx) => {
                let fresh = ItemStats::new(
                    String::from_str(item),
                    self.reference_time,
                    self.half_life,
                );
                proof {
                    assert forall|j: int|
                        0 <= j < self.items@.len() implies self.items@[j].item@ != item@ by {
                        if j < idx {
                            lemma_chars_trichotomy(self.items@[j].item@, item@);
                        } else {
                            lemma_chars_trichotomy(item@, self.items@[j].item@);
                        }
                    }
                    lemma_find_none(self.items@, item@);
                }
                let ghost pre = self.items@;
                self.items.insert(idx, fresh);
                proof {
                    assert(keys_sorted(self.items@)) by {
                        assert(forall|j: int|
                            0 <= j < idx ==> #[trigger] self.items@[j] == pre[j]);
                        assert(self.items@[idx as int] == fresh);
                        assert(forall|j: int|
                            idx < j < self.items@.len() ==> #[trigger] self.items@[j] == pre[j
                                - 1]);
                        assert forall|a: int, b: int|
                            0 <= a < b < self.items@.len() implies chars_lt(
                            self.items@[a].item@,
                            self.items@[b].item@,
                        ) by {
                            if a < idx && b == idx {
                            } else if a == idx && b > idx {
                            } else if a < idx && b > idx {
                                lemma_chars_lt_trans(pre[a].item@, item@, pre[b - 1].item@);
                            }
                        }
                    }
                    lemma_find_insert_self(pre, idx as int, fresh);
                    assert forall|k: Seq<char>| k != item@ implies spec_find(self.items@, k)
                        == spec_find(pre, k) by {
                        lemma_find_insert_other(pre, idx as int, fresh, k);
                    }
                }
                idx
            },
        }
    }

    /// The score the record for `key` shows at `now`: zero when the key is
    /// absent, as a fresh record would show.
    pub open spec fn base_score(self, key: Seq<char>, now: int) -> int {
        match spec_find(self.items@, key) {
            Some(b) => b.score_at(now),
            None => 0,
        }
    }

    /// The visit count of the record for `key`; zero when the key is absent.
    pub open spec fn base_accesses(self, key: Seq<char>) -> int {
        match spec_find(self.items@, key) {
            Some(b) => b.num_accesses as int,
            None => 0,
        }
    }

    /// The conditions under which a visit of fixed-point weight `weight`
    /// can be folded into the record for `key` at time `now` without the
    /// arithmetic leaving the machine's range.
    pub open spec fn can_visit(self, key: Seq<char>, weight: int, now: int) -> bool {
        &&& -FREC_LIMIT <= self.base_score(key, now) + weight <= FREC_LIMIT
        &&& -FREC_LIMIT <= anchored(self.base_score(key, now) + weight, self.exponent_at(now))
            <= FREC_LIMIT
        &&& i32::MIN <= round_units(weight) <= i32::MAX
        &&& i32::MIN <= self.base_accesses(key) + round_units(weight) <= i32::MAX
    }

    /// What add and adjust promise of the store afterwards: the record for
    /// `key` absorbed the visit, every other record is untouched.
    pub open spec fn visited(
        self,
        pre: FrecencyStore,
        key: Seq<char>,
        weight: int,
        now: int,
        touch: bool,
    ) -> bool {
        &&& self.wf()
        &&& self.reference_time == pre.reference_time
        &&& self.half_life == pre.half_life
        &&& self.items@.len() == pre.items@.len() + (if contains_key(pre.items@, key) {
            0int
        } else {
            1int
        })
        &&& forall|k: Seq<char>|
            k != key ==> spec_find(self.items@, k) == spec_find(pre.items@, k)
        &&& spec_find(self.items@, key) matches Some(st) && {
            &&& st.item@ == key
            &&& st.half_life == pre.half_life
            &&& st.reference_time == pre.reference_time
            &&& st.frecency == anchored(pre.base_score(key, now) + weight, pre.exponent_at(now))
            &&& st.num_accesses == pre.base_accesses(key) + round_units(weight)
            &&& st.last_accessed == (if touch {
                now - pre.reference_time
            } else {
                match spec_find(pre.items@, key) {
                    Some(b) => b.last_accessed as int,
                    None => 0int,
                }
            })
        }
    }

    /// Log a visit to an item: its score gains one at `now`, its access
    /// count gains one, and its last access is set to `now`.
    pub fn add(&mut self, item: &str, now: i64)
        requires
            old(self).wf(),
            old(self).within_window(now as int),
            old(self).can_visit(item@, SCALE as int, now as int),
        ensures
            final(self).visited(*old(self), item@, SCALE as int, now as int, true),
    {
        proof {
            assert(round_units(SCALE as int) == 1);
        }
        let idx = self.get(item);
        let ghost mid = *self;
        let mut st = self.items.remove(idx);
        proof {
            crate::decay::lemma_exponent_nonneg(
                now - old(self).reference_time,
                old(self).half_life as int,
            );
            if spec_find(old(self).items@, item@) is None {
                crate::decay::lemma_decay_of_zero(st.exponent_at(now as int));
            }
            assert(st.score_at(now as int) == old(self).base_score(item@, now as int));
        }
        st.update_frecency(SCALE as i64, now);
        st.update_num_accesses(1);
        st.update_last_access(now);
        self.items.insert(idx, st);
        proof {
            assert(self.items@ =~= mid.items@.update(idx as int, st));
            lemma_store_update(mid.items@, idx as int, st);
            lemma_find_contains(old(self).items@, item@);
        }
    }

    /// Adjust the score of an item by a fixed-point weight, which may be
    /// negative; the access count moves by the weight rounded to whole
    /// visits.
    pub fn adjust(&mut self, item: &str, weight: i64, now: i64)
        requires
            old(self).wf(),
            old(self).within_window(now as int),
            -FREC_LIMIT <= weight <= FREC_LIMIT,
            old(self).can_visit(item@, weight as int, now as int),
        ensures
            final(self).visited(*old(self), item@, weight as int, now as int, false),
    {
        let idx = self.get(item);
        let ghost mid = *self;
        let mut st = self.items.remove(idx);
        proof {
            crate::decay::lemma_exponent_nonneg(
                now - old(self).reference_time,
                old(self).half_life as int,
            );
            if spec_find(old(self).items@, item@) is None {
                crate::decay::lemma_decay_of_zero(st.exponent_at(now as int));
            }
            assert(st.score_at(now as int) == old(self).base_score(item@, now as int));
        }
        st.update_frecency(weight, now);
        let bump = crate::decay::round_units_exec(weight);
        st.update_num_accesses(bump as i32);
        self.items.insert(idx, st);
        proof {
            assert(self.items@ =~= mid.items@.update(idx as int, st));
            lemma_store_update(mid.items@, idx as int, st);
            lemma_find_contains(old(self).items@, item@);
        }
    }

    /// Delete an item from the store; deleting an absent key changes
    /// nothing.
    pub fn delete(&mut self, item: &str)
        requires
            old(self).wf(),
        ensures
            final(self).wf(),
            final(self).reference_time == old(self).reference_time,
            final(self).half_life == old(self).half_life,
            spec_find(final(self).items@, item@) == None::<ItemStats>,
            forall|k: Seq<char>|
                k != item@ ==> spec_find(final(self).items@, k) == spec_find(old(self).items@, k),
            !contains_key(old(self).items@, item@) ==> *final(self) == *old(self),
            final(self).items@.len() == old(self).items@.len() - (if contains_key(
                old(self).items@,
                item@,
            ) {
                1int
            } else {
                0int
            }),
    {
        proof {
            lemma_sorted_keys_unique(self.items@);
        }
        match self.find_index(item) {
            Ok(idx) => {
                let ghost pre = self.items@;
                self.items.remove(idx);
                proof {
                    assert(contains_key(pre, item@));
                    lemma_sorted_remove(pre, idx as int);
                    assert forall|j: int|
                        0 <= j < self.items@.len() implies self.items@[j].item@ != item@ by {
                        if j < idx {
                            assert(self.items@[j] == pre[j]);
                        } else {
                            assert(self.items@[j] == pre[j + 1]);
                        }
                    }
                    lemma_find_none(self.items@, item@);
                    assert forall|k: Seq<char>| k != item@ implies spec_find(self.items@, k)
                        == spec_find(pre, k) by {
                        lemma_find_remove_other(pre, idx as int, k);
                    }
                }
            },
            Err(i) => {
                proof {
                    assert forall|j: int|
                        0 <= j < self.items@.len() implies self.items@[j].item@ != item@ by {
                        if j < i {
                            lemma_chars_trichotomy(self.items@[j].item@, item@);
                        } else {
                            lemma_chars_trichotomy(item@, self.items@[j].item@);
                        }
                    }
                    lemma_find_none(self.items@, item@);
                }
            },
        }
    }
}

/// Non-strict "ranks at least as high" under a policy.
pub open spec fn rank_ge(a: ItemStats, b: ItemStats, method: SortMethod) -> bool {
    a.rank_of(method) >= b.rank_of(method)
}

/// A listing ranks highest first.
pub open spec fn ranked_high_to_low(s: Seq<ItemStats>, method: SortMethod) -> bool {
    forall|i: int, j: int| 0 <= i < j < s.len() ==> rank_ge(s[i], s[j], method)
}

/// Inserting an element anywhere adds exactly it to the bag of elements.
proof fn lemma_to_multiset_insert(s: Seq<ItemStats>, p: int, x: ItemStats)
    requires
        0 <= p <= s.len(),
    ensures
        s.insert(p, x).to_multiset() =~= s.to_multiset().insert(x),
{
    broadcast use vstd::seq_lib::group_to_multiset_ensures;

    let u = s.insert(p, x);
    assert(u.remove(p) =~= s);
    assert(u[p] == x);
    assert(u.remove(p).to_multiset() =~= u.to_multiset().remove(x));
    assert(u.to_multiset().contains(x)) by {
        assert(u.contains(x));
    }
    assert forall|y: ItemStats| s.to_multiset().insert(x).count(y) == u.to_multiset().count(
        y,
    ) by {
        assert(s.to_multiset().count(y) == u.to_multiset().remove(x).count(y));
    }
}

impl FrecencyStore {
    /// Return a copy of the items ranked from highest to lowest score
    /// under `sort_method`; ties land in no promised order. Storage order
    /// is untouched.
    pub fn sorted(&self, sort_method: SortMethod) -> (r: Vec<ItemStats>)
        ensures
            r@.to_multiset() == self.items@.to_multiset(),
            r@.len() == self.items@.len(),
            ranked_high_to_low(r@, sort_method),
    {
        broadcast use vstd::seq_lib::group_to_multiset_ensures;

        let mut out: Vec<ItemStats> = Vec::new();
        let mut i: usize = 0;
        proof {
            assert(self.items@.take(0) =~= Seq::<ItemStats>::empty());
            assert(out@.to_multiset() =~= self.items@.take(0).to_multiset());
        }
        while i < self.items.len()
            invariant
                i <= self.items@.len(),
                out@.len() == i,
                out@.to_multiset() == self.items@.take(i as int).to_multiset(),
                ranked_high_to_low(out@, sort_method),
            decreases self.items@.len() - i,
        {
            broadcast use vstd::seq_lib::group_to_multiset_ensures;

            let x = self.items[i].clone();
            let p = insert_pos(&out, &x, sort_method);
            let ghost pre = out@;
            out.insert(p, x);
            proof {
                assert(ranked_high_to_low(out@, sort_method)) by {
                    assert forall|a: int, b: int|
                        0 <= a < b < out@.len() implies rank_ge(out@[a], out@[b], sort_method) by {
                        if a < p && b == p {
                        } else if a == p && b > p {
                        } else if a < p && b > p {
                        }
                    }
                }
                lemma_to_multiset_insert(pre, p as int, x);
                assert(self.items@.take(i + 1) =~= self.items@.take(i as int).push(
                    self.items@[i as int],
                ));
                assert(self.items@.take(i + 1).to_multiset() == self.items@.take(
                    i as int,
                ).to_multiset().insert(self.items@[i as int]));
            }
            i = i + 1;
        }
        proof {
            assert(self.items@.take(self.items@.len() as int) =~= self.items@);
        }
        out
    }

    /// Remove all but the top `keep_num` records under `sort_method`,
    /// re-establishing key-sorted storage order. Every record kept ranks at
    /// least as high as every record dropped.
    pub fn truncate(&mut self, keep_num: usize, sort_method: SortMethod)
        requires
            old(self).wf(),
        ensures
            final(self).wf(),
            final(self).reference_time == old(self).reference_time,
            final(self).half_life == old(self).half_life,
            final(self).items@.len() == (if keep_num as int <= old(self).items@.len() {
                keep_num as int
            } else {
                old(self).items@.len() as int
            }),
            forall|i: int|
                0 <= i < final(self).items@.len() ==> spec_find(
                    old(self).items@,
                    (#[trigger] final(self).items@[i]).item@,
                ) == Some(final(self).items@[i]),
            forall|i: int, j: int|
                0 <= i < final(self).items@.len() && 0 <= j < old(self).items@.len()
                    && !contains_key(final(self).items@, old(self).items@[j].item@) ==> rank_ge(
                    #[trigger] final(self).items@[i],
                    #[trigger] old(self).items@[j],
                    sort_method,
                ),
    {
        broadcast use vstd::seq_lib::group_to_multiset_ensures;

        let ghost olds = self.items@;
        let mut kv = self.sorted(sort_method);
        let ghost kvfull = kv@;
        kv.truncate(keep_num);
        let ghost n = kv@.len() as int;
        proof {
            lemma_sorted_keys_unique(olds);
            lemma_perm_keys_unique(olds, kvfull);
            assert(keys_unique(kv@)) by {
                if keep_num as int <= kvfull.len() {
                    assert(forall|k: int| 0 <= k < n ==> kv@[k] == kvfull[k]);
                } else {
                    assert(kv@ == kvfull);
                }
            }
        }
        let w = sort_by_key(kv);
        proof {
            assert forall|i: int| 0 <= i < w@.len() implies exists|j: int|
                0 <= j < olds.len() && olds[j] == #[trigger] w@[i] by {
                assert(w@.contains(w@[i]));
                assert(kvfull.to_multiset().count(w@[i]) > 0) by {
                    if keep_num as int <= kvfull.len() {
                        assert(kv@.contains(w@[i])) by {
                            assert(kv@.to_multiset().count(w@[i]) > 0);
                        }
                        let s = choose|s: int| 0 <= s < n && kv@[s] == w@[i];
                        assert(kvfull[s] == w@[i]);
                        assert(kvfull.contains(w@[i]));
                    }
                }
                assert(olds.to_multiset().count(w@[i]) > 0);
                assert(olds.contains(w@[i]));
            }
        }
        self.items = w;
        proof {
            assert forall|i: int|
                0 <= i < self.items@.len() implies (#[trigger] self.items@[i]).wf()
                && self.items@[i].half_life == self.half_life
                && self.items@[i].reference_time == self.reference_time && spec_find(
                olds,
                self.items@[i].item@,
            ) == Some(self.items@[i]) by {
                let j = choose|j: int| 0 <= j < olds.len() && olds[j] == self.items@[i];
                lemma_find_at(olds, olds[j].item@, j);
            }
            assert forall|i: int, j: int|
                0 <= i < self.items@.len() && 0 <= j < olds.len() && !contains_key(
                    self.items@,
                    olds[j].item@,
                ) implies rank_ge(#[trigger] self.items@[i], #[trigger] olds[j], sort_method) by {
                let x = self.items@[i];
                let y = olds[j];
                assert(self.items@.contains(x));
                assert(kv@.to_multiset().count(x) > 0);
                assert(kv@.contains(x));
                let t = choose|t: int| 0 <= t < n && kv@[t] == x;
                assert(kvfull[t] == x);
                assert(olds.contains(y));
                assert(kvfull.to_multiset().count(y) > 0);
                assert(kvfull.contains(y));
                let s = choose|s: int| 0 <= s < kvfull.len() && kvfull[s] == y;
                if s < n {
                    assert(kv@[s] == y);
                    assert(kv@.contains(y));
                    assert(self.items@.to_multiset().count(y) > 0);
                    assert(self.items@.contains(y));
                    let iy = choose|iy: int|
                        0 <= iy < self.items@.len() && self.items@[iy] == y;
                    assert(contains_key(self.items@, y.item@));
                } else {
                    if t < s {
                        assert(rank_ge(kvfull[t], kvfull[s], sort_method));
                    }
                }
            }
        }
    }
}

/// The position in a high-to-low listing at which `x` belongs: everything
/// before it ranks at least as high, everything after it strictly lower.
fn insert_pos(out: &Vec<ItemStats>, x: &ItemStats, method: SortMethod) -> (p: usize)
    requires
        ranked_high_to_low(out@, method),
    ensures
        p <= out@.len(),
        forall|k: int| 0 <= k < p ==> rank_ge(out@[k], *x, method),
        forall|k: int| p <= k < out@.len() ==> x.rank_of(method) > out@[k].rank_of(method),
{
    let mut j: usize = 0;
    while j < out.len()
        invariant
            ranked_high_to_low(out@, method),
            j <= out@.len(),
            forall|k: int| 0 <= k < j ==> rank_ge(out@[k], *x, method),
        decreases out@.len() - j,
    {
        match out[j].cmp_score(x, method) {
            Ordering::Less => {
                proof {
                    assert forall|k: int| j <= k < out@.len() implies x.rank_of(method)
                        > out@[k].rank_of(method) by {
                        if k > j {
                            assert(rank_ge(out@[j as int], out@[k], method));
                        }
                    }
                }
                return j;
            },
            _ => {},
        }
        j = j + 1;
    }
    j
}

/// Some listed key reads as `key`.
pub open spec fn key_listed(keys: Seq<String>, key: Seq<char>) -> bool {
    exists|i: int| 0 <= i < keys.len() && keys[i]@ == key
}

/// The test that `purge` keeps a record by: its key is not listed.
pub open spec fn not_listed(absent: Seq<String>) -> spec_fn(ItemStats) -> bool {
    |it: ItemStats| !key_listed(absent, it.item@)
}

/// Whether `key` occurs in the list of keys.
fn key_in(keys: &Vec<String>, key: &str) -> (r: bool)
    ensures
        r == key_listed(keys@, key@),
{
    let mut t: usize = 0;
    while t < keys.len()
        invariant
            t <= keys@.len(),
            forall|s: int| 0 <= s < t ==> (#[trigger] keys@[s])@ != key@,
        decreases keys@.len() - t,
    {
        match cmp_keys(keys[t].as_str(), key) {
            Ordering::Equal => {
                return true;
            },
            _ => {
                proof {
                    lemma_chars_trichotomy(keys@[t as int]@, key@);
                }
            },
        }
        t = t + 1;
    }
    false
}

impl FrecencyStore {
    /// Move the shared reference time to `now`, rebasing every record; no
    /// record's observable score changes.
    pub fn reset_time(&mut self, now: i64)
        requires
            old(self).wf(),
            old(self).within_window(now as int),
            forall|i: int|
                0 <= i < old(self).items@.len() ==> (#[trigger] old(
                    self,
                ).items@[i]).last_accessed + old(self).reference_time - now >= -3 * TIME_LIMIT,
        ensures
            final(self).wf(),
            final(self).reference_time == now,
            final(self).half_life == old(self).half_life,
            final(self).items@.len() == old(self).items@.len(),
            forall|i: int|
                0 <= i < old(self).items@.len() ==> {
                    let a = #[trigger] final(self).items@[i];
                    let b = old(self).items@[i];
                    &&& a.item == b.item
                    &&& a.num_accesses == b.num_accesses
                    &&& a.half_life == b.half_life
                    &&& a.reference_time == now
                    &&& a.last_accessed == b.last_accessed + old(self).reference_time - now
                    &&& a.frecency == b.score_at(now as int)
                    &&& a.score_at(now as int) == b.score_at(now as int)
                },
    {
        let ghost olds = self.items@;
        let ghost oldref = self.reference_time;
        self.reference_time = now;
        let n = self.items.len();
        let mut i: usize = 0;
        while i < n
            invariant
                n == olds.len(),
                self.items@.len() == n,
                i <= n,
                self.reference_time == now,
                self.half_life == old(self).half_life,
                0 <= oldref,
                oldref <= now <= TIME_LIMIT,
                0 < self.half_life <= TIME_LIMIT,
                exponent_units(now - oldref, self.half_life as int) <= MAX_EXPONENT * SCALE,
                forall|k: int| i <= k < n ==> #[trigger] self.items@[k] == olds[k],
                forall|k: int|
                    0 <= k < n ==> (#[trigger] olds[k]).wf() && olds[k].half_life
                        == self.half_life && olds[k].reference_time == oldref
                        && olds[k].last_accessed + oldref - now >= -3 * TIME_LIMIT,
                forall|k: int|
                    0 <= k < i ==> {
                        let a = #[trigger] self.items@[k];
                        let b = olds[k];
                        &&& a.wf()
                        &&& a.item == b.item
                        &&& a.num_accesses == b.num_accesses
                        &&& a.half_life == b.half_life
                        &&& a.reference_time == now
                        &&& a.last_accessed == b.last_accessed + oldref - now
                        &&& a.frecency == b.score_at(now as int)
                        &&& a.score_at(now as int) == b.score_at(now as int)
                    },
            decreases n - i,
        {
            let st = vstd::std_specs::vec::vec_index_mut(&mut self.items, i);
            st.reset_ref_time(now);
            i = i + 1;
        }
        proof {
            assert(keys_sorted(self.items@)) by {
                assert(forall|k: int|
                    0 <= k < n ==> (#[trigger] self.items@[k]).item@ == olds[k].item@);
            }
        }
    }

    /// Change the half-life and reweight every record so that no observable
    /// score changes at `now`. The store is rebased to `now` first, which
    /// makes the reweighting exact.
    pub fn set_half_life(&mut self, half_life: i64, now: i64)
        requires
            old(self).wf(),
            old(self).within_window(now as int),
            0 < half_life <= TIME_LIMIT,
            forall|i: int|
                0 <= i < old(self).items@.len() ==> (#[trigger] old(
                    self,
                ).items@[i]).last_accessed + old(self).reference_time - now >= -3 * TIME_LIMIT,
        ensures
            final(self).wf(),
            final(self).reference_time == now,
            final(self).half_life == half_life,
            final(self).items@.len() == old(self).items@.len(),
            forall|i: int|
                0 <= i < old(self).items@.len() ==> {
                    let a = #[trigger] final(self).items@[i];
                    let b = old(self).items@[i];
                    &&& a.item == b.item
                    &&& a.num_accesses == b.num_accesses
                    &&& a.half_life == half_life
                    &&& a.reference_time == now
                    &&& a.score_at(now as int) == b.score_at(now as int)
                },
    {
        self.reset_time(now);
        let ghost mids = self.items@;
        self.half_life = half_life;
        let n = self.items.len();
        let mut i: usize = 0;
        while i < n
            invariant
                n == mids.len(),
                self.items@.len() == n,
                i <= n,
                self.reference_time == now,
                self.half_life == half_life,
                0 <= now <= TIME_LIMIT,
                0 < half_life <= TIME_LIMIT,
                forall|k: int| i <= k < n ==> #[trigger] self.items@[k] == mids[k],
                forall|k: int|
                    0 <= k < n ==> (#[trigger] mids[k]).wf() && mids[k].reference_time == now,
                forall|k: int|
                    0 <= k < i ==> {
                        let a = #[trigger] self.items@[k];
                        let b = mids[k];
                        &&& a.wf()
                        &&& a.item == b.item
                        &&& a.num_accesses == b.num_accesses
                        &&& a.half_life == half_life
                        &&& a.reference_time == now
                        &&& a.last_accessed == b.last_accessed
                        &&& a.score_at(now as int) == b.score_at(now as int)
                    },
            decreases n - i,
        {
            proof {
                let b = mids[i as int];
                lemma_zero_exponent(b.half_life as int);
                lemma_zero_exponent(half_life as int);
                lemma_decay_at_zero(b.frecency as int);
                lemma_anchor_at_zero(b.score_at(now as int));
            }
            let st = vstd::std_specs::vec::vec_index_mut(&mut self.items, i);
            st.set_half_life(half_life, now);
            proof {
                let b = mids[i as int];
                lemma_zero_exponent(half_life as int);
                lemma_anchor_at_zero(b.score_at(now as int));
                lemma_decay_at_zero(self.items@[i as int].frecency as int);
            }
            i = i + 1;
        }
        proof {
            assert(keys_sorted(self.items@)) by {
                assert(forall|k: int|
                    0 <= k < n ==> (#[trigger] self.items@[k]).item@ == mids[k].item@);
            }
        }
    }

    /// The time passed since the reference time, measured in half-lives, as
    /// a fixed-point number of `1/SCALE` units.
    pub fn half_lives_passed(&self, now: i64) -> (r: i64)
        requires
            self.wf(),
            self.reference_time <= now <= TIME_LIMIT,
        ensures
            r == self.exponent_at(now as int),
            r >= 0,
    {
        let delta = now - self.reference_time;
        let num = (delta as u64) * SCALE;
        proof {
            vstd::arithmetic::div_mod::lemma_div_nonincreasing(
                num as int,
                self.half_life as int,
            );
            vstd::arithmetic::div_mod::lemma_div_pos_is_pos(num as int, self.half_life as int);
        }
        (num / (self.half_life as u64)) as i64
    }

    /// Remove every record whose key is on the `absent` list, keeping the
    /// rest untouched and in order. An empty or unmatched list changes
    /// nothing.
    pub fn purge(&mut self, absent: &Vec<String>)
        requires
            old(self).wf(),
        ensures
            final(self).wf(),
            final(self).reference_time == old(self).reference_time,
            final(self).half_life == old(self).half_life,
            final(self).items@ == old(self).items@.filter(not_listed(absent@)),
            forall|k: int|
                0 <= k < final(self).items@.len() ==> !key_listed(
                    absent@,
                    (#[trigger] final(self).items@[k]).item@,
                ),
            (forall|i: int|
                0 <= i < old(self).items@.len() ==> !key_listed(
                    absent@,
                    (#[trigger] old(self).items@[i]).item@,
                )) ==> final(self).items@ == old(self).items@,
    {
        let ghost olds = self.items@;
        let ghost pred = not_listed(absent@);
        let mut kept: Vec<ItemStats> = Vec::new();
        let mut i: usize = 0;
        proof {
            reveal_with_fuel(Seq::filter, 1);
            assert(olds.take(0) =~= Seq::<ItemStats>::empty());
            assert(kept@ =~= olds.take(0).filter(pred));
        }
        while i < self.items.len()
            invariant
                self.wf(),
                olds == self.items@,
                i <= olds.len(),
                pred == not_listed(absent@),
                kept@ == olds.take(i as int).filter(pred),
                keys_sorted(kept@),
                forall|k: int|
                    0 <= k < kept@.len() ==> exists|j: int|
                        0 <= j < i && olds[j] == #[trigger] kept@[k],
            decreases olds.len() - i,
        {
            let listed = key_in(absent, self.items[i].item.as_str());
            proof {
                assert(listed == key_listed(absent@, olds[i as int].item@));
                assert(pred(olds[i as int]) == !listed);
                reveal_with_fuel(Seq::filter, 1);
                let t1 = olds.take(i + 1);
                assert(t1.drop_last() =~= olds.take(i as int));
                assert(t1.last() == olds[i as int]);
                assert(t1.filter(pred) == if pred(olds[i as int]) {
                    olds.take(i as int).filter(pred).push(olds[i as int])
                } else {
                    olds.take(i as int).filter(pred)
                });
            }
            if !listed {
                proof {
                    assert forall|k: int| 0 <= k < kept@.len() implies chars_lt(
                        (#[trigger] kept@[k]).item@,
                        olds[i as int].item@,
                    ) by {
                        let j = choose|j: int| 0 <= j < i && olds[j] == kept@[k];
                        assert(chars_lt(olds[j].item@, olds[i as int].item@));
                    }
                }
                kept.push(self.items[i].clone());
            }
            i = i + 1;
        }
        proof {
            assert(olds.take(olds.len() as int) =~= olds);
        }
        self.items = kept;
        proof {
            broadcast use vstd::seq_lib::group_filter_ensures;

            assert forall|k: int|
                0 <= k < self.items@.len() implies (#[trigger] self.items@[k]).wf()
                && self.items@[k].half_life == self.half_life
                && self.items@[k].reference_time == self.reference_time && !key_listed(
                absent@,
                self.items@[k].item@,
            ) by {
                let j = choose|j: int| 0 <= j < olds.len() && olds[j] == self.items@[k];
                assert(pred(self.items@[k]));
            }
            if forall|i2: int|
                0 <= i2 < olds.len() ==> !key_listed(absent@, (#[trigger] olds[i2]).item@) {
                lemma_filter_all(olds, pred);
            }
        }
    }
}

/// A chain of adjacent key comparisons orders any two positions.
proof fn lemma_chain_lt(items: Seq<ItemStats>, i: int, j: int)
    requires
        forall|k: int|
            0 <= k && k + 1 < items.len() ==> chars_lt(
                (#[trigger] items[k]).item@,
                items[k + 1].item@,
            ),
        0 <= i < j < items.len(),
    ensures
        chars_lt(items[i].item@, items[j].item@),
    decreases j - i,
{
    if j > i + 1 {
        lemma_chain_lt(items, i, j - 1);
        lemma_chars_lt_trans(items[i].item@, items[j - 1].item@, items[j].item@);
    }
}

/// Keys sorted between neighbours are sorted throughout.
proof fn lemma_adjacent_keys_sorted(items: Seq<ItemStats>)
    requires
        forall|k: int|
            0 <= k && k + 1 < items.len() ==> chars_lt(
                (#[trigger] items[k]).item@,
                items[k + 1].item@,
            ),
    ensures
        keys_sorted(items),
{
    assert forall|i: int, j: int|
        0 <= i < j < items.len() implies chars_lt(items[i].item@, items[j].item@) by {
        lemma_chain_lt(items, i, j);
    }
}

impl FrecencyStore {
    /// Decide at run time whether the storage invariant holds: the one
    /// honest answer a loader can give about data that arrived from disk.
    pub fn well_formed(&self) -> (b: bool)
        ensures
            b == self.wf(),
    {
        if !(0 <= self.reference_time && self.reference_time <= TIME_LIMIT) {
            return false;
        }
        if !(0 < self.half_life && self.half_life <= TIME_LIMIT) {
            return false;
        }
        let n = self.items.len();
        let mut i: usize = 0;
        while i < n
            invariant
                n == self.items@.len(),
                i <= n,
                0 <= self.reference_time <= TIME_LIMIT,
                0 < self.half_life <= TIME_LIMIT,
                forall|k: int|
                    0 <= k < i ==> (#[trigger] self.items@[k]).wf() && self.items@[k].half_life
                        == self.half_life && self.items@[k].reference_time
                        == self.reference_time,
                forall|k: int|
                    0 <= k && k + 1 < i ==> chars_lt(
                        (#[trigger] self.items@[k]).item@,
                        self.items@[k + 1].item@,
                    ),
            decreases n - i,
        {
            let it = &self.items[i];
            if !(0 <= it.reference_time && it.reference_time <= TIME_LIMIT) {
                return false;
            }
            if !(0 < it.half_life && it.half_life <= TIME_LIMIT) {
                return false;
            }
            if !(-3 * TIME_LIMIT <= it.last_accessed && it.last_accessed <= TIME_LIMIT) {
                return false;
            }
            if !(-FREC_LIMIT <= it.frecency && it.frecency <= FREC_LIMIT) {
                return false;
            }
            if it.half_life != self.half_life || it.reference_time != self.reference_time {
                return false;
            }
            if i > 0 {
                match cmp_keys(self.items[i - 1].item.as_str(), it.item.as_str()) {
                    Ordering::Less => {},
                    _ => {
                        proof {
                            lemma_chars_trichotomy(
                                self.items@[i - 1].item@,
                                self.items@[i as int].item@,
                            );
                            assert(!keys_sorted(self.items@));
                        }
                        return false;
                    },
                }
            }
            i = i + 1;
        }
        proof {
            lemma_adjacent_keys_sorted(self.items@);
        }
        true
    }
}

/// A Frecent listing of a store's records, highest accumulator first, is
/// also sorted by the score observable at any time in the store's window:
/// within one store the two orders are the same.
pub proof fn lemma_frecent_listing_orders_scores(s: FrecencyStore, r: Seq<ItemStats>, now: int)
    requires
        s.wf(),
        s.within_window(now),
        r.to_multiset() == s.items@.to_multiset(),
        ranked_high_to_low(r, SortMethod::Frecent),
    ensures
        forall|i: int, j: int|
            0 <= i < j < r.len() ==> (#[trigger] r[i]).score_at(now) >= (#[trigger] r[j]).score_at(
                now,
            ),
{
    broadcast use vstd::seq_lib::group_to_multiset_ensures;

    assert forall|i: int, j: int|
        0 <= i < j < r.len() implies (#[trigger] r[i]).score_at(now) >= (
    #[trigger] r[j]).score_at(now) by {
        assert(r.contains(r[i]));
        assert(s.items@.to_multiset().count(r[i]) > 0);
        assert(s.items@.contains(r[i]));
        let ii = choose|ii: int| 0 <= ii < s.items@.len() && s.items@[ii] == r[i];
        assert(r.contains(r[j]));
        assert(s.items@.to_multiset().count(r[j]) > 0);
        assert(s.items@.contains(r[j]));
        let jj = choose|jj: int| 0 <= jj < s.items@.len() && s.items@[jj] == r[j];
        assert(rank_ge(r[i], r[j], SortMethod::Frecent));
        crate::stats::lemma_frecent_order_matches_scores(r[j], r[i], now);
    }
}

/// Filtering by a test that every element passes keeps the sequence whole.
proof fn lemma_filter_all(s: Seq<ItemStats>, pred: spec_fn(ItemStats) -> bool)
    requires
        forall|i: int| 0 <= i < s.len() ==> pred(#[trigger] s[i]),
    ensures
        s.filter(pred) == s,
    decreases s.len(),
{
    reveal_with_fuel(Seq::filter, 1);
    if s.len() > 0 {
        let head = s.drop_last();
        assert(forall|i: int| 0 <= i < head.len() ==> #[trigger] head[i] == s[i]);
        lemma_filter_all(head, pred);
        assert(s.filter(pred) =~= s);
    } else {
        assert(s.filter(pred) =~= s);
    }
}

/// A value sitting at two indices counts at least twice in the bag.
proof fn lemma_dup_count(s: Seq<ItemStats>, a: int, b: int)
    requires
        0 <= a < s.len(),
        0 <= b < s.len(),
        a != b,
        s[a] == s[b],
    ensures
        s.to_multiset().count(s[a]) >= 2,
{
    broadcast use vstd::seq_lib::group_to_multiset_ensures;

    let u = s.remove(a);
    assert(u.to_multiset() == s.to_multiset().remove(s[a]));
    let b2 = if b < a {
        b
    } else {
        b - 1
    };
    assert(u[b2] == s[b]);
    assert(u.contains(s[a]));
    assert(u.to_multiset().count(s[a]) >= 1);
}

/// A permutation of a uniquely-keyed sequence is uniquely keyed.
proof fn lemma_perm_keys_unique(items: Seq<ItemStats>, kv: Seq<ItemStats>)
    requires
        keys_unique(items),
        kv.to_multiset() == items.to_multiset(),
    ensures
        keys_unique(kv),
{
    broadcast use vstd::seq_lib::group_to_multiset_ensures;

    assert forall|a: int, b: int|
        0 <= a < b < kv.len() implies kv[a].item@ != kv[b].item@ by {
        if kv[a].item@ == kv[b].item@ {
            assert(kv.contains(kv[a]));
            assert(items.to_multiset().count(kv[a]) > 0);
            assert(items.contains(kv[a]));
            let ja = choose|j: int| 0 <= j < items.len() && items[j] == kv[a];
            assert(kv.contains(kv[b]));
            assert(items.to_multiset().count(kv[b]) > 0);
            assert(items.contains(kv[b]));
            let jb = choose|j: int| 0 <= j < items.len() && items[j] == kv[b];
            assert(ja == jb);
            assert(kv[a] == kv[b]);
            lemma_dup_count(kv, a, b);
            let u = items.remove(ja);
            assert(u.to_multiset() == items.to_multiset().remove(items[ja]));
            assert(u.to_multiset().count(kv[a]) >= 1);
            assert(u.contains(kv[a]));
            let j2 = choose|j: int| 0 <= j < u.len() && u[j] == kv[a];
            let j3 = if j2 < ja {
                j2
            } else {
                j2 + 1
            };
            assert(items[j3] == u[j2]);
            assert(j3 != ja);
            assert(items[j3].item@ == items[ja].item@);
        }
    }
}

/// The position in a key-sorted listing at which a record with a fresh key
/// belongs.
fn key_insert_pos(out: &Vec<ItemStats>, x: &ItemStats) -> (p: usize)
    requires
        keys_sorted(out@),
        forall|k: int| 0 <= k < out@.len() ==> (#[trigger] out@[k].item@) != x.item@,
    ensures
        p <= out@.len(),
        forall|k: int| 0 <= k < p ==> chars_lt(#[trigger] out@[k].item@, x.item@),
        forall|k: int| p <= k < out@.len() ==> chars_lt(x.item@, #[trigger] out@[k].item@),
{
    let mut j: usize = 0;
    while j < out.len()
        invariant
            keys_sorted(out@),
            forall|k: int| 0 <= k < out@.len() ==> (#[trigger] out@[k].item@) != x.item@,
            j <= out@.len(),
            forall|k: int| 0 <= k < j ==> chars_lt(#[trigger] out@[k].item@, x.item@),
        decreases out@.len() - j,
    {
        match cmp_keys(out[j].item.as_str(), x.item.as_str()) {
            Ordering::Less => {
                j = j + 1;
            },
            _ => {
                proof {
                    lemma_chars_trichotomy(out@[j as int].item@, x.item@);
                    assert(chars_lt(x.item@, out@[j as int].item@));
                    assert forall|k: int| j <= k < out@.len() implies chars_lt(
                        x.item@,
                        #[trigger] out@[k].item@,
                    ) by {
                        if k > j {
                            lemma_chars_lt_trans(x.item@, out@[j as int].item@, out@[k].item@);
                        }
                    }
                }
                return j;
            },
        }
    }
    j
}

/// Re-order a uniquely-keyed batch of records into key order.
fn sort_by_key(v: Vec<ItemStats>) -> (r: Vec<ItemStats>)
    requires
        keys_unique(v@),
    ensures
        r@.to_multiset() == v@.to_multiset(),
        r@.len() == v@.len(),
        keys_sorted(r@),
{
    broadcast use vstd::seq_lib::group_to_multiset_ensures;

    let mut out: Vec<ItemStats> = Vec::new();
    let mut i: usize = 0;
    proof {
        assert(v@.take(0) =~= Seq::<ItemStats>::empty());
        assert(out@.to_multiset() =~= v@.take(0).to_multiset());
    }
    while i < v.len()
        invariant
            keys_unique(v@),
            i <= v@.len(),
            out@.len() == i,
            out@.to_multiset() == v@.take(i as int).to_multiset(),
            keys_sorted(out@),
        decreases v@.len() - i,
    {
        broadcast use vstd::seq_lib::group_to_multiset_ensures;

        let x = v[i].clone();
        proof {
            assert forall|k: int|
                0 <= k < out@.len() implies (#[trigger] out@[k].item@) != x.item@ by {
                assert(out@.contains(out@[k]));
                assert(v@.take(i as int).to_multiset().count(out@[k]) > 0);
                assert(v@.take(i as int).contains(out@[k]));
                let s = choose|s: int| 0 <= s < i && v@.take(i as int)[s] == out@[k];
                assert(v@[s] == out@[k]);
            }
        }
        let p = key_insert_pos(&out, &x);
        let ghost pre = out@;
        out.insert(p, x);
        proof {
            assert(keys_sorted(out@)) by {
                assert forall|a: int, b: int|
                    0 <= a < b < out@.len() implies chars_lt(out@[a].item@, out@[b].item@) by {
                    if a < p && b == p {
                    } else if a == p && b > p {
                    } else if a < p && b > p {
                        lemma_chars_lt_trans(pre[a].item@, x.item@, pre[b - 1].item@);
                    }
                }
            }
            lemma_to_multiset_insert(pre, p as int, x);
            assert(v@.take(i + 1) =~= v@.take(i as int).push(v@[i as int]));
            assert(v@.take(i + 1).to_multiset() == v@.take(i as int).to_multiset().insert(
                v@[i as int],
            ));
        }
        i = i + 1;
    }
    proof {
        assert(v@.take(v@.len() as int) =~= v@);
    }
    out
}

/// Replacing a record by one carrying the same key keeps the storage
/// sorted, changes what that key finds, and nothing else.
proof fn lemma_store_update(items: Seq<ItemStats>, i: int, st: ItemStats)
    requires
        keys_sorted(items),
        0 <= i < items.len(),
        st.item@ == items[i].item@,
    ensures
        keys_sorted(items.update(i, st)),
        spec_find(items.update(i, st), st.item@) == Some(st),
        forall|k: Seq<char>|
            k != st.item@ ==> spec_find(items.update(i, st), k) == spec_find(items, k),
{
    let u = items.update(i, st);
    assert(keys_sorted(u)) by {
        assert(forall|j: int| 0 <= j < u.len() ==> (#[trigger] u[j].item@) == items[j].item@);
    }
    lemma_sorted_keys_unique(u);
    lemma_find_at(u, st.item@, i);
    assert forall|k: Seq<char>| k != st.item@ implies spec_find(u, k) == spec_find(items, k) by {
        lemma_find_update_other(items, i, st, k);
    }
}

/// Removing a record keeps the storage sorted.
proof fn lemma_sorted_remove(items: Seq<ItemStats>, i: int)
    requires
        keys_sorted(items),
        0 <= i < items.len(),
    ensures
        keys_sorted(items.remove(i)),
{
    let u = items.remove(i);
    assert forall|a: int, b: int| 0 <= a < b < u.len() implies chars_lt(
        u[a].item@,
        u[b].item@,
    ) by {
        let a0 = if a < i {
            a
        } else {
            a + 1
        };
        let b0 = if b < i {
            b
        } else {
            b + 1
        };
        assert(u[a] == items[a0]);
        assert(u[b] == items[b0]);
    }
}

} // verus!

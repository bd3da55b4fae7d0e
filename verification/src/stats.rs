//! Statistics for a single stored item and the arithmetic that keeps its
//! decayed score readable in constant time.

use crate::args::SortMethod;
use crate::decay::{
    anchor_score, anchored, decay_score, decayed, exponent_units, lemma_anchor_at_zero,
    lemma_decay_at_zero, lemma_decay_halves, lemma_exponent_at_half_lives, lemma_zero_exponent,
    FREC_LIMIT, MAX_EXPONENT, SCALE, TIME_LIMIT,
};
use core::cmp::Ordering;
use vstd::arithmetic::power2::pow2;
use vstd::prelude::*;

verus! {

/// A single item's key together with its decay-aware statistics.
///
/// `frecency` is not the current score: it is the visit sum re-expressed
/// relative to `reference_time`, so the live score at time `now` is
/// `frecency / 2^((now - reference_time) / half_life)`, read off by
/// [`ItemStats::get_frecency`].
#[derive(Debug)]
pub struct ItemStats {
    /// The item's key, unique within a store.
    pub item: String,
    /// Decay half-life in seconds.
    pub half_life: i64,
    /// Anchor timestamp, in seconds since the epoch.
    pub reference_time: i64,
    /// Seconds between `reference_time` and the most recent access; may be
    /// negative after a rebase.
    pub last_accessed: i64,
    /// The anchored score accumulator, in `1/SCALE` units.
    pub frecency: i64,
    /// How many visits have been recorded.
    pub num_accesses: i32,
}

impl Clone for ItemStats {
    /// A clone carries exactly the same fields.
    fn clone(&self) -> (r: ItemStats)
        ensures
            r == *self,
    {
        ItemStats {
            item: self.item.clone(),
            half_life: self.half_life,
            reference_time: self.reference_time,
            last_accessed: self.last_accessed,
            frecency: self.frecency,
            num_accesses: self.num_accesses,
        }
    }
}

impl ItemStats {
    /// Field bounds under which the fixed-point arithmetic cannot overflow.
    pub open spec fn wf(self) -> bool {
        &&& 0 <= self.reference_time <= TIME_LIMIT
        &&& 0 < self.half_life <= TIME_LIMIT
        &&& -3 * TIME_LIMIT <= self.last_accessed <= TIME_LIMIT
        &&& -FREC_LIMIT <= self.frecency <= FREC_LIMIT
    }

    /// The decay exponent from the anchor to `now`, in `1/SCALE` units.
    pub open spec fn exponent_at(self, now: int) -> int {
        exponent_units(now - self.reference_time, self.half_life as int)
    }

    /// `now` lies ahead of the anchor and near enough that the decay factor
    /// stays within the machine's range.
    pub open spec fn within_window(self, now: int) -> bool {
        &&& self.reference_time <= now <= TIME_LIMIT
        &&& self.exponent_at(now) <= MAX_EXPONENT * SCALE
    }

    /// The item's decayed score at time `now`, in `1/SCALE` units.
    pub open spec fn score_at(self, now: int) -> int {
        decayed(self.frecency as int, self.exponent_at(now))
    }

    /// The field an ordering policy ranks by.
    pub open spec fn rank_of(self, method: SortMethod) -> int {
        match method {
            SortMethod::Frequent => self.num_accesses as int,
            SortMethod::Recent => self.last_accessed as int,
            SortMethod::Frecent => self.frecency as int,
        }
    }

    /// Create a new item with no recorded visits.
    pub fn new(item: String, ref_time: i64, half_life: i64) -> (r: ItemStats)
        requires
            0 <= ref_time <= TIME_LIMIT,
            0 < half_life <= TIME_LIMIT,
        ensures
            r.item == item,
            r.half_life == half_life,
            r.reference_time == ref_time,
            r.last_accessed == 0,
            r.frecency == 0,
            r.num_accesses == 0,
            r.wf(),
    {
        ItemStats {
            half_life,
            reference_time: ref_time,
            item,
            frecency: 0,
            last_accessed: 0,
            num_accesses: 0,
        }
    }

    /// Compare the score of two items under a ranking policy.
    pub fn cmp_score(&self, other: &ItemStats, method: SortMethod) -> (r: Ordering)
        ensures
            r == Ordering::Less <==> self.rank_of(method) < other.rank_of(method),
            r == Ordering::Equal <==> self.rank_of(method) == other.rank_of(method),
            r == Ordering::Greater <==> self.rank_of(method) > other.rank_of(method),
    {
        match method {
            SortMethod::Frequent => self.cmp_frequent(other),
            SortMethod::Recent => self.cmp_recent(other),
            SortMethod::Frecent => self.cmp_frecent(other),
        }
    }

    /// Compare the visit counts of two items.
    pub fn cmp_frequent(&self, other: &ItemStats) -> (r: Ordering)
        ensures
            r == Ordering::Less <==> self.num_accesses < other.num_accesses,
            r == Ordering::Equal <==> self.num_accesses == other.num_accesses,
            r == Ordering::Greater <==> self.num_accesses > other.num_accesses,
    {
        if self.num_accesses < other.num_accesses {
            Ordering::Less
        } else if self.num_accesses == other.num_accesses {
            Ordering::Equal
        } else {
            Ordering::Greater
        }
    }

    /// Compare the recency of two items.
    pub fn cmp_recent(&self, other: &ItemStats) -> (r: Ordering)
        ensures
            r == Ordering::Less <==> self.last_accessed < other.last_accessed,
            r == Ordering::Equal <==> self.last_accessed == other.last_accessed,
            r == Ordering::Greater <==> self.last_accessed > other.last_accessed,
    {
        if self.last_accessed < other.last_accessed {
            Ordering::Less
        } else if self.last_accessed == other.last_accessed {
            Ordering::Equal
        } else {
            Ordering::Greater
        }
    }

    /// Compare the anchored score accumulators of two items. Items that
    /// share an anchor and a half-life rank the same way by accumulator as
    /// by live score.
    pub fn cmp_frecent(&self, other: &ItemStats) -> (r: Ordering)
        ensures
            r == Ordering::Less <==> self.frecency < other.frecency,
            r == Ordering::Equal <==> self.frecency == other.frecency,
            r == Ordering::Greater <==> self.frecency > other.frecency,
    {
        if self.frecency < other.frecency {
            Ordering::Less
        } else if self.frecency == other.frecency {
            Ordering::Equal
        } else {
            Ordering::Greater
        }
    }

    /// The decay exponent from the anchor to `now`, as a machine word.
    fn exponent_units_at(&self, now: i64) -> (e: u64)
        requires
            self.wf(),
            self.within_window(now as int),
        ensures
            e == self.exponent_at(now as int),
    {
        let delta = now - self.reference_time;
        ((delta as u64) * SCALE) / (self.half_life as u64)
    }

    /// Calculate the item's decayed score at time `now`.
    pub fn get_frecency(&self, now: i64) -> (r: i64)
        requires
            self.wf(),
            self.within_window(now as int),
        ensures
            r == self.score_at(now as int),
            self.frecency >= 0 ==> 0 <= r <= self.frecency,
            self.frecency < 0 ==> self.frecency <= r <= 0,
    {
        let e = self.exponent_units_at(now);
        decay_score(self.frecency, e)
    }

    /// Store the accumulator that will read back as `new` at time `now`.
    pub fn set_frecency(&mut self, new: i64, now: i64)
        requires
            old(self).wf(),
            old(self).within_window(now as int),
            -FREC_LIMIT <= new <= FREC_LIMIT,
            -FREC_LIMIT <= anchored(new as int, old(self).exponent_at(now as int)) <= FREC_LIMIT,
        ensures
            final(self).frecency == anchored(new as int, old(self).exponent_at(now as int)),
            final(self).item == old(self).item,
            final(self).half_life == old(self).half_life,
            final(self).reference_time == old(self).reference_time,
            final(self).last_accessed == old(self).last_accessed,
            final(self).num_accesses == old(self).num_accesses,
            final(self).wf(),
    {
        let e = self.exponent_units_at(now);
        self.frecency = anchor_score(new, e);
    }

    /// Fold a new visit of the given weight into the score at time `now`.
    pub fn update_frecency(&mut self, weight: i64, now: i64)
        requires
            old(self).wf(),
            old(self).within_window(now as int),
            -FREC_LIMIT <= old(self).score_at(now as int) + weight <= FREC_LIMIT,
            -FREC_LIMIT <= anchored(
                old(self).score_at(now as int) + weight,
                old(self).exponent_at(now as int),
            ) <= FREC_LIMIT,
        ensures
            final(self).frecency == anchored(
                old(self).score_at(now as int) + weight,
                old(self).exponent_at(now as int),
            ),
            final(self).item == old(self).item,
            final(self).half_life == old(self).half_life,
            final(self).reference_time == old(self).reference_time,
            final(self).last_accessed == old(self).last_accessed,
            final(self).num_accesses == old(self).num_accesses,
            final(self).wf(),
    {
        let original_frecency = self.get_frecency(now);
        self.set_frecency(original_frecency + weight, now);
    }

    /// Update the number of accesses of the item by the given weight.
    pub fn update_num_accesses(&mut self, weight: i32)
        requires
            i32::MIN <= old(self).num_accesses + weight <= i32::MAX,
        ensures
            final(self).num_accesses == old(self).num_accesses + weight,
            final(self).item == old(self).item,
            final(self).half_life == old(self).half_life,
            final(self).reference_time == old(self).reference_time,
            final(self).last_accessed == old(self).last_accessed,
            final(self).frecency == old(self).frecency,
    {
        self.num_accesses = self.num_accesses + weight;
    }

    /// Record the time the item was last accessed.
    pub fn update_last_access(&mut self, time: i64)
        requires
            old(self).wf(),
            0 <= time <= TIME_LIMIT,
        ensures
            final(self).last_accessed == time - old(self).reference_time,
            final(self).item == old(self).item,
            final(self).half_life == old(self).half_life,
            final(self).reference_time == old(self).reference_time,
            final(self).frecency == old(self).frecency,
            final(self).num_accesses == old(self).num_accesses,
            final(self).wf(),
    {
        self.last_accessed = time - self.reference_time;
    }

    /// Change the half-life of the item. The score observable at `now` moves
    /// by at most one fixed-point unit; only the future decay rate changes.
    pub fn set_half_life(&mut self, half_life: i64, now: i64)
        requires
            old(self).wf(),
            old(self).within_window(now as int),
            0 < half_life <= TIME_LIMIT,
            exponent_units(now - old(self).reference_time, half_life as int) <= MAX_EXPONENT
                * SCALE,
            -FREC_LIMIT <= anchored(
                old(self).score_at(now as int),
                exponent_units(now - old(self).reference_time, half_life as int),
            ) <= FREC_LIMIT,
        ensures
            final(self).half_life == half_life,
            final(self).item == old(self).item,
            final(self).reference_time == old(self).reference_time,
            final(self).last_accessed == old(self).last_accessed,
            final(self).num_accesses == old(self).num_accesses,
            final(self).frecency == anchored(
                old(self).score_at(now as int),
                exponent_units(now - old(self).reference_time, half_life as int),
            ),
            final(self).wf(),
            old(self).score_at(now as int) - 1 <= final(self).score_at(now as int) <= old(
                self,
            ).score_at(now as int) + 1,
    {
        let old_frecency = self.get_frecency(now);
        self.half_life = half_life;
        self.set_frecency(old_frecency, now);
        proof {
            crate::decay::lemma_anchor_then_decay(
                old(self).score_at(now as int),
                self.exponent_at(now as int),
            );
        }
    }

    /// Move the anchor to `new_time`. The score observable at `new_time` is
    /// unchanged; only the representation is rebased for numerical head-room.
    pub fn reset_ref_time(&mut self, new_time: i64)
        requires
            old(self).wf(),
            old(self).within_window(new_time as int),
            old(self).last_accessed + old(self).reference_time - new_time >= -3 * TIME_LIMIT,
        ensures
            final(self).reference_time == new_time,
            final(self).last_accessed == old(self).last_accessed + old(self).reference_time
                - new_time,
            final(self).frecency == old(self).score_at(new_time as int),
            final(self).item == old(self).item,
            final(self).half_life == old(self).half_life,
            final(self).num_accesses == old(self).num_accesses,
            final(self).wf(),
            final(self).score_at(new_time as int) == old(self).score_at(new_time as int),
    {
        let original_frecency = self.get_frecency(new_time);
        let delta = self.reference_time - new_time;
        self.reference_time = new_time;
        self.last_accessed = self.last_accessed + delta;
        proof {
            lemma_zero_exponent(self.half_life as int);
            lemma_anchor_at_zero(original_frecency as int);
        }
        self.set_frecency(original_frecency, new_time);
        proof {
            lemma_decay_at_zero(self.frecency as int);
        }
    }

    /// Timestamp (in seconds since the epoch) of the last access.
    pub fn last_access(&self) -> (r: i64)
        requires
            self.wf(),
        ensures
            r == self.reference_time + self.last_accessed,
    {
        self.reference_time + self.last_accessed
    }
}

/// Frecent ranking compares raw accumulators, and rightly so: two records
/// sharing an anchor and a half-life, as all records of one store do, rank
/// the same way by accumulator as by the score observable at any `now`.
pub proof fn lemma_frecent_order_matches_scores(a: ItemStats, b: ItemStats, now: int)
    requires
        a.wf(),
        b.wf(),
        a.within_window(now),
        a.half_life == b.half_life,
        a.reference_time == b.reference_time,
        a.rank_of(SortMethod::Frecent) <= b.rank_of(SortMethod::Frecent),
    ensures
        a.score_at(now) <= b.score_at(now),
{
    crate::decay::lemma_exponent_nonneg(now - a.reference_time, a.half_life as int);
    crate::decay::lemma_decay_monotone(a.frecency as int, b.frecency as int, a.exponent_at(now));
}

/// The decay law: an accumulator holding a single visit of weight one
/// recorded at the anchor reads back, `k` whole half-lives later, as the
/// fixed-point unit divided by `2^k`.
pub proof fn lemma_decay_law(item: ItemStats, k: int)
    requires
        item.wf(),
        0 <= item.frecency,
        0 <= k <= MAX_EXPONENT,
        item.reference_time + k * item.half_life <= TIME_LIMIT,
    ensures
        item.score_at(item.reference_time + k * item.half_life) == item.frecency as int / (pow2(
            k as nat,
        ) as int),
{
    vstd::arithmetic::mul::lemma_mul_nonnegative(k, item.half_life as int);
    lemma_exponent_at_half_lives(k, item.half_life as int);
    lemma_decay_halves(item.frecency as int, k);
}

} // verus!

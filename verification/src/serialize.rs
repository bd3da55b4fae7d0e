//! The wire shape of a persisted store, and the mapping between it and the
//! in-memory model.
//!
//! On the wire the shared `reference_time` and `half_life` appear once, on
//! the aggregate; each record carries only its key, accumulator, offset and
//! count. Loading threads the shared values back into every record.

use crate::stats::ItemStats;
use crate::store::FrecencyStore;
use vstd::prelude::*;

verus! {

/// One record as it is persisted.
#[derive(Debug)]
pub struct ItemStatsSerializer {
    /// The item's key.
    pub item: String,
    /// The anchored score accumulator, in `1/SCALE` units.
    pub frecency: i64,
    /// Seconds between the store's reference time and the last access.
    pub last_accessed: i64,
    /// How many visits have been recorded.
    pub num_accesses: i32,
}

/// A whole store as it is persisted.
#[derive(Debug)]
pub struct FrecencyStoreSerializer {
    /// The time origin shared by every record, in seconds since the epoch.
    pub reference_time: i64,
    /// Decay half-life in seconds.
    pub half_life: i64,
    /// The records, in storage (key) order.
    pub items: Vec<ItemStatsSerializer>,
}

/// The wire record that stands for an in-memory record.
pub open spec fn wire_of_item(it: ItemStats) -> ItemStatsSerializer {
    ItemStatsSerializer {
        item: it.item,
        frecency: it.frecency,
        last_accessed: it.last_accessed,
        num_accesses: it.num_accesses,
    }
}

/// The in-memory record that a wire record stands for, once the store's
/// shared reference time and half-life are threaded back in.
pub open spec fn item_of_wire(w: ItemStatsSerializer, ref_time: int, half_life: int) -> ItemStats {
    ItemStats {
        item: w.item,
        half_life: half_life as i64,
        reference_time: ref_time as i64,
        last_accessed: w.last_accessed,
        frecency: w.frecency,
        num_accesses: w.num_accesses,
    }
}

/// The wire form reflects the store: shared fields equal, records mapped
/// one for one in order.
pub open spec fn wire_reflects_store(w: FrecencyStoreSerializer, s: FrecencyStore) -> bool {
    &&& w.reference_time == s.reference_time
    &&& w.half_life == s.half_life
    &&& w.items@.len() == s.items@.len()
    &&& forall|i: int|
        0 <= i < s.items@.len() ==> #[trigger] w.items@[i] == wire_of_item(s.items@[i])
}

/// The store reflects the wire form it was loaded from.
pub open spec fn store_reflects_wire(s: FrecencyStore, w: FrecencyStoreSerializer) -> bool {
    &&& s.reference_time == w.reference_time
    &&& s.half_life == w.half_life
    &&& s.items@.len() == w.items@.len()
    &&& forall|i: int|
        0 <= i < w.items@.len() ==> #[trigger] s.items@[i] == item_of_wire(
            w.items@[i],
            w.reference_time as int,
            w.half_life as int,
        )
}

impl ItemStatsSerializer {
    /// The wire form of one record.
    pub fn from_item_stats(stats: ItemStats) -> (r: ItemStatsSerializer)
        ensures
            r == wire_of_item(stats),
    {
        ItemStatsSerializer {
            item: stats.item,
            frecency: stats.frecency,
            last_accessed: stats.last_accessed,
            num_accesses: stats.num_accesses,
        }
    }

    /// Rebuild one record, threading the store's shared reference time and
    /// half-life back in.
    pub fn into_item_stats(self, ref_time: i64, half_life: i64) -> (r: ItemStats)
        ensures
            r == item_of_wire(self, ref_time as int, half_life as int),
    {
        ItemStats {
            half_life,
            reference_time: ref_time,
            item: self.item,
            frecency: self.frecency,
            last_accessed: self.last_accessed,
            num_accesses: self.num_accesses,
        }
    }
}

impl FrecencyStoreSerializer {
    /// The wire form of a whole store.
    pub fn from_store(store: FrecencyStore) -> (r: FrecencyStoreSerializer)
        ensures
            wire_reflects_store(r, store),
    {
        let ghost pre = store.items@;
        let mut src = store.items;
        let mut items: Vec<ItemStatsSerializer> = Vec::new();
        let mut i: usize = 0;
        let n = src.len();
        while i < n
            invariant
                n == pre.len(),
                src@.len() == n - i,
                i <= n,
                items@.len() == i,
                forall|j: int| 0 <= j < src@.len() ==> #[trigger] src@[j] == pre[j + i],
                forall|k: int| 0 <= k < i ==> #[trigger] items@[k] == wire_of_item(pre[k]),
            decreases n - i,
        {
            let ghost sp = src@;
            let st = src.remove(0);
            proof {
                assert forall|j: int| 0 <= j < src@.len() implies #[trigger] src@[j]
                    == pre[j + i + 1] by {
                    assert(src@[j] == sp[j + 1]);
                }
            }
            proof {
                assert(sp[0] == pre[i as int]);
            }
            items.push(ItemStatsSerializer::from_item_stats(st));
            proof {
                assert(items@[i as int] == wire_of_item(pre[i as int]));
            }
            i = i + 1;
        }
        FrecencyStoreSerializer {
            reference_time: store.reference_time,
            half_life: store.half_life,
            items,
        }
    }

    /// Rebuild a whole store, threading the shared reference time and
    /// half-life into every record.
    pub fn into_store(self) -> (r: FrecencyStore)
        ensures
            store_reflects_wire(r, self),
    {
        let ghost pre = self.items@;
        let ref_time = self.reference_time;
        let half_life = self.half_life;
        let mut src = self.items;
        let mut items: Vec<ItemStats> = Vec::new();
        let mut i: usize = 0;
        let n = src.len();
        while i < n
            invariant
                n == pre.len(),
                src@.len() == n - i,
                i <= n,
                items@.len() == i,
                forall|j: int| 0 <= j < src@.len() ==> #[trigger] src@[j] == pre[j + i],
                forall|k: int|
                    0 <= k < i ==> #[trigger] items@[k] == item_of_wire(
                        pre[k],
                        ref_time as int,
                        half_life as int,
                    ),
            decreases n - i,
        {
            let ghost sp = src@;
            let w = src.remove(0);
            proof {
                assert forall|j: int| 0 <= j < src@.len() implies #[trigger] src@[j]
                    == pre[j + i + 1] by {
                    assert(src@[j] == sp[j + 1]);
                }
            }
            proof {
                assert(sp[0] == pre[i as int]);
            }
            items.push(w.into_item_stats(ref_time, half_life));
            proof {
                assert(items@[i as int] == item_of_wire(
                    pre[i as int],
                    ref_time as int,
                    half_life as int,
                ));
            }
            i = i + 1;
        }
        FrecencyStore { reference_time: ref_time, half_life, items }
    }
}

/// Round trip from the store: writing a well-formed store to the wire and
/// loading it back rebuilds the very same records, because a well-formed
/// store's records already agree with the shared reference time and
/// half-life that the wire hoists out.
pub proof fn lemma_store_wire_round_trip(
    s: FrecencyStore,
    w: FrecencyStoreSerializer,
    s2: FrecencyStore,
)
    requires
        s.wf(),
        wire_reflects_store(w, s),
        store_reflects_wire(s2, w),
    ensures
        s2.reference_time == s.reference_time,
        s2.half_life == s.half_life,
        s2.items@ == s.items@,
{
    assert forall|i: int| 0 <= i < s.items@.len() implies #[trigger] s2.items@[i]
        == s.items@[i] by {
        assert(w.items@[i] == wire_of_item(s.items@[i]));
        assert(s2.items@[i] == item_of_wire(w.items@[i], s.reference_time as int, s.half_life as int));
        assert(s.items@[i].reference_time == s.reference_time);
        assert(s.items@[i].half_life == s.half_life);
    }
    assert(s2.items@ =~= s.items@);
}

/// Round trip from the wire: loading a wire form and writing it out again
/// reproduces it record for record, whatever it holds.
pub proof fn lemma_wire_store_round_trip(
    w: FrecencyStoreSerializer,
    s: FrecencyStore,
    w2: FrecencyStoreSerializer,
)
    requires
        store_reflects_wire(s, w),
        wire_reflects_store(w2, s),
    ensures
        w2.reference_time == w.reference_time,
        w2.half_life == w.half_life,
        w2.items@ == w.items@,
{
    assert forall|i: int| 0 <= i < w.items@.len() implies #[trigger] w2.items@[i]
        == w.items@[i] by {
        assert(s.items@[i] == item_of_wire(w.items@[i], w.reference_time as int, w.half_life as int));
        assert(w2.items@[i] == wire_of_item(s.items@[i]));
    }
    assert(w2.items@ =~= w.items@);
}

} // verus!

//! The mathematical model of the cache.
//!
//! A cache state is a sequence of entries (key, value, creation time), the
//! insertion-order ledger, the optional capacity bound, the optional
//! time-to-live, and the sweeper's lifecycle state. Every executable
//! operation of [`crate::cache::Cache`] is specified as a function on this
//! model, and the laws in [`crate::laws`] are proved about these functions.
//!
//! Two choices the model pins down:
//! - An entry is live at time `now` when `now < created_at + ttl`, a strict
//!   inequality, so an entry becomes invisible exactly at `created_at + ttl`.
//! - The ledger never holds a key twice: overwriting a key removes the key's
//!   old ledger occurrence and appends a fresh one, so an overwrite renews
//!   the key's eviction priority and the ledger always mirrors the store.

use vstd::prelude::*;

use crate::lifecycle::SweeperState;

verus! {

/// One stored entry: a key, its value, and the time at which `put` created
/// or last overwrote it.
#[verifier::ext_equal]
pub struct EntryModel<V> {
    pub key: Seq<char>,
    pub value: V,
    pub created_at: u64,
}

/// The abstract state of a cache.
#[verifier::ext_equal]
pub struct CacheModel<V> {
    /// The store: entries with pairwise distinct keys, in store order.
    pub entries: Seq<EntryModel<V>>,
    /// The insertion-order ledger: oldest key first.
    pub order: Seq<Seq<char>>,
    /// Optional upper bound on the number of entries.
    pub max_size: Option<usize>,
    /// Optional time-to-live, in the same unit as the clock handed to reads.
    pub ttl: Option<u64>,
    /// Where the background sweeper stands in its life.
    pub sweeper: SweeperState,
}

/// The state of a freshly constructed cache: empty, unbounded, no
/// time-to-live, no sweeper.
pub open spec fn empty_model<V>() -> CacheModel<V> {
    CacheModel {
        entries: Seq::empty(),
        order: Seq::empty(),
        max_size: None,
        ttl: None,
        sweeper: SweeperState::NotStarted,
    }
}

/// Whether an entry created at `created_at` is still live at `now` under
/// `ttl`. With no time-to-live every entry is live; otherwise the entry is
/// live exactly while `now < created_at + ttl`.
pub open spec fn is_live(created_at: u64, now: u64, ttl: Option<u64>) -> bool {
    match ttl {
        None => true,
        Some(d) => (now as int) < created_at + d,
    }
}

/// [`is_live`], applied to an entry.
pub open spec fn live_entry<V>(e: EntryModel<V>, now: u64, ttl: Option<u64>) -> bool {
    is_live(e.created_at, now, ttl)
}

/// Whether some entry holds the key `k`.
pub open spec fn has_key<V>(entries: Seq<EntryModel<V>>, k: Seq<char>) -> bool {
    exists|i: int| 0 <= i < entries.len() && entries[i].key == k
}

/// The index of the entry holding `k`; meaningful only when `has_key` holds.
pub open spec fn key_index<V>(entries: Seq<EntryModel<V>>, k: Seq<char>) -> int {
    choose|i: int| 0 <= i < entries.len() && entries[i].key == k
}

/// The value stored under `k`; meaningful only when `has_key` holds.
pub open spec fn value_of<V>(entries: Seq<EntryModel<V>>, k: Seq<char>) -> V {
    entries[key_index(entries, k)].value
}

/// The creation time stored under `k`; meaningful only when `has_key` holds.
pub open spec fn stamp_of<V>(entries: Seq<EntryModel<V>>, k: Seq<char>) -> u64 {
    entries[key_index(entries, k)].created_at
}

/// The keys of `entries` are pairwise distinct.
pub open spec fn keys_distinct<V>(entries: Seq<EntryModel<V>>) -> bool {
    forall|i: int, j: int|
        0 <= i < entries.len() && 0 <= j < entries.len() && i != j ==> entries[i].key
            != entries[j].key
}

/// Well-formedness of a cache state: keys are unique in the store, the
/// ledger holds no duplicates, every stored key appears in the ledger, and
/// every ledger key is stored.
pub open spec fn wf<V>(m: CacheModel<V>) -> bool {
    &&& keys_distinct(m.entries)
    &&& m.order.no_duplicates()
    &&& forall|i: int| 0 <= i < m.entries.len() ==> m.order.contains(#[trigger] m.entries[i].key)
    &&& forall|i: int| 0 <= i < m.order.len() ==> has_key(m.entries, #[trigger] m.order[i])
}

/// Whether a `put` must evict first: a bound is set and the store has
/// reached it.
pub open spec fn at_capacity<V>(m: CacheModel<V>) -> bool {
    match m.max_size {
        None => false,
        Some(cap) => m.entries.len() >= cap,
    }
}

/// `entries` without the entry holding `k`, if any.
pub open spec fn remove_entry<V>(entries: Seq<EntryModel<V>>, k: Seq<char>) -> Seq<EntryModel<V>> {
    if has_key(entries, k) {
        entries.remove(key_index(entries, k))
    } else {
        entries
    }
}

/// One capacity eviction: pop the ledger's front key and delete that key
/// from the store. With an empty ledger nothing happens.
pub open spec fn spec_evict<V>(m: CacheModel<V>) -> CacheModel<V> {
    if m.order.len() == 0 {
        m
    } else {
        CacheModel { entries: remove_entry(m.entries, m.order[0]), order: m.order.drop_first(), ..m }
    }
}

/// The state after `put(k, v)` at time `now`: evict once if at capacity,
/// then write `(v, now)` under `k` (in place on overwrite), and move `k` to
/// the back of the ledger.
pub open spec fn spec_put<V>(m: CacheModel<V>, k: Seq<char>, v: V, now: u64) -> CacheModel<V> {
    let m1 = if at_capacity(m) {
        spec_evict(m)
    } else {
        m
    };
    let e = EntryModel { key: k, value: v, created_at: now };
    let entries = if has_key(m1.entries, k) {
        m1.entries.update(key_index(m1.entries, k), e)
    } else {
        m1.entries.push(e)
    };
    CacheModel { entries, order: m1.order.remove_value(k).push(k), ..m1 }
}

/// What `put(k, _)` returns: the value stored under `k` after the eviction
/// step, if any. A key that the eviction step itself removed yields `None`.
pub open spec fn spec_put_prev<V>(m: CacheModel<V>, k: Seq<char>) -> Option<V> {
    let m1 = if at_capacity(m) {
        spec_evict(m)
    } else {
        m
    };
    if has_key(m1.entries, k) {
        Some(value_of(m1.entries, k))
    } else {
        None
    }
}

/// What `get(k)` returns at time `now`: the stored value when `k` is present
/// and its entry is live, else nothing. Expiry is checked here, at read
/// time, whether or not a sweep has run.
pub open spec fn spec_get<V>(m: CacheModel<V>, k: Seq<char>, now: u64) -> Option<V> {
    if has_key(m.entries, k) && is_live(stamp_of(m.entries, k), now, m.ttl) {
        Some(value_of(m.entries, k))
    } else {
        None
    }
}

/// The state after `remove(k)`: the entry and the key's ledger occurrence
/// are gone. The time-to-live plays no part here.
pub open spec fn spec_remove<V>(m: CacheModel<V>, k: Seq<char>) -> CacheModel<V> {
    CacheModel { entries: remove_entry(m.entries, k), order: m.order.remove_value(k), ..m }
}

/// What `remove(k)` returns: the stored value whenever `k` is physically
/// present, live or expired.
pub open spec fn spec_remove_prev<V>(m: CacheModel<V>, k: Seq<char>) -> Option<V> {
    if has_key(m.entries, k) {
        Some(value_of(m.entries, k))
    } else {
        None
    }
}

/// The subsequence of `entries` live at `now` under `ttl`, in store order.
pub open spec fn live_filter<V>(entries: Seq<EntryModel<V>>, now: u64, ttl: Option<u64>) -> Seq<
    EntryModel<V>,
>
    decreases entries.len(),
{
    if entries.len() == 0 {
        Seq::empty()
    } else if live_entry(entries[0], now, ttl) {
        seq![entries[0]] + live_filter(entries.drop_first(), now, ttl)
    } else {
        live_filter(entries.drop_first(), now, ttl)
    }
}

/// The subsequence of `order` whose keys are stored in `entries`.
pub open spec fn order_restrict<V>(order: Seq<Seq<char>>, entries: Seq<EntryModel<V>>) -> Seq<
    Seq<char>,
>
    decreases order.len(),
{
    if order.len() == 0 {
        Seq::empty()
    } else if has_key(entries, order[0]) {
        seq![order[0]] + order_restrict(order.drop_first(), entries)
    } else {
        order_restrict(order.drop_first(), entries)
    }
}

/// The keys of `entries`, in store order.
pub open spec fn keys_of<V>(entries: Seq<EntryModel<V>>) -> Seq<Seq<char>> {
    entries.map_values(|e: EntryModel<V>| e.key)
}

/// The values of `entries`, in store order.
pub open spec fn values_of<V>(entries: Seq<EntryModel<V>>) -> Seq<V> {
    entries.map_values(|e: EntryModel<V>| e.value)
}

/// The live entries at time `now`, in store order.
pub open spec fn spec_live_entries<V>(m: CacheModel<V>, now: u64) -> Seq<EntryModel<V>> {
    live_filter(m.entries, now, m.ttl)
}

/// What `keys()` returns at time `now`: the keys of the live entries, in
/// store order.
pub open spec fn spec_keys<V>(m: CacheModel<V>, now: u64) -> Seq<Seq<char>> {
    keys_of(spec_live_entries(m, now))
}

/// What `values()` returns at time `now`: the values of the live entries, in
/// store order.
pub open spec fn spec_values<V>(m: CacheModel<V>, now: u64) -> Seq<V> {
    values_of(spec_live_entries(m, now))
}

/// One sweep cycle at time `now`: delete every expired entry, then drop
/// every ledger key that is no longer stored.
pub open spec fn spec_sweep<V>(m: CacheModel<V>, now: u64) -> CacheModel<V> {
    let entries = spec_live_entries(m, now);
    CacheModel { entries, order: order_restrict(m.order, entries), ..m }
}

} // verus!

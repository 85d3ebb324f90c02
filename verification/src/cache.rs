//! The cache itself: the store, the insertion-order ledger, the two eviction
//! policies, and the sweeper bookkeeping.
//!
//! The cache is a sequential core. It takes the reading of a monotonic clock
//! as an explicit argument wherever time matters, and exposes one sweep cycle
//! as the [`Cache::sweep`] method; a host embeds it behind its own locks,
//! clock and background worker. Every method is specified against the model
//! in [`crate::model`].

use vstd::prelude::*;

use crate::lifecycle::SweeperState;
use crate::model::{
    at_capacity, empty_model, has_key, is_live, key_index, keys_of, live_entry, live_filter,
    order_restrict, spec_evict, spec_get, spec_keys, spec_put, spec_put_prev, spec_remove,
    spec_remove_prev, spec_sweep, spec_values, values_of, CacheModel, EntryModel,
};

verus! {

/// One stored entry.
pub struct Entry<V> {
    key: String,
    value: V,
    created_at: u64,
}

impl<V> View for Entry<V> {
    type V = EntryModel<V>;

    closed spec fn view(&self) -> EntryModel<V> {
        EntryModel { key: self.key@, value: self.value, created_at: self.created_at }
    }
}

/// The abstraction of a sequence of entries.
pub open spec fn view_entries<V>(es: Seq<Entry<V>>) -> Seq<EntryModel<V>> {
    es.map_values(|e: Entry<V>| e@)
}

/// The abstraction of a sequence of keys.
pub open spec fn view_keys(ks: Seq<String>) -> Seq<Seq<char>> {
    ks.map_values(|s: String| s@)
}

/// An in-memory key-value cache with an optional capacity bound, enforced by
/// oldest-insertion eviction, and an optional time-to-live, enforced both at
/// every read and by an explicit sweep step.
pub struct Cache<V> {
    entries: Vec<Entry<V>>,
    order: Vec<String>,
    max_size: Option<usize>,
    ttl: Option<u64>,
    sweeper: SweeperState,
}

impl<V> View for Cache<V> {
    type V = CacheModel<V>;

    closed spec fn view(&self) -> CacheModel<V> {
        CacheModel {
            entries: view_entries(self.entries@),
            order: view_keys(self.order@),
            max_size: self.max_size,
            ttl: self.ttl,
            sweeper: self.sweeper,
        }
    }
}

/// Whether an entry created at `created_at` is live at `now` under `ttl`.
fn live_at(created_at: u64, now: u64, ttl: Option<u64>) -> (r: bool)
    ensures
        r == is_live(created_at, now, ttl),
{
    match ttl {
        None => true,
        Some(d) => now < created_at || now - created_at < d,
    }
}

/// The index of the first ledger occurrence of `key`, if any.
fn find_order(order: &Vec<String>, key: &String) -> (r: Option<usize>)
    ensures
        match r {
            Some(j) => {
                &&& j < order@.len()
                &&& view_keys(order@)[j as int] == key@
                &&& forall|l: int| 0 <= l < j ==> view_keys(order@)[l] != key@
            },
            None => !view_keys(order@).contains(key@),
        },
{
    let mut j: usize = 0;
    while j < order.len()
        invariant
            j <= order@.len(),
            forall|l: int| 0 <= l < j ==> view_keys(order@)[l] != key@,
        decreases order@.len() - j,
    {
        if order[j] == *key {
            return Some(j);
        }
        j += 1;
    }
    None
}

/// Deletes `key`'s ledger occurrence, if any; the first one, hence under a
/// duplicate-free ledger the only one.
fn drop_ledger_key(order: &mut Vec<String>, key: &String)
    ensures
        view_keys(final(order)@) == view_keys(old(order)@).remove_value(key@),
{
    let ghost s = view_keys(order@);
    proof {
        s.index_of_first_ensures(key@);
    }
    match find_order(order, key) {
        Some(j) => {
            order.remove(j);
            proof {
                match s.index_of_first(key@) {
                    Some(i) => {
                        if i < j {
                            assert(s[i] == key@);
                        }
                        if j < i {
                            assert(s[j as int] == key@);
                        }
                        assert(i == j);
                        assert(view_keys(order@) =~= s.remove(j as int));
                    },
                    None => {
                        assert(s.contains(key@)) by {
                            assert(s[j as int] == key@);
                        }
                        assert(false);
                    },
                }
            }
        },
        None => {
            proof {
                assert(view_keys(order@) =~= s);
            }
        },
    }
}

impl<V: Copy> Cache<V> {
    /// The index of the entry holding `key`, if any. The index returned is
    /// the first match, hence under `keys_distinct` the only one.
    fn find_key(entries: &Vec<Entry<V>>, key: &String) -> (r: Option<usize>)
        ensures
            match r {
                Some(i) => {
                    &&& i < entries@.len()
                    &&& view_entries(entries@)[i as int].key == key@
                    &&& forall|j: int| 0 <= j < i ==> view_entries(entries@)[j].key != key@
                },
                None => !has_key(view_entries(entries@), key@),
            },
    {
        let mut i: usize = 0;
        while i < entries.len()
            invariant
                i <= entries@.len(),
                forall|j: int| 0 <= j < i ==> view_entries(entries@)[j].key != key@,
            decreases entries@.len() - i,
        {
            if entries[i].key == *key {
                return Some(i);
            }
            i += 1;
        }
        None
    }

    /// A new cache: empty, unbounded, no time-to-live, no sweeper.
    pub fn new() -> (c: Self)
        ensures
            c@ == empty_model::<V>(),
            c.wf(),
    {
        let c = Cache {
            entries: Vec::new(),
            order: Vec::new(),
            max_size: None,
            ttl: None,
            sweeper: SweeperState::NotStarted,
        };
        proof {
            assert(c@ =~~= empty_model::<V>());
        }
        c
    }

    /// Well-formedness: the invariant every operation preserves.
    pub open spec fn wf(&self) -> bool {
        crate::model::wf(self@)
    }

    /// Sets the capacity bound. Once the store holds `size` entries, each
    /// further `put` first evicts the key at the front of the ledger.
    pub fn with_max_size(self, size: usize) -> (c: Self)
        ensures
            c@ == (CacheModel { max_size: Some(size), ..self@ }),
            self.wf() ==> c.wf(),
    {
        let c = Cache { max_size: Some(size), ..self };
        proof {
            assert(c@ =~~= (CacheModel { max_size: Some(size), ..self@ }));
        }
        c
    }

    /// Sets the time-to-live and marks the sweeper as running. Every read
    /// from now on hides entries older than `ttl`; the host is expected to
    /// start a worker that calls [`Cache::sweep`] on a fixed interval.
    pub fn with_ttl(self, ttl: u64) -> (c: Self)
        requires
            self@.sweeper == SweeperState::NotStarted,
        ensures
            c@ == (CacheModel { ttl: Some(ttl), sweeper: SweeperState::Running, ..self@ }),
            self.wf() ==> c.wf(),
    {
        let c = Cache { ttl: Some(ttl), sweeper: SweeperState::Running, ..self };
        proof {
            assert(c@ =~~= (CacheModel {
                ttl: Some(ttl),
                sweeper: SweeperState::Running,
                ..self@
            }));
        }
        c
    }

    /// Records that the owner has asked the sweeper to stop.
    pub fn request_stop(&mut self)
        requires
            old(self)@.sweeper == SweeperState::Running,
        ensures
            final(self)@ == (CacheModel { sweeper: SweeperState::StopRequested, ..old(self)@ }),
            old(self).wf() ==> final(self).wf(),
    {
        self.sweeper = SweeperState::StopRequested;
        proof {
            assert(self@ =~~= (CacheModel {
                sweeper: SweeperState::StopRequested,
                ..old(self)@
            }));
        }
    }

    /// Records that the owner has seen the sweeper exit; teardown may now
    /// release the cache's storage.
    pub fn confirm_stopped(&mut self)
        requires
            old(self)@.sweeper == SweeperState::StopRequested,
        ensures
            final(self)@ == (CacheModel { sweeper: SweeperState::Stopped, ..old(self)@ }),
            old(self).wf() ==> final(self).wf(),
    {
        self.sweeper = SweeperState::Stopped;
        proof {
            assert(self@ =~~= (CacheModel { sweeper: SweeperState::Stopped, ..old(self)@ }));
        }
    }

    /// Stores `value` under `key`, stamped with the clock reading `now`, and
    /// returns the value the write replaced, if any. When the store is at its
    /// capacity bound, the key at the front of the ledger is evicted first —
    /// the oldest-inserted key, since an overwrite renews a key's ledger
    /// position. On overwrite the entry's stamp is reset, so its time-to-live
    /// starts over.
    pub fn put(&mut self, key: String, value: V, now: u64) -> (prev: Option<V>)
        requires
            old(self).wf(),
        ensures
            final(self).wf(),
            final(self)@ == spec_put(old(self)@, key@, value, now),
            prev == spec_put_prev(old(self)@, key@),
            match old(self)@.max_size {
                Some(cap) => (1 <= cap && old(self)@.entries.len() <= cap)
                    ==> final(self)@.entries.len() <= cap,
                None => true,
            },
    {
        let ghost m0 = self@;
        let at_cap = match self.max_size {
            Some(cap) => self.entries.len() >= cap,
            None => false,
        };
        proof {
            assert(at_cap == at_capacity(m0));
        }
        if at_cap {
            if self.order.len() > 0 {
                let victim = self.order.remove(0);
                proof {
                    assert(view_keys(self.order@) =~= m0.order.drop_first());
                    assert(victim@ == m0.order[0]);
                }
                match Self::find_key(&self.entries, &victim) {
                    Some(i) => {
                        proof {
                            let ki = key_index(m0.entries, victim@);
                            assert(0 <= ki < m0.entries.len() && m0.entries[ki].key == victim@);
                            assert(ki == i);
                        }
                        let ghost e0 = view_entries(self.entries@);
                        self.entries.remove(i);
                        proof {
                            assert(view_entries(self.entries@) =~= e0.remove(i as int));
                        }
                    },
                    None => {},
                }
            }
        }
        proof {
            assert(self@ =~~= (if at_capacity(m0) {
                spec_evict(m0)
            } else {
                m0
            }));
            crate::laws::lemma_evict_wf(m0);
        }
        let ghost m1 = self@;
        // the ledger: drop the key's old occurrence, append it afresh
        drop_ledger_key(&mut self.order, &key);
        let key_for_order = key.clone();
        self.order.push(key_for_order);
        proof {
            assert(view_keys(self.order@) =~= m1.order.remove_value(key@).push(key@));
        }
        // the store: overwrite in place, or append
        let ghost e1 = m1.entries;
        let prev: Option<V>;
        match Self::find_key(&self.entries, &key) {
            Some(i) => {
                proof {
                    let ki = key_index(e1, key@);
                    assert(0 <= ki < e1.len() && e1[ki].key == key@);
                    assert(ki == i);
                }
                prev = Some(self.entries[i].value);
                self.entries.remove(i);
                self.entries.insert(i, Entry { key, value, created_at: now });
                proof {
                    assert(view_entries(self.entries@) =~= e1.update(
                        i as int,
                        EntryModel { key: key@, value, created_at: now },
                    ));
                }
            },
            None => {
                prev = None;
                self.entries.push(Entry { key, value, created_at: now });
                proof {
                    assert(view_entries(self.entries@) =~= e1.push(
                        EntryModel { key: key@, value, created_at: now },
                    ));
                }
            },
        }
        proof {
            assert(self@ =~~= spec_put(m0, key@, value, now));
            crate::laws::lemma_put_wf(m0, key@, value, now);
            match m0.max_size {
                Some(cap) => {
                    if 1 <= cap && m0.entries.len() <= cap {
                        crate::laws::lemma_capacity_bound(m0, key@, value, now, cap);
                    }
                },
                None => {},
            }
        }
        prev
    }

    /// The value stored under `key`, at the clock reading `now`: a copy of
    /// the value when the key is present and its entry is live, else nothing.
    /// An expired entry is never returned, whether or not a sweep has removed
    /// it yet.
    pub fn get(&self, key: &String, now: u64) -> (r: Option<V>)
        requires
            self.wf(),
        ensures
            r == spec_get(self@, key@, now),
    {
        match Self::find_key(&self.entries, key) {
            Some(i) => {
                proof {
                    let ki = key_index(self@.entries, key@);
                    assert(0 <= ki < self@.entries.len() && self@.entries[ki].key == key@);
                    assert(ki == i);
                }
                let e = &self.entries[i];
                if live_at(e.created_at, now, self.ttl) {
                    Some(e.value)
                } else {
                    None
                }
            },
            None => None,
        }
    }

    /// Whether `key` is present and live at the clock reading `now`:
    /// equivalent to `get` returning a value, without copying it.
    pub fn contains_key(&self, key: &String, now: u64) -> (r: bool)
        requires
            self.wf(),
        ensures
            r == (spec_get(self@, key@, now) is Some),
    {
        match Self::find_key(&self.entries, key) {
            Some(i) => {
                proof {
                    let ki = key_index(self@.entries, key@);
                    assert(0 <= ki < self@.entries.len() && self@.entries[ki].key == key@);
                    assert(ki == i);
                }
                live_at(self.entries[i].created_at, now, self.ttl)
            },
            None => false,
        }
    }

    /// Deletes `key` and its ledger occurrence, and returns the value that
    /// was stored, or nothing when the key is absent. The time-to-live plays
    /// no part here: an expired entry that no sweep has removed yet is still
    /// deleted, and its value returned.
    pub fn remove(&mut self, key: &String) -> (prev: Option<V>)
        requires
            old(self).wf(),
        ensures
            final(self).wf(),
            final(self)@ == spec_remove(old(self)@, key@),
            prev == spec_remove_prev(old(self)@, key@),
    {
        let ghost m0 = self@;
        let prev: Option<V> = match Self::find_key(&self.entries, key) {
            Some(i) => {
                proof {
                    let ki = key_index(m0.entries, key@);
                    assert(0 <= ki < m0.entries.len() && m0.entries[ki].key == key@);
                    assert(ki == i);
                }
                let v = self.entries[i].value;
                self.entries.remove(i);
                proof {
                    assert(view_entries(self.entries@) =~= m0.entries.remove(i as int));
                }
                drop_ledger_key(&mut self.order, key);
                Some(v)
            },
            None => {
                proof {
                    m0.order.index_of_first_ensures(key@);
                    if m0.order.contains(key@) {
                        let p = choose|p: int| 0 <= p < m0.order.len() && m0.order[p] == key@;
                        assert(has_key(m0.entries, m0.order[p]));
                        assert(false);
                    }
                }
                None
            },
        };
        proof {
            assert(self@ =~~= spec_remove(m0, key@));
            crate::laws::lemma_remove_wf(m0, key@);
        }
        prev
    }

    /// A point-in-time snapshot of the keys live at the clock reading `now`,
    /// in store order. A later mutation of the cache does not touch the
    /// returned sequence.
    pub fn keys(&self, now: u64) -> (r: Vec<String>)
        requires
            self.wf(),
        ensures
            view_keys(r@) == spec_keys(self@, now),
    {
        let ghost es = self@.entries;
        let mut r: Vec<String> = Vec::new();
        let mut i: usize = 0;
        proof {
            assert(es.take(0) =~= Seq::<EntryModel<V>>::empty());
            assert(view_keys(r@) =~= keys_of(live_filter(es.take(0), now, self@.ttl)));
        }
        while i < self.entries.len()
            invariant
                i <= self.entries@.len(),
                es == self@.entries,
                view_keys(r@) == keys_of(live_filter(es.take(i as int), now, self@.ttl)),
            decreases self.entries@.len() - i,
        {
            let ghost r0 = view_keys(r@);
            let ghost lf0 = live_filter(es.take(i as int), now, self@.ttl);
            let e = &self.entries[i];
            if live_at(e.created_at, now, self.ttl) {
                r.push(e.key.clone());
                proof {
                    assert(view_keys(r@) =~= r0.push(es[i as int].key));
                }
            }
            proof {
                crate::laws::lemma_live_filter_take_step(es, now, self@.ttl, i as int);
                if live_entry(es[i as int], now, self@.ttl) {
                    assert(keys_of(lf0.push(es[i as int])) =~= keys_of(lf0).push(
                        es[i as int].key,
                    ));
                }
                assert(view_keys(r@) =~= keys_of(
                    live_filter(es.take(i as int + 1), now, self@.ttl),
                ));
            }
            i += 1;
        }
        proof {
            assert(es.take(es.len() as int) =~= es);
        }
        r
    }

    /// A point-in-time snapshot of the values live at the clock reading
    /// `now`, in store order. A later mutation of the cache does not touch
    /// the returned sequence.
    pub fn values(&self, now: u64) -> (r: Vec<V>)
        requires
            self.wf(),
        ensures
            r@ == spec_values(self@, now),
    {
        let ghost es = self@.entries;
        let mut r: Vec<V> = Vec::new();
        let mut i: usize = 0;
        proof {
            assert(es.take(0) =~= Seq::<EntryModel<V>>::empty());
            assert(r@ =~= values_of(live_filter(es.take(0), now, self@.ttl)));
        }
        while i < self.entries.len()
            invariant
                i <= self.entries@.len(),
                es == self@.entries,
                r@ == values_of(live_filter(es.take(i as int), now, self@.ttl)),
            decreases self.entries@.len() - i,
        {
            let ghost r0 = r@;
            let ghost lf0 = live_filter(es.take(i as int), now, self@.ttl);
            let e = &self.entries[i];
            if live_at(e.created_at, now, self.ttl) {
                r.push(e.value);
            }
            proof {
                crate::laws::lemma_live_filter_take_step(es, now, self@.ttl, i as int);
                if live_entry(es[i as int], now, self@.ttl) {
                    assert(values_of(lf0.push(es[i as int])) =~= values_of(lf0).push(
                        es[i as int].value,
                    ));
                }
                assert(r@ =~= values_of(live_filter(es.take(i as int + 1), now, self@.ttl)));
            }
            i += 1;
        }
        proof {
            assert(es.take(es.len() as int) =~= es);
        }
        r
    }

    /// One sweep cycle, at the clock reading `now`: deletes every expired
    /// entry from the store, then drops every ledger key that is no longer
    /// stored. A sweep only bounds memory growth; reads hide expired entries
    /// whether or not a sweep ever runs.
    pub fn sweep(&mut self, now: u64)
        requires
            old(self).wf(),
        ensures
            final(self).wf(),
            final(self)@ == spec_sweep(old(self)@, now),
    {
        let ghost m0 = self@;
        let ghost es = m0.entries;
        // delete expired entries
        let mut kept: Vec<Entry<V>> = Vec::new();
        let ghost mut j: int = 0;
        proof {
            assert(es.take(0) =~= Seq::<EntryModel<V>>::empty());
            assert(view_entries(kept@) =~= live_filter(es.take(0), now, m0.ttl));
            assert(view_entries(self.entries@) =~= es.skip(0));
        }
        while self.entries.len() > 0
            invariant
                0 <= j <= es.len(),
                view_entries(self.entries@) == es.skip(j),
                view_entries(kept@) == live_filter(es.take(j), now, m0.ttl),
                self@.order == m0.order,
                self@.max_size == m0.max_size,
                self@.ttl == m0.ttl,
                self@.sweeper == m0.sweeper,
            decreases self.entries@.len(),
        {
            let ghost cur = view_entries(self.entries@);
            let ghost k0 = view_entries(kept@);
            proof {
                assert(cur.len() == self.entries@.len());
                assert(cur.len() == es.len() - j);
                assert(j < es.len());
                assert(es.skip(j)[0] == es[j]);
            }
            let e = self.entries.remove(0);
            proof {
                assert(cur[0] == es[j]);
                assert(view_entries(self.entries@) =~= cur.remove(0));
                assert(cur.remove(0) =~= es.skip(j + 1));
            }
            if live_at(e.created_at, now, self.ttl) {
                kept.push(e);
                proof {
                    assert(view_entries(kept@) =~= k0.push(es[j]));
                }
            }
            proof {
                crate::laws::lemma_live_filter_take_step(es, now, m0.ttl, j);
                assert(view_entries(kept@) =~= live_filter(es.take(j + 1), now, m0.ttl));
                j = j + 1;
            }
        }
        self.entries = kept;
        proof {
            assert(j == es.len());
            assert(es.take(j) =~= es);
            assert(self@.entries == live_filter(es, now, m0.ttl));
        }
        // reconcile the ledger
        let ghost os = m0.order;
        let ghost lf = live_filter(es, now, m0.ttl);
        let mut kept_keys: Vec<String> = Vec::new();
        let ghost mut p: int = 0;
        proof {
            assert(os.take(0) =~= Seq::<Seq<char>>::empty());
            assert(view_keys(kept_keys@) =~= order_restrict(os.take(0), lf));
            assert(view_keys(self.order@) =~= os.skip(0));
        }
        while self.order.len() > 0
            invariant
                0 <= p <= os.len(),
                view_keys(self.order@) == os.skip(p),
                view_keys(kept_keys@) == order_restrict(os.take(p), lf),
                self@.entries == lf,
                self@.max_size == m0.max_size,
                self@.ttl == m0.ttl,
                self@.sweeper == m0.sweeper,
            decreases self.order@.len(),
        {
            let ghost cur = view_keys(self.order@);
            let ghost k0 = view_keys(kept_keys@);
            proof {
                assert(cur.len() == self.order@.len());
                assert(cur.len() == os.len() - p);
                assert(p < os.len());
                assert(os.skip(p)[0] == os[p]);
            }
            let key = self.order.remove(0);
            proof {
                assert(cur[0] == os[p]);
                assert(view_keys(self.order@) =~= cur.remove(0));
                assert(cur.remove(0) =~= os.skip(p + 1));
            }
            match Self::find_key(&self.entries, &key) {
                Some(_) => {
                    kept_keys.push(key);
                    proof {
                        assert(view_keys(kept_keys@) =~= k0.push(os[p]));
                    }
                },
                None => {},
            }
            proof {
                crate::laws::lemma_order_restrict_take_step(os, lf, p);
                assert(view_keys(kept_keys@) =~= order_restrict(os.take(p + 1), lf));
                p = p + 1;
            }
        }
        self.order = kept_keys;
        proof {
            assert(p == os.len());
            assert(os.take(p) =~= os);
            assert(self@ =~~= spec_sweep(m0, now));
            crate::laws::lemma_sweep_wf(m0, now);
        }
    }

    /// The sweeper's lifecycle state.
    pub fn sweeper_state(&self) -> (s: SweeperState)
        ensures
            s == self@.sweeper,
    {
        self.sweeper
    }
}

impl<V: Copy> Default for Cache<V> {
    /// Same as [`Cache::new`].
    fn default() -> (c: Self)
        ensures
            c@ == empty_model::<V>(),
            c.wf(),
    {
        Cache::new()
    }
}

} // verus!

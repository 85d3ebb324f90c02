//! The laws of the cache, proved about the model's transition functions, and
//! the lemmas that carry them.
//!
//! The public proof functions here state the guarantees a caller can lean on:
//! the capacity bound, first-in-first-out eviction, the time-to-live
//! boundary, the independence of reads from the sweeper, and what `put`
//! returns. Each is proved from the definitions in [`crate::model`] alone.

use vstd::prelude::*;

use crate::model::{
    at_capacity, has_key, is_live, key_index, keys_distinct, keys_of, live_entry, live_filter,
    order_restrict, remove_entry, spec_evict, spec_get, spec_keys, spec_put, spec_put_prev,
    spec_remove, spec_remove_prev, spec_sweep, spec_values, stamp_of, value_of, values_of, wf,
    CacheModel, EntryModel,
};

verus! {

/// Removing a value from a duplicate-free sequence: the value is gone, no
/// other element is touched, and the sequence stays duplicate-free.
pub proof fn lemma_remove_value_distinct<A>(s: Seq<A>, x: A)
    requires
        s.no_duplicates(),
    ensures
        s.remove_value(x).no_duplicates(),
        !s.remove_value(x).contains(x),
        forall|y: A| y != x ==> (#[trigger] s.remove_value(x).contains(y) <==> s.contains(y)),
        s.contains(x) ==> s.remove_value(x).len() == s.len() - 1,
        !s.contains(x) ==> s.remove_value(x) == s,
{
    s.index_of_first_ensures(x);
    let r = s.remove_value(x);
    match s.index_of_first(x) {
        Some(i) => {
            assert(r =~= s.remove(i));
            assert forall|j: int, k: int|
                0 <= j < r.len() && 0 <= k < r.len() && j != k implies r[j] != r[k] by {
                let oj: int = if j < i {
                    j
                } else {
                    j + 1
                };
                let ok: int = if k < i {
                    k
                } else {
                    k + 1
                };
                assert(r[j] == s[oj] && r[k] == s[ok]);
            }
            assert forall|j: int| 0 <= j < r.len() implies r[j] != x by {
                let oj: int = if j < i {
                    j
                } else {
                    j + 1
                };
                assert(r[j] == s[oj]);
                assert(s[i] == x);
            }
            assert forall|y: A| y != x && s.contains(y) implies r.contains(y) by {
                let j = choose|j: int| 0 <= j < s.len() && s[j] == y;
                if j < i {
                    assert(r[j] == y);
                } else {
                    assert(j != i);
                    assert(r[j - 1] == y);
                }
            }
            assert forall|y: A| y != x && r.contains(y) implies s.contains(y) by {
                let j = choose|j: int| 0 <= j < r.len() && r[j] == y;
                if j < i {
                    assert(s[j] == y);
                } else {
                    assert(s[j + 1] == y);
                }
            }
        },
        None => {
            assert(r == s);
        },
    }
}

/// Deleting the entry holding `victim` from a store with distinct keys: the
/// key is gone, every other key keeps its value and stamp, every remaining
/// entry was already stored, and distinctness is preserved.
pub proof fn lemma_remove_entry_facts<V>(entries: Seq<EntryModel<V>>, victim: Seq<char>)
    requires
        keys_distinct(entries),
    ensures
        keys_distinct(remove_entry(entries, victim)),
        !has_key(remove_entry(entries, victim), victim),
        forall|k: Seq<char>|
            k != victim ==> (#[trigger] has_key(remove_entry(entries, victim), k) <==> has_key(
                entries,
                k,
            )),
        forall|k: Seq<char>|
            k != victim && #[trigger] has_key(entries, k) ==> value_of(
                remove_entry(entries, victim),
                k,
            ) == value_of(entries, k) && stamp_of(remove_entry(entries, victim), k) == stamp_of(
                entries,
                k,
            ),
        has_key(entries, victim) ==> remove_entry(entries, victim).len() == entries.len() - 1,
        !has_key(entries, victim) ==> remove_entry(entries, victim) == entries,
        forall|j: int|
            0 <= j < remove_entry(entries, victim).len() ==> entries.contains(
                #[trigger] remove_entry(entries, victim)[j],
            ),
{
    let r = remove_entry(entries, victim);
    if has_key(entries, victim) {
        let i = key_index(entries, victim);
        assert(0 <= i < entries.len() && entries[i].key == victim);
        assert(r == entries.remove(i));
        assert forall|j: int| 0 <= j < r.len() implies entries.contains(r[j]) by {
            let oj: int = if j < i {
                j
            } else {
                j + 1
            };
            assert(r[j] == entries[oj]);
        }
        assert forall|j: int, k: int|
            0 <= j < r.len() && 0 <= k < r.len() && j != k implies r[j].key != r[k].key by {
            let oj: int = if j < i {
                j
            } else {
                j + 1
            };
            let ok: int = if k < i {
                k
            } else {
                k + 1
            };
            assert(r[j] == entries[oj] && r[k] == entries[ok]);
        }
        assert forall|j: int| 0 <= j < r.len() implies r[j].key != victim by {
            let oj: int = if j < i {
                j
            } else {
                j + 1
            };
            assert(r[j] == entries[oj]);
        }
        assert forall|k: Seq<char>| k != victim && has_key(entries, k) implies has_key(r, k) by {
            let j = key_index(entries, k);
            assert(0 <= j < entries.len() && entries[j].key == k);
            assert(j != i);
            if j < i {
                assert(r[j] == entries[j]);
            } else {
                assert(r[j - 1] == entries[j]);
            }
        }
        assert forall|k: Seq<char>| k != victim && has_key(r, k) implies has_key(entries, k) by {
            let j = key_index(r, k);
            assert(0 <= j < r.len() && r[j].key == k);
            let oj: int = if j < i {
                j
            } else {
                j + 1
            };
            assert(r[j] == entries[oj]);
        }
        assert forall|k: Seq<char>| k != victim && has_key(entries, k) implies value_of(r, k)
            == value_of(entries, k) && stamp_of(r, k) == stamp_of(entries, k) by {
            let j = key_index(r, k);
            assert(0 <= j < r.len() && r[j].key == k);
            let oj: int = if j < i {
                j
            } else {
                j + 1
            };
            assert(r[j] == entries[oj]);
            let l = key_index(entries, k);
            assert(0 <= l < entries.len() && entries[l].key == k);
            assert(oj == l);
        }
    }
}

/// One eviction step preserves well-formedness, removes exactly the ledger's
/// front key, and shrinks a nonempty store by one.
pub proof fn lemma_evict_wf<V>(m: CacheModel<V>)
    requires
        wf(m),
    ensures
        wf(spec_evict(m)),
        m.entries.len() > 0 ==> m.order.len() > 0,
        m.order.len() > 0 ==> !has_key(spec_evict(m).entries, m.order[0]),
        m.order.len() > 0 ==> spec_evict(m).entries.len() == m.entries.len() - 1,
        forall|k: Seq<char>|
            m.order.len() > 0 && k != m.order[0] ==> (#[trigger] has_key(spec_evict(m).entries, k)
                <==> has_key(m.entries, k)),
        forall|k: Seq<char>|
            m.order.len() > 0 && k != m.order[0] && #[trigger] has_key(m.entries, k) ==> value_of(
                spec_evict(m).entries,
                k,
            ) == value_of(m.entries, k) && stamp_of(spec_evict(m).entries, k) == stamp_of(
                m.entries,
                k,
            ),
{
    if m.entries.len() > 0 {
        assert(m.order.contains(m.entries[0].key));
    }
    if m.order.len() > 0 {
        let victim = m.order[0];
        assert(has_key(m.entries, victim));
        lemma_remove_entry_facts(m.entries, victim);
        let r = spec_evict(m);
        assert(r.order =~= m.order.drop_first());
        assert forall|j: int| 0 <= j < r.entries.len() implies r.order.contains(
            #[trigger] r.entries[j].key,
        ) by {
            let kk = r.entries[j].key;
            assert(has_key(r.entries, kk));
            assert(kk != victim);
            let oi = choose|oi: int| 0 <= oi < m.entries.len() && m.entries[oi] == r.entries[j];
            assert(m.order.contains(m.entries[oi].key));
            let p = choose|p: int| 0 <= p < m.order.len() && m.order[p] == kk;
            assert(p != 0);
            assert(r.order[p - 1] == kk);
        }
        assert forall|j: int| 0 <= j < r.order.len() implies has_key(
            r.entries,
            #[trigger] r.order[j],
        ) by {
            assert(r.order[j] == m.order[j + 1]);
            assert(has_key(m.entries, m.order[j + 1]));
            assert(m.order[j + 1] != victim);
        }
    }
}

/// `put` preserves well-formedness, and afterwards the key is stored with
/// the given value and stamp, at the back of the ledger.
pub proof fn lemma_put_wf<V>(m: CacheModel<V>, k: Seq<char>, v: V, now: u64)
    requires
        wf(m),
    ensures
        wf(spec_put(m, k, v, now)),
        has_key(spec_put(m, k, v, now).entries, k),
        value_of(spec_put(m, k, v, now).entries, k) == v,
        stamp_of(spec_put(m, k, v, now).entries, k) == now,
        spec_put(m, k, v, now).order.len() > 0,
        spec_put(m, k, v, now).order.last() == k,
{
    let m1 = if at_capacity(m) {
        spec_evict(m)
    } else {
        m
    };
    lemma_evict_wf(m);
    assert(wf(m1));
    let e = EntryModel { key: k, value: v, created_at: now };
    let entries2 = if has_key(m1.entries, k) {
        m1.entries.update(key_index(m1.entries, k), e)
    } else {
        m1.entries.push(e)
    };
    let order1 = m1.order.remove_value(k);
    let order2 = order1.push(k);
    lemma_remove_value_distinct(m1.order, k);
    let r = spec_put(m, k, v, now);
    assert(r.entries == entries2 && r.order == order2);

    // the ledger stays duplicate-free
    assert forall|i: int, j: int|
        0 <= i < order2.len() && 0 <= j < order2.len() && i != j implies order2[i] != order2[j] by {
        if i < order1.len() && j < order1.len() {
        } else if i == order1.len() {
            assert(order1.contains(order2[j])) by {
                assert(order2[j] == order1[j]);
            }
        } else {
            assert(order1.contains(order2[i])) by {
                assert(order2[i] == order1[i]);
            }
        }
    }

    // store keys stay distinct, and `k` is stored with `v` and `now`
    if has_key(m1.entries, k) {
        let ki = key_index(m1.entries, k);
        assert(0 <= ki < m1.entries.len() && m1.entries[ki].key == k);
        assert forall|i: int, j: int|
            0 <= i < entries2.len() && 0 <= j < entries2.len() && i != j implies entries2[i].key
            != entries2[j].key by {
            assert(entries2[i].key == m1.entries[i].key);
            assert(entries2[j].key == m1.entries[j].key);
        }
        assert(entries2[ki].key == k);
        assert(has_key(entries2, k));
        let ki2 = key_index(entries2, k);
        assert(0 <= ki2 < entries2.len() && entries2[ki2].key == k);
        assert(m1.entries[ki2].key == entries2[ki2].key || ki2 == ki);
        assert(ki2 == ki);
    } else {
        assert forall|i: int, j: int|
            0 <= i < entries2.len() && 0 <= j < entries2.len() && i != j implies entries2[i].key
            != entries2[j].key by {
            if i < m1.entries.len() && j < m1.entries.len() {
            } else if i == m1.entries.len() {
                assert(has_key(m1.entries, entries2[j].key)) by {
                    assert(entries2[j] == m1.entries[j]);
                }
            } else {
                assert(has_key(m1.entries, entries2[i].key)) by {
                    assert(entries2[i] == m1.entries[i]);
                }
            }
        }
        assert(entries2[m1.entries.len() as int].key == k);
        assert(has_key(entries2, k));
        let ki2 = key_index(entries2, k);
        assert(0 <= ki2 < entries2.len() && entries2[ki2].key == k);
        assert(ki2 == m1.entries.len());
    }

    // every stored key appears in the ledger
    assert forall|i: int| 0 <= i < entries2.len() implies order2.contains(
        #[trigger] entries2[i].key,
    ) by {
        let kk = entries2[i].key;
        if kk == k {
            assert(order2[order2.len() - 1] == k);
        } else {
            assert(i < m1.entries.len() && entries2[i].key == m1.entries[i].key);
            assert(m1.order.contains(m1.entries[i].key));
            assert(order1.contains(kk));
            let p = choose|p: int| 0 <= p < order1.len() && order1[p] == kk;
            assert(order2[p] == kk);
        }
    }

    // every ledger key is stored
    assert forall|i: int| 0 <= i < order2.len() implies has_key(
        entries2,
        #[trigger] order2[i],
    ) by {
        let kk = order2[i];
        if i == order2.len() - 1 {
            assert(kk == k);
        } else {
            assert(order1.contains(kk)) by {
                assert(order2[i] == order1[i]);
            }
            assert(m1.order.contains(kk));
            assert(kk != k);
            let p = choose|p: int| 0 <= p < m1.order.len() && m1.order[p] == kk;
            assert(has_key(m1.entries, kk));
            let j = key_index(m1.entries, kk);
            assert(0 <= j < m1.entries.len() && m1.entries[j].key == kk);
            if has_key(m1.entries, k) {
                assert(entries2[j].key == kk);
            } else {
                assert(entries2[j].key == kk);
            }
        }
    }
}

/// Dropping the first entry of a store with distinct keys leaves every other
/// key untouched.
pub proof fn lemma_drop_first_keys<V>(entries: Seq<EntryModel<V>>)
    requires
        keys_distinct(entries),
        entries.len() > 0,
    ensures
        keys_distinct(entries.drop_first()),
        !has_key(entries.drop_first(), entries[0].key),
        forall|k: Seq<char>|
            k != entries[0].key ==> (#[trigger] has_key(entries.drop_first(), k) <==> has_key(
                entries,
                k,
            )),
        forall|k: Seq<char>|
            k != entries[0].key && #[trigger] has_key(entries, k) ==> value_of(
                entries.drop_first(),
                k,
            ) == value_of(entries, k) && stamp_of(entries.drop_first(), k) == stamp_of(entries, k),
{
    let r = entries.drop_first();
    assert forall|j: int| 0 <= j < r.len() implies r[j] == entries[j + 1] by {}
    assert forall|j: int| 0 <= j < r.len() implies r[j].key != entries[0].key by {
        assert(r[j] == entries[j + 1]);
    }
    assert forall|k: Seq<char>| k != entries[0].key && has_key(entries, k) implies has_key(
        r,
        k,
    ) by {
        let j = key_index(entries, k);
        assert(0 <= j < entries.len() && entries[j].key == k);
        assert(j != 0);
        assert(r[j - 1] == entries[j]);
    }
    assert forall|k: Seq<char>| k != entries[0].key && has_key(entries, k) implies value_of(r, k)
        == value_of(entries, k) && stamp_of(r, k) == stamp_of(entries, k) by {
        let j = key_index(entries, k);
        assert(0 <= j < entries.len() && entries[j].key == k);
        let jr = key_index(r, k);
        assert(0 <= jr < r.len() && r[jr].key == k);
        assert(r[jr] == entries[jr + 1]);
        assert(jr + 1 == j);
    }
}

/// `live_filter` distributes over concatenation.
pub proof fn lemma_live_filter_add<V>(
    a: Seq<EntryModel<V>>,
    b: Seq<EntryModel<V>>,
    now: u64,
    ttl: Option<u64>,
)
    ensures
        live_filter(a + b, now, ttl) == live_filter(a, now, ttl) + live_filter(b, now, ttl),
    decreases a.len(),
{
    if a.len() == 0 {
        assert(a + b =~= b);
        assert(live_filter(a, now, ttl) + live_filter(b, now, ttl) =~= live_filter(b, now, ttl));
    } else {
        assert((a + b).len() > 0);
        assert((a + b)[0] == a[0]);
        assert((a + b).drop_first() =~= a.drop_first() + b);
        lemma_live_filter_add(a.drop_first(), b, now, ttl);
        if live_entry(a[0], now, ttl) {
            assert(seq![a[0]] + (live_filter(a.drop_first(), now, ttl) + live_filter(b, now, ttl))
                =~= (seq![a[0]] + live_filter(a.drop_first(), now, ttl)) + live_filter(
                b,
                now,
                ttl,
            ));
        }
    }
}

/// Walking a store from the front and keeping the live entries: one step.
pub proof fn lemma_live_filter_take_step<V>(
    entries: Seq<EntryModel<V>>,
    now: u64,
    ttl: Option<u64>,
    i: int,
)
    requires
        0 <= i < entries.len(),
    ensures
        live_filter(entries.take(i + 1), now, ttl) == if live_entry(entries[i], now, ttl) {
            live_filter(entries.take(i), now, ttl).push(entries[i])
        } else {
            live_filter(entries.take(i), now, ttl)
        },
{
    let single = seq![entries[i]];
    assert(entries.take(i + 1) =~= entries.take(i) + single);
    lemma_live_filter_add(entries.take(i), single, now, ttl);
    assert(single.drop_first() =~= Seq::<EntryModel<V>>::empty());
    assert(live_filter(Seq::<EntryModel<V>>::empty(), now, ttl) =~= Seq::<EntryModel<V>>::empty());
    if live_entry(entries[i], now, ttl) {
        assert(live_filter(single, now, ttl) =~= single);
        assert(live_filter(entries.take(i), now, ttl) + single =~= live_filter(
            entries.take(i),
            now,
            ttl,
        ).push(entries[i]));
    } else {
        assert(live_filter(single, now, ttl) =~= Seq::<EntryModel<V>>::empty());
        assert(live_filter(entries.take(i), now, ttl) + Seq::<EntryModel<V>>::empty()
            =~= live_filter(entries.take(i), now, ttl));
    }
}

/// What `live_filter` keeps: exactly the live entries, with distinctness,
/// values and stamps untouched.
pub proof fn lemma_live_filter_facts<V>(entries: Seq<EntryModel<V>>, now: u64, ttl: Option<u64>)
    requires
        keys_distinct(entries),
    ensures
        keys_distinct(live_filter(entries, now, ttl)),
        forall|j: int|
            0 <= j < live_filter(entries, now, ttl).len() ==> entries.contains(
                #[trigger] live_filter(entries, now, ttl)[j],
            ) && live_entry(live_filter(entries, now, ttl)[j], now, ttl),
        forall|k: Seq<char>|
            #[trigger] has_key(live_filter(entries, now, ttl), k) <==> (has_key(entries, k)
                && is_live(stamp_of(entries, k), now, ttl)),
        forall|k: Seq<char>|
            #[trigger] has_key(live_filter(entries, now, ttl), k) ==> value_of(
                live_filter(entries, now, ttl),
                k,
            ) == value_of(entries, k) && stamp_of(live_filter(entries, now, ttl), k) == stamp_of(
                entries,
                k,
            ),
    decreases entries.len(),
{
    let lf = live_filter(entries, now, ttl);
    if entries.len() == 0 {
        assert forall|k: Seq<char>| #[trigger] has_key(lf, k) implies false by {}
    } else {
        let e0 = entries[0];
        let rest = entries.drop_first();
        let lfr = live_filter(rest, now, ttl);
        lemma_drop_first_keys(entries);
        lemma_live_filter_facts(rest, now, ttl);
        assert forall|j: int| 0 <= j < lfr.len() implies entries.contains(lfr[j]) by {
            assert(rest.contains(lfr[j]));
            let p = choose|p: int| 0 <= p < rest.len() && rest[p] == lfr[j];
            assert(entries[p + 1] == rest[p]);
        }
        if live_entry(e0, now, ttl) {
            assert(lf =~= seq![e0] + lfr);
            assert(lf[0] == e0);
            assert forall|j: int| 0 <= j < lf.len() implies entries.contains(lf[j]) && live_entry(
                lf[j],
                now,
                ttl,
            ) by {
                if j == 0 {
                    assert(entries[0] == e0);
                } else {
                    assert(lf[j] == lfr[j - 1]);
                }
            }
            assert forall|j: int, l: int|
                0 <= j < lf.len() && 0 <= l < lf.len() && j != l implies lf[j].key != lf[l].key by {
                if j != 0 && l != 0 {
                    assert(lf[j] == lfr[j - 1] && lf[l] == lfr[l - 1]);
                } else {
                    let other: int = if j == 0 {
                        l
                    } else {
                        j
                    };
                    assert(lf[other] == lfr[other - 1]);
                    assert(!has_key(rest, e0.key));
                    assert(rest.contains(lfr[other - 1]));
                    let p = choose|p: int| 0 <= p < rest.len() && rest[p] == lfr[other - 1];
                    assert(lfr[other - 1].key != e0.key);
                }
            }
            assert forall|k: Seq<char>| #[trigger] has_key(lf, k) implies (has_key(entries, k)
                && is_live(stamp_of(entries, k), now, ttl) && value_of(lf, k) == value_of(
                entries,
                k,
            ) && stamp_of(lf, k) == stamp_of(entries, k)) by {
                let j = key_index(lf, k);
                assert(0 <= j < lf.len() && lf[j].key == k);
                if k == e0.key {
                    assert(has_key(entries, k)) by {
                        assert(entries[0].key == k);
                    }
                    let l = key_index(entries, k);
                    assert(0 <= l < entries.len() && entries[l].key == k);
                    assert(l == 0);
                    assert(lf[j].key == e0.key);
                    if j != 0 {
                        assert(lf[j] == lfr[j - 1]);
                        assert(has_key(lfr, k));
                        assert(has_key(rest, k));
                        assert(false);
                    }
                    assert(value_of(lf, k) == e0.value && stamp_of(lf, k) == e0.created_at) by {
                        let j2 = key_index(lf, k);
                        assert(0 <= j2 < lf.len() && lf[j2].key == k);
                        if j2 != 0 {
                            assert(lf[j2] == lfr[j2 - 1]);
                            assert(has_key(rest, k));
                            assert(false);
                        }
                    }
                } else {
                    assert(j != 0);
                    assert(lf[j] == lfr[j - 1]);
                    assert(has_key(lfr, k));
                    assert(has_key(rest, k) && is_live(stamp_of(rest, k), now, ttl));
                    assert(has_key(entries, k));
                    assert(value_of(lf, k) == value_of(lfr, k) && stamp_of(lf, k) == stamp_of(
                        lfr,
                        k,
                    )) by {
                        let j2 = key_index(lf, k);
                        assert(0 <= j2 < lf.len() && lf[j2].key == k);
                        assert(j2 != 0);
                        assert(lf[j2] == lfr[j2 - 1]);
                        let j3 = key_index(lfr, k);
                        assert(0 <= j3 < lfr.len() && lfr[j3].key == k);
                        assert(keys_distinct(lfr));
                        assert(lfr[j2 - 1] == lfr[j3]) by {
                            if j2 - 1 != j3 {
                                assert(lfr[j2 - 1].key != lfr[j3].key);
                            }
                        }
                    }
                }
            }
            assert forall|k: Seq<char>|
                has_key(entries, k) && is_live(stamp_of(entries, k), now, ttl) implies #[trigger]
                has_key(lf, k) by {
                if k == e0.key {
                    assert(lf[0].key == k);
                } else {
                    assert(has_key(rest, k) && stamp_of(rest, k) == stamp_of(entries, k));
                    assert(has_key(lfr, k));
                    let j = key_index(lfr, k);
                    assert(0 <= j < lfr.len() && lfr[j].key == k);
                    assert(lf[j + 1] == lfr[j]);
                }
            }
        } else {
            assert(lf =~= lfr);
            assert forall|j: int| 0 <= j < lf.len() implies entries.contains(lf[j]) && live_entry(
                lf[j],
                now,
                ttl,
            ) by {}
            assert forall|k: Seq<char>| #[trigger] has_key(lf, k) implies (has_key(entries, k)
                && is_live(stamp_of(entries, k), now, ttl) && value_of(lf, k) == value_of(
                entries,
                k,
            ) && stamp_of(lf, k) == stamp_of(entries, k)) by {
                assert(has_key(lfr, k));
                assert(has_key(rest, k) && is_live(stamp_of(rest, k), now, ttl));
                assert(k != e0.key) by {
                    if k == e0.key {
                        assert(!has_key(rest, e0.key));
                    }
                }
            }
            assert forall|k: Seq<char>|
                has_key(entries, k) && is_live(stamp_of(entries, k), now, ttl) implies #[trigger]
                has_key(lf, k) by {
                if k == e0.key {
                    let l = key_index(entries, k);
                    assert(0 <= l < entries.len() && entries[l].key == k);
                    assert(l == 0);
                    assert(!is_live(stamp_of(entries, k), now, ttl));
                } else {
                    assert(has_key(rest, k) && stamp_of(rest, k) == stamp_of(entries, k));
                }
            }
        }
    }
}

/// A store of entries all live at `now` is untouched by `live_filter`.
pub proof fn lemma_live_filter_all<V>(entries: Seq<EntryModel<V>>, now: u64, ttl: Option<u64>)
    requires
        forall|j: int| 0 <= j < entries.len() ==> live_entry(#[trigger] entries[j], now, ttl),
    ensures
        live_filter(entries, now, ttl) == entries,
    decreases entries.len(),
{
    if entries.len() > 0 {
        lemma_live_filter_all(entries.drop_first(), now, ttl);
        assert(seq![entries[0]] + entries.drop_first() =~= entries);
    }
}

/// `order_restrict` distributes over concatenation.
pub proof fn lemma_order_restrict_add<V>(
    a: Seq<Seq<char>>,
    b: Seq<Seq<char>>,
    entries: Seq<EntryModel<V>>,
)
    ensures
        order_restrict(a + b, entries) == order_restrict(a, entries) + order_restrict(b, entries),
    decreases a.len(),
{
    if a.len() == 0 {
        assert(a + b =~= b);
        assert(order_restrict(a, entries) + order_restrict(b, entries) =~= order_restrict(
            b,
            entries,
        ));
    } else {
        assert((a + b).len() > 0);
        assert((a + b)[0] == a[0]);
        assert((a + b).drop_first() =~= a.drop_first() + b);
        lemma_order_restrict_add(a.drop_first(), b, entries);
        if has_key(entries, a[0]) {
            assert(seq![a[0]] + (order_restrict(a.drop_first(), entries) + order_restrict(
                b,
                entries,
            )) =~= (seq![a[0]] + order_restrict(a.drop_first(), entries)) + order_restrict(
                b,
                entries,
            ));
        }
    }
}

/// Walking a ledger from the front and keeping the stored keys: one step.
pub proof fn lemma_order_restrict_take_step<V>(
    order: Seq<Seq<char>>,
    entries: Seq<EntryModel<V>>,
    i: int,
)
    requires
        0 <= i < order.len(),
    ensures
        order_restrict(order.take(i + 1), entries) == if has_key(entries, order[i]) {
            order_restrict(order.take(i), entries).push(order[i])
        } else {
            order_restrict(order.take(i), entries)
        },
{
    let single = seq![order[i]];
    assert(order.take(i + 1) =~= order.take(i) + single);
    lemma_order_restrict_add(order.take(i), single, entries);
    assert(single.drop_first() =~= Seq::<Seq<char>>::empty());
    assert(order_restrict(Seq::<Seq<char>>::empty(), entries) =~= Seq::<Seq<char>>::empty());
    if has_key(entries, order[i]) {
        assert(order_restrict(single, entries) =~= single);
        assert(order_restrict(order.take(i), entries) + single =~= order_restrict(
            order.take(i),
            entries,
        ).push(order[i]));
    } else {
        assert(order_restrict(single, entries) =~= Seq::<Seq<char>>::empty());
        assert(order_restrict(order.take(i), entries) + Seq::<Seq<char>>::empty()
            =~= order_restrict(order.take(i), entries));
    }
}

/// What `order_restrict` keeps: exactly the ledger keys that are stored,
/// without introducing duplicates.
pub proof fn lemma_order_restrict_facts<V>(order: Seq<Seq<char>>, entries: Seq<EntryModel<V>>)
    requires
        order.no_duplicates(),
    ensures
        order_restrict(order, entries).no_duplicates(),
        forall|k: Seq<char>|
            #[trigger] order_restrict(order, entries).contains(k) <==> (order.contains(k)
                && has_key(entries, k)),
    decreases order.len(),
{
    let r = order_restrict(order, entries);
    if order.len() == 0 {
        assert forall|k: Seq<char>| #[trigger] r.contains(k) implies false by {}
        assert forall|k: Seq<char>| order.contains(k) implies false by {}
    } else {
        let rest = order.drop_first();
        let rr = order_restrict(rest, entries);
        assert(rest.no_duplicates()) by {
            assert forall|j: int, l: int|
                0 <= j < rest.len() && 0 <= l < rest.len() && j != l implies rest[j] != rest[l] by {
                assert(rest[j] == order[j + 1] && rest[l] == order[l + 1]);
            }
        }
        lemma_order_restrict_facts(rest, entries);
        assert forall|k: Seq<char>| #[trigger] rest.contains(k) implies order.contains(k) by {
            let p = choose|p: int| 0 <= p < rest.len() && rest[p] == k;
            assert(order[p + 1] == k);
        }
        assert(!rest.contains(order[0])) by {
            if rest.contains(order[0]) {
                let p = choose|p: int| 0 <= p < rest.len() && rest[p] == order[0];
                assert(order[p + 1] == order[0]);
            }
        }
        if has_key(entries, order[0]) {
            assert(r =~= seq![order[0]] + rr);
            assert forall|j: int, l: int|
                0 <= j < r.len() && 0 <= l < r.len() && j != l implies r[j] != r[l] by {
                if j != 0 && l != 0 {
                    assert(r[j] == rr[j - 1] && r[l] == rr[l - 1]);
                } else {
                    let other: int = if j == 0 {
                        l
                    } else {
                        j
                    };
                    assert(r[other] == rr[other - 1]);
                    assert(rr.contains(rr[other - 1]));
                    assert(rest.contains(rr[other - 1]));
                }
            }
            assert forall|k: Seq<char>| #[trigger] r.contains(k) implies (order.contains(k)
                && has_key(entries, k)) by {
                let j = choose|j: int| 0 <= j < r.len() && r[j] == k;
                if j == 0 {
                    assert(order[0] == k);
                } else {
                    assert(r[j] == rr[j - 1]);
                    assert(rr.contains(k));
                }
            }
            assert forall|k: Seq<char>|
                order.contains(k) && has_key(entries, k) implies #[trigger] r.contains(k) by {
                if k == order[0] {
                    assert(r[0] == k);
                } else {
                    let p = choose|p: int| 0 <= p < order.len() && order[p] == k;
                    assert(p != 0);
                    assert(rest[p - 1] == k);
                    assert(rr.contains(k));
                    let q = choose|q: int| 0 <= q < rr.len() && rr[q] == k;
                    assert(r[q + 1] == k);
                }
            }
        } else {
            assert(r =~= rr);
            assert forall|k: Seq<char>| #[trigger] r.contains(k) implies (order.contains(k)
                && has_key(entries, k)) by {
                assert(rr.contains(k));
            }
            assert forall|k: Seq<char>|
                order.contains(k) && has_key(entries, k) implies #[trigger] r.contains(k) by {
                if k == order[0] {
                    assert(!has_key(entries, k));
                } else {
                    let p = choose|p: int| 0 <= p < order.len() && order[p] == k;
                    assert(p != 0);
                    assert(rest[p - 1] == k);
                }
            }
        }
    }
}

/// A key appears among a store's keys exactly when some entry holds it.
pub proof fn lemma_keys_of_contains<V>(entries: Seq<EntryModel<V>>, k: Seq<char>)
    ensures
        keys_of(entries).contains(k) <==> has_key(entries, k),
{
    if has_key(entries, k) {
        let j = key_index(entries, k);
        assert(0 <= j < entries.len() && entries[j].key == k);
        assert(keys_of(entries)[j] == k);
    }
    if keys_of(entries).contains(k) {
        let j = choose|j: int| 0 <= j < keys_of(entries).len() && keys_of(entries)[j] == k;
        assert(entries[j].key == k);
    }
}

/// `remove` preserves well-formedness and deletes exactly the given key.
pub proof fn lemma_remove_wf<V>(m: CacheModel<V>, k: Seq<char>)
    requires
        wf(m),
    ensures
        wf(spec_remove(m, k)),
        !has_key(spec_remove(m, k).entries, k),
{
    lemma_remove_entry_facts(m.entries, k);
    lemma_remove_value_distinct(m.order, k);
    let r = spec_remove(m, k);
    assert forall|j: int| 0 <= j < r.entries.len() implies r.order.contains(
        #[trigger] r.entries[j].key,
    ) by {
        let kk = r.entries[j].key;
        assert(has_key(r.entries, kk));
        assert(kk != k);
        let oi = choose|oi: int| 0 <= oi < m.entries.len() && m.entries[oi] == r.entries[j];
        assert(m.order.contains(m.entries[oi].key));
    }
    assert forall|j: int| 0 <= j < r.order.len() implies has_key(
        r.entries,
        #[trigger] r.order[j],
    ) by {
        let kk = r.order[j];
        assert(r.order.contains(kk));
        assert(kk != k);
        assert(m.order.contains(kk));
        let p = choose|p: int| 0 <= p < m.order.len() && m.order[p] == kk;
        assert(has_key(m.entries, m.order[p]));
    }
}

/// A sweep preserves well-formedness.
pub proof fn lemma_sweep_wf<V>(m: CacheModel<V>, now: u64)
    requires
        wf(m),
    ensures
        wf(spec_sweep(m, now)),
{
    lemma_live_filter_facts(m.entries, now, m.ttl);
    let lf = live_filter(m.entries, now, m.ttl);
    lemma_order_restrict_facts(m.order, lf);
    let r = spec_sweep(m, now);
    assert forall|j: int| 0 <= j < r.entries.len() implies r.order.contains(
        #[trigger] r.entries[j].key,
    ) by {
        let kk = r.entries[j].key;
        assert(has_key(lf, kk));
        let oi = choose|oi: int| 0 <= oi < m.entries.len() && m.entries[oi] == lf[j];
        assert(m.order.contains(m.entries[oi].key));
        assert(r.order.contains(kk));
    }
    assert forall|j: int| 0 <= j < r.order.len() implies has_key(
        r.entries,
        #[trigger] r.order[j],
    ) by {
        assert(r.order.contains(r.order[j]));
    }
}

/// A filtered store never grows.
pub proof fn lemma_live_filter_len<V>(entries: Seq<EntryModel<V>>, now: u64, ttl: Option<u64>)
    ensures
        live_filter(entries, now, ttl).len() <= entries.len(),
    decreases entries.len(),
{
    if entries.len() > 0 {
        lemma_live_filter_len(entries.drop_first(), now, ttl);
    }
}

/// Capacity bound: a `put` on a well-formed cache whose bound is a positive
/// `cap` and whose store is within the bound leaves the store within the
/// bound — and so, at any time, at most `cap` live keys. By induction, a
/// cache configured with `max_size = cap` before its first `put` never holds
/// more than `cap` entries.
pub proof fn lemma_capacity_bound<V>(m: CacheModel<V>, k: Seq<char>, v: V, now: u64, cap: usize)
    requires
        wf(m),
        m.max_size == Some(cap),
        1 <= cap,
        m.entries.len() <= cap,
    ensures
        spec_put(m, k, v, now).entries.len() <= cap,
        forall|t: u64| #[trigger] spec_keys(spec_put(m, k, v, now), t).len() <= cap,
{
    assert forall|t: u64| #[trigger] spec_keys(spec_put(m, k, v, now), t).len() <= cap by {
        lemma_live_filter_len(spec_put(m, k, v, now).entries, t, spec_put(m, k, v, now).ttl);
        lemma_capacity_bound_entries(m, k, v, now, cap);
    }
    lemma_capacity_bound_entries(m, k, v, now, cap);
}

/// The store-size half of [`lemma_capacity_bound`].
proof fn lemma_capacity_bound_entries<V>(
    m: CacheModel<V>,
    k: Seq<char>,
    v: V,
    now: u64,
    cap: usize,
)
    requires
        wf(m),
        m.max_size == Some(cap),
        1 <= cap,
        m.entries.len() <= cap,
    ensures
        spec_put(m, k, v, now).entries.len() <= cap,
{
    lemma_evict_wf(m);
    let m1 = if at_capacity(m) {
        spec_evict(m)
    } else {
        m
    };
    assert(m1.entries.len() < cap);
}

/// Time-to-live boundary: with `ttl = d`, an entry stamped `t0` is visible
/// to every read at any `t < t0 + d` and invisible at any `t >= t0 + d`.
pub proof fn lemma_ttl_boundary<V>(m: CacheModel<V>, k: Seq<char>, d: u64, t: u64)
    requires
        wf(m),
        m.ttl == Some(d),
        has_key(m.entries, k),
    ensures
        (t as int) < stamp_of(m.entries, k) + d ==> {
            &&& spec_get(m, k, t) == Some(value_of(m.entries, k))
            &&& spec_keys(m, t).contains(k)
            &&& spec_values(m, t).contains(value_of(m.entries, k))
        },
        (t as int) >= stamp_of(m.entries, k) + d ==> {
            &&& spec_get(m, k, t) is None
            &&& !spec_keys(m, t).contains(k)
        },
{
    lemma_live_filter_facts(m.entries, t, m.ttl);
    let lf = live_filter(m.entries, t, m.ttl);
    lemma_keys_of_contains(lf, k);
    if (t as int) < stamp_of(m.entries, k) + d {
        assert(has_key(lf, k));
        let j = key_index(lf, k);
        assert(0 <= j < lf.len() && lf[j].key == k);
        assert(spec_values(m, t).contains(value_of(m.entries, k))) by {
            assert(values_of(lf)[j] == lf[j].value);
            assert(lf[j].value == value_of(lf, k));
        }
    }
}

/// Reads never depend on the sweeper: a sweep at `now` changes nothing that
/// `get`, `contains_key`, `keys` or `values` observe at `now`. Conversely,
/// the read contracts alone hide expired entries, so correctness never needs
/// a sweep to have run.
pub proof fn lemma_sweep_preserves_reads<V>(m: CacheModel<V>, k: Seq<char>, now: u64)
    requires
        wf(m),
    ensures
        spec_get(spec_sweep(m, now), k, now) == spec_get(m, k, now),
        spec_keys(spec_sweep(m, now), now) == spec_keys(m, now),
        spec_values(spec_sweep(m, now), now) == spec_values(m, now),
{
    lemma_live_filter_facts(m.entries, now, m.ttl);
    let lf = live_filter(m.entries, now, m.ttl);
    let r = spec_sweep(m, now);
    assert(r.entries == lf && r.ttl == m.ttl);
    lemma_live_filter_all(lf, now, m.ttl);
    assert(live_filter(r.entries, now, r.ttl) == lf);
    if has_key(m.entries, k) && is_live(stamp_of(m.entries, k), now, m.ttl) {
        assert(has_key(lf, k));
        assert(stamp_of(lf, k) == stamp_of(m.entries, k));
        assert(value_of(lf, k) == value_of(m.entries, k));
    } else {
        assert(!has_key(lf, k));
    }
}

/// `remove` bypasses the time-to-live: a physically present key is removed
/// and its stored value returned, live or expired.
pub proof fn lemma_remove_bypasses_ttl<V>(m: CacheModel<V>, k: Seq<char>)
    requires
        wf(m),
        has_key(m.entries, k),
    ensures
        spec_remove_prev(m, k) == Some(value_of(m.entries, k)),
        !has_key(spec_remove(m, k).entries, k),
{
    lemma_remove_wf(m, k);
}

/// `put` returns the previous value: on a fresh key the first `put` returns
/// nothing, and a second `put` of the same key returns the first value —
/// provided the capacity bound, if one is set, is at least two. (With a
/// bound of one, the second `put`'s eviction step removes the key itself
/// before writing, and the first value is gone.)
pub proof fn lemma_put_returns_previous<V>(m: CacheModel<V>, k: Seq<char>, v1: V, t1: u64)
    requires
        wf(m),
        !has_key(m.entries, k),
        match m.max_size {
            None => true,
            Some(cap) => 2 <= cap,
        },
    ensures
        spec_put_prev(m, k) == None::<V>,
        spec_put_prev(spec_put(m, k, v1, t1), k) == Some(v1),
{
    lemma_evict_wf(m);
    let m1 = if at_capacity(m) {
        spec_evict(m)
    } else {
        m
    };
    assert(!has_key(m1.entries, k)) by {
        if at_capacity(m) && m.order.len() > 0 {
            let victim = m.order[0];
            assert(has_key(m.entries, victim));
            assert(k != victim);
        }
    }
    lemma_put_wf(m, k, v1, t1);
    let m2 = spec_put(m, k, v1, t1);
    if at_capacity(m2) {
        let cap = m2.max_size->0;
        assert(m2.entries.len() >= cap && cap >= 2);
        let victim = m2.order[0];
        assert(m2.order.last() == k);
        if victim == k {
            assert(m2.order.len() == 1) by {
                if m2.order.len() > 1 {
                    assert(m2.order[0] != m2.order[m2.order.len() - 1]);
                }
            }
            assert(m2.entries.len() <= 1) by {
                if m2.entries.len() > 1 {
                    assert(m2.order.contains(m2.entries[0].key));
                    assert(m2.order.contains(m2.entries[1].key));
                    let p0 = choose|p: int|
                        0 <= p < m2.order.len() && m2.order[p] == m2.entries[0].key;
                    let p1 = choose|p: int|
                        0 <= p < m2.order.len() && m2.order[p] == m2.entries[1].key;
                    assert(p0 == 0 && p1 == 0);
                    assert(m2.entries[0].key == m2.entries[1].key);
                }
            }
            assert(false);
        }
        lemma_evict_wf(m2);
        assert(has_key(spec_evict(m2).entries, k));
        assert(value_of(spec_evict(m2).entries, k) == value_of(m2.entries, k));
    }
}

/// The state after `put`ting each key of `ks` in turn, with value `v` and
/// stamp `now`.
pub open spec fn fill<V>(m: CacheModel<V>, ks: Seq<Seq<char>>, v: V, now: u64) -> CacheModel<V>
    decreases ks.len(),
{
    if ks.len() == 0 {
        m
    } else {
        fill(spec_put(m, ks[0], v, now), ks.drop_first(), v, now)
    }
}

/// The entries that `fill` writes for the keys `ks`.
pub open spec fn entries_of<V>(ks: Seq<Seq<char>>, v: V, now: u64) -> Seq<EntryModel<V>> {
    ks.map_values(|k: Seq<char>| EntryModel { key: k, value: v, created_at: now })
}

/// `fill` splits over concatenation.
proof fn lemma_fill_add<V>(m: CacheModel<V>, a: Seq<Seq<char>>, b: Seq<Seq<char>>, v: V, now: u64)
    ensures
        fill(m, a + b, v, now) == fill(fill(m, a, v, now), b, v, now),
    decreases a.len(),
{
    if a.len() == 0 {
        assert(a + b =~= b);
    } else {
        assert((a + b).len() > 0);
        assert((a + b)[0] == a[0]);
        assert((a + b).drop_first() =~= a.drop_first() + b);
        lemma_fill_add(spec_put(m, a[0], v, now), a.drop_first(), b, v, now);
    }
}

/// Filling a well-formed cache with fresh, distinct keys that fit under the
/// capacity bound appends them, to the store and to the ledger, evicting
/// nothing.
proof fn lemma_fill_fresh<V>(m: CacheModel<V>, ks: Seq<Seq<char>>, v: V, now: u64)
    requires
        wf(m),
        ks.no_duplicates(),
        forall|i: int| 0 <= i < ks.len() ==> !has_key(m.entries, #[trigger] ks[i]),
        match m.max_size {
            None => true,
            Some(cap) => m.entries.len() + ks.len() <= cap,
        },
    ensures
        fill(m, ks, v, now).entries == m.entries + entries_of(ks, v, now),
        fill(m, ks, v, now).order == m.order + ks,
        fill(m, ks, v, now).max_size == m.max_size,
        fill(m, ks, v, now).ttl == m.ttl,
        wf(fill(m, ks, v, now)),
    decreases ks.len(),
{
    if ks.len() == 0 {
        assert(m.entries + entries_of(ks, v, now) =~= m.entries);
        assert(m.order + ks =~= m.order);
    } else {
        let k0 = ks[0];
        let e0 = EntryModel { key: k0, value: v, created_at: now };
        let m2 = spec_put(m, k0, v, now);
        lemma_put_wf(m, k0, v, now);
        assert(!at_capacity(m));
        assert(!m.order.contains(k0)) by {
            if m.order.contains(k0) {
                let p = choose|p: int| 0 <= p < m.order.len() && m.order[p] == k0;
                assert(has_key(m.entries, m.order[p]));
            }
        }
        lemma_remove_value_distinct(m.order, k0);
        assert(m2.entries =~= m.entries.push(e0));
        assert(m2.order =~= m.order.push(k0));
        let rest = ks.drop_first();
        assert(rest.no_duplicates()) by {
            assert forall|i: int, j: int|
                0 <= i < rest.len() && 0 <= j < rest.len() && i != j implies rest[i] != rest[j] by {
                assert(rest[i] == ks[i + 1] && rest[j] == ks[j + 1]);
            }
        }
        assert forall|i: int| 0 <= i < rest.len() implies !has_key(
            m2.entries,
            #[trigger] rest[i],
        ) by {
            let kk = rest[i];
            assert(kk == ks[i + 1]);
            assert(!has_key(m.entries, kk));
            assert(kk != k0);
            if has_key(m2.entries, kk) {
                let j = key_index(m2.entries, kk);
                assert(0 <= j < m2.entries.len() && m2.entries[j].key == kk);
                if j < m.entries.len() {
                    assert(m2.entries[j] == m.entries[j]);
                    assert(has_key(m.entries, kk));
                } else {
                    assert(m2.entries[j] == e0);
                }
            }
        }
        lemma_fill_fresh(m2, rest, v, now);
        assert(fill(m, ks, v, now) == fill(m2, rest, v, now));
        assert(m2.entries + entries_of(rest, v, now) =~= m.entries + entries_of(ks, v, now));
        assert(m2.order + rest =~= m.order + ks);
    }
}

/// First-in-first-out eviction: filling an empty cache of capacity `cap`
/// with `cap + 1` distinct keys evicts exactly the first key. It alone is
/// gone, every later key is stored, and the ledger holds the later keys in
/// insertion order.
pub proof fn lemma_fifo_eviction<V>(
    m: CacheModel<V>,
    ks: Seq<Seq<char>>,
    v: V,
    now: u64,
    cap: usize,
)
    requires
        m.entries.len() == 0,
        m.order.len() == 0,
        m.max_size == Some(cap),
        1 <= cap,
        ks.no_duplicates(),
        ks.len() == cap + 1,
    ensures
        !has_key(fill(m, ks, v, now).entries, ks[0]),
        forall|i: int| 1 <= i < ks.len() ==> has_key(fill(m, ks, v, now).entries, #[trigger] ks[i]),
        fill(m, ks, v, now).order == ks.drop_first(),
{
    assert(wf(m));
    let front = ks.take(cap as int);
    let lastk = ks[cap as int];
    assert(front.no_duplicates()) by {
        assert forall|i: int, j: int|
            0 <= i < front.len() && 0 <= j < front.len() && i != j implies front[i] != front[j] by {
            assert(front[i] == ks[i] && front[j] == ks[j]);
        }
    }
    lemma_fill_fresh(m, front, v, now);
    let s = fill(m, front, v, now);
    let fes = entries_of(front, v, now);
    assert(s.entries =~= fes);
    assert(s.order =~= front);
    lemma_fill_add(m, front, seq![lastk], v, now);
    assert(front + seq![lastk] =~= ks);
    let f = fill(m, ks, v, now);
    assert(seq![lastk].drop_first() =~= Seq::<Seq<char>>::empty());
    assert(f == fill(s, seq![lastk], v, now));
    assert(seq![lastk].len() == 1 && seq![lastk][0] == lastk);
    assert(fill(s, seq![lastk], v, now) == fill(
        spec_put(s, lastk, v, now),
        seq![lastk].drop_first(),
        v,
        now,
    ));
    assert(fill(spec_put(s, lastk, v, now), seq![lastk].drop_first(), v, now) == spec_put(
        s,
        lastk,
        v,
        now,
    ));
    assert(f == spec_put(s, lastk, v, now));
    // the final put is at capacity and evicts the ledger's front, `ks[0]`
    assert(at_capacity(s));
    assert(s.order[0] == ks[0]);
    assert(has_key(s.entries, ks[0])) by {
        assert(fes[0].key == front[0]);
    }
    lemma_remove_entry_facts(s.entries, ks[0]);
    let m1 = spec_evict(s);
    assert(m1.entries == remove_entry(s.entries, ks[0]));
    assert(m1.order =~= front.drop_first());
    // the new key is fresh, so it is appended
    assert(lastk != ks[0]);
    assert(!has_key(m1.entries, lastk)) by {
        if has_key(m1.entries, lastk) {
            assert(has_key(s.entries, lastk));
            let j = key_index(s.entries, lastk);
            assert(0 <= j < s.entries.len() && s.entries[j].key == lastk);
            assert(fes[j].key == front[j]);
            assert(ks[j] == ks[cap as int]);
        }
    }
    let enew = EntryModel { key: lastk, value: v, created_at: now };
    assert(f.entries == m1.entries.push(enew));
    assert(front.drop_first().no_duplicates()) by {
        assert forall|i: int, j: int|
            0 <= i < front.drop_first().len() && 0 <= j < front.drop_first().len() && i != j
            implies front.drop_first()[i] != front.drop_first()[j] by {
            assert(front.drop_first()[i] == front[i + 1] && front.drop_first()[j] == front[j + 1]);
        }
    }
    assert(!front.drop_first().contains(lastk)) by {
        if front.drop_first().contains(lastk) {
            let p = choose|p: int|
                0 <= p < front.drop_first().len() && front.drop_first()[p] == lastk;
            assert(front[p + 1] == ks[p + 1]);
            assert(ks[p + 1] == ks[cap as int]);
        }
    }
    lemma_remove_value_distinct(front.drop_first(), lastk);
    assert(f.order =~= front.drop_first().push(lastk));
    assert(f.order =~= ks.drop_first()) by {
        assert forall|i: int| 0 <= i < ks.drop_first().len() implies front.drop_first().push(
            lastk,
        )[i] == ks.drop_first()[i] by {
            if i < cap - 1 {
                assert(front.drop_first()[i] == front[i + 1]);
                assert(front[i + 1] == ks[i + 1]);
            }
            assert(ks.drop_first()[i] == ks[i + 1]);
        }
    }
    // the first key is gone; every later key is stored
    assert(!has_key(f.entries, ks[0])) by {
        if has_key(f.entries, ks[0]) {
            let j = key_index(f.entries, ks[0]);
            assert(0 <= j < f.entries.len() && f.entries[j].key == ks[0]);
            if j < m1.entries.len() {
                assert(has_key(m1.entries, ks[0]));
            } else {
                assert(f.entries[j] == enew);
            }
        }
    }
    assert forall|i: int| 1 <= i < ks.len() implies has_key(f.entries, #[trigger] ks[i]) by {
        if i == cap {
            assert(f.entries[m1.entries.len() as int] == enew);
        } else {
            assert(has_key(s.entries, ks[i])) by {
                assert(fes[i].key == front[i]);
                assert(front[i] == ks[i]);
            }
            assert(ks[i] != ks[0]);
            assert(has_key(m1.entries, ks[i]));
            let j = key_index(m1.entries, ks[i]);
            assert(0 <= j < m1.entries.len() && m1.entries[j].key == ks[i]);
            assert(f.entries[j] == m1.entries[j]);
        }
    }
}

} // verus!

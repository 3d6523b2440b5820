//! Laws of the map, each stated as a function whose contract Verus proves
//! against the operations' own contracts alone.
use vstd::prelude::*;
use crate::hash::HashBuilder;
use crate::key::{Key, ValEq};
use crate::map::{last_of_key, lemma_fold_insert_last_wins, map_equiv, pairs_has, HashMap};

verus! {

/// After an `insert(key, value)` returns, a `get` of the same key finds
/// exactly `value`, until the key is mutated again.
pub fn inserted_key_is_found<'g, K: Key, V, S: HashBuilder<K>>(
    m: &'g mut HashMap<K, V, S>,
    key: K,
    probe: &K,
    value: V,
) -> (r: Option<&'g V>)
    requires
        old(m).wf(),
        old(m)@.dom().len() < usize::MAX,
        probe@ == key@,
    ensures
        r matches Some(v) && *v == value,
{
    m.insert(key, value);
    m.get(probe)
}

/// After a `remove(key)`, a `get` of the same key finds nothing, until the
/// key is inserted again.
pub fn removed_key_is_absent<'g, K: Key, V, S: HashBuilder<K>>(
    m: &'g mut HashMap<K, V, S>,
    key: &K,
    probe: &K,
) -> (r: Option<&'g V>)
    requires
        old(m).wf(),
        probe@ == key@,
    ensures
        r is None,
{
    m.remove(key);
    m.get(probe)
}

/// `try_insert(key, value)` succeeds exactly when a `get` of the key just
/// before it would have found nothing.
pub fn try_insert_succeeds_iff_absent<K: Key, V, S: HashBuilder<K>>(
    m: &mut HashMap<K, V, S>,
    key: K,
    probe: &K,
    value: V,
) -> (r: bool)
    requires
        old(m).wf(),
        old(m)@.dom().len() < usize::MAX,
        probe@ == key@,
    ensures
        r == !old(m)@.contains_key(key@),
{
    let was_absent = match m.get(probe) {
        Some(_) => false,
        None => true,
    };
    let inserted = match m.try_insert(key, value) {
        Ok(_) => true,
        Err(_) => false,
    };
    proof {
        assert(inserted == was_absent);
    }
    inserted
}

/// An `insert` raises `len` by one exactly when the key was fresh; an
/// `insert` over a present key leaves `len` alone.  Together with
/// `remove_lowers_len` this pins `len` to the count of successful inserts
/// less successful removes.
pub fn insert_adjusts_len<K: Key, V, S: HashBuilder<K>>(
    m: &mut HashMap<K, V, S>,
    key: K,
    value: V,
) -> (n: usize)
    requires
        old(m).wf(),
        old(m)@.dom().len() < usize::MAX,
    ensures
        old(m)@.contains_key(key@) ==> n == old(m)@.dom().len(),
        !old(m)@.contains_key(key@) ==> n == old(m)@.dom().len() + 1,
{
    let ghost had = m@.contains_key(key@);
    m.insert(key, value);
    proof {
        if had {
            assert(m@.dom() =~= old(m)@.dom());
        } else {
            old(m).lemma_wf_finite();
            assert(m@.dom() =~= old(m)@.dom().insert(key@));
            vstd::set::axiom_set_insert_len(old(m)@.dom(), key@);
        }
    }
    m.len()
}

/// A `remove` lowers `len` by one exactly when it returns a value; a
/// `remove` of an absent key leaves `len` alone.
pub fn remove_adjusts_len<K: Key, V, S: HashBuilder<K>>(
    m: &mut HashMap<K, V, S>,
    key: &K,
) -> (n: usize)
    requires
        old(m).wf(),
    ensures
        old(m)@.contains_key(key@) ==> n + 1 == old(m)@.dom().len(),
        !old(m)@.contains_key(key@) ==> n == old(m)@.dom().len(),
{
    let ghost had = m@.contains_key(key@);
    m.remove(key);
    proof {
        if !had {
            assert(m@.dom() =~= old(m)@.dom());
        } else {
            old(m).lemma_wf_finite();
            assert(m@.dom() =~= old(m)@.dom().remove(key@));
            vstd::set::axiom_set_remove_len(old(m)@.dom(), key@);
        }
    }
    m.len()
}

/// A map is equal — same key views, values equal view for view — to a fresh
/// map populated with its own entries.
pub fn rebuilt_map_is_equal<K: Key, V: ValEq, S: HashBuilder<K>>(m: &HashMap<K, V, S>) -> (r:
    HashMap<K, V>)
    requires
        m.wf(),
    ensures
        r.wf(),
        map_equiv(r@, m@),
{
    let it = m.iter();
    let mut pairs: Vec<(K, V)> = Vec::new();
    let mut x: usize = 0;
    while x < it.len()
        invariant
            m.wf(),
            x <= it@.len(),
            pairs@.len() == x,
            forall|y: int|
                0 <= y < it@.len() ==> m@.contains_key((#[trigger] it@[y]).0@) && *it@[y].1
                    == m@[it@[y].0@],
            forall|x1: int, x2: int|
                0 <= x1 < x2 < it@.len() ==> (#[trigger] it@[x1]).0@ != (#[trigger] it@[x2]).0@,
            forall|q: <K as View>::V|
                #[trigger] m@.contains_key(q) ==> exists|y: int|
                    0 <= y < it@.len() && it@[y].0@ == q,
            forall|y: int|
                0 <= y < x ==> (#[trigger] pairs@[y]).0@ == it@[y].0@ && (pairs@[y].1)@
                    == (*it@[y].1)@,
        decreases it@.len() - x,
    {
        let (kr, vr) = it[x];
        pairs.push((kr.dup(), vr.dup()));
        x = x + 1;
    }
    let r = HashMap::<K, V>::from_entries(pairs);
    proof {
        lemma_fold_insert_last_wins::<K, V>(Map::<<K as View>::V, V>::empty(), pairs@);
        assert forall|q: <K as View>::V| #[trigger] m@.contains_key(q) implies r@.contains_key(q)
            && r@[q]@ == m@[q]@ by {
            let y = choose|y: int| 0 <= y < it@.len() && it@[y].0@ == q;
            assert(pairs@[y].0@ == q);
            assert(pairs_has(pairs@, q));
            assert(last_of_key(pairs@, y)) by {
                assert forall|z: int| y < z < pairs@.len() implies (#[trigger] pairs@[z]).0@
                    != pairs@[y].0@ by {
                    assert(it@[z].0@ != it@[y].0@);
                }
            }
            assert(r@[pairs@[y].0@] == pairs@[y].1);
            assert((pairs@[y].1)@ == m@[q]@);
        }
        assert forall|q: <K as View>::V| #[trigger] r@.contains_key(q)
            implies m@.contains_key(q) by {
            assert(pairs_has(pairs@, q));
            let y = choose|y: int| 0 <= y < pairs@.len() && pairs@[y].0@ == q;
            assert(m@.contains_key(it@[y].0@));
        }
        assert(r@.dom() =~= m@.dom());
    }
    r
}

/// A map is equal — under the map equality `==`, in both directions — to a
/// fresh map populated with exactly its entries, presented in any order and
/// under any hash policy.
pub fn populated_with_same_entries_is_equal<K: Key, V: ValEq, S: HashBuilder<K>>(
    m: &HashMap<K, V, S>,
    build_hasher: S,
    entries: Vec<(K, V)>,
) -> (r: bool)
    requires
        m.wf(),
        forall|x: int|
            0 <= x < entries@.len() ==> m@.contains_key((#[trigger] entries@[x]).0@)
                && (entries@[x].1)@ == m@[entries@[x].0@]@,
        forall|x1: int, x2: int|
            0 <= x1 < x2 < entries@.len() ==> (#[trigger] entries@[x1]).0@ != (
            #[trigger] entries@[x2]).0@,
        forall|q: <K as View>::V|
            #[trigger] m@.contains_key(q) ==> exists|x: int|
                0 <= x < entries@.len() && entries@[x].0@ == q,
    ensures
        r,
{
    let ghost es = entries@;
    // reading the length shows the entry count fits the machine
    let n = entries.len();
    let mut m2: HashMap<K, V, S> = HashMap::with_hasher(build_hasher);
    proof {
        assert(m2@.dom() =~= Set::<<K as View>::V>::empty());
        assert(es.len() == n);
    }
    m2.extend_entries(entries);
    proof {
        lemma_fold_insert_last_wins::<K, V>(Map::<<K as View>::V, V>::empty(), es);
        assert forall|q: <K as View>::V| #[trigger] m@.contains_key(q) implies m2@.contains_key(q)
            && m2@[q]@ == m@[q]@ by {
            let x = choose|x: int| 0 <= x < es.len() && es[x].0@ == q;
            assert(pairs_has(es, q));
            assert(last_of_key(es, x)) by {
                assert forall|z: int| x < z < es.len() implies (#[trigger] es[z]).0@
                    != es[x].0@ by {
                    assert(es[z].0@ != es[x].0@);
                }
            }
            assert(m2@[es[x].0@] == es[x].1);
        }
        assert forall|q: <K as View>::V| #[trigger] m2@.contains_key(q)
            implies m@.contains_key(q) by {
            assert(pairs_has(es, q));
            let x = choose|x: int| 0 <= x < es.len() && es[x].0@ == q;
            assert(m@.contains_key(es[x].0@));
        }
        assert(m2@.dom() =~= m@.dom());
        assert(map_equiv(m@, m2@));
        assert(map_equiv(m2@, m@)) by {
            assert(forall|q: <K as View>::V|
                #[trigger] m2@.contains_key(q) ==> m2@[q]@ == m@[q]@);
        }
    }
    let e1 = *m == m2;
    let e2 = m2 == *m;
    proof {
        m.lemma_eq_spec_is_map_equiv(&m2);
        m2.lemma_eq_spec_is_map_equiv(m);
    }
    e1 && e2
}

/// A clone of a map is equal to the map it was cloned from.
pub fn clone_is_equal<K: Key, V: ValEq, S: HashBuilder<K>>(m: &HashMap<K, V, S>) -> (r: bool)
    requires
        m.wf(),
    ensures
        r,
{
    let c = m.clone();
    let e = m.guarded_eq(&c);
    proof {
        assert(map_equiv(m@, c@)) by {
            assert(forall|q: <K as View>::V|
                #[trigger] m@.contains_key(q) ==> m@[q]@ == c@[q]@);
        }
    }
    e
}

/// `retain` with a predicate that always answers `true` keeps every entry
/// and the size unchanged.
pub fn retain_all_is_no_op<K: Key, V, S: HashBuilder<K>>(m: &mut HashMap<K, V, S>)
    requires
        old(m).wf(),
    ensures
        final(m).wf(),
        final(m)@ == old(m)@,
        final(m)@.dom().len() == old(m)@.dom().len(),
{
    let always = |_k: &K, _v: &V| -> (b: bool)
        ensures
            b,
        {
            true
        };
    m.retain(always);
    proof {
        assert forall|q: <K as View>::V| old(m)@.contains_key(q) implies m@.contains_key(q) by {
            if !m@.contains_key(q) {
                assert(false);
            }
        }
        assert(m@ =~= old(m)@);
    }
}

/// `retain` with a predicate that always answers `false` leaves the map
/// empty.
pub fn retain_none_clears<K: Key, V, S: HashBuilder<K>>(m: &mut HashMap<K, V, S>)
    requires
        old(m).wf(),
    ensures
        final(m).wf(),
        final(m)@ =~= Map::<<K as View>::V, V>::empty(),
        final(m)@.dom().len() == 0,
{
    let never = |_k: &K, _v: &V| -> (b: bool)
        ensures
            !b,
        {
            false
        };
    m.retain(never);
    proof {
        assert forall|q: <K as View>::V| !m@.contains_key(q) by {
            if m@.contains_key(q) {
                assert(false);
            }
        }
        assert(m@.dom() =~= Set::<<K as View>::V>::empty());
    }
}

} // verus!

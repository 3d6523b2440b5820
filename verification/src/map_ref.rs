//! A pinned reference to a map.
//!
//! In a table shared between threads, an operation surface is reached by
//! pinning the current thread, which keeps every entry it can observe alive
//! until the pin ends.  Here the same shape is carried by a mutable borrow:
//! a `HashMapRef` holds the map for its scope, every operation of the map is
//! available on it unchanged, and references handed out live as long as the
//! borrow.  Each forwarding contract also states that the reference still
//! stands for the same underlying map afterwards, so that what is done
//! through the pin is seen by the map once the pin ends.
use vstd::prelude::*;
use crate::hash::{DefaultHashBuilder, HashBuilder};
use crate::key::{Key, ValEq};
use crate::map::{approves, map_equiv, rejects, HashMap, TryInsertError};

verus! {

/// A reference to a map, constructed with `HashMap::pin` or
/// `HashMap::with_guard`, through which every operation of the map is
/// reached for the duration of the borrow.
pub struct HashMapRef<'map, K, V, S = DefaultHashBuilder> {
    pub map: &'map mut HashMap<K, V, S>,
}

impl<K: Key, V, S: HashBuilder<K>> HashMap<K, V, S> {
    /// A reference to this map that stands in for a pinned thread: what is
    /// inserted or removed through it is the map's content when it ends.
    pub fn pin(&mut self) -> (r: HashMapRef<'_, K, V, S>)
        ensures
            *r.map == *old(self),
            *final(self) == *final(r.map),
    {
        HashMapRef { map: self }
    }

    /// A reference to this map under an already-held guard; the same
    /// operation surface as `pin`.
    pub fn with_guard(&mut self) -> (r: HashMapRef<'_, K, V, S>)
        ensures
            *r.map == *old(self),
            *final(self) == *final(r.map),
    {
        HashMapRef { map: self }
    }
}

impl<'map, K: Key, V, S: HashBuilder<K>> HashMapRef<'map, K, V, S> {
    /// The number of entries in the map.
    pub fn len(&self) -> (n: usize)
        requires
            (*old(self.map)).wf(),
        ensures
            n == (*old(self.map))@.dom().len(),
    {
        self.map.len()
    }

    /// Whether the map holds no entry.
    pub fn is_empty(&self) -> (r: bool)
        requires
            (*old(self.map)).wf(),
        ensures
            r == ((*old(self.map))@.dom() =~= Set::<<K as View>::V>::empty()),
    {
        self.map.is_empty()
    }

    /// Every entry of the map, each exactly once.
    pub fn iter<'g>(&'g self) -> (r: Vec<(&'g K, &'g V)>)
        requires
            (*old(self.map)).wf(),
        ensures
            r@.len() == (*old(self.map))@.dom().len(),
            forall|x: int|
                0 <= x < r@.len() ==> (*old(self.map))@.contains_key((#[trigger] r@[x]).0@) && *r@[x].1
                    == (*old(self.map))@[r@[x].0@],
            forall|x1: int, x2: int|
                0 <= x1 < x2 < r@.len() ==> (#[trigger] r@[x1]).0@ != (#[trigger] r@[x2]).0@,
            forall|q: <K as View>::V|
                #[trigger] (*old(self.map))@.contains_key(q) ==> exists|x: int|
                    0 <= x < r@.len() && r@[x].0@ == q,
    {
        self.map.iter()
    }

    /// Every key of the map, each exactly once.
    pub fn keys<'g>(&'g self) -> (r: Vec<&'g K>)
        requires
            (*old(self.map)).wf(),
        ensures
            r@.len() == (*old(self.map))@.dom().len(),
            forall|x: int| 0 <= x < r@.len() ==> (*old(self.map))@.contains_key((#[trigger] r@[x])@),
            forall|x1: int, x2: int|
                0 <= x1 < x2 < r@.len() ==> (#[trigger] r@[x1])@ != (#[trigger] r@[x2])@,
            forall|q: <K as View>::V|
                #[trigger] (*old(self.map))@.contains_key(q) ==> exists|x: int|
                    0 <= x < r@.len() && r@[x]@ == q,
    {
        self.map.keys()
    }

    /// Every value of the map, one for each key.
    pub fn values<'g>(&'g self) -> (r: Vec<&'g V>)
        requires
            (*old(self.map)).wf(),
        ensures
            r@.len() == (*old(self.map))@.dom().len(),
            exists|ks: Seq<<K as View>::V>|
                {
                    &&& ks.len() == r@.len()
                    &&& forall|x: int|
                        0 <= x < r@.len() ==> (*old(self.map))@.contains_key(#[trigger] ks[x])
                            && *r@[x] == (*old(self.map))@[ks[x]]
                    &&& forall|x1: int, x2: int|
                        0 <= x1 < x2 < ks.len() ==> ks[x1] != ks[x2]
                    &&& forall|q: <K as View>::V|
                        #[trigger] (*old(self.map))@.contains_key(q) ==> exists|x: int|
                            0 <= x < ks.len() && ks[x] == q
                },
    {
        self.map.values()
    }

    /// Whether the map contains an entry for `key`.
    pub fn contains_key(&self, key: &K) -> (r: bool)
        requires
            (*old(self.map)).wf(),
        ensures
            r == (*old(self.map))@.contains_key(key@),
    {
        self.map.contains_key(key)
    }

    /// A reference to the value stored under `key`, if any.
    pub fn get<'g>(&'g self, key: &K) -> (r: Option<&'g V>)
        requires
            (*old(self.map)).wf(),
        ensures
            match r {
                Some(v) => (*old(self.map))@.contains_key(key@) && *v == (*old(self.map))@[key@],
                None => !(*old(self.map))@.contains_key(key@),
            },
    {
        self.map.get(key)
    }

    /// The stored key-value pair for `key`, if any.
    pub fn get_key_value<'g>(&'g self, key: &K) -> (r: Option<(&'g K, &'g V)>)
        requires
            (*old(self.map)).wf(),
        ensures
            match r {
                Some((rk, v)) => {
                    &&& (*old(self.map))@.contains_key(key@)
                    &&& rk@ == key@
                    &&& *v == (*old(self.map))@[key@]
                },
                None => !(*old(self.map))@.contains_key(key@),
            },
    {
        self.map.get_key_value(key)
    }

    /// Make room for `additional` entries beyond the current ones.
    pub fn reserve(&mut self, additional: usize)
        requires
            (*old(self).map).wf(),
            (*old(self).map)@.dom().len() + additional <= usize::MAX,
        ensures
            (*final(self).map).wf(),
            (*final(self).map)@ == (*old(self).map)@,
            *final(final(self).map) == *final(old(self).map),
    {
        self.map.reserve(additional)
    }

    /// Remove every entry.
    pub fn clear(&mut self)
        requires
            (*old(self).map).wf(),
        ensures
            (*final(self).map).wf(),
            (*final(self).map)@ =~= Map::<<K as View>::V, V>::empty(),
            *final(final(self).map) == *final(old(self).map),
    {
        self.map.clear()
    }

    /// Insert `value` under `key`, returning the previously stored value if
    /// the key was already present.
    pub fn insert(&mut self, key: K, value: V) -> (r: Option<V>)
        requires
            (*old(self).map).wf(),
            (*old(self).map)@.dom().len() < usize::MAX,
        ensures
            (*final(self).map).wf(),
            (*final(self).map)@ == (*old(self).map)@.insert(key@, value),
            *final(final(self).map) == *final(old(self).map),
            match r {
                Some(v) => (*old(self).map)@.contains_key(key@) && v == (*old(self).map)@[key@],
                None => !(*old(self).map)@.contains_key(key@),
            },
    {
        self.map.insert(key, value)
    }

    /// Insert `value` under `key` unless the key is already present.
    pub fn try_insert<'g>(&'g mut self, key: K, value: V) -> (r: Result<
        &'g V,
        TryInsertError<'g, V>,
    >)
        requires
            (*old(self).map).wf(),
            (*old(self).map)@.dom().len() < usize::MAX,
        ensures
            (*final(self).map).wf(),
            *final(final(self).map) == *final(old(self).map),
            match r {
                Ok(v) => {
                    &&& !(*old(self).map)@.contains_key(key@)
                    &&& (*final(self).map)@ == (*old(self).map)@.insert(key@, value)
                    &&& *v == value
                },
                Err(e) => {
                    &&& (*old(self).map)@.contains_key(key@)
                    &&& (*final(self).map)@ == (*old(self).map)@
                    &&& *e.current == (*old(self).map)@[key@]
                    &&& e.not_inserted == value
                },
            },
    {
        self.map.try_insert(key, value)
    }

    /// If `key` is present, hand its entry to `remapping_function`; a
    /// returned value replaces the stored one, `None` unlinks the entry.
    pub fn compute_if_present<'g, F: FnOnce(&K, &V) -> Option<V>>(
        &'g mut self,
        key: &K,
        remapping_function: F,
    ) -> (r: Option<&'g V>)
        requires
            (*old(self).map).wf(),
            forall|a: &K, b: &V|
                a@ == key@ && (*old(self).map)@.contains_key(key@) && *b == (*old(self).map)@[key@] ==> #[trigger] call_requires(remapping_function, (a, b)),
        ensures
            (*final(self).map).wf(),
            *final(final(self).map) == *final(old(self).map),
            !(*old(self).map)@.contains_key(key@) ==> (*final(self).map)@ == (*old(self).map)@
                && r is None,
            (*old(self).map)@.contains_key(key@) ==> exists|a: &K, b: &V, o: Option<V>|
                {
                    &&& a@ == key@
                    &&& *b == (*old(self).map)@[key@]
                    &&& #[trigger] call_ensures(remapping_function, (a, b), o)
                    &&& match o {
                        Some(nv) => {
                            &&& (*final(self).map)@ == (*old(self).map)@.insert(key@, nv)
                            &&& r matches Some(v) && *v == nv
                        },
                        None => {
                            &&& (*final(self).map)@ == (*old(self).map)@.remove(key@)
                            &&& r is None
                        },
                    }
                },
    {
        self.map.compute_if_present(key, remapping_function)
    }

    /// Remove the entry stored under `key`, returning its value.
    pub fn remove(&mut self, key: &K) -> (r: Option<V>)
        requires
            (*old(self).map).wf(),
        ensures
            (*final(self).map).wf(),
            (*final(self).map)@ == (*old(self).map)@.remove(key@),
            *final(final(self).map) == *final(old(self).map),
            match r {
                Some(v) => (*old(self).map)@.contains_key(key@) && v == (*old(self).map)@[key@],
                None => !(*old(self).map)@.contains_key(key@) && (*final(self).map)@ == (*old(self).map)@,
            },
    {
        self.map.remove(key)
    }

    /// Remove the entry stored under `key`, returning the stored key and
    /// value.
    pub fn remove_entry(&mut self, key: &K) -> (r: Option<(K, V)>)
        requires
            (*old(self).map).wf(),
        ensures
            (*final(self).map).wf(),
            (*final(self).map)@ == (*old(self).map)@.remove(key@),
            *final(final(self).map) == *final(old(self).map),
            match r {
                Some((k2, v)) => {
                    &&& (*old(self).map)@.contains_key(key@)
                    &&& k2@ == key@
                    &&& v == (*old(self).map)@[key@]
                },
                None => !(*old(self).map)@.contains_key(key@) && (*final(self).map)@ == (*old(self).map)@,
            },
    {
        self.map.remove_entry(key)
    }

    /// Keep exactly the entries on which the predicate returns `true`.
    pub fn retain<F: Fn(&K, &V) -> bool>(&mut self, f: F)
        requires
            (*old(self).map).wf(),
            forall|a: &K, b: &V|
                (*old(self).map)@.contains_key(a@) && *b == (*old(self).map)@[a@]
                    ==> #[trigger] call_requires(f, (a, b)),
        ensures
            (*final(self).map).wf(),
            *final(final(self).map) == *final(old(self).map),
            forall|q: <K as View>::V|
                #[trigger] (*final(self).map)@.contains_key(q) ==> (*old(self).map)@.contains_key(q) && (*final(self).map)@[q] == (*old(self).map)@[q],
            forall|q: <K as View>::V|
                (*old(self).map)@.contains_key(q) && !(#[trigger] (*final(self).map)@.contains_key(q)) ==> rejects(f, q, (*old(self).map)@[q]),
            forall|q: <K as View>::V|
                (*old(self).map)@.contains_key(q) && #[trigger] (*final(self).map)@.contains_key(q)
                    ==> approves(f, q, (*old(self).map)@[q]),
    {
        self.map.retain(f)
    }

    /// The same in-place filter as `retain`; see `HashMap::retain_force`.
    pub fn retain_force<F: Fn(&K, &V) -> bool>(&mut self, f: F)
        requires
            (*old(self).map).wf(),
            forall|a: &K, b: &V|
                (*old(self).map)@.contains_key(a@) && *b == (*old(self).map)@[a@]
                    ==> #[trigger] call_requires(f, (a, b)),
        ensures
            (*final(self).map).wf(),
            *final(final(self).map) == *final(old(self).map),
            forall|q: <K as View>::V|
                #[trigger] (*final(self).map)@.contains_key(q) ==> (*old(self).map)@.contains_key(q) && (*final(self).map)@[q] == (*old(self).map)@[q],
            forall|q: <K as View>::V|
                (*old(self).map)@.contains_key(q) && !(#[trigger] (*final(self).map)@.contains_key(q)) ==> rejects(f, q, (*old(self).map)@[q]),
            forall|q: <K as View>::V|
                (*old(self).map)@.contains_key(q) && #[trigger] (*final(self).map)@.contains_key(q)
                    ==> approves(f, q, (*old(self).map)@[q]),
    {
        self.map.retain_force(f)
    }
}

impl<'map, K: Key, V: ValEq, S: HashBuilder<K>> HashMapRef<'map, K, V, S> {
    /// Whether this map and `other` hold the same entries.
    pub fn guarded_eq(&self, other: &HashMapRef<'_, K, V, S>) -> (r: bool)
        requires
            (*old(self.map)).wf(),
            (*old(other.map)).wf(),
        ensures
            r == map_equiv((*old(self.map))@, (*old(other.map))@),
    {
        self.map.guarded_eq(other.map)
    }
}

} // verus!

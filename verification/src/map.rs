//! The hash table core.
//!
//! A map is a bucket array of `2^k` bins.  Each bin holds the chain of
//! entries whose spread hash selects that bin; an entry caches its spread
//! hash beside its key and value.  The mathematical model of a map is a
//! `Map` from key views to the stored values; every operation's contract is
//! stated against that model.
use vstd::prelude::*;
use crate::counter::Counter;
use crate::hash::{spread, spread_spec, DefaultHashBuilder, HashBuilder};
use crate::key::{Key, ValEq};

verus! {

/// Default number of bins of a fresh map.
pub const DEFAULT_CAPACITY: usize = 16;

/// Largest number of bins a table will grow to.
pub const MAX_CAPACITY: usize = 0x4000_0000;

/// `n` is a power of two.
pub open spec fn is_pow2(n: nat) -> bool
    decreases n,
{
    if n == 0 {
        false
    } else if n == 1 {
        true
    } else {
        n % 2 == 0 && is_pow2(n / 2)
    }
}

/// One entry of a bin chain: a key, its value, and the key's cached spread
/// hash.
#[derive(Debug)]
pub struct Node<K, V> {
    pub hash: u64,
    pub key: K,
    pub value: V,
}

/// Some entry of the chain has view `k` as its key.
pub open spec fn chain_has<K: View, V>(ch: Seq<Node<K, V>>, k: <K as View>::V) -> bool {
    exists|j: int| 0 <= j < ch.len() && ch[j].key@ == k
}

/// The position of the entry with key view `k`.
pub open spec fn chain_idx<K: View, V>(ch: Seq<Node<K, V>>, k: <K as View>::V) -> int {
    choose|j: int| 0 <= j < ch.len() && ch[j].key@ == k
}

/// The value stored under key view `k`.
pub open spec fn chain_val<K: View, V>(ch: Seq<Node<K, V>>, k: <K as View>::V) -> V {
    ch[chain_idx(ch, k)].value
}

/// No key view repeats within the chain.
pub open spec fn chain_distinct<K: View, V>(ch: Seq<Node<K, V>>) -> bool {
    forall|j1: int, j2: int|
        0 <= j1 < j2 < ch.len() ==> (#[trigger] ch[j1]).key@ != (#[trigger] ch[j2]).key@
}

/// Removing the entry at `j` takes exactly its key out of the chain and
/// leaves every other key bound to the same value.
pub proof fn lemma_chain_remove<K: View, V>(ch: Seq<Node<K, V>>, j: int)
    requires
        chain_distinct(ch),
        0 <= j < ch.len(),
    ensures
        chain_distinct(ch.remove(j)),
        !chain_has(ch.remove(j), ch[j].key@),
        forall|q: <K as View>::V|
            q != ch[j].key@ ==> #[trigger] chain_has(ch.remove(j), q) == chain_has(ch, q),
        forall|q: <K as View>::V|
            q != ch[j].key@ && chain_has(ch, q) ==> #[trigger] chain_val(ch.remove(j), q)
                == chain_val(ch, q),
        forall|x: int|
            0 <= x < ch.remove(j).len() ==> exists|y: int|
                0 <= y < ch.len() && ch[y] == #[trigger] ch.remove(j)[x],
{
    let ch2 = ch.remove(j);
    assert(ch2.len() == ch.len() - 1);
    assert forall|x: int| 0 <= x < ch2.len() implies exists|y: int|
        0 <= y < ch.len() && ch[y] == #[trigger] ch2[x] by {
        if x < j {
            assert(ch[x] == ch2[x]);
        } else {
            assert(ch[x + 1] == ch2[x]);
        }
    }
    assert(forall|x: int| 0 <= x < j ==> ch2[x] == ch[x]);
    assert(forall|x: int| j <= x < ch.len() - 1 ==> ch2[x] == ch[x + 1]);
    assert forall|q: <K as View>::V| q != ch[j].key@ implies #[trigger] chain_has(ch2, q)
        == chain_has(ch, q) by {
        if chain_has(ch, q) {
            let x = chain_idx(ch, q);
            assert(0 <= x < ch.len() && ch[x].key@ == q);
            if x < j {
                assert(ch2[x].key@ == q);
            } else {
                assert(x != j);
                assert(ch2[x - 1].key@ == q);
            }
            assert(chain_has(ch2, q));
        }
        if chain_has(ch2, q) {
            let x = chain_idx(ch2, q);
            assert(0 <= x < ch2.len() && ch2[x].key@ == q);
            if x < j {
                assert(ch[x].key@ == q);
            } else {
                assert(ch[x + 1].key@ == q);
            }
            assert(chain_has(ch, q));
        }
    }
    if chain_has(ch2, ch[j].key@) {
        let x = chain_idx(ch2, ch[j].key@);
        assert(0 <= x < ch2.len() && ch2[x].key@ == ch[j].key@);
        if x < j {
            assert(ch[x].key@ == ch[j].key@);
            assert(false);
        } else {
            assert(ch[x + 1].key@ == ch[j].key@);
            assert(false);
        }
    }
    assert forall|q: <K as View>::V| q != ch[j].key@ && chain_has(ch, q) implies #[trigger] chain_val(
        ch2,
        q,
    ) == chain_val(ch, q) by {
        let a = chain_idx(ch, q);
        let b = chain_idx(ch2, q);
        assert(0 <= a < ch.len() && ch[a].key@ == q);
        assert(chain_has(ch2, q));
        assert(0 <= b < ch2.len() && ch2[b].key@ == q);
        if b < j {
            assert(ch2[b] == ch[b]);
            if a != b {
                assert(ch[a].key@ != ch[b].key@);
            }
        } else {
            assert(ch2[b] == ch[b + 1]);
            if a != b + 1 {
                assert(ch[a].key@ != ch[b + 1].key@);
            }
        }
    }
}

/// Appending an entry with a key the chain does not hold binds exactly that
/// key to the new value and leaves every other key unchanged.
pub proof fn lemma_chain_push<K: View, V>(ch: Seq<Node<K, V>>, n: Node<K, V>)
    requires
        chain_distinct(ch),
        !chain_has(ch, n.key@),
    ensures
        chain_distinct(ch.push(n)),
        chain_has(ch.push(n), n.key@),
        chain_val(ch.push(n), n.key@) == n.value,
        forall|q: <K as View>::V|
            q != n.key@ ==> #[trigger] chain_has(ch.push(n), q) == chain_has(ch, q),
        forall|q: <K as View>::V|
            q != n.key@ && chain_has(ch, q) ==> #[trigger] chain_val(ch.push(n), q)
                == chain_val(ch, q),
        forall|x: int|
            0 <= x < ch.push(n).len() ==> (#[trigger] ch.push(n)[x]) == n || exists|y: int|
                0 <= y < ch.len() && ch[y] == ch.push(n)[x],
{
    let ch2 = ch.push(n);
    assert(ch2.len() == ch.len() + 1);
    assert forall|x: int| 0 <= x < ch2.len() implies (#[trigger] ch2[x]) == n || exists|y: int|
        0 <= y < ch.len() && ch[y] == ch2[x] by {
        if x < ch.len() {
            assert(ch[x] == ch2[x]);
        }
    }
    assert(forall|x: int| 0 <= x < ch.len() ==> ch2[x] == ch[x]);
    assert(ch2[ch.len() as int] == n);
    assert forall|j1: int, j2: int| 0 <= j1 < j2 < ch2.len() implies (#[trigger] ch2[j1]).key@
        != (#[trigger] ch2[j2]).key@ by {
        if j2 == ch.len() {
            assert(ch2[j1] == ch[j1]);
            if ch[j1].key@ == n.key@ {
                assert(chain_has(ch, n.key@));
            }
        }
    }
    assert(chain_has(ch2, n.key@));
    let b = chain_idx(ch2, n.key@);
    assert(0 <= b < ch2.len() && ch2[b].key@ == n.key@);
    if b < ch.len() {
        assert(ch[b].key@ == n.key@);
        assert(chain_has(ch, n.key@));
    }
    assert(chain_val(ch2, n.key@) == n.value);
    assert forall|q: <K as View>::V| q != n.key@ implies #[trigger] chain_has(ch2, q)
        == chain_has(ch, q) by {
        if chain_has(ch, q) {
            let x = chain_idx(ch, q);
            assert(ch2[x].key@ == q);
            assert(chain_has(ch2, q));
        }
        if chain_has(ch2, q) {
            let x = chain_idx(ch2, q);
            assert(0 <= x < ch2.len() && ch2[x].key@ == q);
            assert(x != ch.len());
            assert(ch[x].key@ == q);
            assert(chain_has(ch, q));
        }
    }
    assert forall|q: <K as View>::V| q != n.key@ && chain_has(ch, q) implies #[trigger] chain_val(
        ch2,
        q,
    ) == chain_val(ch, q) by {
        let a = chain_idx(ch, q);
        assert(chain_has(ch2, q));
        let b2 = chain_idx(ch2, q);
        assert(0 <= b2 < ch2.len() && ch2[b2].key@ == q);
        assert(b2 != ch.len());
        assert(ch2[b2] == ch[b2]);
        if a != b2 {
            assert(ch[a].key@ != ch[b2].key@);
        }
    }
}

/// Some call of the predicate `f` on an entry with key view `kv` and value
/// `vv` may return `true`.
pub open spec fn approves<K: View, V, F: Fn(&K, &V) -> bool>(
    f: F,
    kv: <K as View>::V,
    vv: V,
) -> bool {
    exists|a: &K, b: &V| a@ == kv && *b == vv && #[trigger] call_ensures(f, (a, b), true)
}

/// Some call of the predicate `f` on an entry with key view `kv` and value
/// `vv` may return `false`.
pub open spec fn rejects<K: View, V, F: Fn(&K, &V) -> bool>(
    f: F,
    kv: <K as View>::V,
    vv: V,
) -> bool {
    exists|a: &K, b: &V| a@ == kv && *b == vv && #[trigger] call_ensures(f, (a, b), false)
}

/// The map that results from binding each pair of `s` in turn, so that the
/// last binding of a repeated key wins.
pub open spec fn fold_insert<K: View, V>(
    m: Map<<K as View>::V, V>,
    s: Seq<(K, V)>,
) -> Map<<K as View>::V, V>
    decreases s.len(),
{
    if s.len() == 0 {
        m
    } else {
        fold_insert(m, s.drop_last()).insert(s.last().0@, s.last().1)
    }
}

/// Some pair of `s` binds key view `q`.
pub open spec fn pairs_has<K: View, V>(s: Seq<(K, V)>, q: <K as View>::V) -> bool {
    exists|x: int| 0 <= x < s.len() && s[x].0@ == q
}

/// No later pair of `s` binds the same key as the pair at `x`.
pub open spec fn last_of_key<K: View, V>(s: Seq<(K, V)>, x: int) -> bool {
    forall|y: int| x < y < s.len() ==> (#[trigger] s[y]).0@ != s[x].0@
}

/// Folding the pairs of `s` over `m0` binds exactly the keys of `m0` and of
/// `s`; a key bound more than once in `s` keeps its last binding, and a key
/// of `m0` that `s` never mentions keeps its old value.
pub proof fn lemma_fold_insert_last_wins<K: View, V>(m0: Map<<K as View>::V, V>, s: Seq<(K, V)>)
    ensures
        forall|q: <K as View>::V|
            #[trigger] fold_insert(m0, s).contains_key(q) == (m0.contains_key(q) || pairs_has(
                s,
                q,
            )),
        forall|x: int|
            0 <= x < s.len() && #[trigger] last_of_key(s, x) ==> fold_insert(m0, s)[s[x].0@]
                == s[x].1,
        forall|q: <K as View>::V|
            !pairs_has(s, q) && m0.contains_key(q) ==> #[trigger] fold_insert(m0, s)[q] == m0[q],
    decreases s.len(),
{
    if s.len() > 0 {
        let s2 = s.drop_last();
        let lk = s.last().0@;
        lemma_fold_insert_last_wins::<K, V>(m0, s2);
        assert(fold_insert(m0, s) == fold_insert(m0, s2).insert(lk, s.last().1));
        assert(forall|x: int| 0 <= x < s.len() - 1 ==> s2[x] == #[trigger] s[x]);
        assert forall|q: <K as View>::V| #[trigger] fold_insert(m0, s).contains_key(q) == (
        m0.contains_key(q) || pairs_has(s, q)) by {
            if pairs_has(s, q) {
                let x = choose|x: int| 0 <= x < s.len() && s[x].0@ == q;
                if x < s.len() - 1 {
                    assert(s2[x].0@ == q);
                    assert(pairs_has(s2, q));
                }
            }
            if pairs_has(s2, q) {
                let x = choose|x: int| 0 <= x < s2.len() && s2[x].0@ == q;
                assert(s[x].0@ == q);
                assert(pairs_has(s, q));
            }
            if q == lk {
                assert(s[s.len() - 1].0@ == q);
                assert(pairs_has(s, q));
            }
        }
        assert forall|x: int| 0 <= x < s.len() && #[trigger] last_of_key(s, x) implies fold_insert(
            m0,
            s,
        )[s[x].0@] == s[x].1 by {
            if x == s.len() - 1 {
            } else {
                assert(s[s.len() - 1].0@ != s[x].0@);
                assert(last_of_key(s2, x)) by {
                    assert forall|y: int| x < y < s2.len() implies (#[trigger] s2[y]).0@
                        != s2[x].0@ by {
                        assert(s2[y] == s[y]);
                    }
                }
                assert(fold_insert(m0, s2)[s2[x].0@] == s2[x].1);
            }
        }
        assert forall|q: <K as View>::V| !pairs_has(s, q) && m0.contains_key(q) implies #[trigger] fold_insert(
            m0,
            s,
        )[q] == m0[q] by {
            assert(!pairs_has(s2, q)) by {
                if pairs_has(s2, q) {
                    let x = choose|x: int| 0 <= x < s2.len() && s2[x].0@ == q;
                    assert(s[x].0@ == q);
                }
            }
            assert(q != lk) by {
                if q == lk {
                    assert(s[s.len() - 1].0@ == q);
                }
            }
        }
    }
}

/// A sequence of pairwise distinct key views that all lie in a finite map's
/// domain and together cover it is exactly as long as the domain.
pub proof fn lemma_distinct_covering_len<KV, V>(m: Map<KV, V>, ks: Seq<KV>)
    requires
        m.dom().finite(),
        forall|x: int| 0 <= x < ks.len() ==> m.contains_key(#[trigger] ks[x]),
        forall|x1: int, x2: int| 0 <= x1 < x2 < ks.len() ==> #[trigger] ks[x1] != #[trigger] ks[x2],
        forall|q: KV| #[trigger] m.contains_key(q) ==> exists|x: int| 0 <= x < ks.len() && ks[x] == q,
    ensures
        ks.len() == m.dom().len(),
    decreases ks.len(),
{
    if ks.len() == 0 {
        assert(m.dom() =~= Set::<KV>::empty());
    } else {
        let k0 = ks.last();
        let m2 = m.remove(k0);
        let ks2 = ks.drop_last();
        assert forall|x: int| 0 <= x < ks2.len() implies m2.contains_key(#[trigger] ks2[x]) by {
            assert(ks[x] != k0);
        }
        assert forall|q: KV| #[trigger] m2.contains_key(q) implies exists|x: int|
            0 <= x < ks2.len() && ks2[x] == q by {
            let x = choose|x: int| 0 <= x < ks.len() && ks[x] == q;
            assert(x != ks.len() - 1);
            assert(ks2[x] == q);
        }
        lemma_distinct_covering_len(m2, ks2);
        vstd::set::axiom_set_remove_len(m.dom(), k0);
    }
}

/// Two maps agree: same key views, and values equal view for view.
pub open spec fn map_equiv<KV, V: View>(m1: Map<KV, V>, m2: Map<KV, V>) -> bool {
    &&& m1.dom() == m2.dom()
    &&& forall|k: KV| #[trigger] m1.contains_key(k) ==> m1[k]@ == m2[k]@
}

/// The error of a failed `try_insert`: a reference to the value already
/// present under the key, and ownership of the value that was not inserted.
pub struct TryInsertError<'g, V> {
    pub current: &'g V,
    pub not_inserted: V,
}

/// A concurrent-style hash map: a bucket array of bins, each bin a chain of
/// entries, plus an entry count.
#[derive(Debug)]
pub struct HashMap<K, V, S = DefaultHashBuilder> {
    bins: Vec<Vec<Node<K, V>>>,
    counter: Counter,
    build_hasher: S,
}

impl<K: Key, V, S: HashBuilder<K>> View for HashMap<K, V, S> {
    type V = Map<<K as View>::V, V>;

    closed spec fn view(&self) -> Map<<K as View>::V, V> {
        Map::new(
            |k: <K as View>::V|
                0 <= self.spec_bin(k) < self.bins@.len() && chain_has(
                    self.bins@[self.spec_bin(k)]@,
                    k,
                ),
            |k: <K as View>::V| chain_val(self.bins@[self.spec_bin(k)]@, k),
        )
    }
}

impl<K: Key, V, S: HashBuilder<K>> HashMap<K, V, S> {
    /// The spread hash the map assigns to a key view.
    pub closed spec fn spec_hash(&self, k: <K as View>::V) -> u64 {
        spread_spec(self.build_hasher.hash_of(k))
    }

    /// The bin that a key view selects.
    pub closed spec fn spec_bin(&self, k: <K as View>::V) -> int {
        (self.spec_hash(k) & (self.bins@.len() - 1) as u64) as int
    }

    /// The number of bins.
    pub closed spec fn spec_capacity(&self) -> nat {
        self.bins@.len()
    }

    /// Every entry of bin `i` caches the right hash, belongs in bin `i`, and
    /// no key view repeats within the chain.
    pub closed spec fn chain_ok(&self, i: int) -> bool {
        let ch = self.bins@[i]@;
        &&& forall|j: int|
            0 <= j < ch.len() ==> (#[trigger] ch[j]).hash == self.spec_hash(ch[j].key@)
        &&& forall|j: int| 0 <= j < ch.len() ==> self.spec_bin((#[trigger] ch[j]).key@) == i
        &&& chain_distinct(ch)
    }

    /// Structural well-formedness of the bucket array alone; during a
    /// resize it holds while the entry count is still catching up.
    pub closed spec fn tbl_ok(&self) -> bool {
        &&& 1 <= self.bins@.len() <= MAX_CAPACITY
        &&& is_pow2(self.bins@.len() as nat)
        &&& forall|i: int| 0 <= i < self.bins@.len() ==> #[trigger] self.chain_ok(i)
    }

    /// Well-formedness of the whole table.
    pub closed spec fn wf(&self) -> bool {
        &&& self.tbl_ok()
        &&& self@.dom().finite()
        &&& self.counter.wf()
        &&& self.counter.total() == self@.dom().len()
        &&& self@.dom().len() <= usize::MAX
    }

    /// A well-formed map models a finite map whose size fits the machine.
    pub proof fn lemma_wf_finite(&self)
        requires
            self.wf(),
        ensures
            self@.dom().finite(),
            self@.dom().len() <= usize::MAX,
    {
    }

    /// The bin index of a key, computed from its spread hash.
    fn bin_index(&self, h: u64) -> (i: usize)
        requires
            1 <= self.bins@.len() <= MAX_CAPACITY,
        ensures
            i == (h & (self.bins@.len() - 1) as u64) as int,
            i < self.bins@.len(),
    {
        let mask = self.bins.len() - 1;
        let masked = h & (mask as u64);
        proof {
            assert(h & (mask as u64) <= (mask as u64)) by (bit_vector);
        }
        masked as usize
    }

    /// The number of entries in the map.
    pub fn len(&self) -> (n: usize)
        requires
            self.wf(),
        ensures
            n == self@.dom().len(),
    {
        self.counter.read() as usize
    }

    /// Whether the map holds no entry.
    pub fn is_empty(&self) -> (r: bool)
        requires
            self.wf(),
        ensures
            r == (self@.dom() =~= Set::<<K as View>::V>::empty()),
    {
        proof {
            if self@.dom().len() == 0 {
                self@.dom().lemma_len0_is_empty();
            }
            if self@.dom() =~= Set::<<K as View>::V>::empty() {
                assert(self@.dom().len() == 0);
            }
        }
        self.len() == 0
    }

    /// A reference to the value stored under `key`, if any.
    pub fn get<'g>(&'g self, key: &K) -> (r: Option<&'g V>)
        requires
            self.wf(),
        ensures
            match r {
                Some(v) => self@.contains_key(key@) && *v == self@[key@],
                None => !self@.contains_key(key@),
            },
    {
        let h = spread(self.build_hasher.hash_one(key));
        let i = self.bin_index(h);
        match self.find_at(i, h, key) {
            Some(j) => {
                proof {
                    self.lemma_found(i as int, j as int, key@);
                }
                Some(&self.bins[i][j].value)
            },
            None => None,
        }
    }

    /// If bin `i` is well formed and its entry at `j` has key view `k`, then
    /// the map contains `k` and maps it to that entry's value.
    proof fn lemma_found(&self, i: int, j: int, k: <K as View>::V)
        requires
            self.tbl_ok(),
            0 <= i < self.bins@.len(),
            i == self.spec_bin(k),
            0 <= j < self.bins@[i]@.len(),
            self.bins@[i]@[j].key@ == k,
        ensures
            self@.contains_key(k),
            self@[k] == self.bins@[i]@[j].value,
            chain_idx(self.bins@[i]@, k) == j,
    {
        let ch = self.bins@[i]@;
        assert(chain_has(ch, k));
        let j2 = chain_idx(ch, k);
        assert(0 <= j2 < ch.len() && ch[j2].key@ == k);
        assert(self.chain_ok(i));
        if j2 != j {
            assert(ch[j].key@ != ch[j2].key@);
        }
    }

    /// The position of `key` in bin `i`, if it is present there.
    fn find_at(&self, i: usize, h: u64, key: &K) -> (r: Option<usize>)
        requires
            self.wf(),
            i < self.bins@.len(),
            i == self.spec_bin(key@),
            h == self.spec_hash(key@),
        ensures
            match r {
                Some(j) => {
                    &&& j < self.bins@[i as int]@.len()
                    &&& self.bins@[i as int]@[j as int].key@ == key@
                },
                None => !chain_has(self.bins@[i as int]@, key@),
            },
    {
        let ch = &self.bins[i];
        let ghost chs = ch@;
        let mut j: usize = 0;
        while j < ch.len()
            invariant
                self.wf(),
                chs == ch@,
                ch == &self.bins@[i as int],
                i < self.bins@.len(),
                i == self.spec_bin(key@),
                h == self.spec_hash(key@),
                0 <= j <= chs.len(),
                forall|jj: int| 0 <= jj < j ==> (#[trigger] chs[jj]).key@ != key@,
            decreases ch.len() - j,
        {
            let node = &ch[j];
            if node.hash == h && node.key.val_eq(key) {
                return Some(j);
            }
            proof {
                assert(self.chain_ok(i as int));
                assert(chs[j as int].hash == self.spec_hash(chs[j as int].key@));
            }
            j = j + 1;
        }
        proof {
            assert(forall|jj: int| 0 <= jj < chs.len() ==> (#[trigger] chs[jj]).key@ != key@);
        }
        None
    }

    /// Insert `value` under `key`, returning the previously stored value if
    /// the key was already present.  Crossing the 3/4-capacity threshold
    /// grows the table.
    pub fn insert(&mut self, key: K, value: V) -> (r: Option<V>)
        requires
            old(self).wf(),
            old(self)@.dom().len() < usize::MAX,
        ensures
            final(self).wf(),
            final(self)@ == old(self)@.insert(key@, value),
            match r {
                Some(v) => old(self)@.contains_key(key@) && v == old(self)@[key@],
                None => !old(self)@.contains_key(key@),
            },
    {
        let ghost kv = key@;
        let ghost vg = value;
        let h = spread(self.build_hasher.hash_one(&key));
        let i = self.bin_index(h);
        match self.find_at(i, h, &key) {
            Some(j) => {
                proof {
                    self.lemma_found(i as int, j as int, kv);
                }
                let ghost pre = *self;
                let ghost ch0 = self.bins@[i as int]@;
                let ch = &mut self.bins[i];
                let node = ch.remove(j);
                let n = Node { hash: h, key: node.key, value };
                let ghost ng = n;
                ch.push(n);
                proof {
                    assert(pre.chain_ok(i as int));
                    lemma_chain_remove(ch0, j as int);
                    lemma_chain_push(ch0.remove(j as int), ng);
                    assert(self.bins@[i as int]@ == ch0.remove(j as int).push(ng));
                    Self::lemma_chain_ok_after(pre, *self, i as int, ng);
                    Self::lemma_view_update(pre, *self, i as int, kv, true, vg);
                    assert(pre@.dom().insert(kv) =~= pre@.dom());
                }
                Some(node.value)
            },
            None => {
                let ghost pre = *self;
                let ghost ch0 = self.bins@[i as int]@;
                let n = Node { hash: h, key, value };
                let ghost ng = n;
                let ch = &mut self.bins[i];
                ch.push(n);
                self.counter.add_one();
                proof {
                    assert(pre.chain_ok(i as int));
                    lemma_chain_push(ch0, ng);
                    assert(self.bins@[i as int]@ == ch0.push(ng));
                    Self::lemma_chain_ok_after(pre, *self, i as int, ng);
                    Self::lemma_view_update(pre, *self, i as int, kv, true, vg);
                }
                if self.len() > (self.bins.len() / 4) * 3 && self.bins.len() <= MAX_CAPACITY / 2 {
                    self.grow();
                }
                None
            },
        }
    }

    /// Double the bucket array and migrate every entry to its bin under the
    /// widened mask.  The map's content is untouched.
    fn grow(&mut self)
        requires
            old(self).wf(),
            old(self).bins@.len() <= MAX_CAPACITY / 2,
        ensures
            final(self).wf(),
            final(self)@ == old(self)@,
            final(self).spec_capacity() == 2 * old(self).spec_capacity(),
    {
        let ghost pre0 = *old(self);
        let ghost view0 = self@;
        let mut nodes: Vec<Node<K, V>> = Vec::new();
        let mut i: usize = 0;
        while i < self.bins.len()
            invariant
                pre0.wf(),
                view0 == pre0@,
                1 <= self.bins@.len() <= MAX_CAPACITY / 2,
                is_pow2(self.bins@.len() as nat),
                self.build_hasher == pre0.build_hasher,
                self.counter == pre0.counter,
                self.bins@.len() == pre0.bins@.len(),
                forall|b: int| 0 <= b < self.bins@.len() ==> #[trigger] self.chain_ok(b),
                0 <= i <= self.bins@.len(),
                forall|b: int| 0 <= b < i ==> (#[trigger] self.bins@[b])@.len() == 0,
                chain_distinct(nodes@),
                forall|x: int|
                    0 <= x < nodes@.len() ==> (#[trigger] nodes@[x]).hash == self.spec_hash(
                        nodes@[x].key@,
                    ),
                forall|q: <K as View>::V|
                    #[trigger] chain_has(nodes@, q) ==> !self@.contains_key(q),
                forall|q: <K as View>::V|
                    #[trigger] view0.contains_key(q) == (self@.contains_key(q) || chain_has(
                        nodes@,
                        q,
                    )),
                forall|q: <K as View>::V|
                    #[trigger] self@.contains_key(q) ==> view0[q] == self@[q],
                forall|q: <K as View>::V|
                    #[trigger] chain_has(nodes@, q) ==> view0[q] == chain_val(nodes@, q),
                self@.dom().finite(),
            decreases self.bins@.len() - i,
        {
            while self.bins[i].len() > 0
                invariant
                    pre0.wf(),
                    view0 == pre0@,
                    1 <= self.bins@.len() <= MAX_CAPACITY / 2,
                    is_pow2(self.bins@.len() as nat),
                    self.build_hasher == pre0.build_hasher,
                    self.counter == pre0.counter,
                    self.bins@.len() == pre0.bins@.len(),
                    forall|b: int| 0 <= b < self.bins@.len() ==> #[trigger] self.chain_ok(b),
                    0 <= i < self.bins@.len(),
                    forall|b: int| 0 <= b < i ==> (#[trigger] self.bins@[b])@.len() == 0,
                    chain_distinct(nodes@),
                    forall|x: int|
                        0 <= x < nodes@.len() ==> (#[trigger] nodes@[x]).hash == self.spec_hash(
                            nodes@[x].key@,
                        ),
                    forall|q: <K as View>::V|
                        #[trigger] chain_has(nodes@, q) ==> !self@.contains_key(q),
                    forall|q: <K as View>::V|
                        #[trigger] view0.contains_key(q) == (self@.contains_key(q) || chain_has(
                            nodes@,
                            q,
                        )),
                    forall|q: <K as View>::V|
                        #[trigger] self@.contains_key(q) ==> view0[q] == self@[q],
                    forall|q: <K as View>::V|
                        #[trigger] chain_has(nodes@, q) ==> view0[q] == chain_val(nodes@, q),
                    self@.dom().finite(),
                decreases self.bins@[i as int]@.len(),
            {
                let ghost prei = *self;
                let ghost nodes_pre = nodes@;
                let ch = &mut self.bins[i];
                let ghost ch0 = ch@;
                let node = match ch.pop() {
                    Some(n) => n,
                    None => { vstd::pervasive::unreached() },
                };
                let ghost ng = node;
                let ghost k = node.key@;
                proof {
                    assert(prei.chain_ok(i as int));
                    assert(ch0.subrange(0, ch0.len() - 1) =~= ch0.remove(ch0.len() - 1));
                    lemma_chain_remove(ch0, ch0.len() - 1);
                    prei.lemma_found(i as int, ch0.len() - 1, k);
                    Self::lemma_chain_ok_after(prei, *self, i as int, ng);
                    Self::lemma_view_update(prei, *self, i as int, k, false, ng.value);
                    assert(!chain_has(nodes_pre, k));
                    lemma_chain_push(nodes_pre, ng);
                }
                nodes.push(node);
                proof {
                    assert(nodes@ == nodes_pre.push(ng));
                    assert(self@.dom() =~= prei@.dom().remove(k));
                    assert forall|q: <K as View>::V| #[trigger] view0.contains_key(q) == (
                    self@.contains_key(q) || chain_has(nodes@, q)) by {
                        assert(chain_has(nodes@, q) == (chain_has(nodes_pre, q) || q == k));
                    }
                    assert forall|q: <K as View>::V| #[trigger] chain_has(nodes@, q)
                        implies view0[q] == chain_val(nodes@, q) by {
                        if q == k {
                            assert(view0[q] == prei@[k]);
                        } else {
                            assert(chain_has(nodes_pre, q));
                        }
                    }
                }
            }
            i = i + 1;
        }
        let ghost nodes0 = nodes@;
        let cap2 = self.bins.len() * 2;
        proof {
            assert forall|q: <K as View>::V| !self@.contains_key(q) by {
                if self@.contains_key(q) {
                    let b = self.spec_bin(q);
                    assert(self.bins@[b]@.len() == 0);
                }
            }
        }
        self.bins = empty_bins(cap2);
        proof {
            assert(is_pow2(cap2 as nat)) by {
                assert(cap2 as nat % 2 == 0);
                assert(cap2 as nat / 2 == pre0.bins@.len() as nat);
            }
            assert forall|b: int| 0 <= b < self.bins@.len() implies #[trigger] self.chain_ok(b) by {
                assert(self.bins@[b]@.len() == 0);
            }
            assert forall|q: <K as View>::V| !self@.contains_key(q) by {
                let b = self.spec_bin(q);
                if 0 <= b < self.bins@.len() {
                    assert(self.bins@[b]@.len() == 0);
                }
            }
            assert(self@.dom() =~= Set::<<K as View>::V>::empty());
            assert(forall|q: <K as View>::V|
                #[trigger] self@.contains_key(q) == chain_has(nodes0.take(0), q));
        }
        let ghost mut x: int = 0;
        while nodes.len() > 0
            invariant
                pre0.wf(),
                view0 == pre0@,
                nodes@ == nodes0.skip(x),
                0 <= x <= nodes0.len(),
                2 <= self.bins@.len() <= MAX_CAPACITY,
                self.bins@.len() == 2 * pre0.bins@.len(),
                is_pow2(self.bins@.len() as nat),
                self.build_hasher == pre0.build_hasher,
                self.counter == pre0.counter,
                forall|b: int| 0 <= b < self.bins@.len() ==> #[trigger] self.chain_ok(b),
                chain_distinct(nodes0),
                forall|y: int|
                    0 <= y < nodes0.len() ==> (#[trigger] nodes0[y]).hash == self.spec_hash(
                        nodes0[y].key@,
                    ),
                forall|q: <K as View>::V|
                    #[trigger] view0.contains_key(q) == chain_has(nodes0, q),
                forall|q: <K as View>::V|
                    #[trigger] chain_has(nodes0, q) ==> view0[q] == chain_val(nodes0, q),
                forall|q: <K as View>::V|
                    #[trigger] self@.contains_key(q) == chain_has(nodes0.take(x), q),
                forall|q: <K as View>::V|
                    #[trigger] self@.contains_key(q) ==> self@[q] == chain_val(
                        nodes0.take(x),
                        q,
                    ),
                self@.dom().finite(),
            decreases nodes0.len() - x,
        {
            let ghost prex = *self;
            let node = nodes.remove(0);
            let ghost ng = node;
            let ghost k = node.key@;
            proof {
                assert(nodes0.skip(x)[0] == nodes0[x]);
                assert(nodes0.skip(x).remove(0) =~= nodes0.skip(x + 1));
                assert(chain_distinct(nodes0.take(x)));
                assert(!chain_has(nodes0.take(x), k)) by {
                    if chain_has(nodes0.take(x), k) {
                        let y = chain_idx(nodes0.take(x), k);
                        assert(nodes0[y].key@ == nodes0[x].key@);
                    }
                }
                assert(!self@.contains_key(k));
            }
            let h = node.hash;
            let i2 = self.bin_index(h);
            let ghost ch0 = self.bins@[i2 as int]@;
            proof {
                assert(prex.chain_ok(i2 as int));
                assert(i2 == self.spec_bin(k));
                assert(!chain_has(ch0, k)) by {
                    if chain_has(ch0, k) {
                        assert(self@.contains_key(k));
                    }
                }
                lemma_chain_push(ch0, ng);
            }
            let ch = &mut self.bins[i2];
            ch.push(node);
            proof {
                assert(self.bins@[i2 as int]@ == ch0.push(ng));
                Self::lemma_chain_ok_after(prex, *self, i2 as int, ng);
                Self::lemma_view_update(prex, *self, i2 as int, k, true, ng.value);
                assert(nodes0.take(x + 1) =~= nodes0.take(x).push(nodes0[x]));
                lemma_chain_push(nodes0.take(x), nodes0[x]);
                assert forall|q: <K as View>::V| #[trigger] self@.contains_key(q) == chain_has(
                    nodes0.take(x + 1),
                    q,
                ) by {
                    assert(self@ == prex@.insert(k, ng.value));
                }
                assert forall|q: <K as View>::V| #[trigger] self@.contains_key(q)
                    implies self@[q] == chain_val(nodes0.take(x + 1), q) by {
                    if q == k {
                        assert(chain_val(nodes0.take(x + 1), k) == nodes0[x].value);
                    } else {
                        assert(prex@.contains_key(q));
                    }
                }
            }
            proof {
                x = x + 1;
            }
        }
        proof {
            assert(nodes0.take(x) =~= nodes0);
            assert(self@ =~= view0);
        }
    }

    /// Remove the entry stored under `key`, returning its value.
    pub fn remove(&mut self, key: &K) -> (r: Option<V>)
        requires
            old(self).wf(),
        ensures
            final(self).wf(),
            final(self)@ == old(self)@.remove(key@),
            match r {
                Some(v) => old(self)@.contains_key(key@) && v == old(self)@[key@],
                None => !old(self)@.contains_key(key@) && final(self)@ == old(self)@,
            },
    {
        match self.remove_entry(key) {
            Some((_, v)) => Some(v),
            None => None,
        }
    }

    /// Remove the entry stored under `key`, returning the stored key and
    /// value.
    pub fn remove_entry(&mut self, key: &K) -> (r: Option<(K, V)>)
        requires
            old(self).wf(),
        ensures
            final(self).wf(),
            final(self)@ == old(self)@.remove(key@),
            match r {
                Some((k2, v)) => {
                    &&& old(self)@.contains_key(key@)
                    &&& k2@ == key@
                    &&& v == old(self)@[key@]
                },
                None => !old(self)@.contains_key(key@) && final(self)@ == old(self)@,
            },
    {
        let ghost kv = key@;
        let h = spread(self.build_hasher.hash_one(key));
        let i = self.bin_index(h);
        match self.find_at(i, h, key) {
            Some(j) => {
                proof {
                    self.lemma_found(i as int, j as int, kv);
                }
                let ghost pre = *self;
                let ghost ch0 = self.bins@[i as int]@;
                proof {
                    self.lemma_wf_finite();
                    vstd::set::axiom_set_remove_len(self@.dom(), kv);
                }
                let ch = &mut self.bins[i];
                let node = ch.remove(j);
                self.counter.sub_one();
                proof {
                    assert(pre.chain_ok(i as int));
                    lemma_chain_remove(ch0, j as int);
                    assert(self.bins@[i as int]@ == ch0.remove(j as int));
                    Self::lemma_chain_ok_after(pre, *self, i as int, ch0[j as int]);
                    Self::lemma_view_update(pre, *self, i as int, kv, false, node.value);
                }
                Some((node.key, node.value))
            },
            None => {
                proof {
                    assert(self@.remove(kv) =~= self@);
                }
                None
            },
        }
    }

    /// Remove every entry; the bucket array keeps its size.
    pub fn clear(&mut self)
        requires
            old(self).wf(),
        ensures
            final(self).wf(),
            final(self)@ =~= Map::<<K as View>::V, V>::empty(),
            final(self).spec_capacity() == old(self).spec_capacity(),
    {
        let cap = self.bins.len();
        self.bins = empty_bins(cap);
        self.counter = Counter::new();
        proof {
            assert forall|b: int| 0 <= b < self.bins@.len() implies #[trigger] self.chain_ok(b) by {
                assert(self.bins@[b]@.len() == 0);
            }
            assert(self@.dom() =~= Set::<<K as View>::V>::empty());
        }
    }

    /// Make room for `additional` entries beyond the current ones: grow the
    /// bucket array until the 3/4 threshold covers them, or the table hits
    /// its largest size.
    pub fn reserve(&mut self, additional: usize)
        requires
            old(self).wf(),
            old(self)@.dom().len() + additional <= usize::MAX,
        ensures
            final(self).wf(),
            final(self)@ == old(self)@,
            final(self).spec_capacity() > (MAX_CAPACITY / 2) as nat || (final(self).spec_capacity()
                / 4) * 3 >= old(self)@.dom().len() + additional,
    {
        let ghost view0 = self@;
        let needed = self.len() + additional;
        while (self.bins.len() / 4) * 3 < needed && self.bins.len() <= MAX_CAPACITY / 2
            invariant
                self.wf(),
                self@ == view0,
                needed == view0.dom().len() + additional,
            decreases MAX_CAPACITY - self.bins@.len(),
        {
            self.grow();
        }
    }

    /// Insert `value` under `key` unless the key is already present; on
    /// failure the rejected value is handed back along with a reference to
    /// the present one.
    pub fn try_insert<'g>(&'g mut self, key: K, value: V) -> (r: Result<
        &'g V,
        TryInsertError<'g, V>,
    >)
        requires
            old(self).wf(),
            old(self)@.dom().len() < usize::MAX,
        ensures
            final(self).wf(),
            match r {
                Ok(v) => {
                    &&& !old(self)@.contains_key(key@)
                    &&& final(self)@ == old(self)@.insert(key@, value)
                    &&& *v == value
                },
                Err(e) => {
                    &&& old(self)@.contains_key(key@)
                    &&& final(self)@ == old(self)@
                    &&& *e.current == old(self)@[key@]
                    &&& e.not_inserted == value
                },
            },
    {
        let ghost kv = key@;
        let ghost vg = value;
        if self.len() + 1 > (self.bins.len() / 4) * 3 && self.bins.len() <= MAX_CAPACITY / 2 {
            self.grow();
        }
        let h = spread(self.build_hasher.hash_one(&key));
        let i = self.bin_index(h);
        match self.find_at(i, h, &key) {
            Some(j) => {
                proof {
                    self.lemma_found(i as int, j as int, kv);
                }
                Err(TryInsertError { current: &self.bins[i][j].value, not_inserted: value })
            },
            None => {
                let ghost pre = *self;
                let ghost ch0 = self.bins@[i as int]@;
                let n = Node { hash: h, key, value };
                let ghost ng = n;
                let ch = &mut self.bins[i];
                ch.push(n);
                self.counter.add_one();
                proof {
                    assert(pre.chain_ok(i as int));
                    lemma_chain_push(ch0, ng);
                    assert(self.bins@[i as int]@ == ch0.push(ng));
                    Self::lemma_chain_ok_after(pre, *self, i as int, ng);
                    Self::lemma_view_update(pre, *self, i as int, kv, true, vg);
                }
                let j2 = self.bins[i].len() - 1;
                proof {
                    assert(self.bins@[i as int]@[j2 as int] == ng);
                }
                Ok(&self.bins[i][j2].value)
            },
        }
    }

    /// If `key` is present, hand its entry to `remapping_function`; a
    /// returned value replaces the stored one in place, and `None` unlinks
    /// the entry.  Absent keys are untouched.
    pub fn compute_if_present<'g, F: FnOnce(&K, &V) -> Option<V>>(
        &'g mut self,
        key: &K,
        remapping_function: F,
    ) -> (r: Option<&'g V>)
        requires
            old(self).wf(),
            forall|a: &K, b: &V|
                a@ == key@ && old(self)@.contains_key(key@) && *b == old(self)@[key@]
                    ==> #[trigger] call_requires(remapping_function, (a, b)),
        ensures
            final(self).wf(),
            !old(self)@.contains_key(key@) ==> final(self)@ == old(self)@ && r is None,
            old(self)@.contains_key(key@) ==> exists|a: &K, b: &V, o: Option<V>|
                {
                    &&& a@ == key@
                    &&& *b == old(self)@[key@]
                    &&& #[trigger] call_ensures(remapping_function, (a, b), o)
                    &&& match o {
                        Some(nv) => {
                            &&& final(self)@ == old(self)@.insert(key@, nv)
                            &&& r matches Some(v) && *v == nv
                        },
                        None => {
                            &&& final(self)@ == old(self)@.remove(key@)
                            &&& r is None
                        },
                    }
                },
    {
        let ghost kv = key@;
        let h = spread(self.build_hasher.hash_one(key));
        let i = self.bin_index(h);
        match self.find_at(i, h, key) {
            Some(j) => {
                proof {
                    self.lemma_found(i as int, j as int, kv);
                }
                let kr = &self.bins[i][j].key;
                let vr = &self.bins[i][j].value;
                let ghost ka = kr;
                let ghost va = vr;
                let out = remapping_function(kr, vr);
                let ghost og = out;
                match out {
                    Some(nv) => {
                        let ghost pre = *self;
                        let ghost ch0 = self.bins@[i as int]@;
                        let ghost nvg = nv;
                        let ch = &mut self.bins[i];
                        let node = ch.remove(j);
                        let n = Node { hash: h, key: node.key, value: nv };
                        let ghost ng = n;
                        ch.push(n);
                        proof {
                            assert(pre.chain_ok(i as int));
                            lemma_chain_remove(ch0, j as int);
                            lemma_chain_push(ch0.remove(j as int), ng);
                            assert(self.bins@[i as int]@ == ch0.remove(j as int).push(ng));
                            Self::lemma_chain_ok_after(pre, *self, i as int, ng);
                            Self::lemma_view_update(pre, *self, i as int, kv, true, nvg);
                            assert(pre@.dom().insert(kv) =~= pre@.dom());
                        }
                        let j2 = self.bins[i].len() - 1;
                        proof {
                            assert(self.bins@[i as int]@[j2 as int] == ng);
                            assert(call_ensures(remapping_function, (ka, va), og));
                        }
                        Some(&self.bins[i][j2].value)
                    },
                    None => {
                        let ghost pre = *self;
                        let ghost ch0 = self.bins@[i as int]@;
                        proof {
                            self.lemma_wf_finite();
                            vstd::set::axiom_set_remove_len(self@.dom(), kv);
                        }
                        let ch = &mut self.bins[i];
                        let node = ch.remove(j);
                        self.counter.sub_one();
                        proof {
                            assert(pre.chain_ok(i as int));
                            lemma_chain_remove(ch0, j as int);
                            assert(self.bins@[i as int]@ == ch0.remove(j as int));
                            Self::lemma_chain_ok_after(pre, *self, i as int, ch0[j as int]);
                            Self::lemma_view_update(pre, *self, i as int, kv, false, node.value);
                            assert(call_ensures(remapping_function, (ka, va), og));
                        }
                        None
                    },
                }
            },
            None => { None },
        }
    }

    /// Keep exactly the entries on which the predicate returns `true`; the
    /// others are unlinked.
    pub fn retain<F: Fn(&K, &V) -> bool>(&mut self, f: F)
        requires
            old(self).wf(),
            forall|a: &K, b: &V|
                old(self)@.contains_key(a@) && *b == old(self)@[a@] ==> #[trigger] call_requires(
                    f,
                    (a, b),
                ),
        ensures
            final(self).wf(),
            forall|q: <K as View>::V|
                #[trigger] final(self)@.contains_key(q) ==> old(self)@.contains_key(q)
                    && final(self)@[q] == old(self)@[q],
            forall|q: <K as View>::V|
                old(self)@.contains_key(q) && !(#[trigger] final(self)@.contains_key(q))
                    ==> rejects(f, q, old(self)@[q]),
            forall|q: <K as View>::V|
                old(self)@.contains_key(q) && #[trigger] final(self)@.contains_key(q) ==> approves(
                    f,
                    q,
                    old(self)@[q],
                ),
    {
        let ghost view0 = self@;
        let mut b: usize = 0;
        while b < self.bins.len()
            invariant
                self.wf(),
                b <= self.bins@.len(),
                self.bins@.len() == old(self).bins@.len(),
                self.build_hasher == old(self).build_hasher,
                view0 == old(self)@,
                forall|a: &K, bb: &V|
                    view0.contains_key(a@) && *bb == view0[a@] ==> #[trigger] call_requires(
                        f,
                        (a, bb),
                    ),
                forall|q: <K as View>::V|
                    #[trigger] self@.contains_key(q) ==> view0.contains_key(q) && self@[q]
                        == view0[q],
                forall|q: <K as View>::V|
                    view0.contains_key(q) && !(#[trigger] self@.contains_key(q)) ==> rejects(
                        f,
                        q,
                        view0[q],
                    ),
                forall|q: <K as View>::V|
                    #[trigger] self@.contains_key(q) && self.spec_bin(q) < b ==> approves(
                        f,
                        q,
                        view0[q],
                    ),
            decreases self.bins@.len() - b,
        {
            let mut j: usize = 0;
            let ghost mut done: Seq<<K as View>::V> = Seq::empty();
            while j < self.bins[b].len()
                invariant
                    self.wf(),
                    b < self.bins@.len(),
                    self.bins@.len() == old(self).bins@.len(),
                    self.build_hasher == old(self).build_hasher,
                    view0 == old(self)@,
                    j <= self.bins@[b as int]@.len(),
                    forall|a: &K, bb: &V|
                        view0.contains_key(a@) && *bb == view0[a@] ==> #[trigger] call_requires(
                            f,
                            (a, bb),
                        ),
                    forall|q: <K as View>::V|
                        #[trigger] self@.contains_key(q) ==> view0.contains_key(q) && self@[q]
                            == view0[q],
                    forall|q: <K as View>::V|
                        view0.contains_key(q) && !(#[trigger] self@.contains_key(q)) ==> rejects(
                            f,
                            q,
                            view0[q],
                        ),
                    forall|q: <K as View>::V|
                        #[trigger] self@.contains_key(q) && self.spec_bin(q) < b ==> approves(
                            f,
                            q,
                            view0[q],
                        ),
                    done.len() == j,
                    forall|jj: int|
                        0 <= jj < j ==> (#[trigger] self.bins@[b as int]@[jj]).key@ == done[jj],
                    forall|jj: int|
                        0 <= jj < done.len() ==> #[trigger] approves(f, done[jj], view0[done[jj]]),
                decreases self.bins@[b as int]@.len() - j,
            {
                let kr = &self.bins[b][j].key;
                let vr = &self.bins[b][j].value;
                let ghost ka = kr;
                let ghost va = vr;
                let ghost kv = kr@;
                proof {
                    assert(self.chain_ok(b as int));
                    self.lemma_found(b as int, j as int, kv);
                }
                let keep = f(kr, vr);
                if keep {
                    proof {
                        assert(call_ensures(f, (ka, va), true));
                        assert(ka@ == kv && *va == view0[kv]);
                        assert(self.bins@[b as int]@[j as int].key@ == kv);
                        assert(approves(f, kv, view0[kv]));
                        done = done.push(kv);
                    }
                    j = j + 1;
                } else {
                    let ghost pre = *self;
                    let ghost ch0 = self.bins@[b as int]@;
                    proof {
                        self.lemma_wf_finite();
                        vstd::set::axiom_set_remove_len(self@.dom(), kv);
                    }
                    let ch = &mut self.bins[b];
                    let node = ch.remove(j);
                    self.counter.sub_one();
                    proof {
                        assert(call_ensures(f, (ka, va), false));
                        assert(ka@ == kv && *va == view0[kv]);
                        assert(rejects(f, kv, view0[kv]));
                        assert(pre.chain_ok(b as int));
                        lemma_chain_remove(ch0, j as int);
                        assert(self.bins@[b as int]@ == ch0.remove(j as int));
                        Self::lemma_chain_ok_after(pre, *self, b as int, ch0[j as int]);
                        Self::lemma_view_update(pre, *self, b as int, kv, false, node.value);
                        assert(forall|jj: int|
                            0 <= jj < j ==> (#[trigger] self.bins@[b as int]@[jj]) == ch0[jj]);
                    }
                }
            }
            b = b + 1;
            proof {
                assert forall|q: <K as View>::V|
                    #[trigger] self@.contains_key(q) && self.spec_bin(q) < b implies approves(
                    f,
                    q,
                    view0[q],
                ) by {
                    if self.spec_bin(q) == b - 1 {
                        let ch = self.bins@[b - 1]@;
                        let jj = chain_idx(ch, q);
                        assert(0 <= jj < ch.len() && ch[jj].key@ == q);
                        assert(done[jj] == q);
                        assert(approves(f, done[jj], view0[done[jj]]));
                    }
                }
            }
        }
        proof {
            assert forall|q: <K as View>::V|
                old(self)@.contains_key(q) && #[trigger] self@.contains_key(q) implies approves(
                f,
                q,
                view0[q],
            ) by {
                let i2 = self.spec_bin(q);
                let m = (self.bins@.len() - 1) as u64;
                let h = self.spec_hash(q);
                assert(h & m <= m) by (bit_vector);
            }
        }
    }

    /// Same in-place filter as `retain`; the two differ only for tables
    /// shared between threads, where this form re-examines bins that moved
    /// under a concurrent resize so that every entry live at the moment of
    /// the call is considered.
    pub fn retain_force<F: Fn(&K, &V) -> bool>(&mut self, f: F)
        requires
            old(self).wf(),
            forall|a: &K, b: &V|
                old(self)@.contains_key(a@) && *b == old(self)@[a@] ==> #[trigger] call_requires(
                    f,
                    (a, b),
                ),
        ensures
            final(self).wf(),
            forall|q: <K as View>::V|
                #[trigger] final(self)@.contains_key(q) ==> old(self)@.contains_key(q)
                    && final(self)@[q] == old(self)@[q],
            forall|q: <K as View>::V|
                old(self)@.contains_key(q) && !(#[trigger] final(self)@.contains_key(q))
                    ==> rejects(f, q, old(self)@[q]),
            forall|q: <K as View>::V|
                old(self)@.contains_key(q) && #[trigger] final(self)@.contains_key(q) ==> approves(
                    f,
                    q,
                    old(self)@[q],
                ),
    {
        self.retain(f)
    }

    /// Every entry of the map, each exactly once, in bin order.
    pub fn iter<'g>(&'g self) -> (r: Vec<(&'g K, &'g V)>)
        requires
            self.wf(),
        ensures
            r@.len() == self@.dom().len(),
            forall|x: int|
                0 <= x < r@.len() ==> self@.contains_key((#[trigger] r@[x]).0@) && *r@[x].1
                    == self@[r@[x].0@],
            forall|x1: int, x2: int|
                0 <= x1 < x2 < r@.len() ==> (#[trigger] r@[x1]).0@ != (#[trigger] r@[x2]).0@,
            forall|q: <K as View>::V|
                #[trigger] self@.contains_key(q) ==> exists|x: int|
                    0 <= x < r@.len() && r@[x].0@ == q,
    {
        let mut out: Vec<(&'g K, &'g V)> = Vec::new();
        let mut b: usize = 0;
        while b < self.bins.len()
            invariant
                self.wf(),
                b <= self.bins@.len(),
                forall|x: int|
                    0 <= x < out@.len() ==> self@.contains_key((#[trigger] out@[x]).0@)
                        && *out@[x].1 == self@[out@[x].0@],
                forall|x: int|
                    0 <= x < out@.len() ==> self.spec_bin((#[trigger] out@[x]).0@) < b,
                forall|x1: int, x2: int|
                    0 <= x1 < x2 < out@.len() ==> (#[trigger] out@[x1]).0@ != (
                    #[trigger] out@[x2]).0@,
                forall|q: <K as View>::V|
                    #[trigger] self@.contains_key(q) && self.spec_bin(q) < b ==> exists|x: int|
                        0 <= x < out@.len() && out@[x].0@ == q,
            decreases self.bins@.len() - b,
        {
            let mut j: usize = 0;
            while j < self.bins[b].len()
                invariant
                    self.wf(),
                    b < self.bins@.len(),
                    j <= self.bins@[b as int]@.len(),
                    forall|x: int|
                        0 <= x < out@.len() ==> self@.contains_key((#[trigger] out@[x]).0@)
                            && *out@[x].1 == self@[out@[x].0@],
                    forall|x: int|
                        0 <= x < out@.len() ==> self.spec_bin((#[trigger] out@[x]).0@) < b || (
                        self.spec_bin(out@[x].0@) == b && chain_idx(
                            self.bins@[b as int]@,
                            out@[x].0@,
                        ) < j),
                    forall|x1: int, x2: int|
                        0 <= x1 < x2 < out@.len() ==> (#[trigger] out@[x1]).0@ != (
                        #[trigger] out@[x2]).0@,
                    forall|q: <K as View>::V|
                        #[trigger] self@.contains_key(q) && (self.spec_bin(q) < b || (self.spec_bin(
                            q,
                        ) == b && chain_idx(self.bins@[b as int]@, q) < j)) ==> exists|x: int|
                            0 <= x < out@.len() && out@[x].0@ == q,
                decreases self.bins@[b as int]@.len() - j,
            {
                let ghost kv = self.bins@[b as int]@[j as int].key@;
                proof {
                    assert(self.chain_ok(b as int));
                    self.lemma_found(b as int, j as int, kv);
                }
                let ghost out0 = out@;
                out.push((&self.bins[b][j].key, &self.bins[b][j].value));
                proof {
                    assert(out@.len() == out0.len() + 1);
                    assert(forall|x: int| 0 <= x < out0.len() ==> out@[x] == out0[x]);
                    assert(out@[out0.len() as int].0@ == kv);
                    assert forall|q: <K as View>::V|
                        #[trigger] self@.contains_key(q) && (self.spec_bin(q) < b || (self.spec_bin(
                            q,
                        ) == b && chain_idx(self.bins@[b as int]@, q) < j + 1)) implies exists|
                        x: int,
                    |
                        0 <= x < out@.len() && out@[x].0@ == q by {
                        if self.spec_bin(q) < b || chain_idx(self.bins@[b as int]@, q) < j {
                            let x0 = choose|x0: int| 0 <= x0 < out0.len() && out0[x0].0@ == q;
                            assert(out@[x0] == out0[x0]);
                        } else {
                            assert(self.bins@[b as int]@[chain_idx(self.bins@[b as int]@, q)].key@
                                == q);
                            assert(out@[out0.len() as int].0@ == kv);
                        }
                    }
                }
                j = j + 1;
            }
            b = b + 1;
        }
        proof {
            assert forall|q: <K as View>::V| #[trigger] self@.contains_key(q) implies exists|
                x: int,
            |
                0 <= x < out@.len() && out@[x].0@ == q by {
                let m = (self.bins@.len() - 1) as u64;
                let h = self.spec_hash(q);
                assert(h & m <= m) by (bit_vector);
            }
            let ks = Seq::new(out@.len(), |x: int| out@[x].0@);
            assert(forall|x: int| 0 <= x < ks.len() ==> #[trigger] ks[x] == out@[x].0@);
            assert forall|q: <K as View>::V| #[trigger] self@.contains_key(q) implies exists|
                x: int,
            |
                0 <= x < ks.len() && ks[x] == q by {
                let x = choose|x: int| 0 <= x < out@.len() && out@[x].0@ == q;
                assert(ks[x] == q);
            }
            lemma_distinct_covering_len(self@, ks);
        }
        out
    }

    /// Every key of the map, each exactly once.
    pub fn keys<'g>(&'g self) -> (r: Vec<&'g K>)
        requires
            self.wf(),
        ensures
            r@.len() == self@.dom().len(),
            forall|x: int| 0 <= x < r@.len() ==> self@.contains_key((#[trigger] r@[x])@),
            forall|x1: int, x2: int|
                0 <= x1 < x2 < r@.len() ==> (#[trigger] r@[x1])@ != (#[trigger] r@[x2])@,
            forall|q: <K as View>::V|
                #[trigger] self@.contains_key(q) ==> exists|x: int|
                    0 <= x < r@.len() && r@[x]@ == q,
    {
        let it = self.iter();
        let mut out: Vec<&'g K> = Vec::new();
        let mut x: usize = 0;
        while x < it.len()
            invariant
                self.wf(),
                x <= it@.len(),
                out@.len() == x,
                forall|y: int| 0 <= y < x ==> #[trigger] out@[y] == it@[y].0,
                forall|y: int|
                    0 <= y < it@.len() ==> self@.contains_key((#[trigger] it@[y]).0@),
                forall|x1: int, x2: int|
                    0 <= x1 < x2 < it@.len() ==> (#[trigger] it@[x1]).0@ != (#[trigger] it@[x2]).0@,
                forall|q: <K as View>::V|
                    #[trigger] self@.contains_key(q) ==> exists|y: int|
                        0 <= y < it@.len() && it@[y].0@ == q,
            decreases it@.len() - x,
        {
            out.push(it[x].0);
            x = x + 1;
        }
        proof {
            assert forall|q: <K as View>::V| #[trigger] self@.contains_key(q) implies exists|
                y: int,
            |
                0 <= y < out@.len() && out@[y]@ == q by {
                let y = choose|y: int| 0 <= y < it@.len() && it@[y].0@ == q;
                assert(out@[y]@ == q);
            }
        }
        out
    }

    /// Every value of the map, one for each key.
    pub fn values<'g>(&'g self) -> (r: Vec<&'g V>)
        requires
            self.wf(),
        ensures
            r@.len() == self@.dom().len(),
            exists|ks: Seq<<K as View>::V>|
                {
                    &&& ks.len() == r@.len()
                    &&& forall|x: int|
                        0 <= x < r@.len() ==> self@.contains_key(#[trigger] ks[x]) && *r@[x]
                            == self@[ks[x]]
                    &&& forall|x1: int, x2: int|
                        0 <= x1 < x2 < ks.len() ==> ks[x1] != ks[x2]
                    &&& forall|q: <K as View>::V|
                        #[trigger] self@.contains_key(q) ==> exists|x: int|
                            0 <= x < ks.len() && ks[x] == q
                },
    {
        let it = self.iter();
        let mut out: Vec<&'g V> = Vec::new();
        let ghost mut ks: Seq<<K as View>::V> = Seq::empty();
        let mut x: usize = 0;
        while x < it.len()
            invariant
                self.wf(),
                x <= it@.len(),
                out@.len() == x,
                ks.len() == x,
                forall|y: int| 0 <= y < x ==> #[trigger] ks[y] == it@[y].0@,
                forall|y: int| 0 <= y < x ==> #[trigger] out@[y] == it@[y].1,
                forall|y: int|
                    0 <= y < it@.len() ==> self@.contains_key((#[trigger] it@[y]).0@) && *it@[y].1
                        == self@[it@[y].0@],
                forall|x1: int, x2: int|
                    0 <= x1 < x2 < it@.len() ==> (#[trigger] it@[x1]).0@ != (#[trigger] it@[x2]).0@,
                forall|q: <K as View>::V|
                    #[trigger] self@.contains_key(q) ==> exists|y: int|
                        0 <= y < it@.len() && it@[y].0@ == q,
            decreases it@.len() - x,
        {
            out.push(it[x].1);
            proof {
                ks = ks.push(it@[x as int].0@);
            }
            x = x + 1;
        }
        proof {
            assert forall|q: <K as View>::V| #[trigger] self@.contains_key(q) implies exists|
                y: int,
            |
                0 <= y < ks.len() && ks[y] == q by {
                let y = choose|y: int| 0 <= y < it@.len() && it@[y].0@ == q;
                assert(ks[y] == q);
            }
            assert forall|x1: int, x2: int| 0 <= x1 < x2 < ks.len() implies ks[x1] != ks[x2] by {
                assert(ks[x1] == it@[x1].0@ && ks[x2] == it@[x2].0@);
            }
        }
        out
    }

    /// Insert every pair in order; a repeated key keeps the last value.
    pub fn extend_entries(&mut self, entries: Vec<(K, V)>)
        requires
            old(self).wf(),
            old(self)@.dom().len() + entries@.len() <= usize::MAX,
        ensures
            final(self).wf(),
            final(self)@ == fold_insert(old(self)@, entries@),
    {
        let ghost entries0 = entries@;
        let ghost view0 = self@;
        let mut entries = entries;
        let ghost mut x: int = 0;
        while entries.len() > 0
            invariant
                self.wf(),
                0 <= x <= entries0.len(),
                entries@ == entries0.skip(x),
                self@ == fold_insert(view0, entries0.take(x)),
                self@.dom().len() <= view0.dom().len() + x,
                view0.dom().len() + entries0.len() <= usize::MAX,
            decreases entries@.len(),
        {
            let ghost pre = self@;
            let (k, v) = entries.remove(0);
            proof {
                assert(entries0.skip(x)[0] == entries0[x]);
                assert(entries0.skip(x).remove(0) =~= entries0.skip(x + 1));
            }
            self.insert(k, v);
            proof {
                assert(entries0.take(x + 1).drop_last() =~= entries0.take(x));
                assert(entries0.take(x + 1).last() == entries0[x]);
                assert(self@ == fold_insert(view0, entries0.take(x + 1)));
                assert(self@.dom() == pre.dom().insert(entries0[x].0@));
                x = x + 1;
            }
        }
        proof {
            assert(entries0.take(x) =~= entries0);
        }
    }

    /// If every entry of `post`'s bin `i` is an old entry of `pre`'s bin `i`
    /// or the freshly built entry `n`, and the chain stays duplicate-free,
    /// then bin `i` is well formed in `post`.
    proof fn lemma_chain_ok_after(pre: Self, post: Self, i: int, n: Node<K, V>)
        requires
            1 <= pre.bins@.len(),
            forall|b: int| 0 <= b < pre.bins@.len() ==> #[trigger] pre.chain_ok(b),
            post.build_hasher == pre.build_hasher,
            post.bins@.len() == pre.bins@.len(),
            0 <= i < pre.bins@.len(),
            chain_distinct(post.bins@[i]@),
            forall|x: int|
                0 <= x < post.bins@[i]@.len() ==> (#[trigger] post.bins@[i]@[x]) == n || exists|
                    y: int,
                |
                    0 <= y < pre.bins@[i]@.len() && pre.bins@[i]@[y] == post.bins@[i]@[x],
            n.hash == pre.spec_hash(n.key@),
            pre.spec_bin(n.key@) == i,
        ensures
            post.chain_ok(i),
    {
        assert(pre.chain_ok(i));
        let ch = post.bins@[i]@;
        assert forall|j: int| 0 <= j < ch.len() implies (#[trigger] ch[j]).hash == post.spec_hash(
            ch[j].key@,
        ) && post.spec_bin(ch[j].key@) == i by {
            assert(post.spec_hash(ch[j].key@) == pre.spec_hash(ch[j].key@));
            assert(post.spec_bin(ch[j].key@) == pre.spec_bin(ch[j].key@));
            if ch[j] == n {
            } else {
                let y = choose|y: int|
                    0 <= y < pre.bins@[i]@.len() && pre.bins@[i]@[y] == ch[j];
                assert(pre.bins@[i]@[y].hash == pre.spec_hash(pre.bins@[i]@[y].key@));
            }
        }
    }
    pub fn contains_key(&self, key: &K) -> (r: bool)
        requires
            self.wf(),
        ensures
            r == self@.contains_key(key@),
    {
        match self.get(key) {
            Some(_) => true,
            None => false,
        }
    }

    /// The stored key-value pair for `key`, if any.
    pub fn get_key_value<'g>(&'g self, key: &K) -> (r: Option<(&'g K, &'g V)>)
        requires
            self.wf(),
        ensures
            match r {
                Some((rk, v)) => {
                    &&& self@.contains_key(key@)
                    &&& rk@ == key@
                    &&& *v == self@[key@]
                },
                None => !self@.contains_key(key@),
            },
    {
        let h = spread(self.build_hasher.hash_one(key));
        let i = self.bin_index(h);
        match self.find_at(i, h, key) {
            Some(j) => {
                proof {
                    self.lemma_found(i as int, j as int, key@);
                }
                Some((&self.bins[i][j].key, &self.bins[i][j].value))
            },
            None => None,
        }
    }

}

impl<K: Key, V, S: HashBuilder<K>> HashMap<K, V, S> {
    /// If `post` differs from `pre` only in bin `i` — where at most the
    /// binding of key view `k` changed — then `post`'s model is `pre`'s with
    /// `k` bound to `v` (when `present`) or unbound (when not).
    proof fn lemma_view_update(pre: Self, post: Self, i: int, k: <K as View>::V, present: bool, v: V)
        requires
            1 <= pre.bins@.len(),
            forall|b: int| 0 <= b < pre.bins@.len() ==> #[trigger] pre.chain_ok(b),
            post.build_hasher == pre.build_hasher,
            post.bins@.len() == pre.bins@.len(),
            forall|b: int|
                0 <= b < pre.bins@.len() && b != i ==> post.bins@[b] == pre.bins@[b],
            0 <= i < pre.bins@.len(),
            i == pre.spec_bin(k),
            post.chain_ok(i),
            forall|q: <K as View>::V|
                q != k ==> #[trigger] chain_has(post.bins@[i]@, q) == chain_has(pre.bins@[i]@, q),
            forall|q: <K as View>::V|
                q != k && chain_has(pre.bins@[i]@, q) ==> #[trigger] chain_val(post.bins@[i]@, q)
                    == chain_val(pre.bins@[i]@, q),
            chain_has(post.bins@[i]@, k) == present,
            present ==> chain_val(post.bins@[i]@, k) == v,
        ensures
            forall|b: int| 0 <= b < post.bins@.len() ==> #[trigger] post.chain_ok(b),
            forall|q: <K as View>::V| post.spec_bin(q) == pre.spec_bin(q),
            present ==> post@ == pre@.insert(k, v),
            !present ==> post@ == pre@.remove(k),
    {
        assert forall|q: <K as View>::V| post.spec_bin(q) == pre.spec_bin(q) by {
            assert(post.spec_hash(q) == pre.spec_hash(q));
        }
        assert forall|b: int| 0 <= b < post.bins@.len() implies #[trigger] post.chain_ok(b) by {
            if b != i {
                assert(pre.chain_ok(b));
                assert(post.bins@[b] == pre.bins@[b]);
                let ch = post.bins@[b]@;
                assert forall|j: int| 0 <= j < ch.len() implies (#[trigger] ch[j]).hash
                    == post.spec_hash(ch[j].key@) by {
                    assert(ch[j].hash == pre.spec_hash(ch[j].key@));
                }
                assert forall|j: int| 0 <= j < ch.len() implies post.spec_bin(
                    (#[trigger] ch[j]).key@,
                ) == b by {
                    assert(pre.spec_bin(ch[j].key@) == b);
                }
            }
        }
        if present {
            assert(post@ =~= pre@.insert(k, v)) by {
                assert forall|q: <K as View>::V| #![all_triggers] true implies {
                    &&& post@.contains_key(q) == pre@.insert(k, v).contains_key(q)
                    &&& (post@.contains_key(q) ==> post@[q] == pre@.insert(k, v)[q])
                } by {
                    Self::lemma_view_update_key(pre, post, i, k, present, v, q);
                }
            }
        } else {
            assert(post@ =~= pre@.remove(k)) by {
                assert forall|q: <K as View>::V| #![all_triggers] true implies {
                    &&& post@.contains_key(q) == pre@.remove(k).contains_key(q)
                    &&& (post@.contains_key(q) ==> post@[q] == pre@.remove(k)[q])
                } by {
                    Self::lemma_view_update_key(pre, post, i, k, present, v, q);
                }
            }
        }
    }

    /// One key's worth of `lemma_view_update`.
    proof fn lemma_view_update_key(
        pre: Self,
        post: Self,
        i: int,
        k: <K as View>::V,
        present: bool,
        v: V,
        q: <K as View>::V,
    )
        requires
            1 <= pre.bins@.len(),
            forall|b: int| 0 <= b < pre.bins@.len() ==> #[trigger] pre.chain_ok(b),
            post.build_hasher == pre.build_hasher,
            post.bins@.len() == pre.bins@.len(),
            forall|b: int|
                0 <= b < pre.bins@.len() && b != i ==> post.bins@[b] == pre.bins@[b],
            0 <= i < pre.bins@.len(),
            i == pre.spec_bin(k),
            post.chain_ok(i),
            forall|q2: <K as View>::V|
                q2 != k ==> #[trigger] chain_has(post.bins@[i]@, q2) == chain_has(
                    pre.bins@[i]@,
                    q2,
                ),
            forall|q2: <K as View>::V|
                q2 != k && chain_has(pre.bins@[i]@, q2) ==> #[trigger] chain_val(
                    post.bins@[i]@,
                    q2,
                ) == chain_val(pre.bins@[i]@, q2),
            chain_has(post.bins@[i]@, k) == present,
            present ==> chain_val(post.bins@[i]@, k) == v,
        ensures
            present ==> post@.contains_key(q) == pre@.insert(k, v).contains_key(q),
            present && post@.contains_key(q) ==> post@[q] == pre@.insert(k, v)[q],
            !present ==> post@.contains_key(q) == pre@.remove(k).contains_key(q),
            !present && post@.contains_key(q) ==> post@[q] == pre@.remove(k)[q],
    {
        assert(post.spec_hash(q) == pre.spec_hash(q));
        assert(post.spec_bin(q) == pre.spec_bin(q));
        let b = pre.spec_bin(q);
        assert(0 <= b < pre.bins@.len()) by {
            let m = (pre.bins@.len() - 1) as u64;
            let h = pre.spec_hash(q);
            assert(h & m <= m) by (bit_vector);
        }
        if q != k {
            if b != i {
                assert(post.bins@[b] == pre.bins@[b]);
            }
        }
    }
}

impl<K: Key, V: ValEq, S: HashBuilder<K>> HashMap<K, V, S> {
    /// Some bin of the table holds an entry whose key and value have these
    /// views.  Stated over the bins themselves, with no structural
    /// assumption, so that the `==` operator can be specified exactly.
    pub closed spec fn holds_entry(&self, k: <K as View>::V, v: <V as View>::V) -> bool {
        exists|b: int, j: int|
            0 <= b < self.bins@.len() && 0 <= j < self.bins@[b]@.len() && (
            #[trigger] self.bins@[b]@[j]).key@ == k && self.bins@[b]@[j].value@ == v
    }

    /// Every entry of this table has, somewhere in `other`, an entry with
    /// the same key view and a view-equal value.
    pub closed spec fn covered_by(&self, other: &Self) -> bool {
        forall|b: int, j: int|
            0 <= b < self.bins@.len() && 0 <= j < self.bins@[b]@.len() ==> other.holds_entry(
                (#[trigger] self.bins@[b]@[j]).key@,
                self.bins@[b]@[j].value@,
            )
    }

    /// Whether some bin holds an entry matching `key` and `value`, view for
    /// view, by scanning every bin.
    fn has_matching_entry(&self, key: &K, value: &V) -> (r: bool)
        ensures
            r == self.holds_entry(key@, value@),
    {
        let mut b: usize = 0;
        while b < self.bins.len()
            invariant
                b <= self.bins@.len(),
                forall|bb: int, jj: int|
                    0 <= bb < b && 0 <= jj < self.bins@[bb]@.len() ==> !((
                    #[trigger] self.bins@[bb]@[jj]).key@ == key@ && self.bins@[bb]@[jj].value@
                        == value@),
            decreases self.bins@.len() - b,
        {
            let mut j: usize = 0;
            while j < self.bins[b].len()
                invariant
                    b < self.bins@.len(),
                    j <= self.bins@[b as int]@.len(),
                    forall|bb: int, jj: int|
                        0 <= bb < b && 0 <= jj < self.bins@[bb]@.len() ==> !((
                        #[trigger] self.bins@[bb]@[jj]).key@ == key@ && self.bins@[bb]@[jj].value@
                            == value@),
                    forall|jj: int|
                        0 <= jj < j ==> !((#[trigger] self.bins@[b as int]@[jj]).key@ == key@
                            && self.bins@[b as int]@[jj].value@ == value@),
                decreases self.bins@[b as int]@.len() - j,
            {
                let node = &self.bins[b][j];
                if node.key.val_eq(key) && node.value.val_eq(value) {
                    return true;
                }
                j = j + 1;
            }
            b = b + 1;
        }
        false
    }

    /// Whether every entry of this map has a view-equal counterpart in
    /// `other`; exactly the `covered_by` relation on the bins.
    fn chains_match(&self, other: &Self) -> (r: bool)
        ensures
            r == self.covered_by(other),
    {
        let mut b: usize = 0;
        while b < self.bins.len()
            invariant
                b <= self.bins@.len(),
                forall|bb: int, jj: int|
                    0 <= bb < b && 0 <= jj < self.bins@[bb]@.len() ==> other.holds_entry(
                        (#[trigger] self.bins@[bb]@[jj]).key@,
                        self.bins@[bb]@[jj].value@,
                    ),
            decreases self.bins@.len() - b,
        {
            let mut j: usize = 0;
            while j < self.bins[b].len()
                invariant
                    b < self.bins@.len(),
                    j <= self.bins@[b as int]@.len(),
                    forall|bb: int, jj: int|
                        0 <= bb < b && 0 <= jj < self.bins@[bb]@.len() ==> other.holds_entry(
                            (#[trigger] self.bins@[bb]@[jj]).key@,
                            self.bins@[bb]@[jj].value@,
                        ),
                    forall|jj: int|
                        0 <= jj < j ==> other.holds_entry(
                            (#[trigger] self.bins@[b as int]@[jj]).key@,
                            self.bins@[b as int]@[jj].value@,
                        ),
                decreases self.bins@[b as int]@.len() - j,
            {
                let node = &self.bins[b][j];
                if !other.has_matching_entry(&node.key, &node.value) {
                    return false;
                }
                j = j + 1;
            }
            b = b + 1;
        }
        true
    }

    /// Between well-formed tables, coverage of the bins is exactly
    /// entry-wise inclusion of the models.
    pub proof fn lemma_covered_is_submap(&self, other: &Self)
        requires
            self.wf(),
            other.wf(),
        ensures
            self.covered_by(other) == (forall|q: <K as View>::V|
                #[trigger] self@.contains_key(q) ==> other@.contains_key(q) && other@[q]@
                    == self@[q]@),
    {
        if self.covered_by(other) {
            assert forall|q: <K as View>::V| #[trigger] self@.contains_key(q)
                implies other@.contains_key(q) && other@[q]@ == self@[q]@ by {
                let b = self.spec_bin(q);
                assert(0 <= b < self.bins@.len()) by {
                    let m = (self.bins@.len() - 1) as u64;
                    let h = self.spec_hash(q);
                    assert(h & m <= m) by (bit_vector);
                }
                let j = chain_idx(self.bins@[b]@, q);
                assert(0 <= j < self.bins@[b]@.len() && self.bins@[b]@[j].key@ == q);
                self.lemma_found(b, j, q);
                assert(other.holds_entry(q, self.bins@[b]@[j].value@));
                let (b2, j2) = choose|b2: int, j2: int|
                    0 <= b2 < other.bins@.len() && 0 <= j2 < other.bins@[b2]@.len() && (
                    #[trigger] other.bins@[b2]@[j2]).key@ == q && other.bins@[b2]@[j2].value@
                        == self.bins@[b]@[j].value@;
                assert(other.chain_ok(b2));
                assert(other.spec_bin(q) == b2);
                other.lemma_found(b2, j2, q);
            }
        }
        if forall|q: <K as View>::V|
            #[trigger] self@.contains_key(q) ==> other@.contains_key(q) && other@[q]@
                == self@[q]@ {
            assert forall|b: int, j: int|
                0 <= b < self.bins@.len() && 0 <= j < self.bins@[b]@.len()
                    implies other.holds_entry(
                (#[trigger] self.bins@[b]@[j]).key@,
                self.bins@[b]@[j].value@,
            ) by {
                let q = self.bins@[b]@[j].key@;
                assert(self.chain_ok(b));
                self.lemma_found(b, j, q);
                assert(other@.contains_key(q) && other@[q]@ == self@[q]@);
                let b2 = other.spec_bin(q);
                assert(0 <= b2 < other.bins@.len()) by {
                    let m = (other.bins@.len() - 1) as u64;
                    let h = other.spec_hash(q);
                    assert(h & m <= m) by (bit_vector);
                }
                let j2 = chain_idx(other.bins@[b2]@, q);
                assert(0 <= j2 < other.bins@[b2]@.len() && other.bins@[b2]@[j2].key@ == q);
                other.lemma_found(b2, j2, q);
                assert(other.bins@[b2]@[j2].value@ == self.bins@[b]@[j].value@);
            }
        }
    }

    /// Between well-formed maps, the meaning of `==` — mutual coverage of
    /// the bins, as `eq_spec` states it — is exactly equality of the
    /// models, entry by entry.
    pub proof fn lemma_eq_spec_is_map_equiv(&self, other: &Self)
        requires
            self.wf(),
            other.wf(),
        ensures
            (self.covered_by(other) && other.covered_by(self)) == map_equiv(self@, other@),
    {
        self.lemma_covered_is_submap(other);
        other.lemma_covered_is_submap(self);
        if self.covered_by(other) && other.covered_by(self) {
            assert(self@.dom() =~= other@.dom());
        }
        if map_equiv(self@, other@) {
            assert forall|q: <K as View>::V| #[trigger] other@.contains_key(q)
                implies self@.contains_key(q) && self@[q]@ == other@[q]@ by {
                assert(self@.contains_key(q));
            }
        }
    }

    /// Whether the two maps hold the same entries, key views and value
    /// views alike — the equality of maps evaluated entry by entry.
    pub fn guarded_eq(&self, other: &Self) -> (r: bool)
        requires
            self.wf(),
            other.wf(),
        ensures
            r == map_equiv(self@, other@),
    {
        if self.len() != other.len() {
            proof {
                if self@.dom() == other@.dom() {
                    assert(self@.dom().len() == other@.dom().len());
                }
            }
            return false;
        }
        let r = self.chains_match(other);
        proof {
            self.lemma_covered_is_submap(other);
            if r {
                assert forall|q: <K as View>::V|
                    #[trigger] other@.dom().contains(q) implies self@.dom().contains(q) by {
                    vstd::set_lib::lemma_subset_equality(self@.dom(), other@.dom());
                }
                assert(self@.dom() =~= other@.dom());
            } else {
                let q = choose|q: <K as View>::V|
                    self@.contains_key(q) && !(other@.contains_key(q) && other@[q]@ == self@[q]@);
                if map_equiv(self@, other@) {
                    assert(other@.contains_key(q));
                }
            }
        }
        r
    }

    /// A map with the same entries — equal keys, values duplicated view for
    /// view — under an equal hash policy.  The copy shares no storage with
    /// the original: mutating either leaves the other as it was.
    pub fn clone(&self) -> (r: Self)
        requires
            self.wf(),
        ensures
            r.wf(),
            map_equiv(r@, self@),
    {
        let it = self.iter();
        proof {
            lemma_pow2_16();
        }
        let mut r: Self = Self::with_bins(DEFAULT_CAPACITY, self.build_hasher.dup_builder());
        let mut x: usize = 0;
        while x < it.len()
            invariant
                self.wf(),
                r.wf(),
                x <= it@.len(),
                forall|y: int|
                    0 <= y < it@.len() ==> self@.contains_key((#[trigger] it@[y]).0@) && *it@[y].1
                        == self@[it@[y].0@],
                forall|x1: int, x2: int|
                    0 <= x1 < x2 < it@.len() ==> (#[trigger] it@[x1]).0@ != (#[trigger] it@[x2]).0@,
                forall|q: <K as View>::V|
                    #[trigger] self@.contains_key(q) ==> exists|y: int|
                        0 <= y < it@.len() && it@[y].0@ == q,
                forall|q: <K as View>::V|
                    #[trigger] r@.contains_key(q) ==> exists|y: int|
                        0 <= y < x && it@[y].0@ == q,
                forall|y: int|
                    0 <= y < x ==> r@.contains_key((#[trigger] it@[y]).0@),
                forall|q: <K as View>::V| #[trigger] r@.contains_key(q) ==> r@[q]@ == self@[q]@,
                r@.dom().len() <= x,
            decreases it@.len() - x,
        {
            let (kr, vr) = it[x];
            r.insert(kr.dup(), vr.dup());
            x = x + 1;
        }
        proof {
            assert forall|q: <K as View>::V|
                #[trigger] self@.contains_key(q) implies r@.contains_key(q) by {
                let y = choose|y: int| 0 <= y < it@.len() && it@[y].0@ == q;
                assert(r@.contains_key(it@[y].0@));
            }
            assert(r@.dom() =~= self@.dom());
        }
        r
    }

}

/// A vector of `cap` empty bins.
fn empty_bins<K, V>(cap: usize) -> (r: Vec<Vec<Node<K, V>>>)
    ensures
        r@.len() == cap,
        forall|i: int| 0 <= i < cap ==> (#[trigger] r@[i])@.len() == 0,
{
    let mut bins: Vec<Vec<Node<K, V>>> = Vec::new();
    let mut i: usize = 0;
    while i < cap
        invariant
            0 <= i <= cap,
            bins@.len() == i,
            forall|j: int| 0 <= j < i ==> (#[trigger] bins@[j])@.len() == 0,
        decreases cap - i,
    {
        bins.push(Vec::new());
        i = i + 1;
    }
    bins
}

impl<K: Key, V, S: HashBuilder<K>> HashMap<K, V, S> {
    /// An empty map with `cap` bins using the given hash builder; `cap` must
    /// be a power of two.
    fn with_bins(cap: usize, build_hasher: S) -> (r: Self)
        requires
            1 <= cap <= MAX_CAPACITY,
            is_pow2(cap as nat),
        ensures
            r.wf(),
            r@ =~= Map::<<K as View>::V, V>::empty(),
            r.spec_capacity() == cap,
    {
        let m = HashMap { bins: empty_bins(cap), counter: Counter::new(), build_hasher };
        proof {
            assert forall|i: int| 0 <= i < m.bins@.len() implies #[trigger] m.chain_ok(i) by {
                assert(m.bins@[i]@.len() == 0);
            }
            assert(m@.dom() =~= Set::<<K as View>::V>::empty());
        }
        m
    }

    /// An empty map with the default number of bins and the given hash
    /// builder.
    pub fn with_hasher(build_hasher: S) -> (r: Self)
        ensures
            r.wf(),
            r@ =~= Map::<<K as View>::V, V>::empty(),
            r.spec_capacity() == DEFAULT_CAPACITY,
    {
        proof {
            lemma_pow2_16();
        }
        Self::with_bins(DEFAULT_CAPACITY, build_hasher)
    }
}

/// `16` is a power of two.
proof fn lemma_pow2_16()
    ensures
        is_pow2(16),
{
    assert(is_pow2(1));
    assert(is_pow2(2));
    assert(is_pow2(4));
    assert(is_pow2(8));
    assert(is_pow2(16));
}

impl<K: Key, V> HashMap<K, V, DefaultHashBuilder> {
    /// An empty map with the default number of bins.
    pub fn new() -> (r: Self)
        ensures
            r.wf(),
            r@ =~= Map::<<K as View>::V, V>::empty(),
            r.spec_capacity() == DEFAULT_CAPACITY,
    {
        Self::with_hasher(DefaultHashBuilder)
    }

    /// An empty map whose bucket array can hold at least `n` entries before
    /// any resize, capped at the largest table size.
    #[verifier::rlimit(30)]
    pub fn with_capacity(n: usize) -> (r: Self)
        ensures
            r.wf(),
            r@ =~= Map::<<K as View>::V, V>::empty(),
            r.spec_capacity() > (MAX_CAPACITY / 2) as nat || (r.spec_capacity() / 4) * 3 >= n,
    {
        proof {
            lemma_pow2_16();
        }
        let mut cap: usize = DEFAULT_CAPACITY;
        while cap <= MAX_CAPACITY / 2 && (cap / 4) * 3 < n
            invariant
                16 <= cap <= MAX_CAPACITY,
                is_pow2(cap as nat),
            decreases MAX_CAPACITY - cap,
        {
            cap = cap * 2;
        }
        Self::with_bins(cap, DefaultHashBuilder)
    }
}

impl<K: Key, V: ValEq, S: HashBuilder<K>> PartialEq for HashMap<K, V, S> {
    /// Equality of maps: each holds a view-equal counterpart of every
    /// entry of the other.  `eq_spec` states this exactly, and on
    /// well-formed maps `lemma_eq_spec_is_map_equiv` shows it coincides
    /// with equality of the models, as `guarded_eq` decides it.
    fn eq(&self, other: &Self) -> bool {
        let forward = self.chains_match(other);
        let backward = other.chains_match(self);
        forward && backward
    }
}

impl<K: Key, V: ValEq, S: HashBuilder<K>> vstd::std_specs::cmp::PartialEqSpecImpl for HashMap<K, V, S> {
    open spec fn obeys_eq_spec() -> bool {
        true
    }

    open spec fn eq_spec(&self, other: &Self) -> bool {
        self.covered_by(other) && other.covered_by(self)
    }
}

impl<K: Key, V: ValEq, S: HashBuilder<K>> Eq for HashMap<K, V, S> {

}

impl<K: Key, V> Default for HashMap<K, V, DefaultHashBuilder> {
    /// The empty map with the default hash policy.
    fn default() -> (r: Self)
        ensures
            r.wf(),
            r@ =~= Map::<<K as View>::V, V>::empty(),
            r.spec_capacity() == DEFAULT_CAPACITY,
    {
        Self::new()
    }
}

impl<K: Key, V> HashMap<K, V, DefaultHashBuilder> {
    /// The map holding the given pairs, later bindings of a key replacing
    /// earlier ones.
    pub fn from_entries(entries: Vec<(K, V)>) -> (r: Self)
        ensures
            r.wf(),
            r@ == fold_insert(Map::<<K as View>::V, V>::empty(), entries@),
    {
        // reading the length shows the entry count fits the machine
        let n = entries.len();
        let mut m = Self::new();
        proof {
            assert(m@.dom() =~= Set::<<K as View>::V>::empty());
            assert(entries@.len() == n);
        }
        m.extend_entries(entries);
        m
    }
}

} // verus!

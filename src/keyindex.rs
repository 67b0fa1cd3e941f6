use crate::text::{chars_of, str_eq, string_views};
use vstd::prelude::*;
use vstd::std_specs::hash::group_hash_axioms;

verus! {

broadcast use group_hash_axioms;

/// Modulus of the string hash: a prime below 2^32.
pub const HASH_MODULUS: u64 = 4294967291;

/// A hash of a string's characters, used to find the keys that may be equal
/// to a given one.
pub open spec fn key_hash(s: Seq<char>) -> u64
    decreases s.len(),
{
    if s.len() == 0 {
        0
    } else {
        ((key_hash(s.drop_last()) as nat * 131 + (s.last() as u32) as nat) % HASH_MODULUS as nat) as u64
    }
}

proof fn lemma_key_hash_bound(s: Seq<char>)
    ensures
        key_hash(s) < HASH_MODULUS,
    decreases s.len(),
{
    if s.len() > 0 {
        lemma_key_hash_bound(s.drop_last());
    }
}

/// The hash of `s`.
pub fn hash_key(s: &str) -> (r: u64)
    ensures
        r == key_hash(s@),
{
    let cs = chars_of(s);
    let mut h: u64 = 0;
    let mut i: usize = 0;
    while i < cs.len()
        invariant
            i <= cs@.len(),
            cs@ == s@,
            h == key_hash(cs@.take(i as int)),
        decreases cs@.len() - i,
    {
        proof {
            lemma_key_hash_bound(cs@.take(i as int));
            assert(cs@.take(i + 1).drop_last() =~= cs@.take(i as int));
            assert(cs@.take(i + 1).last() == cs@[i as int]);
        }
        let c = cs[i] as u32 as u64;
        assert(h * 131 + c < 0xffff_ffff_ffff_ffff) by (nonlinear_arith)
            requires
                h < 4294967291,
                c <= 0xffff_ffff,
        ;
        h = (h * 131 + c) % HASH_MODULUS;
        assert(h == key_hash(cs@.take(i + 1)));
        i = i + 1;
    }
    assert(cs@.take(i as int) =~= cs@);
    h
}

/// Positions of a list of string keys, grouped by the hash of the key.
///
/// This stands where a `HashMap` keyed by a `String` would: vstd specifies
/// `HashMap` only for key types whose hashing it models (the integer types
/// among them), and `String` is not one, so nothing could be proved of such a
/// map. Here the map is keyed by the string's hash, a `u64`.
pub struct KeyIndex {
    buckets: std::collections::HashMap<u64, Vec<usize>>,
}

impl KeyIndex {
    /// Every position of `keys` is in the group of its key's hash, and every
    /// grouped position is one of `keys`.
    pub closed spec fn indexes(&self, keys: Seq<Seq<char>>) -> bool {
        &&& forall|i: int|
            0 <= i < keys.len() ==> self.buckets@.contains_key(key_hash(#[trigger] keys[i]))
                && self.buckets@[key_hash(keys[i])]@.contains(i as usize)
        &&& forall|h: u64, j: usize|
            #![trigger self.buckets@[h]@.contains(j)]
            self.buckets@.contains_key(h) && self.buckets@[h]@.contains(j) ==> j < keys.len()
    }

    /// An index of no key.
    pub fn new() -> (r: Self)
        ensures
            r.indexes(Seq::empty()),
    {
        KeyIndex { buckets: std::collections::HashMap::new() }
    }

    /// Records that position `i` holds `key`.
    pub fn add(&mut self, Ghost(keys): Ghost<Seq<Seq<char>>>, key: &str, i: usize)
        requires
            old(self).indexes(keys),
            i == keys.len(),
        ensures
            final(self).indexes(keys.push(key@)),
    {
        let h = hash_key(key);
        let mut group = match self.buckets.remove(&h) {
            Some(g) => g,
            None => Vec::new(),
        };
        let ghost before = group@;
        group.push(i);
        self.buckets.insert(h, group);
        proof {
            let ks = keys.push(key@);
            assert forall|a: int| 0 <= a < ks.len() implies self.buckets@.contains_key(
                key_hash(#[trigger] ks[a]),
            ) && self.buckets@[key_hash(ks[a])]@.contains(a as usize) by {
                if a == keys.len() {
                    assert(self.buckets@[h]@[before.len() as int] == i);
                } else {
                    assert(ks[a] == keys[a]);
                    let g = key_hash(keys[a]);
                    assert(old(self).buckets@.contains_key(g));
                    assert(old(self).buckets@[g]@.contains(a as usize));
                    if g == h {
                        let q = choose|q: int|
                            0 <= q < before.len() && before[q] == a as usize;
                        assert(self.buckets@[h]@[q] == a as usize);
                    }
                }
            }
            assert forall|g: u64, j: usize|
                #![trigger self.buckets@[g]@.contains(j)]
                self.buckets@.contains_key(g) && self.buckets@[g]@.contains(j) implies j < ks.len() by {
                if g == h {
                    let q = choose|q: int| 0 <= q < self.buckets@[h]@.len() && self.buckets@[h]@[q] == j;
                    if q < before.len() {
                        assert(before[q] == j);
                        assert(old(self).buckets@[h]@.contains(j));
                    }
                } else {
                    assert(old(self).buckets@[g] == self.buckets@[g]);
                }
            }
        }
    }

    /// The positions that may hold `key`: every position that does is among them.
    pub fn candidates(&self, Ghost(keys): Ghost<Seq<Seq<char>>>, key: &str) -> (r: Vec<usize>)
        requires
            self.indexes(keys),
        ensures
            forall|i: int| 0 <= i < keys.len() && keys[i] == key@ ==> r@.contains(i as usize),
            forall|k: int| 0 <= k < r@.len() ==> (#[trigger] r@[k]) < keys.len(),
    {
        let h = hash_key(key);
        match self.buckets.get(&h) {
            Some(g) => {
                let mut r: Vec<usize> = Vec::new();
                let mut k: usize = 0;
                while k < g.len()
                    invariant
                        k <= g@.len(),
                        r@ == g@.take(k as int),
                    decreases g@.len() - k,
                {
                    r.push(g[k]);
                    proof {
                        assert(r@ =~= g@.take(k + 1));
                    }
                    k = k + 1;
                }
                proof {
                    assert(r@ =~= g@);
                    assert forall|q: int| 0 <= q < r@.len() implies (#[trigger] r@[q]) < keys.len() by {
                        assert(self.buckets@[h]@.contains(r@[q]));
                    }
                }
                r
            },
            None => Vec::new(),
        }
    }
}

/// The first position of `keys` holding `key`, found through `index`.
pub fn find_key(index: &KeyIndex, keys: &Vec<String>, key: &str) -> (r: Option<usize>)
    requires
        index.indexes(string_views(keys@)),
    ensures
        match r {
            Some(i) => i < keys@.len() && keys@[i as int]@ == key@,
            None => forall|i: int| 0 <= i < keys@.len() ==> (#[trigger] keys@[i])@ != key@,
        },
{
    let ghost kv = string_views(keys@);
    let cands = index.candidates(Ghost(kv), key);
    let mut k: usize = 0;
    while k < cands.len()
        invariant
            k <= cands@.len(),
            forall|q: int| 0 <= q < cands@.len() ==> (#[trigger] cands@[q]) < keys@.len(),
            forall|q: int| 0 <= q < k ==> keys@[(#[trigger] cands@[q]) as int]@ != key@,
        decreases cands@.len() - k,
    {
        let j = cands[k];
        if str_eq(keys[j].as_str(), key) {
            return Some(j);
        }
        k = k + 1;
    }
    let n = keys.len();
    proof {
        assert forall|i: int| 0 <= i < keys@.len() implies (#[trigger] keys@[i])@ != key@ by {
            assert(i < n);
            if keys@[i]@ == key@ {
                assert(kv[i] == key@);
                assert(cands@.contains(i as usize));
                let q = choose|q: int| 0 <= q < cands@.len() && cands@[q] == i as usize;
                assert(cands@[q] as int == i);
                assert(keys@[cands@[q] as int]@ != key@);
            }
        }
    }
    None
}

} // verus!

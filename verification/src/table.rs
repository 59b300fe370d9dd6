//! The table: a vector of buckets, each bucket a chain of key-value entries,
//! together with the fixed hash seed and the count of live entries.

use vstd::prelude::*;

use crate::chains::count_entries;
use crate::chains::first_match;
use crate::chains::lemma_count_update;
use crate::chains::lemma_count_update_any;
use crate::chains::lemma_count_zero;
use crate::chains::lemma_first_match_at;
use crate::chains::lemma_first_match_none;
use crate::chains::lemma_first_match_push;
use crate::chains::lemma_first_match_update;
use crate::hashing::index_of;
use crate::hashing::spec_index_of;

verus! {

/// Number of buckets of a table built by `new`.
pub const DEFAULT_CAPACITY: usize = 16;

/// Seed fed to the hash function; fixed for a table's whole lifetime, and in
/// particular carried unchanged through every rehash.
const DEFAULT_SEED: u64 = 0x51_7c_c1_b7_27_22_0a_95;

/// The capacity a table grows to from `cap` buckets: doubled, except that an
/// empty structure grows to a single bucket.
pub open spec fn grown_capacity(cap: nat) -> nat {
    if cap == 0 {
        1
    } else {
        2 * cap
    }
}

/// Every entry of `bs` lies in the bucket its key hashes to under seed
/// `state` and capacity `cap`.
spec fn buckets_placed<V>(bs: Seq<Vec<(u64, V)>>, state: u64, cap: nat) -> bool {
    forall|a: int, b: int|
        0 <= a < bs.len() && 0 <= b < bs[a]@.len() ==> spec_index_of(
            state,
            (#[trigger] bs[a]@[b]).0,
            cap,
        ) == a
}

/// The first match that key `k` has among the entries a rehash has moved so
/// far, when the buckets of `old_kv` from `cut` on are fully moved and the
/// first `j` entries of bucket `cut - 1` are too (chains drain front to
/// back, buckets back to front).
spec fn rehash_expected<V>(
    old_kv: Seq<Vec<(u64, V)>>,
    state: u64,
    cut: int,
    j: int,
    k: u64,
) -> Option<V> {
    let i = spec_index_of(state, k, old_kv.len() as nat) as int;
    if old_kv.len() == 0 {
        None
    } else if i >= cut {
        first_match(old_kv[i]@, k)
    } else if i == cut - 1 {
        first_match(old_kv[i]@.take(j), k)
    } else {
        None
    }
}

/// A bucketed hash map with separate chaining over `u64` keys.
///
/// Lookups return the first entry of the key's chain whose key matches;
/// `insert` appends unconditionally, so a repeated key leaves a shadowed
/// duplicate that no lookup reaches but that still counts as an entry.
pub struct PHashMap<V> {
    kv: Vec<Vec<(u64, V)>>,
    hash_state: u64,
    stat: usize,
}

impl<V> PHashMap<V> {
    /// Number of buckets.
    pub closed spec fn capacity(self) -> nat {
        self.kv@.len()
    }

    /// Number of live entries, shadowed duplicates included.
    pub closed spec fn count(self) -> nat {
        self.stat as nat
    }

    /// The seed feeding the hash function.
    pub closed spec fn hash_state(self) -> u64 {
        self.hash_state
    }

    /// The chain of the bucket that key `k` falls in.
    spec fn chain_for(self, k: u64) -> Seq<(u64, V)>
        recommends
            self.capacity() > 0,
    {
        self.kv@[spec_index_of(self.hash_state, k, self.capacity()) as int]@
    }

    /// The value a lookup of `k` observes: the first entry with key `k` in
    /// the chain of `k`'s bucket, if any.
    pub closed spec fn spec_get(self, k: u64) -> Option<V> {
        if self.capacity() == 0 {
            None
        } else {
            first_match(self.chain_for(k), k)
        }
    }

    /// Well-formedness: the count of live entries equals the sum of the chain
    /// lengths, and every entry lies in the bucket its key hashes to.
    pub closed spec fn wf(self) -> bool {
        &&& count_entries(self.kv@) == self.count()
        &&& buckets_placed(self.kv@, self.hash_state, self.capacity())
    }

    /// Builds `size` empty chains.
    fn empty_buckets(size: usize) -> (bs: Vec<Vec<(u64, V)>>)
        ensures
            bs@.len() == size,
            forall|i: int| 0 <= i < size ==> (#[trigger] bs@[i])@.len() == 0,
            count_entries(bs@) == 0,
    {
        let mut bs: Vec<Vec<(u64, V)>> = Vec::new();
        while bs.len() < size
            invariant
                bs@.len() <= size,
                forall|i: int| 0 <= i < bs@.len() ==> (#[trigger] bs@[i])@.len() == 0,
                count_entries(bs@) == 0,
            decreases size - bs@.len(),
        {
            let ghost prev = bs@;
            bs.push(Vec::new());
            proof {
                assert(bs@.drop_last() =~= prev);
            }
        }
        bs
    }

    /// Constructs an empty table with exactly `size` buckets.
    pub fn with_capacity(size: usize) -> (t: PHashMap<V>)
        ensures
            t.wf(),
            t.capacity() == size,
            t.count() == 0,
            forall|k: u64| t.spec_get(k) is None,
    {
        PHashMap { kv: Self::empty_buckets(size), hash_state: DEFAULT_SEED, stat: 0 }
    }

    /// Constructs an empty table with the default number of buckets.
    pub fn new() -> (t: PHashMap<V>)
        ensures
            t.wf(),
            t.capacity() == DEFAULT_CAPACITY,
            t.count() == 0,
            forall|k: u64| t.spec_get(k) is None,
    {
        Self::with_capacity(DEFAULT_CAPACITY)
    }

    /// The bucket index of key `k` under the current capacity.
    fn get_i(&self, k: u64) -> (i: usize)
        requires
            self.capacity() > 0,
        ensures
            i == spec_index_of(self.hash_state(), k, self.capacity()),
            i < self.kv@.len(),
    {
        index_of(self.hash_state, k, self.kv.len())
    }

    /// The position of the first entry of `chain` whose key is `k`, or the
    /// chain's length where no entry matches.
    fn find_in_chain(chain: &Vec<(u64, V)>, k: u64) -> (p: usize)
        ensures
            p <= chain@.len(),
            forall|j: int| 0 <= j < p ==> chain@[j].0 != k,
            p < chain@.len() ==> chain@[p as int].0 == k,
    {
        let mut j: usize = 0;
        while j < chain.len()
            invariant
                j <= chain@.len(),
                forall|jj: int| 0 <= jj < j ==> chain@[jj].0 != k,
            decreases chain@.len() - j,
        {
            if chain[j].0 == k {
                return j;
            }
            j += 1;
        }
        j
    }

    /// Looks `k` up: a reference to the value of the first matching entry in
    /// `k`'s chain, or `None` where the chain holds no entry for `k`.
    pub fn get(&self, k: u64) -> (r: Option<&V>)
        requires
            self.wf(),
            self.capacity() > 0,
        ensures
            r is Some <==> self.spec_get(k) is Some,
            r is Some ==> self.spec_get(k) == Some(*r.unwrap()),
    {
        let i = self.get_i(k);
        let ghost c = self.kv@[i as int]@;
        let p = Self::find_in_chain(&self.kv[i], k);
        if p < self.kv[i].len() {
            proof {
                lemma_first_match_at(c, p as int, k);
            }
            Some(&self.kv[i][p].1)
        } else {
            proof {
                lemma_first_match_none(c, k);
            }
            None
        }
    }

    /// Appends entry `kv` to the chain of its key's bucket, blindly: an entry
    /// for the same key already in the chain stays in front and keeps
    /// shadowing the appended one.
    fn push(&mut self, kv: (u64, V))
        requires
            old(self).wf(),
            old(self).capacity() > 0,
            old(self).count() < usize::MAX,
        ensures
            final(self).wf(),
            final(self).capacity() == old(self).capacity(),
            final(self).hash_state() == old(self).hash_state(),
            final(self).count() == old(self).count() + 1,
            final(self).spec_get(kv.0) == (if old(self).spec_get(kv.0) is Some {
                old(self).spec_get(kv.0)
            } else {
                Some(kv.1)
            }),
            forall|k2: u64| k2 != kv.0 ==> final(self).spec_get(k2) == old(self).spec_get(k2),
    {
        let i = self.get_i(kv.0);
        let ghost prev = self.kv@;
        let ghost c = self.kv@[i as int]@;
        let ghost k = kv.0;
        let bref = &mut self.kv[i];
        bref.push(kv);
        proof {
            assert(self.kv@ == prev.update(i as int, self.kv@[i as int]));
            assert(self.kv@[i as int]@ == c.push(kv));
            lemma_count_update(prev, i as int, self.kv@[i as int]);
            lemma_first_match_push(c, kv, k);
            assert forall|k2: u64| k2 != k implies first_match(
                self.kv@[spec_index_of(self.hash_state, k2, self.capacity()) as int]@,
                k2,
            ) == first_match(
                prev[spec_index_of(self.hash_state, k2, self.capacity()) as int]@,
                k2,
            ) by {
                lemma_first_match_push(c, kv, k2);
            }
        }
        self.stat = self.stat + 1;
    }

    /// Overwrites the value of the first entry for `k` in `k`'s chain, in
    /// place. Where no entry matches, the table is left exactly as it was: no
    /// entry is created and nothing signals the miss.
    pub fn update(&mut self, k: u64, v: V)
        requires
            old(self).wf(),
            old(self).capacity() > 0,
        ensures
            final(self).wf(),
            final(self).capacity() == old(self).capacity(),
            final(self).hash_state() == old(self).hash_state(),
            final(self).count() == old(self).count(),
            old(self).spec_get(k) is Some ==> final(self).spec_get(k) == Some(v),
            old(self).spec_get(k) is None ==> *final(self) == *old(self),
            forall|k2: u64| k2 != k ==> final(self).spec_get(k2) == old(self).spec_get(k2),
    {
        let i = self.get_i(k);
        let ghost prev = self.kv@;
        let ghost c = self.kv@[i as int]@;
        let p = Self::find_in_chain(&self.kv[i], k);
        if p < self.kv[i].len() {
            proof {
                lemma_first_match_at(c, p as int, k);
            }
            let bref = &mut self.kv[i];
            let eref = &mut bref[p];
            eref.1 = v;
            proof {
                assert(self.kv@ == prev.update(i as int, self.kv@[i as int]));
                assert(self.kv@[i as int]@ == c.update(p as int, (k, v)));
                lemma_count_update(prev, i as int, self.kv@[i as int]);
                lemma_first_match_update(c, p as int, k, v);
            }
        } else {
            proof {
                lemma_first_match_none(c, k);
            }
        }
    }

    /// Rebuilds the table over `grown_capacity` buckets (double the current
    /// capacity, or one bucket for an empty structure), moving every entry into
    /// the bucket its key hashes to under the new capacity. The seed is kept,
    /// so only the modulus changes; chains are drained front to back, so
    /// entries of one key keep their order and the same entry keeps shadowing
    /// its duplicates. No entry is lost or duplicated.
    fn rehash(&mut self)
        requires
            old(self).wf(),
            old(self).capacity() <= usize::MAX / 2,
        ensures
            final(self).wf(),
            final(self).hash_state() == old(self).hash_state(),
            final(self).count() == old(self).count(),
            final(self).capacity() == grown_capacity(old(self).capacity()),
            forall|k: u64| final(self).spec_get(k) == old(self).spec_get(k),
    {
        let len = self.kv.len();
        let newlen = if len == 0 { 1 } else { 2 * len };
        let ghost old_kv = self.kv@;
        let ghost state = self.hash_state;
        let mut newkv = Self::empty_buckets(newlen);
        proof {
            assert(old_kv.take(old_kv.len() as int) =~= old_kv);
        }
        while self.kv.len() > 0
            invariant
                self.hash_state == state,
                self.stat == old(self).stat,
                newlen as int == grown_capacity(old_kv.len() as nat),
                newlen >= 1,
                buckets_placed(old_kv, state, old_kv.len() as nat),
                self.kv@ == old_kv.take(self.kv@.len() as int),
                self.kv@.len() <= old_kv.len(),
                newkv@.len() == newlen,
                buckets_placed(newkv@, state, newlen as nat),
                count_entries(newkv@) + count_entries(self.kv@) == count_entries(old_kv),
                forall|k: u64|
                    first_match(
                        (#[trigger] newkv@[spec_index_of(state, k, newlen as nat) as int])@,
                        k,
                    ) == rehash_expected(old_kv, state, self.kv@.len() as int, 0, k),
            decreases self.kv@.len(),
        {
            let ghost m = self.kv@.len() as int;
            let mut chain = self.kv.pop().unwrap();
            proof {
                assert(old_kv.take(m).subrange(0, m - 1) =~= old_kv.take(m - 1));
                assert(old_kv.take(m)[m - 1] == old_kv[m - 1]);
            }
            let ghost bi = m - 1;
            let ghost orig = chain@;
            let ghost mut j: int = 0;
            proof {
                assert(orig.skip(0) =~= orig);
            }
            while chain.len() > 0
                invariant
                    self.hash_state == state,
                    self.stat == old(self).stat,
                    newlen as int == grown_capacity(old_kv.len() as nat),
                    newlen >= 1,
                    buckets_placed(old_kv, state, old_kv.len() as nat),
                    0 <= bi < old_kv.len(),
                    orig == old_kv[bi]@,
                    0 <= j <= orig.len(),
                    chain@ == orig.skip(j),
                    self.kv@ == old_kv.take(bi),
                    newkv@.len() == newlen,
                    buckets_placed(newkv@, state, newlen as nat),
                    count_entries(newkv@) + count_entries(self.kv@) + chain@.len()
                        == count_entries(old_kv),
                    forall|k: u64|
                        first_match(
                            (#[trigger] newkv@[spec_index_of(state, k, newlen as nat) as int])@,
                            k,
                        ) == rehash_expected(old_kv, state, bi + 1, j, k),
                decreases chain@.len(),
            {
                let e = chain.remove(0);
                proof {
                    assert(e == orig[j]);
                    assert(orig.skip(j).subrange(1, orig.skip(j).len() as int) =~= orig.skip(
                        j + 1,
                    ));
                }
                let idx = index_of(self.hash_state, e.0, newlen);
                let ghost prevnew = newkv@;
                let ghost cdest = newkv@[idx as int]@;
                let bref = &mut newkv[idx];
                bref.push(e);
                proof {
                    assert(newkv@ == prevnew.update(idx as int, newkv@[idx as int]));
                    assert(newkv@[idx as int]@ == cdest.push(e));
                    lemma_count_update(prevnew, idx as int, newkv@[idx as int]);
                    assert(orig.take(j + 1) =~= orig.take(j).push(orig[j]));
                    assert(spec_index_of(state, e.0, old_kv.len() as nat) == bi);
                    assert forall|k: u64|
                        first_match(
                            (#[trigger] newkv@[spec_index_of(state, k, newlen as nat) as int])@,
                            k,
                        ) == rehash_expected(old_kv, state, bi + 1, j + 1, k) by {
                        let nk = spec_index_of(state, k, newlen as nat) as int;
                        lemma_first_match_push(orig.take(j), orig[j], k);
                        if nk == idx {
                            lemma_first_match_push(cdest, e, k);
                        }
                    }
                    j = j + 1;
                }
            }
            proof {
                assert(orig.take(orig.len() as int) =~= orig);
                assert forall|k: u64|
                    rehash_expected(old_kv, state, bi + 1, orig.len() as int, k)
                        == rehash_expected(old_kv, state, bi, 0, k) by {
                    let i = spec_index_of(state, k, old_kv.len() as nat) as int;
                    if 0 <= i < old_kv.len() && i == bi - 1 {
                        assert(old_kv[i]@.take(0) =~= Seq::<(u64, V)>::empty());
                    }
                }
            }
        }
        self.kv = newkv;
        proof {
            assert forall|k: u64|
                self.spec_get(k) == old(self).spec_get(k) by {
                let i = spec_index_of(state, k, old_kv.len() as nat) as int;
                if old_kv.len() > 0 {
                    assert(rehash_expected(old_kv, state, 0, 0, k) == first_match(old_kv[i]@, k));
                }
            }
        }
    }

    /// Inserts `(k, v)`: grows the table first where the count of live
    /// entries has reached three quarters of the capacity, then appends the
    /// entry to its bucket's chain without looking for `k` there. A repeated
    /// key therefore leaves a shadowed duplicate: lookups keep returning the
    /// value the chain held first, while the count still goes up by one.
    pub fn insert(&mut self, k: u64, v: V)
        requires
            old(self).wf(),
            old(self).count() < usize::MAX,
            old(self).capacity() <= usize::MAX / 2,
        ensures
            final(self).wf(),
            final(self).hash_state() == old(self).hash_state(),
            final(self).count() == old(self).count() + 1,
            final(self).capacity() == (if old(self).count() >= 3 * old(self).capacity() / 4 {
                grown_capacity(old(self).capacity())
            } else {
                old(self).capacity()
            }),
            final(self).spec_get(k) == (if old(self).spec_get(k) is Some {
                old(self).spec_get(k)
            } else {
                Some(v)
            }),
            forall|k2: u64| k2 != k ==> final(self).spec_get(k2) == old(self).spec_get(k2),
    {
        if (self.stat as u128) >= 3 * (self.kv.len() as u128) / 4 {
            self.rehash();
        }
        self.push((k, v));
    }

    /// Looks `k` up and returns a mutable reference to its value, appending
    /// the entry `(k, v)` first where the chain holds none for `k`. An
    /// existing entry keeps its value and `v` is discarded. Unlike `insert`,
    /// this path never consults the growth policy: the load factor may pass
    /// the threshold without a rehash. Writes through the reference land in
    /// the entry, so a later lookup of `k` observes them.
    pub fn get_mut_def(&mut self, k: u64, v: V) -> (r: &mut V)
        requires
            old(self).wf(),
            old(self).capacity() > 0,
            old(self).spec_get(k) is Some || old(self).count() < usize::MAX,
        ensures
            *r == (if old(self).spec_get(k) is Some {
                old(self).spec_get(k).unwrap()
            } else {
                v
            }),
            final(self).wf(),
            final(self).capacity() == old(self).capacity(),
            final(self).hash_state() == old(self).hash_state(),
            final(self).count() == old(self).count() + (if old(self).spec_get(k) is Some {
                0nat
            } else {
                1nat
            }),
            final(self).spec_get(k) == Some(*final(r)),
            forall|k2: u64| k2 != k ==> final(self).spec_get(k2) == old(self).spec_get(k2),
    {
        let i = self.get_i(k);
        let ghost prev = self.kv@;
        let ghost c = self.kv@[i as int]@;
        let p = Self::find_in_chain(&self.kv[i], k);
        if p < self.kv[i].len() {
            proof {
                lemma_first_match_at(c, p as int, k);
            }
            let bref = &mut self.kv[i];
            let eref = &mut bref[p];
            let r = &mut eref.1;
            proof {
                lemma_first_match_update(c, p as int, k, *final(r));
                lemma_count_update_any(prev, i as int);
            }
            r
        } else {
            proof {
                lemma_first_match_none(c, k);
            }
            self.stat = self.stat + 1;
            let bref = &mut self.kv[i];
            bref.push((k, v));
            let eref = &mut bref[p];
            let r = &mut eref.1;
            proof {
                assert(c.push((k, v)).update(p as int, (k, *final(r))) =~= c.push(
                    (k, *final(r)),
                ));
                lemma_first_match_push(c, (k, *final(r)), k);
                assert forall|k2: u64| k2 != k implies first_match(c.push((k, *final(r))), k2)
                    == first_match(c, k2) by {
                    lemma_first_match_push(c, (k, *final(r)), k2);
                }
                lemma_count_update_any(prev, i as int);
            }
            r
        }
    }

    /// A table holding no entries answers every lookup with "not found".
    pub proof fn lemma_empty_get(self, k: u64)
        requires
            self.wf(),
            self.count() == 0,
        ensures
            self.spec_get(k) is None,
    {
        lemma_count_zero(self.kv@);
    }
}

impl<V> core::default::Default for PHashMap<V> {
    /// As `new`: empty, with the default number of buckets.
    fn default() -> (t: Self)
        ensures
            t.wf(),
            t.capacity() == DEFAULT_CAPACITY,
            t.count() == 0,
            forall|k: u64| t.spec_get(k) is None,
    {
        Self::new()
    }
}

} // verus!

//! A verified map from board states to values, bucketed by a fixed hash of
//! the move sequence. The view is a mathematical map from state views to
//! the stored values.

use vstd::prelude::*;

use crate::board::BoardState;

verus! {

/// Number of hash buckets.
pub open spec fn bucket_count() -> int {
    32768
}

/// Rolling hash of a move sequence, folded over the coordinates.
pub open spec fn hash_of(s: Seq<(int, int)>) -> int
    decreases s.len(),
{
    if s.len() == 0 {
        5381
    } else {
        (hash_of(s.drop_last()) % 0x1_0000_0000) * 131 + s.last().0 * 16 + s.last().1 + 1
    }
}

/// The bucket a state belongs to.
pub open spec fn bucket_of(s: Seq<(int, int)>) -> int {
    let r = hash_of(s) % bucket_count();
    if 0 <= r < bucket_count() {
        r
    } else {
        0
    }
}

/// Whether some entry of the bucket has the given key.
pub open spec fn bkt_has<V>(bkt: Seq<(BoardState, V)>, k: Seq<(int, int)>) -> bool {
    exists|j: int| #![trigger bkt[j]] 0 <= j < bkt.len() && bkt[j].0@ == k
}

/// The value stored under the given key in the bucket.
pub open spec fn bkt_val<V>(bkt: Seq<(BoardState, V)>, k: Seq<(int, int)>) -> V {
    bkt[choose|j: int| #![trigger bkt[j]] 0 <= j < bkt.len() && bkt[j].0@ == k].1
}

/// No two entries of the bucket share a key.
pub open spec fn bkt_distinct<V>(bkt: Seq<(BoardState, V)>) -> bool {
    forall|j1: int, j2: int| #![trigger bkt[j1], bkt[j2]]
        0 <= j1 < j2 < bkt.len() ==> bkt[j1].0@ != bkt[j2].0@
}

/// In a bucket without key duplicates, the entry at any index is the one
/// its key maps to.
proof fn lemma_bkt_val_at<V>(bkt: Seq<(BoardState, V)>, j: int)
    requires
        bkt_distinct(bkt),
        0 <= j < bkt.len(),
    ensures
        bkt_has(bkt, bkt[j].0@),
        bkt_val(bkt, bkt[j].0@) == bkt[j].1,
{
    let k = bkt[j].0@;
    assert(bkt_has(bkt, k));
    let j2 = choose|jj: int| #![trigger bkt[jj]] 0 <= jj < bkt.len() && bkt[jj].0@ == k;
    if j2 != j {
        assert(bkt[j].0@ != bkt[j2].0@);
    }
}

/// Map from board states to values of type `V`, implemented as fixed hash
/// buckets of key-value pairs.
pub struct StateMap<V> {
    buckets: Vec<Vec<(BoardState, V)>>,
}

impl<V> View for StateMap<V> {
    type V = Map<Seq<(int, int)>, V>;

    closed spec fn view(&self) -> Map<Seq<(int, int)>, V> {
        Map::new(
            |k: Seq<(int, int)>| bkt_has(self.buckets@[bucket_of(k)]@, k),
            |k: Seq<(int, int)>| bkt_val(self.buckets@[bucket_of(k)]@, k),
        )
    }
}

/// The bucket index of a state, computed with wrap-free integer steps.
fn bucket_index(k: &BoardState) -> (r: usize)
    ensures
        r as int == bucket_of(k@),
        r < 32768,
{
    let len = k.len();
    let mut h: u64 = 5381;
    let mut i: usize = 0;
    while i < len
        invariant
            i <= len,
            len == k@.len(),
            h as int == hash_of(k@.take(i as int)),
        decreases len - i,
    {
        let t = k.get(i);
        h = (h % 0x1_0000_0000) * 131 + (t.x as u64) * 16 + (t.y as u64) + 1;
        proof {
            assert(k@.take(i as int + 1).drop_last() =~= k@.take(i as int));
            assert(k@.take(i as int + 1).last() == k@[i as int]);
        }
        i += 1;
    }
    assert(k@.take(len as int) =~= k@);
    assert(h as int == hash_of(k@));
    (h % 32768) as usize
}

impl<V: Copy> StateMap<V> {
    /// Internal consistency: every entry sits in the bucket its key hashes
    /// to, and no bucket holds a key twice.
    pub closed spec fn inv(&self) -> bool {
        &&& self.buckets@.len() == bucket_count()
        &&& forall|b: int, j: int| #![trigger self.buckets@[b]@[j]]
            0 <= b < bucket_count() && 0 <= j < self.buckets@[b]@.len() ==> bucket_of(
                self.buckets@[b]@[j].0@,
            ) == b
        &&& forall|b: int| #![trigger self.buckets@[b]]
            0 <= b < bucket_count() ==> bkt_distinct(self.buckets@[b]@)
    }

    /// An empty map.
    pub fn new() -> (r: StateMap<V>)
        ensures
            r.inv(),
            r@ == Map::<Seq<(int, int)>, V>::empty(),
    {
        let mut buckets: Vec<Vec<(BoardState, V)>> = Vec::new();
        let mut i: usize = 0;
        while i < 32768
            invariant
                i <= 32768,
                buckets@.len() == i,
                forall|b: int| #![trigger buckets@[b]] 0 <= b < i ==> buckets@[b]@.len() == 0,
            decreases 32768 - i,
        {
            buckets.push(Vec::new());
            i += 1;
        }
        let r = StateMap { buckets };
        proof {
            assert(r@ =~= Map::<Seq<(int, int)>, V>::empty());
        }
        r
    }

    /// Looks a state up.
    pub fn get(&self, k: &BoardState) -> (r: Option<V>)
        requires
            self.inv(),
        ensures
            match r {
                Some(v) => self@.contains_key(k@) && self@[k@] == v,
                None => !self@.contains_key(k@),
            },
    {
        let b = bucket_index(k);
        let bkt = &self.buckets[b];
        let blen = bkt.len();
        let mut j: usize = 0;
        while j < blen
            invariant
                j <= blen,
                blen == bkt@.len(),
                bkt == self.buckets@[b as int],
                b as int == bucket_of(k@),
                self.inv(),
                forall|jj: int| #![trigger bkt@[jj]] 0 <= jj < j ==> bkt@[jj].0@ != k@,
            decreases blen - j,
        {
            if bkt[j].0 == *k {
                let v = bkt[j].1;
                proof {
                    lemma_bkt_val_at(bkt@, j as int);
                }
                return Some(v);
            }
            j += 1;
        }
        None
    }

    /// Binds a state to a value, replacing any previous binding.
    pub fn set(&mut self, k: &BoardState, v: V)
        requires
            old(self).inv(),
        ensures
            final(self).inv(),
            final(self)@ == old(self)@.insert(k@, v),
    {
        let b = bucket_index(k);
        let ghost old_bkt = self.buckets@[b as int]@;
        let blen = self.buckets[b].len();
        let mut j: usize = 0;
        while j < blen
            invariant
                j <= blen,
                b < 32768,
                blen == self.buckets@[b as int]@.len(),
                b as int == bucket_of(k@),
                self.inv(),
                self == old(self),
                old_bkt == self.buckets@[b as int]@,
                forall|jj: int| #![trigger old_bkt[jj]] 0 <= jj < j ==> old_bkt[jj].0@ != k@,
            decreases blen - j,
        {
            if self.buckets[b][j].0 == *k {
                let nk = k.clone();
                self.buckets[b][j] = (nk, v);
                proof {
                    let new_bkt = self.buckets@[b as int]@;
                    assert(new_bkt == old_bkt.update(j as int, (nk, v)));
                    assert forall|kk: Seq<(int, int)>|
                        #![trigger self@.contains_key(kk)]
                        true implies (self@.contains_key(kk) == old(self)@.insert(
                        k@,
                        v,
                    ).contains_key(kk) && (self@.contains_key(kk) ==> self@[kk] == old(self)@.insert(
                        k@,
                        v,
                    )[kk])) by {
                        lemma_set_update_case(old(self).buckets@, self.buckets@, b as int, j as int, kk, k@, v);
                    }
                    assert(self@ =~= old(self)@.insert(k@, v));
                }
                return ;
            }
            j += 1;
        }
        let nk = k.clone();
        self.buckets[b].push((nk, v));
        proof {
            let new_bkt = self.buckets@[b as int]@;
            assert(new_bkt == old_bkt.push((nk, v)));
            assert forall|kk: Seq<(int, int)>|
                #![trigger self@.contains_key(kk)]
                true implies (self@.contains_key(kk) == old(self)@.insert(k@, v).contains_key(kk)
                && (self@.contains_key(kk) ==> self@[kk] == old(self)@.insert(k@, v)[kk])) by {
                lemma_set_push_case(old(self).buckets@, self.buckets@, b as int, kk, k@, v);
            }
            assert(self@ =~= old(self)@.insert(k@, v));
        }
    }

    /// All entries of the map, in bucket order: every listed pair is in the
    /// map, the listed keys are distinct, and every key of the map is
    /// listed.
    pub fn entries(&self) -> (r: Vec<(BoardState, V)>)
        requires
            self.inv(),
        ensures
            forall|i: int| #![trigger r@[i]]
                0 <= i < r@.len() ==> self@.contains_key(r@[i].0@) && self@[r@[i].0@] == r@[i].1,
            forall|i1: int, i2: int| #![trigger r@[i1], r@[i2]]
                0 <= i1 < i2 < r@.len() ==> r@[i1].0@ != r@[i2].0@,
            forall|kk: Seq<(int, int)>| #![trigger self@.contains_key(kk)]
                self@.contains_key(kk) ==> exists|i: int| #![trigger r@[i]]
                    0 <= i < r@.len() && r@[i].0@ == kk,
    {
        let mut r: Vec<(BoardState, V)> = Vec::new();
        let mut b: usize = 0;
        while b < 32768
            invariant
                b <= 32768,
                self.inv(),
                forall|i: int| #![trigger r@[i]]
                    0 <= i < r@.len() ==> self@.contains_key(r@[i].0@) && self@[r@[i].0@]
                        == r@[i].1,
                forall|i1: int, i2: int| #![trigger r@[i1], r@[i2]]
                    0 <= i1 < i2 < r@.len() ==> r@[i1].0@ != r@[i2].0@,
                forall|i: int| #![trigger r@[i]] 0 <= i < r@.len() ==> bucket_of(r@[i].0@) < b,
                forall|kk: Seq<(int, int)>| #![trigger self@.contains_key(kk)]
                    self@.contains_key(kk) && bucket_of(kk) < b ==> exists|i: int|
                        #![trigger r@[i]] 0 <= i < r@.len() && r@[i].0@ == kk,
            decreases 32768 - b,
        {
            let blen = self.buckets[b].len();
            let mut j: usize = 0;
            while j < blen
                invariant
                    j <= blen,
                    b < 32768,
                    blen == self.buckets@[b as int]@.len(),
                    self.inv(),
                    forall|i: int| #![trigger r@[i]]
                        0 <= i < r@.len() ==> self@.contains_key(r@[i].0@) && self@[r@[i].0@]
                            == r@[i].1,
                    forall|i1: int, i2: int| #![trigger r@[i1], r@[i2]]
                        0 <= i1 < i2 < r@.len() ==> r@[i1].0@ != r@[i2].0@,
                    forall|i: int| #![trigger r@[i]]
                        0 <= i < r@.len() ==> bucket_of(r@[i].0@) < b || (bucket_of(r@[i].0@)
                            == b && exists|jj: int| #![trigger self.buckets@[b as int]@[jj]]
                            0 <= jj < j && self.buckets@[b as int]@[jj].0@ == r@[i].0@),
                    forall|kk: Seq<(int, int)>| #![trigger self@.contains_key(kk)]
                        self@.contains_key(kk) && (bucket_of(kk) < b || (bucket_of(kk) == b
                            && exists|jj: int| #![trigger self.buckets@[b as int]@[jj]]
                            0 <= jj < j && self.buckets@[b as int]@[jj].0@ == kk)) ==> exists|
                            i: int,
                        |
                            #![trigger r@[i]] 0 <= i < r@.len() && r@[i].0@ == kk,
                decreases blen - j,
            {
                let key = self.buckets[b][j].0.clone();
                let val = self.buckets[b][j].1;
                let ghost r_prev = r@;
                proof {
                    lemma_bkt_val_at(self.buckets@[b as int]@, j as int);
                    assert(bucket_of(key@) == b);
                    assert(self@.contains_key(key@) && self@[key@] == val);
                    assert forall|i: int| #![trigger r@[i]] 0 <= i < r@.len() implies r@[i].0@
                        != key@ by {
                        if r@[i].0@ == key@ {
                            assert(bucket_of(r@[i].0@) == b);
                            let jj = choose|jj: int|
                                #![trigger self.buckets@[b as int]@[jj]]
                                0 <= jj < j && self.buckets@[b as int]@[jj].0@ == r@[i].0@;
                            assert(self.buckets@[b as int]@[jj].0@ != self.buckets@[b as int]@[
                                j as int].0@);
                        }
                    }
                }
                r.push((key, val));
                proof {
                    assert(r@[r@.len() - 1].0@ == self.buckets@[b as int]@[j as int].0@);
                    assert forall|kk: Seq<(int, int)>|
                        #![trigger self@.contains_key(kk)]
                        self@.contains_key(kk) && (bucket_of(kk) < b || (bucket_of(kk) == b
                            && exists|jj: int| #![trigger self.buckets@[b as int]@[jj]]
                            0 <= jj < j + 1 && self.buckets@[b as int]@[jj].0@ == kk)) implies
                        exists|i: int| #![trigger r@[i]] 0 <= i < r@.len() && r@[i].0@ == kk by {
                        if bucket_of(kk) < b || (bucket_of(kk) == b && exists|jj: int|
                            #![trigger self.buckets@[b as int]@[jj]]
                            0 <= jj < j && self.buckets@[b as int]@[jj].0@ == kk) {
                            let i = choose|i: int| #![trigger r_prev[i]]
                                0 <= i < r_prev.len() && r_prev[i].0@ == kk;
                            assert(r@[i] == r_prev[i]);
                        } else {
                            assert(kk == self.buckets@[b as int]@[j as int].0@);
                            assert(r@[r@.len() - 1].0@ == kk);
                        }
                    }
                }
                j += 1;
            }
            proof {
                assert forall|kk: Seq<(int, int)>|
                    #![trigger self@.contains_key(kk)]
                    self@.contains_key(kk) && bucket_of(kk) < b + 1 implies exists|i: int|
                    #![trigger r@[i]] 0 <= i < r@.len() && r@[i].0@ == kk by {
                    if bucket_of(kk) == b {
                        assert(bkt_has(self.buckets@[b as int]@, kk));
                    }
                }
            }
            b += 1;
        }
        r
    }
}

/// One key's worth of the overwrite case of `StateMap::set`: the changed
/// bucket replaced the entry at `j`, whose key was `k`, by `(k, v)`.
proof fn lemma_set_update_case<V>(
    obs: Seq<Vec<(BoardState, V)>>,
    nbs: Seq<Vec<(BoardState, V)>>,
    b: int,
    j: int,
    kk: Seq<(int, int)>,
    k: Seq<(int, int)>,
    v: V,
)
    requires
        obs.len() == bucket_count(),
        nbs.len() == bucket_count(),
        0 <= b < bucket_count(),
        b == bucket_of(k),
        0 <= j < obs[b]@.len(),
        obs[b]@[j].0@ == k,
        nbs[b]@ == obs[b]@.update(j, (nbs[b]@[j].0, v)),
        nbs[b]@[j].0@ == k,
        forall|bb: int| #![trigger nbs[bb]] 0 <= bb < bucket_count() && bb != b ==> nbs[bb] == obs[bb],
        forall|bb: int, jj: int| #![trigger obs[bb]@[jj]]
            0 <= bb < bucket_count() && 0 <= jj < obs[bb]@.len() ==> bucket_of(obs[bb]@[jj].0@)
                == bb,
        forall|bb: int| #![trigger obs[bb]] 0 <= bb < bucket_count() ==> bkt_distinct(obs[bb]@),
    ensures
        bkt_has(nbs[bucket_of(kk)]@, kk) == if kk == k {
            true
        } else {
            bkt_has(obs[bucket_of(kk)]@, kk)
        },
        bkt_has(nbs[bucket_of(kk)]@, kk) ==> bkt_val(nbs[bucket_of(kk)]@, kk) == if kk == k {
            v
        } else {
            bkt_val(obs[bucket_of(kk)]@, kk)
        },
{
    let bb = bucket_of(kk);
    assert(0 <= bb < bucket_count());
    if bb != b {
        assert(nbs[bb] == obs[bb]);
    } else {
        let ob = obs[b]@;
        let nb = nbs[b]@;
        assert(nb.len() == ob.len());
        assert(forall|x: int| #![trigger nb[x]] 0 <= x < nb.len() && x != j ==> nb[x] == ob[x]);
        assert(bkt_distinct(nb)) by {
            assert forall|j1: int, j2: int| #![trigger nb[j1], nb[j2]]
                0 <= j1 < j2 < nb.len() implies nb[j1].0@ != nb[j2].0@ by {
                assert(nb[j1].0@ == ob[j1].0@);
                assert(nb[j2].0@ == ob[j2].0@);
            }
        }
        if kk == k {
            lemma_bkt_val_at(nb, j);
        } else {
            if bkt_has(nb, kk) {
                let jj = choose|x: int| #![trigger nb[x]] 0 <= x < nb.len() && nb[x].0@ == kk;
                assert(jj != j);
                assert(ob[jj].0@ == kk);
                lemma_bkt_val_at(ob, jj);
                lemma_bkt_val_at(nb, jj);
            }
            if bkt_has(ob, kk) {
                let jj = choose|x: int| #![trigger ob[x]] 0 <= x < ob.len() && ob[x].0@ == kk;
                assert(jj != j);
                assert(nb[jj].0@ == kk);
            }
        }
    }
}

/// One key's worth of the append case of `StateMap::set`: the changed
/// bucket had no entry for `k` and `(k, v)` was pushed at its end.
proof fn lemma_set_push_case<V>(
    obs: Seq<Vec<(BoardState, V)>>,
    nbs: Seq<Vec<(BoardState, V)>>,
    b: int,
    kk: Seq<(int, int)>,
    k: Seq<(int, int)>,
    v: V,
)
    requires
        obs.len() == bucket_count(),
        nbs.len() == bucket_count(),
        0 <= b < bucket_count(),
        b == bucket_of(k),
        !bkt_has(obs[b]@, k),
        nbs[b]@ == obs[b]@.push((nbs[b]@.last().0, v)),
        nbs[b]@.last().0@ == k,
        forall|bb: int| #![trigger nbs[bb]] 0 <= bb < bucket_count() && bb != b ==> nbs[bb] == obs[bb],
        forall|bb: int, jj: int| #![trigger obs[bb]@[jj]]
            0 <= bb < bucket_count() && 0 <= jj < obs[bb]@.len() ==> bucket_of(obs[bb]@[jj].0@)
                == bb,
        forall|bb: int| #![trigger obs[bb]] 0 <= bb < bucket_count() ==> bkt_distinct(obs[bb]@),
    ensures
        bkt_has(nbs[bucket_of(kk)]@, kk) == if kk == k {
            true
        } else {
            bkt_has(obs[bucket_of(kk)]@, kk)
        },
        bkt_has(nbs[bucket_of(kk)]@, kk) ==> bkt_val(nbs[bucket_of(kk)]@, kk) == if kk == k {
            v
        } else {
            bkt_val(obs[bucket_of(kk)]@, kk)
        },
        bkt_distinct(nbs[b]@),
{
    let ob = obs[b]@;
    let nb = nbs[b]@;
    assert(nb.len() == ob.len() + 1);
    assert(forall|x: int| #![trigger nb[x]] 0 <= x < ob.len() ==> nb[x] == ob[x]);
    assert(bkt_distinct(nb)) by {
        assert forall|j1: int, j2: int| #![trigger nb[j1], nb[j2]]
            0 <= j1 < j2 < nb.len() implies nb[j1].0@ != nb[j2].0@ by {
            if j2 == nb.len() - 1 {
                assert(nb[j1] == ob[j1]);
                assert(!bkt_has(ob, k));
                assert(ob[j1].0@ != k);
            } else {
                assert(nb[j1] == ob[j1]);
                assert(nb[j2] == ob[j2]);
            }
        }
    }
    let bb = bucket_of(kk);
    assert(0 <= bb < bucket_count());
    if bb != b {
        assert(nbs[bb] == obs[bb]);
    } else {
        if kk == k {
            lemma_bkt_val_at(nb, nb.len() - 1);
        } else {
            if bkt_has(nb, kk) {
                let jj = choose|x: int| #![trigger nb[x]] 0 <= x < nb.len() && nb[x].0@ == kk;
                assert(jj != nb.len() - 1);
                assert(ob[jj].0@ == kk);
                lemma_bkt_val_at(ob, jj);
                lemma_bkt_val_at(nb, jj);
            }
            if bkt_has(ob, kk) {
                let jj = choose|x: int| #![trigger ob[x]] 0 <= x < ob.len() && ob[x].0@ == kk;
                assert(nb[jj].0@ == kk);
            }
        }
    }
}

} // verus!

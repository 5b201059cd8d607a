use vstd::prelude::*;

use std::collections::HashMap;

use crate::cell::GridCell;
use crate::hashing::{digest_of, SpatialHash};
use crate::seq_facts::{lemma_push_fresh, lemma_remove_at_unique};

verus! {

broadcast use vstd::std_specs::hash::group_hash_axioms;

/// Membership of entity `e` in the bucket that `m` keeps for digest `k`.
pub open spec fn buckets_has(m: Map<u64, Vec<u64>>, k: u64, e: u64) -> bool {
    m.contains_key(k) && m[k]@.contains(e)
}

/// Every bucket that `m` keeps is non-empty and lists each entity once.
pub open spec fn buckets_tidy(m: Map<u64, Vec<u64>>) -> bool {
    forall|k: u64| #[trigger] m.contains_key(k) ==> m[k]@.len() > 0 && m[k]@.no_duplicates()
}

/// The digest that one reported (entity, frame identity, cell) change
/// assigns to its entity.
pub open spec fn change_digest(ch: (u64, u64, GridCell)) -> u64 {
    digest_of(ch.1, ch.2.x, ch.2.y, ch.2.z)
}

/// The placement map after applying a batch of reported changes in order:
/// each change places its entity at its digest, and a later report for the
/// same entity overrides an earlier one.
pub open spec fn placed_after(m: Map<u64, u64>, changes: Seq<(u64, u64, GridCell)>) -> Map<
    u64,
    u64,
>
    decreases changes.len(),
{
    if changes.len() == 0 {
        m
    } else {
        placed_after(m.insert(changes[0].0, change_digest(changes[0])), changes.skip(1))
    }
}

/// What one upsert of `entity` under digest `d` does to the observable index
/// state: the entity is placed at `d`, joins the bucket of `d`, and leaves
/// every other bucket; nothing else changes.
pub open spec fn upsert_rel(pre: SpatialHashMap, post: SpatialHashMap, entity: u64, d: u64) -> bool {
    &&& post.placed() == pre.placed().insert(entity, d)
    &&& forall|h: u64, e: u64| #[trigger] post.in_bucket(h, e) <==> (if h == d {
        pre.in_bucket(h, e) || e == entity
    } else {
        pre.in_bucket(h, e) && e != entity
    })
}

/// What removing `entity` does to the observable index state: it leaves the
/// placement map and every bucket; nothing else changes.
pub open spec fn remove_rel(pre: SpatialHashMap, post: SpatialHashMap, entity: u64) -> bool {
    &&& post.placed() == pre.placed().remove(entity)
    &&& forall|h: u64, e: u64| #[trigger] post.in_bucket(h, e)
        <==> pre.in_bucket(h, e) && e != entity
}

/// An upsert step out of a well-formed state leads back to one.
proof fn lemma_upsert_rel_wf(pre: SpatialHashMap, post: SpatialHashMap, entity: u64, d: u64)
    requires
        pre.wf(),
        upsert_rel(pre, post, entity, d),
        buckets_tidy(post.map@),
    ensures
        post.wf(),
{
    assert forall|e: u64| #[trigger] post.placed().contains_key(e) implies post.in_bucket(
        post.placed()[e],
        e,
    ) by {
        if e == entity {
            assert(post.in_bucket(d, entity));
        } else {
            assert(pre.placed().contains_key(e));
            let h = pre.placed()[e];
            assert(pre.in_bucket(h, e));
            assert(post.in_bucket(h, e));
        }
    };
    assert forall|h: u64, e: u64| #[trigger] post.in_bucket(h, e) implies post.placed().contains_key(
        e,
    ) && post.placed()[e] == h by {
        if e != entity {
            assert(pre.in_bucket(h, e));
        }
    };
}

/// A removal step out of a well-formed state leads back to one.
proof fn lemma_remove_rel_wf(pre: SpatialHashMap, post: SpatialHashMap, entity: u64)
    requires
        pre.wf(),
        remove_rel(pre, post, entity),
        buckets_tidy(post.map@),
    ensures
        post.wf(),
{
    assert forall|e: u64| #[trigger] post.placed().contains_key(e) implies post.in_bucket(
        post.placed()[e],
        e,
    ) by {
        assert(pre.placed().contains_key(e));
        assert(pre.in_bucket(pre.placed()[e], e));
        assert(post.in_bucket(pre.placed()[e], e));
    };
    assert forall|h: u64, e: u64| #[trigger] post.in_bucket(h, e) implies post.placed().contains_key(
        e,
    ) && post.placed()[e] == h by {
        assert(pre.in_bucket(h, e));
    };
}

/// Remove `entity` from the bucket kept for digest `h`, dropping the bucket
/// if it empties; no-op when the digest or the entity is absent.
fn bucket_remove(map: &mut HashMap<u64, Vec<u64>>, h: u64, entity: u64)
    requires
        buckets_tidy(old(map)@),
    ensures
        buckets_tidy(final(map)@),
        forall|k: u64, e: u64| #[trigger] buckets_has(final(map)@, k, e) <==> buckets_has(
            old(map)@,
            k,
            e,
        ) && !(k == h && e == entity),
{
    let ghost m0 = old(map)@;
    let removed = map.remove(&h);
    let mut bucket = match removed {
        Some(v) => v,
        None => {
            proof {
                assert(m0.remove(h) =~= m0);
            }
            return ;
        },
    };
    let mut i: usize = 0;
    while i < bucket.len() && bucket[i] != entity
        invariant
            i <= bucket@.len(),
            forall|j: int| 0 <= j < i ==> bucket@[j] != entity,
        decreases bucket@.len() - i,
    {
        i += 1;
    }
    if i < bucket.len() {
        proof {
            lemma_remove_at_unique(bucket@, i as int, entity);
        }
        bucket.remove(i);
    } else {
        proof {
            assert(!bucket@.contains(entity));
        }
    }
    if bucket.len() > 0 {
        map.insert(h, bucket);
    }
}

/// Add `entity` to the bucket kept for digest `h`, creating the bucket if
/// the digest was unoccupied.
fn bucket_add(map: &mut HashMap<u64, Vec<u64>>, h: u64, entity: u64)
    requires
        buckets_tidy(old(map)@),
        !buckets_has(old(map)@, h, entity),
    ensures
        buckets_tidy(final(map)@),
        forall|k: u64, e: u64| #[trigger] buckets_has(final(map)@, k, e) <==> buckets_has(
            old(map)@,
            k,
            e,
        ) || (k == h && e == entity),
{
    let removed = map.remove(&h);
    let mut bucket = match removed {
        Some(v) => v,
        None => Vec::new(),
    };
    proof {
        lemma_push_fresh(bucket@, entity);
    }
    bucket.push(entity);
    map.insert(h, bucket);
}

/// A bidirectional spatial index: digest -> entities occupying it, and
/// entity -> its single current digest. The two maps are maintained as strict
/// inverses of one another.
///
/// Lookups of a digest that no entity occupies yield nothing; no operation
/// raises an error. The one caller-visible hazard is a hash collision
/// producing a false "possibly co-located" signal: the index never detects or
/// corrects collisions, so consumers needing certainty must re-verify
/// candidates against the real (frame, cell) values.
pub struct SpatialHashMap {
    map: HashMap<u64, Vec<u64>>,
    reverse_map: HashMap<u64, u64>,
}

impl SpatialHashMap {
    /// The placement map: each tracked entity's current digest.
    pub closed spec fn placed(self) -> Map<u64, u64> {
        self.reverse_map@
    }

    /// Entity `e` is in the bucket of digest `h`.
    pub closed spec fn in_bucket(self, h: u64, e: u64) -> bool {
        buckets_has(self.map@, h, e)
    }

    /// Digest `h` has at least one occupying entity.
    pub closed spec fn occupied(self, h: u64) -> bool {
        self.map@.contains_key(h)
    }

    /// The index invariant: the forward and reverse maps are strict inverses,
    /// and no bucket is kept empty or lists an entity twice.
    pub closed spec fn wf(self) -> bool {
        &&& forall|e: u64| #[trigger] self.placed().contains_key(e)
            ==> self.in_bucket(self.placed()[e], e)
        &&& forall|h: u64, e: u64| #[trigger] self.in_bucket(h, e)
            ==> self.placed().contains_key(e) && self.placed()[e] == h
        &&& buckets_tidy(self.map@)
    }

    /// An empty index: no entity, no bucket.
    pub fn new() -> (r: SpatialHashMap)
        ensures
            r.wf(),
            r.placed() == Map::<u64, u64>::empty(),
            forall|h: u64, e: u64| !r.in_bucket(h, e),
    {
        SpatialHashMap { map: HashMap::new(), reverse_map: HashMap::new() }
    }

    /// In a well-formed index the buckets are exactly the preimages of the
    /// placement map: an entity is in the bucket of `h` if and only if it is
    /// placed at `h`. In particular no entity is in two buckets at once.
    pub proof fn lemma_bucket_is_preimage(self, h: u64, e: u64)
        requires
            self.wf(),
        ensures
            self.in_bucket(h, e) <==> (self.placed().contains_key(e) && self.placed()[e] == h),
    {
    }

    /// Record that `entity` now occupies the cell hashed to `hash`.
    ///
    /// A first report inserts the entity; a report with its current digest is
    /// a no-op; a report with a different digest prunes the entity from the
    /// old digest's bucket atomically with its insertion under the new one.
    pub fn upsert(&mut self, entity: u64, hash: SpatialHash)
        requires
            old(self).wf(),
        ensures
            final(self).wf(),
            upsert_rel(*old(self), *final(self), entity, hash.value()),
    {
        let hv = hash.bits();
        let ghost pre = *old(self);
        let prev: Option<u64> = match self.reverse_map.get(&entity) {
            Some(p) => Some(*p),
            None => None,
        };
        match prev {
            Some(old_h) => {
                if old_h == hv {
                    proof {
                        assert(pre.placed().insert(entity, hv) =~= pre.placed());
                        assert(pre.in_bucket(hv, entity));
                        assert forall|h: u64, e: u64| #[trigger] pre.in_bucket(h, e) <==> (if h
                            == hv {
                            pre.in_bucket(h, e) || e == entity
                        } else {
                            pre.in_bucket(h, e) && e != entity
                        }) by {
                            if e == entity && h != hv && pre.in_bucket(h, entity) {
                                assert(pre.placed()[entity] == h);
                            }
                        };
                    }
                    return ;
                }
                bucket_remove(&mut self.map, old_h, entity);
                proof {
                    assert forall|k: u64, e: u64| #[trigger] buckets_has(self.map@, k, e)
                        <==> buckets_has(pre.map@, k, e) && e != entity by {
                        if e == entity && buckets_has(pre.map@, k, entity) {
                            assert(pre.in_bucket(k, entity));
                        }
                    };
                }
            },
            None => {
                proof {
                    assert forall|k: u64, e: u64| #[trigger] buckets_has(self.map@, k, e)
                        <==> buckets_has(pre.map@, k, e) && e != entity by {
                        if e == entity && buckets_has(pre.map@, k, entity) {
                            assert(pre.in_bucket(k, entity));
                        }
                    };
                }
            },
        }
        let ghost mid = self.map@;
        self.reverse_map.insert(entity, hv);
        bucket_add(&mut self.map, hv, entity);
        proof {
            let post = *self;
            assert forall|h: u64, e: u64| #[trigger] post.in_bucket(h, e) <==> (if h == hv {
                pre.in_bucket(h, e) || e == entity
            } else {
                pre.in_bucket(h, e) && e != entity
            }) by {
                assert(buckets_has(post.map@, h, e) <==> buckets_has(mid, h, e) || (h == hv && e
                    == entity));
            };
            assert(upsert_rel(pre, post, entity, hv));
            lemma_upsert_rel_wf(pre, post, entity, hv);
        }
    }

    /// Deregister `entity`: delete it from its current digest's bucket and
    /// from the placement map; no-op if it is not tracked.
    pub fn remove(&mut self, entity: u64)
        requires
            old(self).wf(),
        ensures
            final(self).wf(),
            remove_rel(*old(self), *final(self), entity),
    {
        let ghost pre = *old(self);
        let prev: Option<u64> = match self.reverse_map.get(&entity) {
            Some(p) => Some(*p),
            None => None,
        };
        match prev {
            Some(old_h) => {
                self.reverse_map.remove(&entity);
                bucket_remove(&mut self.map, old_h, entity);
                proof {
                    let post = *self;
                    assert forall|h: u64, e: u64| #[trigger] post.in_bucket(h, e)
                        <==> pre.in_bucket(h, e) && e != entity by {
                        if e == entity && pre.in_bucket(h, entity) {
                            assert(pre.placed()[entity] == h);
                        }
                    };
                    assert(remove_rel(pre, post, entity));
                    lemma_remove_rel_wf(pre, post, entity);
                }
            },
            None => {
                proof {
                    let post = *self;
                    assert(pre.placed().remove(entity) =~= pre.placed());
                    assert forall|h: u64, e: u64| #[trigger] post.in_bucket(h, e)
                        <==> pre.in_bucket(h, e) && e != entity by {
                        if e == entity && pre.in_bucket(h, entity) {
                            assert(pre.placed().contains_key(entity));
                        }
                    };
                }
            },
        }
    }

    /// Apply one update pass: for each reported (entity, frame identity,
    /// cell) tuple, in order, hash the pair and upsert the entity. Within one
    /// pass the last report for an entity wins.
    pub fn update(&mut self, changes: &Vec<(u64, u64, GridCell)>)
        requires
            old(self).wf(),
        ensures
            final(self).wf(),
            final(self).placed() == placed_after(old(self).placed(), changes@),
    {
        let ghost all = changes@;
        let ghost m0 = old(self).placed();
        let n = changes.len();
        let mut i: usize = 0;
        proof {
            assert(all.skip(0) =~= all);
        }
        while i < n
            invariant
                i <= n,
                n == changes@.len(),
                changes@ == all,
                self.wf(),
                placed_after(m0, all) == placed_after(self.placed(), all.skip(i as int)),
            decreases n - i,
        {
            let ch = changes[i];
            let h = SpatialHash::new(ch.1, &ch.2);
            let ghost before = self.placed();
            proof {
                assert(all.skip(i as int)[0] == all[i as int]);
                assert(all.skip(i as int).skip(1) =~= all.skip(i as int + 1));
                assert(placed_after(before, all.skip(i as int)) == placed_after(
                    before.insert(ch.0, change_digest(ch)),
                    all.skip(i as int + 1),
                ));
            }
            self.upsert(ch.0, h);
            i += 1;
        }
        proof {
            assert(all.skip(n as int) =~= Seq::<(u64, u64, GridCell)>::empty());
        }
    }

    /// Every non-empty bucket, as a (digest, entities) pair, in arbitrary
    /// order: a snapshot of the whole index.
    pub fn iter(&self) -> (r: Vec<(u64, Vec<u64>)>)
        requires
            self.wf(),
        ensures
            forall|p: int| 0 <= p < r@.len() ==> self.occupied((#[trigger] r@[p]).0),
            forall|p: int|
                0 <= p < r@.len() ==> (#[trigger] r@[p]).1@.len() > 0
                    && r@[p].1@.no_duplicates(),
            forall|p: int, e: u64|
                0 <= p < r@.len() ==> ((#[trigger] r@[p].1@.contains(e)) <==> self.in_bucket(
                    r@[p].0,
                    e,
                )),
            forall|h: u64|
                self.occupied(h) ==> exists|p: int| 0 <= p < r@.len() && (#[trigger] r@[p]).0 == h,
            forall|p: int, q: int|
                0 <= p < q < r@.len() ==> (#[trigger] r@[p]).0 != (#[trigger] r@[q]).0,
    {
        let mut out: Vec<(u64, Vec<u64>)> = Vec::new();
        let ghost m = self.map@;
        for kv in it: self.map.iter()
            invariant
                m == self.map@,
                out@.len() == it.index(),
                it.seq().len() == m.dom().len(),
                forall|p: int|
                    0 <= p < it.seq().len() ==> m.contains_key(*(#[trigger] it.seq()[p]).0)
                        && m[*it.seq()[p].0] == *it.seq()[p].1,
                forall|k: u64| #[trigger] m.contains_key(k) ==> it.seq().contains((&k, &m[k])),
                it.seq().no_duplicates(),
                forall|p: int|
                    0 <= p < out@.len() ==> (#[trigger] out@[p]).0 == *it.seq()[p].0,
                forall|p: int|
                    0 <= p < out@.len() ==> m.contains_key((#[trigger] out@[p]).0) && out@[p].1@
                        == m[out@[p].0]@,
                forall|p: int, q: int|
                    0 <= p < q < out@.len() ==> (#[trigger] out@[p]).0 != (#[trigger] out@[q]).0,
                forall|k: u64| #[trigger]
                    m.contains_key(k) ==> (exists|p: int|
                        0 <= p < out@.len() && (#[trigger] out@[p]).0 == k) || (exists|q: int|
                        it.index() <= q < it.seq().len() && *(#[trigger] it.seq()[q]).0 == k),
        {
            let (k, v) = kv;
            let entities = crate::queries::copy_entities(v);
            let ghost out_prev = out@;
            out.push((*k, entities));
            proof {
                let s = it.seq();
                let idx = it.index() as int;
                assert(kv == (&*s[idx].0, &*s[idx].1));
                assert forall|p: int, q: int|
                    0 <= p < q < out@.len() implies (#[trigger] out@[p]).0 != (
                #[trigger] out@[q]).0 by {
                    if q == out@.len() - 1 && *s[p].0 == *s[q].0 {
                        assert(m[*s[p].0] == *s[p].1);
                        assert(s[p] == s[q]);
                    }
                };
                assert forall|k2: u64| #[trigger] m.contains_key(k2) implies (exists|p: int|
                    0 <= p < out@.len() && (#[trigger] out@[p]).0 == k2) || (exists|q: int|
                    it.index() + 1 <= q < s.len() && *(#[trigger] s[q]).0 == k2) by {
                    if !(exists|p: int| 0 <= p < out_prev.len() && (#[trigger] out_prev[p]).0
                        == k2) {
                        let q = choose|q: int| idx <= q < s.len() && *(#[trigger] s[q]).0 == k2;
                        if q == idx {
                            assert(out@[out@.len() - 1].0 == k2);
                        }
                    } else {
                        let p = choose|p: int|
                            0 <= p < out_prev.len() && (#[trigger] out_prev[p]).0 == k2;
                        assert(out@[p].0 == k2);
                    }
                };
            }
        }
        proof {
            assert forall|h: u64| self.occupied(h) implies exists|p: int|
                0 <= p < out@.len() && (#[trigger] out@[p]).0 == h by {
                assert(m.contains_key(h));
            };
            assert forall|p: int, e: u64| 0 <= p < out@.len() implies ((#[trigger] out@[p].1@.contains(
                e,
            )) <==> self.in_bucket(out@[p].0, e)) by {
                assert(m.contains_key(out@[p].0) && out@[p].1@ == m[out@[p].0]@);
            };
        }
        out
    }

    /// Look up the entities currently associated with a digest; `None` when
    /// no entity occupies it.
    pub fn get(&self, hash: &SpatialHash) -> (r: Option<&Vec<u64>>)
        requires
            self.wf(),
        ensures
            match r {
                Some(v) => {
                    &&& self.occupied(hash.value())
                    &&& v@.len() > 0
                    &&& v@.no_duplicates()
                    &&& forall|e: u64| v@.contains(e) <==> self.in_bucket(hash.value(), e)
                },
                None => !self.occupied(hash.value()),
            },
    {
        let hv = hash.bits();
        self.map.get(&hv)
    }

    /// The number of occupied digests.
    pub closed spec fn occupied_count(self) -> nat {
        self.map@.dom().len()
    }

    /// A bucket member's digest is occupied.
    pub proof fn lemma_member_occupied(self, h: u64, e: u64)
        requires
            self.in_bucket(h, e),
        ensures
            self.occupied(h),
    {
    }

    /// A finite set of occupied digests is no larger than the number of
    /// occupied digests.
    pub proof fn lemma_occupied_bound(self, s: Set<u64>)
        requires
            s.finite(),
            forall|h: u64| s.contains(h) ==> self.occupied(h),
        ensures
            s.len() <= self.occupied_count(),
    {
        assert(s.subset_of(self.map@.dom()));
        vstd::set_lib::lemma_len_subset(s, self.map@.dom());
    }

    /// In a well-formed index a digest is occupied exactly when its bucket
    /// has a member.
    pub proof fn lemma_occupied_iff_inhabited(self, h: u64)
        requires
            self.wf(),
        ensures
            self.occupied(h) <==> exists|e: u64| self.in_bucket(h, e),
    {
        if self.occupied(h) {
            assert(self.in_bucket(h, self.map@[h]@[0]));
        }
    }
}

impl Default for SpatialHashMap {
    /// An empty index: no entity, no bucket.
    fn default() -> (r: SpatialHashMap)
        ensures
            r.wf(),
            r.placed() == Map::<u64, u64>::empty(),
            forall|h: u64, e: u64| !r.in_bucket(h, e),
    {
        SpatialHashMap::new()
    }
}

/// Upsert idempotence: a second upsert of the same entity and digest leaves
/// the observable index state — the placement map and every bucket's
/// membership — exactly as the first left it.
pub proof fn lemma_upsert_idempotent(
    s0: SpatialHashMap,
    s1: SpatialHashMap,
    s2: SpatialHashMap,
    entity: u64,
    d: u64,
)
    requires
        upsert_rel(s0, s1, entity, d),
        upsert_rel(s1, s2, entity, d),
    ensures
        s2.placed() == s1.placed(),
        forall|h: u64, e: u64| #[trigger] s2.in_bucket(h, e) <==> s1.in_bucket(h, e),
{
    assert(s1.placed().insert(entity, d) =~= s1.placed());
    assert forall|h: u64, e: u64| #[trigger] s2.in_bucket(h, e) <==> s1.in_bucket(h, e) by {
        assert(s1.in_bucket(d, entity));
        if h != d && e == entity {
            assert(!s1.in_bucket(h, entity));
        }
    };
}

/// Move correctness: after an entity moves from digest `d1` to a different
/// digest `d2`, the old bucket no longer holds it and the new bucket holds
/// exactly its previous members plus the entity.
pub proof fn lemma_upsert_moves(
    s0: SpatialHashMap,
    s1: SpatialHashMap,
    s2: SpatialHashMap,
    entity: u64,
    d1: u64,
    d2: u64,
)
    requires
        upsert_rel(s0, s1, entity, d1),
        upsert_rel(s1, s2, entity, d2),
        d1 != d2,
    ensures
        !s2.in_bucket(d1, entity),
        forall|e: u64| #[trigger] s2.in_bucket(d2, e) <==> s1.in_bucket(d2, e) || e == entity,
        s2.placed() == s1.placed().insert(entity, d2),
{
}

/// Removal: a removed entity appears in no bucket and is no longer placed,
/// and a subsequent upsert behaves as a fresh insert — it only adds the
/// entity to the new digest's bucket and disturbs no other bucket.
pub proof fn lemma_remove_then_upsert(
    s0: SpatialHashMap,
    s1: SpatialHashMap,
    s2: SpatialHashMap,
    entity: u64,
    d: u64,
)
    requires
        remove_rel(s0, s1, entity),
        upsert_rel(s1, s2, entity, d),
    ensures
        forall|h: u64| !s1.in_bucket(h, entity),
        !s1.placed().contains_key(entity),
        s2.in_bucket(d, entity),
        s2.placed() == s1.placed().insert(entity, d),
        forall|h: u64, e: u64| #[trigger] s2.in_bucket(h, e) <==> s1.in_bucket(h, e) || (h == d
            && e == entity),
{
    assert forall|h: u64| !s1.in_bucket(h, entity) by {
        if s1.in_bucket(h, entity) {
            assert(s0.in_bucket(h, entity) && entity != entity);
        }
    };
    assert(s2.in_bucket(d, entity));
    assert forall|h: u64, e: u64| #[trigger] s2.in_bucket(h, e) <==> s1.in_bucket(h, e) || (h == d
        && e == entity) by {
        if h != d && e == entity {
            assert(!s1.in_bucket(h, entity));
        }
    };
}

} // verus!


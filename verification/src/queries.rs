use vstd::prelude::*;

use std::collections::HashMap;

use crate::cell::{chebyshev_within, GridCell};
use crate::hashing::{digest_of, PartialSpatialHash, SpatialHash};
use crate::index::SpatialHashMap;
use crate::seq_facts::{lemma_push_contains, lemma_push_fresh};

verus! {

broadcast use vstd::std_specs::hash::group_hash_axioms;

/// `c` is an occupied cell discoverable from `origin` within `n` expansions
/// of the flood search: it lies within Chebyshev distance `r` of the origin,
/// or within `r` of another discoverable occupied cell.
pub open spec fn reach(
    idx: SpatialHashMap,
    frame: u64,
    r: int,
    origin: GridCell,
    c: GridCell,
    n: nat,
) -> bool
    decreases n,
{
    idx.occupied(digest_of(frame, c.x, c.y, c.z)) && (chebyshev_within(c, origin, r) || (n > 0
        && exists|m: GridCell| reach(idx, frame, r, origin, m, (n - 1) as nat) && chebyshev_within(
        c,
        m,
        r,
    )))
}

/// `c` is in the flood closure of `origin`: an occupied cell reachable from
/// the origin through a chain of occupied cells, each step within `r`.
pub open spec fn flood_reach(
    idx: SpatialHashMap,
    frame: u64,
    r: int,
    origin: GridCell,
    c: GridCell,
) -> bool {
    exists|n: nat| reach(idx, frame, r, origin, c, n)
}

/// Among cells whose digests are occupied under `frame`, the digest
/// determines the cell: the flood search meets no hash collision. Distinct
/// cells with colliding occupied digests would make the search conflate
/// them, so completeness is promised only under this hypothesis.
pub open spec fn collision_free(idx: SpatialHashMap, frame: u64) -> bool {
    forall|c1: GridCell, c2: GridCell|
        #![trigger digest_of(frame, c1.x, c1.y, c1.z), digest_of(frame, c2.x, c2.y, c2.z)]
        (idx.occupied(digest_of(frame, c1.x, c1.y, c1.z)) && digest_of(frame, c1.x, c1.y, c1.z)
            == digest_of(frame, c2.x, c2.y, c2.z)) ==> c1 == c2
}

/// Every key of `result` is an occupied digest of some cell in the flood
/// closure, and its value lists exactly that digest's occupants.
spec fn flood_sound(
    idx: SpatialHashMap,
    frame: u64,
    r: int,
    origin: GridCell,
    result: Map<u64, Vec<u64>>,
) -> bool {
    &&& forall|h: u64| #[trigger]
        result.contains_key(h) ==> idx.occupied(h) && (exists|c: GridCell|
            flood_reach(idx, frame, r, origin, c) && digest_of(frame, c.x, c.y, c.z) == h)
    &&& forall|h: u64, e: u64|
        result.contains_key(h) ==> ((#[trigger] result[h]@.contains(e)) <==> idx.in_bucket(h, e))
}

/// Every occupied cell within `r` of an already-expanded cell has its digest
/// in `result`.
spec fn flood_frontier(
    idx: SpatialHashMap,
    frame: u64,
    r: int,
    processed: Set<GridCell>,
    result: Map<u64, Vec<u64>>,
) -> bool {
    forall|m: GridCell, c: GridCell|
        #![trigger processed.contains(m), digest_of(frame, c.x, c.y, c.z)]
        processed.contains(m) && chebyshev_within(c, m, r) && idx.occupied(
            digest_of(frame, c.x, c.y, c.z),
        ) ==> result.contains_key(digest_of(frame, c.x, c.y, c.z))
}

/// Every occupied cell whose digest is already in `result` has been expanded
/// or still waits on the stack.
spec fn flood_scheduled(
    idx: SpatialHashMap,
    frame: u64,
    processed: Set<GridCell>,
    result: Map<u64, Vec<u64>>,
    stack: Seq<GridCell>,
) -> bool {
    forall|c: GridCell|
        #![trigger digest_of(frame, c.x, c.y, c.z)]
        idx.occupied(digest_of(frame, c.x, c.y, c.z)) && result.contains_key(
            digest_of(frame, c.x, c.y, c.z),
        ) ==> processed.contains(c) || stack.contains(c)
}

/// Once the stack is empty, every cell of the flood closure has its digest
/// in the result: induction over the length of the discovery chain.
proof fn lemma_flood_complete(
    idx: SpatialHashMap,
    frame: u64,
    r: int,
    origin: GridCell,
    processed: Set<GridCell>,
    result: Map<u64, Vec<u64>>,
    c: GridCell,
    n: nat,
)
    requires
        collision_free(idx, frame),
        processed.contains(origin),
        flood_frontier(idx, frame, r, processed, result),
        flood_scheduled(idx, frame, processed, result, Seq::<GridCell>::empty()),
        reach(idx, frame, r, origin, c, n),
    ensures
        result.contains_key(digest_of(frame, c.x, c.y, c.z)),
    decreases n,
{
    if chebyshev_within(c, origin, r) {
        assert(processed.contains(origin) && chebyshev_within(c, origin, r) && idx.occupied(
            digest_of(frame, c.x, c.y, c.z),
        ));
    } else {
        let m = choose|m: GridCell|
            reach(idx, frame, r, origin, m, (n - 1) as nat) && chebyshev_within(c, m, r);
        lemma_flood_complete(idx, frame, r, origin, processed, result, m, (n - 1) as nat);
        assert(idx.occupied(digest_of(frame, m.x, m.y, m.z)));
        assert(processed.contains(m) || Seq::<GridCell>::empty().contains(m));
        assert(processed.contains(m));
    }
}

/// All cells of the cube of Chebyshev radius `radius` centered on `origin`,
/// each exactly once: the candidate set of a fixed-radius neighbor query.
/// Wherever the cube does not run into the edge of the representable grid it
/// holds `(2*radius + 1)^3` cells; at the edge it is clipped to the cells
/// that exist.
pub fn cube(origin: &GridCell, radius: u8) -> (r: Vec<GridCell>)
    ensures
        forall|i: int| 0 <= i < r@.len() ==> chebyshev_within(r@[i], *origin, radius as int),
        forall|c: GridCell| chebyshev_within(c, *origin, radius as int) ==> r@.contains(c),
        r@.no_duplicates(),
        (i64::MIN <= origin.x - radius && origin.x + radius <= i64::MAX && i64::MIN <= origin.y
            - radius && origin.y + radius <= i64::MAX && i64::MIN <= origin.z - radius && origin.z
            + radius <= i64::MAX) ==> r@.len() == (2 * radius + 1) * (2 * radius + 1) * (2 * radius
            + 1),
{
    let rad = radius as i64;
    let lo_x = if origin.x >= i64::MIN + rad { origin.x - rad } else { i64::MIN };
    let hi_x = if origin.x <= i64::MAX - rad { origin.x + rad } else { i64::MAX };
    let lo_y = if origin.y >= i64::MIN + rad { origin.y - rad } else { i64::MIN };
    let hi_y = if origin.y <= i64::MAX - rad { origin.y + rad } else { i64::MAX };
    let lo_z = if origin.z >= i64::MIN + rad { origin.z - rad } else { i64::MIN };
    let hi_z = if origin.z <= i64::MAX - rad { origin.z + rad } else { i64::MAX };
    let nx = hi_x - lo_x;
    let ny = hi_y - lo_y;
    let nz = hi_z - lo_z;
    let ghost wy: int = ny + 1;
    let ghost wz: int = nz + 1;
    let mut cells: Vec<GridCell> = Vec::new();
    let mut ix: i64 = 0;
    proof {
        assert(0 * wy * wz == 0) by (nonlinear_arith);
    }
    while ix <= nx
        invariant
            0 <= ix <= nx + 1,
            0 <= nx <= 2 * rad && 0 <= ny <= 2 * rad && 0 <= nz <= 2 * rad,
            0 <= rad <= 255,
            wy == ny + 1 && wz == nz + 1,
            lo_x <= origin.x <= hi_x && lo_y <= origin.y <= hi_y && lo_z <= origin.z <= hi_z,
            hi_x == lo_x + nx && hi_y == lo_y + ny && hi_z == lo_z + nz,
            forall|c: GridCell|
                chebyshev_within(c, *origin, rad as int) <==> (lo_x <= c.x <= hi_x && lo_y <= c.y
                    <= hi_y && lo_z <= c.z <= hi_z),
            cells@.len() == ix * wy * wz,
            forall|c: GridCell| #[trigger]
                cells@.contains(c) <==> (lo_x <= c.x && c.x < lo_x + ix && lo_y <= c.y <= hi_y
                    && lo_z <= c.z <= hi_z),
            cells@.no_duplicates(),
        decreases nx + 1 - ix,
    {
        let x = lo_x + ix;
        let mut iy: i64 = 0;
        while iy <= ny
            invariant
                0 <= iy <= ny + 1,
                0 <= ix <= nx,
                0 <= nx <= 2 * rad && 0 <= ny <= 2 * rad && 0 <= nz <= 2 * rad,
                0 <= rad <= 255,
                wy == ny + 1 && wz == nz + 1,
                x == lo_x + ix,
                lo_x <= origin.x <= hi_x && lo_y <= origin.y <= hi_y && lo_z <= origin.z <= hi_z,
                hi_x == lo_x + nx && hi_y == lo_y + ny && hi_z == lo_z + nz,
                cells@.len() == ix * wy * wz + iy * wz,
                forall|c: GridCell| #[trigger]
                    cells@.contains(c) <==> (lo_y <= c.y <= hi_y && lo_z <= c.z <= hi_z && (lo_x
                        <= c.x && c.x < x || (c.x == x && c.y < lo_y + iy))),
                cells@.no_duplicates(),
            decreases ny + 1 - iy,
        {
            let y = lo_y + iy;
            let mut iz: i64 = 0;
            while iz <= nz
                invariant
                    0 <= iz <= nz + 1,
                    0 <= iy <= ny,
                    0 <= ix <= nx,
                    0 <= nx <= 2 * rad && 0 <= ny <= 2 * rad && 0 <= nz <= 2 * rad,
                    0 <= rad <= 255,
                    wy == ny + 1 && wz == nz + 1,
                    x == lo_x + ix,
                    y == lo_y + iy,
                    lo_x <= origin.x <= hi_x && lo_y <= origin.y <= hi_y && lo_z <= origin.z
                        <= hi_z,
                    hi_x == lo_x + nx && hi_y == lo_y + ny && hi_z == lo_z + nz,
                    cells@.len() == ix * wy * wz + iy * wz + iz,
                    forall|c: GridCell| #[trigger]
                        cells@.contains(c) <==> (lo_z <= c.z <= hi_z && lo_y <= c.y <= hi_y && (
                        lo_x <= c.x && c.x < x || (c.x == x && (c.y < y || (c.y == y && c.z < lo_z
                            + iz))))),
                    cells@.no_duplicates(),
                decreases nz + 1 - iz,
            {
                let z = lo_z + iz;
                let c = GridCell { x, y, z };
                proof {
                    assert(!cells@.contains(c));
                    lemma_push_fresh(cells@, c);
                }
                cells.push(c);
                iz += 1;
            }
            proof {
                assert((iy + 1) * wz == iy * wz + wz) by (nonlinear_arith);
            }
            iy += 1;
        }
        proof {
            assert((ix + 1) * wy * wz == ix * wy * wz + wy * wz) by (nonlinear_arith);
            assert((ny + 1) * wz == ny * wz + wz) by (nonlinear_arith);
        }
        ix += 1;
    }
    proof {
        if i64::MIN <= origin.x - radius && origin.x + radius <= i64::MAX && i64::MIN <= origin.y
            - radius && origin.y + radius <= i64::MAX && i64::MIN <= origin.z - radius && origin.z
            + radius <= i64::MAX {
            assert(cells@.len() == (2 * radius + 1) * (2 * radius + 1) * (2 * radius + 1))
                by (nonlinear_arith)
                requires
                    cells@.len() == (nx + 1) * (ny + 1) * (nz + 1),
                    nx == 2 * radius && ny == 2 * radius && nz == 2 * radius,
            ;
        }
        assert forall|i: int| 0 <= i < cells@.len() implies chebyshev_within(
            cells@[i],
            *origin,
            radius as int,
        ) by {
            assert(cells@.contains(cells@[i]));
        }
    }
    cells
}

/// Copy a bucket's entity list into an owned vector.
pub(crate) fn copy_entities(v: &Vec<u64>) -> (r: Vec<u64>)
    ensures
        r@ == v@,
{
    let mut out: Vec<u64> = Vec::new();
    let mut i: usize = 0;
    while i < v.len()
        invariant
            i <= v@.len(),
            out@ == v@.take(i as int),
        decreases v@.len() - i,
    {
        let e = v[i];
        out.push(e);
        proof {
            assert(v@.take(i as int).push(v@[i as int]) =~= v@.take(i as int + 1));
        }
        i += 1;
    }
    proof {
        assert(v@.take(v@.len() as int) =~= v@);
    }
    out
}

impl SpatialHashMap {
    /// Entities in this and neighboring cells, within Chebyshev distance
    /// `cell_radius` of `cell` under the frame identity `frame`: one entry
    /// per non-empty candidate cell, holding its digest, its address and the
    /// entities occupying its digest. One partial hash for `frame` is shared
    /// across all candidate cells. Order among entries is unspecified.
    pub fn neighbors(&self, cell_radius: u8, frame: u64, cell: &GridCell) -> (r: Vec<
        (SpatialHash, GridCell, Vec<u64>),
    >)
        requires
            self.wf(),
        ensures
            forall|i: int|
                0 <= i < r@.len() ==> chebyshev_within(
                    (#[trigger] r@[i]).1,
                    *cell,
                    cell_radius as int,
                ),
            forall|i: int|
                0 <= i < r@.len() ==> (#[trigger] r@[i]).0.value() == digest_of(
                    frame,
                    r@[i].1.x,
                    r@[i].1.y,
                    r@[i].1.z,
                ),
            forall|i: int| 0 <= i < r@.len() ==> self.occupied((#[trigger] r@[i]).0.value()),
            forall|i: int|
                0 <= i < r@.len() ==> (#[trigger] r@[i]).2@.len() > 0 && r@[i].2@.no_duplicates(),
            forall|i: int, e: u64|
                0 <= i < r@.len() ==> ((#[trigger] r@[i].2@.contains(e)) <==> self.in_bucket(
                    r@[i].0.value(),
                    e,
                )),
            forall|c: GridCell|
                chebyshev_within(c, *cell, cell_radius as int) && self.occupied(
                    digest_of(frame, c.x, c.y, c.z),
                ) ==> exists|i: int| 0 <= i < r@.len() && (#[trigger] r@[i]).1 == c,
            forall|i: int, j: int|
                0 <= i < j < r@.len() ==> (#[trigger] r@[i]).1 != (#[trigger] r@[j]).1,
            cell_radius == 0 ==> r@.len() <= 1,
    {
        let candidates = cube(cell, cell_radius);
        let partial = PartialSpatialHash::new(frame);
        let mut out: Vec<(SpatialHash, GridCell, Vec<u64>)> = Vec::new();
        let n = candidates.len();
        let mut i: usize = 0;
        while i < n
            invariant
                self.wf(),
                partial.frame() == frame,
                n == candidates@.len(),
                i <= n,
                forall|j: int|
                    0 <= j < n ==> chebyshev_within(
                        #[trigger] candidates@[j],
                        *cell,
                        cell_radius as int,
                    ),
                forall|c: GridCell|
                    chebyshev_within(c, *cell, cell_radius as int) ==> candidates@.contains(c),
                candidates@.no_duplicates(),
                forall|k: int|
                    0 <= k < out@.len() ==> chebyshev_within(
                        (#[trigger] out@[k]).1,
                        *cell,
                        cell_radius as int,
                    ),
                forall|k: int|
                    0 <= k < out@.len() ==> (#[trigger] out@[k]).0.value() == digest_of(
                        frame,
                        out@[k].1.x,
                        out@[k].1.y,
                        out@[k].1.z,
                    ),
                forall|k: int|
                    0 <= k < out@.len() ==> self.occupied((#[trigger] out@[k]).0.value()),
                forall|k: int|
                    0 <= k < out@.len() ==> (#[trigger] out@[k]).2@.len() > 0
                        && out@[k].2@.no_duplicates(),
                forall|k: int, e: u64|
                    0 <= k < out@.len() ==> ((#[trigger] out@[k].2@.contains(e))
                        <==> self.in_bucket(out@[k].0.value(), e)),
                forall|j: int|
                    0 <= j < i && self.occupied(
                        digest_of(
                            frame,
                            (#[trigger] candidates@[j]).x,
                            candidates@[j].y,
                            candidates@[j].z,
                        ),
                    ) ==> exists|k: int| 0 <= k < out@.len() && (#[trigger] out@[k]).1
                        == candidates@[j],
                forall|k: int|
                    0 <= k < out@.len() ==> exists|j: int|
                        0 <= j < i && (#[trigger] out@[k]).1 == candidates@[j],
                forall|k1: int, k2: int|
                    0 <= k1 < k2 < out@.len() ==> (#[trigger] out@[k1]).1 != (#[trigger] out@[k2]).1,
            decreases n - i,
        {
            let c = candidates[i];
            let h = partial.generate(&c);
            let ghost out_prev = out@;
            match self.get(&h) {
                Some(v) => {
                    let entities = copy_entities(v);
                    proof {
                        assert forall|k: int| 0 <= k < out_prev.len() implies (#[trigger] out_prev[k]).1
                            != c by {
                            let j = choose|j: int|
                                0 <= j < i && (#[trigger] out_prev[k]).1 == candidates@[j];
                            assert(candidates@[j] != candidates@[i as int]);
                        }
                    }
                    out.push((h, c, entities));
                    proof {
                        assert(out@ == out_prev.push((h, c, entities)));
                        assert(out@[out@.len() - 1].1 == c);
                        assert forall|j: int|
                            0 <= j < i + 1 && self.occupied(
                                digest_of(
                                    frame,
                                    (#[trigger] candidates@[j]).x,
                                    candidates@[j].y,
                                    candidates@[j].z,
                                ),
                            ) implies exists|k: int|
                            0 <= k < out@.len() && (#[trigger] out@[k]).1 == candidates@[j] by {
                            if j == i {
                                assert(out@[out@.len() - 1].1 == candidates@[j]);
                            } else {
                                let k = choose|k: int|
                                    0 <= k < out_prev.len() && (#[trigger] out_prev[k]).1
                                        == candidates@[j];
                                assert(out@[k].1 == candidates@[j]);
                            }
                        }
                    }
                },
                None => {
                    proof {
                        assert(!self.occupied(
                            digest_of(
                                frame,
                                candidates@[i as int].x,
                                candidates@[i as int].y,
                                candidates@[i as int].z,
                            ),
                        ));
                        assert forall|j: int|
                            0 <= j < i + 1 && self.occupied(
                                digest_of(
                                    frame,
                                    (#[trigger] candidates@[j]).x,
                                    candidates@[j].y,
                                    candidates@[j].z,
                                ),
                            ) implies exists|k: int|
                            0 <= k < out@.len() && (#[trigger] out@[k]).1 == candidates@[j] by {
                            assert(j < i);
                        }
                    }
                },
            }
            i += 1;
        }
        proof {
            assert forall|c: GridCell|
                chebyshev_within(c, *cell, cell_radius as int) && self.occupied(
                    digest_of(frame, c.x, c.y, c.z),
                ) implies exists|i2: int| 0 <= i2 < out@.len() && (#[trigger] out@[i2]).1 == c by {
                assert(candidates@.contains(c));
                let j = choose|j: int| 0 <= j < candidates@.len() && candidates@[j] == c;
                assert(self.occupied(
                    digest_of(frame, candidates@[j].x, candidates@[j].y, candidates@[j].z),
                ));
            }
            if cell_radius == 0 && out@.len() >= 2 {
                assert(chebyshev_within(out@[0].1, *cell, 0));
                assert(chebyshev_within(out@[1].1, *cell, 0));
                assert(out@[0].1 == out@[1].1);
                assert(false);
            }
        }
        out
    }

    /// Like [`Self::neighbors`], but flattened to a plain list of the
    /// entities found in the non-empty candidate cells.
    pub fn neighbors_flattened(&self, cell_radius: u8, frame: u64, cell: &GridCell) -> (r: Vec<
        u64,
    >)
        requires
            self.wf(),
        ensures
            forall|e: u64|
                #[trigger] r@.contains(e) <==> exists|c: GridCell|
                    chebyshev_within(c, *cell, cell_radius as int) && self.in_bucket(
                        digest_of(frame, c.x, c.y, c.z),
                        e,
                    ),
    {
        let found = self.neighbors(cell_radius, frame, cell);
        let mut out: Vec<u64> = Vec::new();
        let n = found.len();
        let mut i: usize = 0;
        while i < n
            invariant
                self.wf(),
                n == found@.len(),
                i <= n,
                forall|k: int|
                    0 <= k < n ==> chebyshev_within(
                        (#[trigger] found@[k]).1,
                        *cell,
                        cell_radius as int,
                    ),
                forall|k: int|
                    0 <= k < n ==> (#[trigger] found@[k]).0.value() == digest_of(
                        frame,
                        found@[k].1.x,
                        found@[k].1.y,
                        found@[k].1.z,
                    ),
                forall|k: int, e: u64|
                    0 <= k < n ==> ((#[trigger] found@[k].2@.contains(e)) <==> self.in_bucket(
                        found@[k].0.value(),
                        e,
                    )),
                forall|c: GridCell|
                    chebyshev_within(c, *cell, cell_radius as int) && self.occupied(
                        digest_of(frame, c.x, c.y, c.z),
                    ) ==> exists|k: int| 0 <= k < n && (#[trigger] found@[k]).1 == c,
                forall|e: u64|
                    #[trigger] out@.contains(e) <==> exists|k: int|
                        0 <= k < i && #[trigger] found@[k].2@.contains(e),
            decreases n - i,
        {
            let bucket_len = found[i].2.len();
            let ghost out_start = out@;
            let mut b: usize = 0;
            while b < bucket_len
                invariant
                    i < n,
                    n == found@.len(),
                    bucket_len == found@[i as int].2@.len(),
                    b <= bucket_len,
                    forall|e: u64|
                        #[trigger] out@.contains(e) <==> out_start.contains(e) || exists|p: int|
                            0 <= p < b && #[trigger] found@[i as int].2@[p] == e,
                decreases bucket_len - b,
            {
                let e = found[i].2[b];
                let ghost out_prev = out@;
                out.push(e);
                proof {
                    lemma_push_contains(out_prev, e);
                    assert forall|e2: u64| #[trigger] out@.contains(e2) implies out_start.contains(
                        e2,
                    ) || exists|p: int| 0 <= p < b + 1 && #[trigger] found@[i as int].2@[p]
                        == e2 by {
                        if out_prev.contains(e2) {
                            if !out_start.contains(e2) {
                                let p = choose|p: int|
                                    0 <= p < b && #[trigger] found@[i as int].2@[p] == e2;
                                assert(0 <= p < b + 1 && found@[i as int].2@[p] == e2);
                            }
                        } else {
                            assert(found@[i as int].2@[b as int] == e2);
                        }
                    }
                    assert forall|e2: u64|
                        out_start.contains(e2) || exists|p: int|
                            0 <= p < b + 1 && #[trigger] found@[i as int].2@[p]
                                == e2 implies out@.contains(e2) by {
                        if !out_start.contains(e2) {
                            let p = choose|p: int|
                                0 <= p < b + 1 && #[trigger] found@[i as int].2@[p] == e2;
                            if p < b {
                                assert(out_prev.contains(e2));
                            }
                        }
                    }
                }
                b += 1;
            }
            proof {
                assert forall|e: u64| #[trigger] out@.contains(e) <==> exists|k: int|
                    0 <= k < i + 1 && #[trigger] found@[k].2@.contains(e) by {
                    if out@.contains(e) {
                        if out_start.contains(e) {
                            let k = choose|k: int|
                                0 <= k < i && #[trigger] found@[k].2@.contains(e);
                            assert(0 <= k < i + 1 && found@[k].2@.contains(e));
                        } else {
                            let p = choose|p: int|
                                0 <= p < bucket_len && #[trigger] found@[i as int].2@[p] == e;
                            assert(found@[i as int].2@.contains(e));
                        }
                    } else {
                        if exists|k: int| 0 <= k < i + 1 && #[trigger] found@[k].2@.contains(e) {
                            let k = choose|k: int|
                                0 <= k < i + 1 && #[trigger] found@[k].2@.contains(e);
                            if k < i {
                                assert(out_start.contains(e));
                            } else {
                                let p = choose|p: int|
                                    0 <= p < found@[k].2@.len() && found@[k].2@[p] == e;
                                assert(found@[i as int].2@[p] == e);
                                assert(out@.contains(e));
                            }
                            assert(false);
                        }
                    }
                }
            }
            i += 1;
        }
        proof {
            assert forall|e: u64| #[trigger] out@.contains(e) implies exists|c: GridCell|
                chebyshev_within(c, *cell, cell_radius as int) && self.in_bucket(
                    digest_of(frame, c.x, c.y, c.z),
                    e,
                ) by {
                let k = choose|k: int| 0 <= k < n && #[trigger] found@[k].2@.contains(e);
                assert(self.in_bucket(found@[k].0.value(), e));
                assert(chebyshev_within(found@[k].1, *cell, cell_radius as int) && self.in_bucket(
                    digest_of(frame, found@[k].1.x, found@[k].1.y, found@[k].1.z),
                    e,
                ));
            }
            assert forall|e: u64, c: GridCell|
                chebyshev_within(c, *cell, cell_radius as int) && #[trigger] self.in_bucket(
                    digest_of(frame, c.x, c.y, c.z),
                    e,
                ) implies out@.contains(e) by {
                self.lemma_member_occupied(digest_of(frame, c.x, c.y, c.z), e);
                let k = choose|k: int| 0 <= k < n && (#[trigger] found@[k]).1 == c;
                assert(found@[k].2@.contains(e));
            }
        }
        out
    }

    /// The transitive closure of the fixed-radius search: starting from
    /// `cell`, every non-empty cell found is expanded in turn, until no new
    /// non-empty cell appears. The result maps each discovered digest to the
    /// entities occupying it, answering "all entities reachable through a
    /// chain of occupied cells no further than `cell_radius` apart".
    ///
    /// Every reported digest belongs to a cell of the flood closure. The
    /// converse — every closure cell's digest is reported — holds whenever
    /// the occupied digests under `frame` identify their cells uniquely; a
    /// hash collision can conflate two cells and is never detected here.
    pub fn neighbors_flood(&self, cell_radius: u8, frame: u64, cell: &GridCell) -> (r: HashMap<
        u64,
        Vec<u64>,
    >)
        requires
            self.wf(),
        ensures
            forall|h: u64| #[trigger]
                r@.contains_key(h) ==> self.occupied(h) && (exists|c: GridCell|
                    flood_reach(*self, frame, cell_radius as int, *cell, c) && digest_of(
                        frame,
                        c.x,
                        c.y,
                        c.z,
                    ) == h),
            forall|h: u64, e: u64|
                r@.contains_key(h) ==> ((#[trigger] r@[h]@.contains(e)) <==> self.in_bucket(h, e)),
            forall|c: GridCell|
                #![trigger digest_of(frame, c.x, c.y, c.z)]
                chebyshev_within(c, *cell, cell_radius as int) && self.occupied(
                    digest_of(frame, c.x, c.y, c.z),
                ) ==> r@.contains_key(digest_of(frame, c.x, c.y, c.z)),
            collision_free(*self, frame) ==> forall|c: GridCell|
                #![trigger digest_of(frame, c.x, c.y, c.z)]
                flood_reach(*self, frame, cell_radius as int, *cell, c) ==> r@.contains_key(
                    digest_of(frame, c.x, c.y, c.z),
                ),
    {
        let ghost rr: int = cell_radius as int;
        let mut stack: Vec<GridCell> = Vec::new();
        stack.push(*cell);
        proof {
            assert(stack@[0] == *cell);
        }
        let mut result: HashMap<u64, Vec<u64>> = HashMap::new();
        let ghost mut processed: Set<GridCell> = Set::empty();
        while stack.len() > 0
            invariant
                self.wf(),
                rr == cell_radius as int,
                flood_sound(*self, frame, rr, *cell, result@),
                flood_frontier(*self, frame, rr, processed, result@),
                collision_free(*self, frame) ==> flood_scheduled(
                    *self,
                    frame,
                    processed,
                    result@,
                    stack@,
                ),
                forall|j: int|
                    0 <= j < stack@.len() ==> (#[trigger] stack@[j]) == *cell || flood_reach(
                        *self,
                        frame,
                        rr,
                        *cell,
                        stack@[j],
                    ),
                processed.contains(*cell) || stack@.contains(*cell),
                result@.dom().len() <= self.occupied_count(),
            decreases self.occupied_count() + 1 - result@.dom().len(), stack@.len(),
        {
            let ghost stack_pre = stack@;
            let popped = stack.pop();
            let m_cell = match popped {
                Some(c) => c,
                None => {
                    proof {
                        assert(false);
                    }
                    *cell
                },
            };
            let ghost stack0 = stack@;
            let ghost dom0 = result@.dom();
            proof {
                assert(stack0 == stack_pre.drop_last());
                assert(m_cell == stack_pre[stack_pre.len() - 1]);
                if collision_free(*self, frame) {
                    assert forall|c: GridCell|
                        #![trigger digest_of(frame, c.x, c.y, c.z)]
                        self.occupied(digest_of(frame, c.x, c.y, c.z)) && result@.contains_key(
                            digest_of(frame, c.x, c.y, c.z),
                        ) implies processed.insert(m_cell).contains(c) || stack@.contains(c) by {
                        if !processed.contains(c) {
                            let jx = choose|jx: int|
                                0 <= jx < stack_pre.len() && stack_pre[jx] == c;
                            if jx < stack_pre.len() - 1 {
                                assert(stack@[jx] == c);
                            } else {
                                assert(c == m_cell);
                            }
                        }
                    };
                }
                if !processed.contains(*cell) && !processed.insert(m_cell).contains(*cell) {
                    let jx = choose|jx: int| 0 <= jx < stack_pre.len() && stack_pre[jx] == *cell;
                    assert(jx < stack_pre.len() - 1);
                    assert(stack@[jx] == *cell);
                }
            }
            let found = self.neighbors(cell_radius, frame, &m_cell);
            let fl = found.len();
            let mut j: usize = 0;
            while j < fl
                invariant
                    self.wf(),
                    rr == cell_radius as int,
                    j <= fl,
                    fl == found@.len(),
                    m_cell == *cell || flood_reach(*self, frame, rr, *cell, m_cell),
                    flood_sound(*self, frame, rr, *cell, result@),
                    flood_frontier(*self, frame, rr, processed, result@),
                    collision_free(*self, frame) ==> flood_scheduled(
                        *self,
                        frame,
                        processed.insert(m_cell),
                        result@,
                        stack@,
                    ),
                    forall|jj: int|
                        0 <= jj < stack@.len() ==> (#[trigger] stack@[jj]) == *cell || flood_reach(
                            *self,
                            frame,
                            rr,
                            *cell,
                            stack@[jj],
                        ),
                    processed.insert(m_cell).contains(*cell) || stack@.contains(*cell),
                    result@.dom().len() <= self.occupied_count(),
                    forall|k: int|
                        0 <= k < fl ==> chebyshev_within((#[trigger] found@[k]).1, m_cell, rr),
                    forall|k: int|
                        0 <= k < fl ==> (#[trigger] found@[k]).0.value() == digest_of(
                            frame,
                            found@[k].1.x,
                            found@[k].1.y,
                            found@[k].1.z,
                        ),
                    forall|k: int| 0 <= k < fl ==> self.occupied((#[trigger] found@[k]).0.value()),
                    forall|k: int, e: u64|
                        0 <= k < fl ==> ((#[trigger] found@[k].2@.contains(e)) <==> self.in_bucket(
                            found@[k].0.value(),
                            e,
                        )),
                    forall|c: GridCell|
                        chebyshev_within(c, m_cell, rr) && self.occupied(
                            digest_of(frame, c.x, c.y, c.z),
                        ) ==> exists|k: int| 0 <= k < fl && (#[trigger] found@[k]).1 == c,
                    forall|jj: int|
                        0 <= jj < j ==> result@.contains_key((#[trigger] found@[jj]).0.value()),
                    dom0.subset_of(result@.dom()),
                    result@.dom().len() >= dom0.len(),
                    result@.dom().len() == dom0.len() ==> result@.dom() == dom0 && stack@
                        == stack0,
                decreases fl - j,
            {
                let entry_h = found[j].0;
                let entry_cell = found[j].1;
                let hv = entry_h.bits();
                if !result.contains_key(&hv) {
                    let entities = copy_entities(&found[j].2);
                    let ghost res0 = result@;
                    let ghost stack_bp = stack@;
                    result.insert(hv, entities);
                    stack.push(entry_cell);
                    proof {
                        lemma_push_contains(stack_bp, entry_cell);
                        if m_cell == *cell {
                            assert(reach(*self, frame, rr, *cell, entry_cell, 0));
                        } else {
                            let nm = choose|nm: nat| reach(*self, frame, rr, *cell, m_cell, nm);
                            assert(reach(*self, frame, rr, *cell, m_cell, (nm + 1 - 1) as nat));
                            assert(reach(*self, frame, rr, *cell, entry_cell, nm + 1));
                        }
                        assert(flood_reach(*self, frame, rr, *cell, entry_cell));
                        assert(digest_of(frame, entry_cell.x, entry_cell.y, entry_cell.z) == hv);
                        assert(res0.dom().insert(hv) =~= result@.dom());
                        vstd::set::axiom_set_insert_len(res0.dom(), hv);
                        self.lemma_occupied_bound(result@.dom());
                        assert forall|jj: int|
                            0 <= jj < stack@.len() implies (#[trigger] stack@[jj]) == *cell
                            || flood_reach(*self, frame, rr, *cell, stack@[jj]) by {
                            if jj == stack@.len() - 1 {
                                assert(stack@[jj] == entry_cell);
                            } else {
                                assert(stack@[jj] == stack_bp[jj]);
                            }
                        };
                        if collision_free(*self, frame) {
                            assert forall|c: GridCell|
                                #![trigger digest_of(frame, c.x, c.y, c.z)]
                                self.occupied(digest_of(frame, c.x, c.y, c.z))
                                    && result@.contains_key(
                                    digest_of(frame, c.x, c.y, c.z),
                                ) implies processed.insert(m_cell).contains(c) || stack@.contains(
                                c,
                            ) by {
                                let d = digest_of(frame, c.x, c.y, c.z);
                                if res0.contains_key(d) {
                                    if !processed.insert(m_cell).contains(c) {
                                        assert(stack_bp.contains(c));
                                    }
                                } else {
                                    assert(d == hv);
                                    assert(self.occupied(
                                        digest_of(
                                            frame,
                                            entry_cell.x,
                                            entry_cell.y,
                                            entry_cell.z,
                                        ),
                                    ));
                                    assert(c == entry_cell);
                                    assert(stack@.contains(entry_cell));
                                }
                            };
                        }
                    }
                }
                j += 1;
            }
            proof {
                processed = processed.insert(m_cell);
                assert forall|m: GridCell, c: GridCell|
                    #![trigger processed.contains(m), digest_of(frame, c.x, c.y, c.z)]
                    processed.contains(m) && chebyshev_within(c, m, rr) && self.occupied(
                        digest_of(frame, c.x, c.y, c.z),
                    ) implies result@.contains_key(digest_of(frame, c.x, c.y, c.z)) by {
                    if m == m_cell {
                        let k = choose|k: int| 0 <= k < fl && (#[trigger] found@[k]).1 == c;
                        assert(result@.contains_key(found@[k].0.value()));
                    } else {
                        assert(dom0.contains(digest_of(frame, c.x, c.y, c.z))
                            ==> result@.contains_key(digest_of(frame, c.x, c.y, c.z)));
                    }
                };
            }
        }
        proof {
            assert(processed.contains(*cell));
            assert forall|c: GridCell|
                #![trigger digest_of(frame, c.x, c.y, c.z)]
                chebyshev_within(c, *cell, rr) && self.occupied(
                    digest_of(frame, c.x, c.y, c.z),
                ) implies result@.contains_key(digest_of(frame, c.x, c.y, c.z)) by {
                assert(processed.contains(*cell) && chebyshev_within(c, *cell, rr));
            };
            if collision_free(*self, frame) {
                assert forall|c: GridCell|
                    #![trigger digest_of(frame, c.x, c.y, c.z)]
                    flood_reach(*self, frame, rr, *cell, c) implies result@.contains_key(
                    digest_of(frame, c.x, c.y, c.z),
                ) by {
                    let n = choose|n: nat| reach(*self, frame, rr, *cell, c, n);
                    assert(stack@ =~= Seq::<GridCell>::empty());
                    lemma_flood_complete(*self, frame, rr, *cell, processed, result@, c, n);
                }
            }
        }
        result
    }
}

} // verus!

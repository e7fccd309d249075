//! The clustering engine.
//!
//! [`run`] draws `k` distinct points uniformly at random (without
//! replacement, by value) as initial centroids and hands them to
//! [`run_with_centroids`], which is fully deterministic: it repeatedly
//! assigns every point to its nearest centroid (first index wins ties) and
//! recomputes every centroid as the exact mean of its cluster, until no
//! centroid moves.  An empty cluster keeps its previous centroid unchanged;
//! that is this engine's empty-cluster policy.  The convergence loop is
//! bounded by an explicit iteration cap supplied by the caller; within the
//! cap, convergence is the exact zero-distance test of the model.

use vstd::prelude::*;

use crate::model::{
    all_ceq, assigned_to, cent_of, cents_of, converged, converged_at, first_occurrences,
    group_of, is_run_result, iterate, lemma_filter_push, lemma_first_occurrences, lemma_group_wf,
    lemma_mean_wf, mean_of, mean_or_keep, nearest, nearest_upto, partition_of, step, valid_init,
    wf_cseq, wf_ct, wf_pseq, wf_pt, CentroidV, PointV, COORD_LIMIT, MAX_POINTS,
};
use crate::point::{
    closer_exec, cviews, partition_views, point_eq, pviews, Centroid, Point,
};

verus! {

/// Why a clustering run failed.
#[derive(Debug, Clone, Copy, PartialEq, Eq, Structural)]
pub enum ClusterError {
    /// Fewer distinct points exist than the `requested` number of
    /// clusters, so `requested` distinct initial centroids cannot be
    /// drawn.
    InsufficientData { requested: usize, distinct: usize },
    /// The centroids did not converge within the caller's iteration cap.
    NoConvergence,
}

/// Relies on rand::random: draws a value through the thread-local
/// generator; nothing is promised of the result.
pub assume_specification<T>[ rand::random::<T> ]() -> (r: T)
    where
        rand::distributions::Standard: rand::distributions::Distribution<T>,
;

/// The exact componentwise mean of a nonempty set of points, as the
/// rational centroid `(lat sum / count, lon sum / count)`.
pub fn calculate_average_datapoint(points: &Vec<Point>) -> (c: Centroid)
    requires
        1 <= points@.len() <= MAX_POINTS,
        wf_pseq(pviews(points@)),
    ensures
        c@ == mean_of(pviews(points@)),
        wf_ct(c@),
{
    let ghost ps = pviews(points@);
    let mut lat_sum: i64 = 0;
    let mut lon_sum: i64 = 0;
    let mut t: usize = 0;
    while t < points.len()
        invariant
            ps == pviews(points@),
            wf_pseq(ps),
            ps.len() == points@.len() <= MAX_POINTS,
            t <= points@.len(),
            lat_sum == crate::model::sum_lat(ps.take(t as int)),
            lon_sum == crate::model::sum_lon(ps.take(t as int)),
            -((t as int) * (COORD_LIMIT as int)) <= lat_sum as int <= (t as int) * (
            COORD_LIMIT as int),
            -((t as int) * (COORD_LIMIT as int)) <= lon_sum as int <= (t as int) * (
            COORD_LIMIT as int),
        decreases points@.len() - t,
    {
        proof {
            let q = ps.take(t + 1);
            assert(q.drop_last() =~= ps.take(t as int));
            assert(q.last() == ps[t as int]);
            assert(wf_pt(ps[t as int]));
        }
        lat_sum = lat_sum + points[t].lat;
        lon_sum = lon_sum + points[t].lon;
        t = t + 1;
    }
    proof {
        assert(ps.take(points@.len() as int) =~= ps);
    }
    Centroid { lat_sum, lon_sum, count: points.len() }
}

/// Index of the centroid nearest to `p`, scanning in index order and
/// keeping the first minimum: a later centroid wins only when strictly
/// closer.
pub fn nearest_centroid(p: &Point, cs: &Vec<Centroid>) -> (best: usize)
    requires
        wf_pt(p@),
        wf_cseq(cviews(cs@)),
        cs@.len() >= 1,
    ensures
        best < cs@.len(),
        best == nearest(p@, cviews(cs@)),
{
    let ghost cv = cviews(cs@);
    let mut best: usize = 0;
    let mut i: usize = 1;
    while i < cs.len()
        invariant
            cv == cviews(cs@),
            wf_pt(p@),
            wf_cseq(cv),
            cv.len() == cs@.len() >= 1,
            1 <= i <= cs@.len(),
            best < i,
            best == nearest_upto(p@, cv, i as nat),
        decreases cs@.len() - i,
    {
        proof {
            assert(cv[i as int] == cs@[i as int]@);
            assert(cv[best as int] == cs@[best as int]@);
        }
        if closer_exec(p, &cs[i], &cs[best]) {
            best = i;
        }
        i = i + 1;
    }
    best
}

/// Builds the partition: one group per cluster index, each holding, in
/// input order, exactly the points whose nearest centroid has that index.
pub fn assign_points(points: &Vec<Point>, cs: &Vec<Centroid>) -> (groups: Vec<Vec<Point>>)
    requires
        wf_pseq(pviews(points@)),
        wf_cseq(cviews(cs@)),
        cs@.len() >= 1,
    ensures
        groups@.len() == cs@.len(),
        forall|i: int|
            0 <= i < cs@.len() ==> pviews(#[trigger] groups@[i]@) == group_of(
                pviews(points@),
                cviews(cs@),
                i,
            ),
{
    let ghost ps = pviews(points@);
    let ghost cv = cviews(cs@);
    let mut groups: Vec<Vec<Point>> = Vec::new();
    let mut i: usize = 0;
    while i < cs.len()
        invariant
            ps == pviews(points@),
            cv == cviews(cs@),
            wf_pseq(ps),
            wf_cseq(cv),
            cv.len() == cs@.len() >= 1,
            i <= cs@.len(),
            groups@.len() == i,
            forall|m: int|
                0 <= m < i ==> pviews(#[trigger] groups@[m]@) == group_of(ps, cv, m),
        decreases cs@.len() - i,
    {
        let mut g: Vec<Point> = Vec::new();
        let mut t: usize = 0;
        while t < points.len()
            invariant
                ps == pviews(points@),
                cv == cviews(cs@),
                wf_pseq(ps),
                wf_cseq(cv),
                cv.len() == cs@.len() >= 1,
                i < cs@.len(),
                ps.len() == points@.len(),
                t <= points@.len(),
                pviews(g@) == group_of(ps.take(t as int), cv, i as int),
            decreases points@.len() - t,
        {
            proof {
                assert(ps[t as int] == points@[t as int]@);
                assert(wf_pt(ps[t as int]));
            }
            let idx = nearest_centroid(&points[t], cs);
            proof {
                let prefix = ps.take(t as int);
                lemma_filter_push(prefix, assigned_to(cv, i as int), ps[t as int]);
                assert(ps.take(t + 1) =~= prefix.push(ps[t as int]));
            }
            if idx == i {
                let p = points[t].clone();
                g.push(p);
                proof {
                    assert(pviews(g@) =~= group_of(ps.take(t as int), cv, i as int).push(
                        ps[t as int],
                    ));
                }
            }
            t = t + 1;
        }
        proof {
            assert(ps.take(points@.len() as int) =~= ps);
        }
        groups.push(g);
        i = i + 1;
    }
    groups
}

/// Recomputes every centroid from its cluster: the exact mean of a
/// nonempty cluster, the previous centroid unchanged for an empty one.
pub fn recompute_centroids(groups: &Vec<Vec<Point>>, prev: &Vec<Centroid>) -> (r: Vec<Centroid>)
    requires
        groups@.len() == prev@.len(),
        wf_cseq(cviews(prev@)),
        forall|i: int|
            0 <= i < groups@.len() ==> wf_pseq(pviews(#[trigger] groups@[i]@)) && groups@[i]@.len()
                <= MAX_POINTS,
    ensures
        r@.len() == prev@.len(),
        wf_cseq(cviews(r@)),
        forall|i: int|
            0 <= i < r@.len() ==> cviews(r@)[i] == mean_or_keep(
                pviews(#[trigger] groups@[i]@),
                cviews(prev@)[i],
            ),
{
    let mut r: Vec<Centroid> = Vec::new();
    let mut i: usize = 0;
    while i < groups.len()
        invariant
            groups@.len() == prev@.len(),
            wf_cseq(cviews(prev@)),
            forall|m: int|
                0 <= m < groups@.len() ==> wf_pseq(pviews(#[trigger] groups@[m]@))
                    && groups@[m]@.len() <= MAX_POINTS,
            i <= groups@.len(),
            r@.len() == i,
            forall|m: int|
                0 <= m < i ==> cviews(r@)[m] == mean_or_keep(
                    pviews(#[trigger] groups@[m]@),
                    cviews(prev@)[m],
                ) && wf_ct(cviews(r@)[m]),
        decreases groups@.len() - i,
    {
        proof {
            assert(forall|m: int| 0 <= m < prev@.len() ==> cviews(prev@)[m] == prev@[m]@);
            lemma_mean_wf(pviews(groups@[i as int]@), cviews(prev@)[i as int]);
        }
        if groups[i].len() == 0 {
            let c = prev[i];
            r.push(c);
        } else {
            let c = calculate_average_datapoint(&groups[i]);
            r.push(c);
        }
        proof {
            assert(forall|m: int| 0 <= m < r@.len() ==> cviews(r@)[m] == r@[m]@);
        }
        i = i + 1;
    }
    proof {
        assert(cviews(r@).len() == r@.len());
        assert forall|m: int| 0 <= m < r@.len() implies wf_ct(#[trigger] cviews(r@)[m]) by {
            assert(cviews(r@)[m] == mean_or_keep(pviews(groups@[m]@), cviews(prev@)[m]));
        }
    }
    r
}

/// Whether no centroid moved: every recomputed centroid sits at exactly
/// the same coordinates as the one it replaces.
pub fn all_converged(next: &Vec<Centroid>, cur: &Vec<Centroid>) -> (r: bool)
    requires
        next@.len() == cur@.len(),
        wf_cseq(cviews(next@)),
        wf_cseq(cviews(cur@)),
    ensures
        r == all_ceq(cviews(next@), cviews(cur@)),
{
    let mut moved = false;
    let mut i: usize = 0;
    while i < next.len()
        invariant
            next@.len() == cur@.len(),
            wf_cseq(cviews(next@)),
            wf_cseq(cviews(cur@)),
            i <= next@.len(),
            moved == !(forall|m: int|
                0 <= m < i ==> crate::model::ceq(cviews(next@)[m], cviews(cur@)[m])),
        decreases next@.len() - i,
    {
        proof {
            assert(cviews(next@)[i as int] == next@[i as int]@);
            assert(cviews(cur@)[i as int] == cur@[i as int]@);
        }
        if !next[i].coords_equal(&cur[i]) {
            moved = true;
        }
        i = i + 1;
    }
    !moved
}

/// Whether some record of `v` equals `p` structurally.
pub fn contains_point(v: &Vec<Point>, p: &Point) -> (r: bool)
    ensures
        r == pviews(v@).contains(p@),
{
    let mut i: usize = 0;
    while i < v.len()
        invariant
            i <= v@.len(),
            forall|j: int| 0 <= j < i ==> pviews(v@)[j] != p@,
        decreases v@.len() - i,
    {
        proof {
            assert(pviews(v@)[i as int] == v@[i as int]@);
        }
        if point_eq(&v[i], p) {
            proof {
                assert(pviews(v@)[i as int] == p@);
            }
            return true;
        }
        i = i + 1;
    }
    proof {
        assert(pviews(v@).len() == v@.len());
    }
    false
}

/// Draws `k` distinct points uniformly at random, without replacement and
/// by value, as the initial centroids; fails exactly when fewer than `k`
/// distinct points exist, reporting the requested and available counts.
pub fn init_centroids(points: &Vec<Point>, k: usize) -> (r: Result<Vec<Point>, ClusterError>)
    requires
        k >= 1,
    ensures
        match r {
            Ok(c) => {
                &&& c@.len() == k
                &&& valid_init(pviews(c@), pviews(points@), k as int)
                &&& k <= first_occurrences(pviews(points@)).len()
            },
            Err(e) => {
                &&& e == (ClusterError::InsufficientData {
                    requested: k,
                    distinct: first_occurrences(pviews(points@)).len() as usize,
                })
                &&& first_occurrences(pviews(points@)).len() < k
            },
        },
{
    let ghost ps = pviews(points@);
    let mut pool: Vec<Point> = Vec::new();
    let mut t: usize = 0;
    while t < points.len()
        invariant
            ps == pviews(points@),
            ps.len() == points@.len(),
            t <= points@.len(),
            pviews(pool@) == first_occurrences(ps.take(t as int)),
            pool@.len() <= t,
        decreases points@.len() - t,
    {
        proof {
            let q = ps.take(t + 1);
            assert(q.drop_last() =~= ps.take(t as int));
            assert(q.last() == ps[t as int]);
            assert(ps[t as int] == points@[t as int]@);
        }
        if !contains_point(&pool, &points[t]) {
            let p = points[t].clone();
            pool.push(p);
            proof {
                assert(pviews(pool@) =~= first_occurrences(ps.take(t as int)).push(
                    ps[t as int],
                ));
            }
        }
        t = t + 1;
    }
    proof {
        assert(ps.take(points@.len() as int) =~= ps);
    }
    if pool.len() < k {
        return Err(ClusterError::InsufficientData { requested: k, distinct: pool.len() });
    }
    proof {
        lemma_first_occurrences(ps);
        assert(forall|b: int|
            0 <= b < pool@.len() ==> first_occurrences(ps).contains(
                #[trigger] pviews(pool@)[b],
            ));
    }
    let mut chosen: Vec<Point> = Vec::new();
    while chosen.len() < k
        invariant
            ps == pviews(points@),
            pviews(chosen@).no_duplicates(),
            pviews(pool@).no_duplicates(),
            forall|a: int, b: int|
                0 <= a < chosen@.len() && 0 <= b < pool@.len() ==> pviews(chosen@)[a] != pviews(
                    pool@,
                )[b],
            forall|a: int| 0 <= a < chosen@.len() ==> ps.contains(#[trigger] pviews(chosen@)[a]),
            forall|b: int| 0 <= b < pool@.len() ==> ps.contains(#[trigger] pviews(pool@)[b]),
            chosen@.len() <= k,
            chosen@.len() + pool@.len() >= k,
        decreases k - chosen@.len(),
    {
        let r = rand::random::<usize>();
        let j = r % pool.len();
        let ghost oldpool = pviews(pool@);
        let ghost oldchosen = pviews(chosen@);
        let p = pool.remove(j);
        proof {
            oldpool.remove_ensures(j as int);
            assert(pviews(pool@) =~= oldpool.remove(j as int));
            assert(p@ == oldpool[j as int]);
            let newpool = pviews(pool@);
            assert forall|a: int, b: int|
                0 <= a < b < newpool.len() implies newpool[a] != newpool[b] by {
                assert(newpool[a] == if a < j as int {
                    oldpool[a]
                } else {
                    oldpool[a + 1]
                });
                assert(newpool[b] == if b < j as int {
                    oldpool[b]
                } else {
                    oldpool[b + 1]
                });
            }
            assert forall|b: int| 0 <= b < newpool.len() implies p@ != newpool[b] by {
                assert(newpool[b] == if b < j as int {
                    oldpool[b]
                } else {
                    oldpool[b + 1]
                });
            }
            assert forall|b: int| 0 <= b < newpool.len() implies ps.contains(
                #[trigger] newpool[b],
            ) by {
                assert(newpool[b] == if b < j as int {
                    oldpool[b]
                } else {
                    oldpool[b + 1]
                });
            }
        }
        chosen.push(p);
        proof {
            assert(pviews(chosen@) =~= oldchosen.push(p@));
            let newchosen = pviews(chosen@);
            let newpool = pviews(pool@);
            assert(forall|a: int| 0 <= a < oldchosen.len() ==> newchosen[a] == oldchosen[a]);
            assert(newchosen[newchosen.len() - 1] == p@);
            assert forall|a: int, b: int|
                0 <= a < b < newchosen.len() implies newchosen[a] != newchosen[b] by {
                if b < newchosen.len() - 1 {
                    assert(newchosen[a] == oldchosen[a] && newchosen[b] == oldchosen[b]);
                } else {
                    assert(newchosen[a] == oldchosen[a]);
                    assert(oldchosen[a] != oldpool[j as int]);
                }
            }
            assert(ps.contains(oldpool[j as int]));
        }
    }
    Ok(chosen)
}

/// The deterministic heart of the engine: from the given initial
/// centroids, repeat assignment and recomputation until no centroid
/// moves, or fail once more than `max_iters` recomputations have run.
/// On success the returned partition is the assignment under the
/// returned centroids, which one more recomputation no longer moves.
pub fn run_with_centroids(points: &Vec<Point>, init: Vec<Centroid>, max_iters: usize) -> (r:
    Result<(Vec<Vec<Point>>, Vec<Centroid>), ClusterError>)
    requires
        points@.len() <= MAX_POINTS,
        wf_pseq(pviews(points@)),
        init@.len() >= 1,
        wf_cseq(cviews(init@)),
        max_iters < usize::MAX,
    ensures
        match r {
            Ok(pc) => {
                &&& pc.0@.len() == init@.len()
                &&& pc.1@.len() == init@.len()
                &&& exists|n: nat|
                    n <= max_iters && #[trigger] converged_at(pviews(points@), cviews(init@), n)
                        && cviews(pc.1@) == iterate(pviews(points@), cviews(init@), n)
                &&& partition_views(pc.0@) == partition_of(pviews(points@), cviews(pc.1@))
                &&& is_run_result(
                    pviews(points@),
                    cviews(init@),
                    partition_views(pc.0@),
                    cviews(pc.1@),
                )
            },
            Err(e) => {
                &&& e == ClusterError::NoConvergence
                &&& forall|m: nat|
                    m <= max_iters ==> !converged(
                        pviews(points@),
                        #[trigger] iterate(pviews(points@), cviews(init@), m),
                    )
            },
        },
{
    let ghost ps = pviews(points@);
    let ghost cv0 = cviews(init@);
    let mut cur = init;
    let mut iters: usize = 0;
    while iters <= max_iters
        invariant
            ps == pviews(points@),
            cv0 == cviews(init@),
            points@.len() <= MAX_POINTS,
            wf_pseq(ps),
            cur@.len() == init@.len(),
            init@.len() >= 1,
            wf_cseq(cviews(cur@)),
            max_iters < usize::MAX,
            iters <= max_iters + 1,
            cviews(cur@) == iterate(ps, cv0, iters as nat),
            forall|m: nat| m < iters as nat ==> !converged(ps, #[trigger] iterate(ps, cv0, m)),
        decreases max_iters + 1 - iters,
    {
        let groups = assign_points(points, &cur);
        proof {
            assert forall|i: int|
                0 <= i < groups@.len() implies wf_pseq(pviews(#[trigger] groups@[i]@))
                && groups@[i]@.len() <= MAX_POINTS by {
                lemma_group_wf(ps, cviews(cur@), i);
                assert(pviews(groups@[i]@) == group_of(ps, cviews(cur@), i));
            }
        }
        let next = recompute_centroids(&groups, &cur);
        proof {
            assert forall|i: int|
                0 <= i < cviews(next@).len() implies cviews(next@)[i] == step(
                ps,
                cviews(cur@),
            )[i] by {
                assert(pviews(groups@[i]@) == group_of(ps, cviews(cur@), i));
            }
            assert(cviews(next@) =~= step(ps, cviews(cur@)));
        }
        if all_converged(&next, &cur) {
            proof {
                assert(converged(ps, cviews(cur@)));
                assert(converged_at(ps, cv0, iters as nat));
                assert forall|i: int|
                    0 <= i < partition_views(groups@).len() implies partition_views(groups@)[i]
                    == partition_of(ps, cviews(cur@))[i] by {
                    assert(pviews(groups@[i]@) == group_of(ps, cviews(cur@), i));
                }
                assert(partition_views(groups@) =~= partition_of(ps, cviews(cur@)));
            }
            return Ok((groups, cur));
        }
        cur = next;
        iters = iters + 1;
    }
    Err(ClusterError::NoConvergence)
}

/// A complete clustering run: draw `k` distinct initial centroids at
/// random from the input, then run the deterministic convergence loop.
/// Fails with `InsufficientData` exactly when fewer than `k` distinct
/// points exist, and with `NoConvergence` when the iteration cap is
/// passed; it never returns a partial partition.
pub fn run(points: &Vec<Point>, k: usize, max_iters: usize) -> (r: Result<
    Vec<Vec<Point>>,
    ClusterError,
>)
    requires
        k >= 1,
        points@.len() <= MAX_POINTS,
        wf_pseq(pviews(points@)),
        max_iters < usize::MAX,
    ensures
        match r {
            Ok(part) => {
                &&& part@.len() == k
                &&& k <= first_occurrences(pviews(points@)).len()
                &&& exists|iv: Seq<PointV>, fin: Seq<CentroidV>|
                    valid_init(iv, pviews(points@), k as int) && #[trigger] is_run_result(
                        pviews(points@),
                        cents_of(iv),
                        partition_views(part@),
                        fin,
                    )
            },
            Err(e) => match e {
                ClusterError::InsufficientData { requested, distinct } => {
                    &&& requested == k
                    &&& distinct == first_occurrences(pviews(points@)).len() as usize
                    &&& first_occurrences(pviews(points@)).len() < k
                },
                ClusterError::NoConvergence => {
                    &&& k <= first_occurrences(pviews(points@)).len()
                    &&& exists|iv: Seq<PointV>|
                        #[trigger] valid_init(iv, pviews(points@), k as int) && forall|m: nat|
                            m <= max_iters ==> !converged(
                                pviews(points@),
                                iterate(pviews(points@), cents_of(iv), m),
                            )
                },
            },
        },
{
    let ghost ps = pviews(points@);
    let chosen = match init_centroids(points, k) {
        Ok(c) => c,
        Err(e) => {
            return Err(e);
        },
    };
    let mut cents: Vec<Centroid> = Vec::new();
    let mut i: usize = 0;
    while i < chosen.len()
        invariant
            ps == pviews(points@),
            wf_pseq(ps),
            chosen@.len() == k,
            valid_init(pviews(chosen@), ps, k as int),
            i <= k,
            cents@.len() == i,
            forall|m: int|
                0 <= m < i ==> #[trigger] cviews(cents@)[m] == cent_of(pviews(chosen@)[m]),
        decreases chosen@.len() - i,
    {
        proof {
            assert(pviews(chosen@)[i as int] == chosen@[i as int]@);
        }
        let c = Centroid::from_point(&chosen[i]);
        let ghost oldc = cents@;
        cents.push(c);
        proof {
            assert forall|m: int|
                0 <= m < cents@.len() implies #[trigger] cviews(cents@)[m] == cent_of(
                pviews(chosen@)[m],
            ) by {
                assert(cviews(cents@)[m] == cents@[m]@);
                if m < oldc.len() {
                    assert(cents@[m] == oldc[m]);
                    assert(cviews(oldc)[m] == oldc[m]@);
                } else {
                    assert(cents@[m] == c);
                }
            }
        }
        i = i + 1;
    }
    let ghost icv = cviews(cents@);
    let ghost iv = pviews(chosen@);
    proof {
        assert forall|m: int| 0 <= m < icv.len() implies wf_ct(#[trigger] icv[m]) by {
            assert(icv[m] == cent_of(iv[m]));
            assert(ps.contains(iv[m]));
            let j = choose|j: int| 0 <= j < ps.len() && ps[j] == iv[m];
            assert(wf_pt(ps[j]));
        }
        assert(icv =~= cents_of(iv));
    }
    match run_with_centroids(points, cents, max_iters) {
        Ok((groups, fin)) => {
            proof {
                assert(valid_init(iv, ps, k as int));
                assert(is_run_result(
                    ps,
                    cents_of(iv),
                    partition_views(groups@),
                    cviews(fin@),
                ));
            }
            Ok(groups)
        },
        Err(_) => {
            proof {
                assert(valid_init(iv, ps, k as int));
            }
            Err(ClusterError::NoConvergence)
        },
    }
}

} // verus!

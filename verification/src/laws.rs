//! The global properties of the library, stated and proved once over the
//! model in [`crate::model`].
//!
//! Distances appear throughout in squared form, which loses nothing: the
//! squared distance is zero exactly when the distance is, and comparing
//! squared distances orders points exactly as the distances themselves
//! would.

use vstd::prelude::*;

use crate::arith::{lemma_square_nonneg, lemma_square_pos};
use crate::model::{
    assigned_to, cd2_num, cent_of, cents_of, ceq, closer, converged, converged_at, d2, group_of,
    first_occurrences, is_run_result, iterate, lemma_filter_push, lemma_filter_sub,
    lemma_nearest_upto_range, mean_of,
    mean_or_keep, nearest, nearest_upto, partition_of, step, total_len, CentroidV, PointV,
};
use crate::report::{count_of, mode_index, mode_upto};

verus! {

/// A squared distance is never negative.
pub proof fn lemma_distance_nonneg(a: PointV, b: PointV)
    ensures
        d2(a, b) >= 0,
{
    lemma_square_nonneg(a.lat - b.lat);
    lemma_square_nonneg(a.lon - b.lon);
}

/// The distance of a point to itself is zero; more precisely, the
/// distance between two points is zero exactly when their coordinates
/// coincide.
pub proof fn lemma_distance_zero(a: PointV, b: PointV)
    ensures
        d2(a, a) == 0,
        d2(a, b) == 0 <==> (a.lat == b.lat && a.lon == b.lon),
{
    assert(d2(a, a) == 0) by (nonlinear_arith);
    lemma_square_nonneg(a.lat - b.lat);
    lemma_square_nonneg(a.lon - b.lon);
    if a.lat != b.lat {
        lemma_square_pos(a.lat - b.lat);
    }
    if a.lon != b.lon {
        lemma_square_pos(a.lon - b.lon);
    }
}

/// Distance is symmetric.
pub proof fn lemma_distance_symmetric(a: PointV, b: PointV)
    ensures
        d2(a, b) == d2(b, a),
{
    assert(d2(a, b) == d2(b, a)) by (nonlinear_arith);
}

proof fn lemma_cauchy_schwarz(u1: int, u2: int, v1: int, v2: int)
    ensures
        (u1 * v1 + u2 * v2) * (u1 * v1 + u2 * v2) <= (u1 * u1 + u2 * u2) * (v1 * v1 + v2 * v2),
{
    let a = u1 * v1;
    let b = u2 * v2;
    let c = u1 * v2;
    let d = u2 * v1;
    assert(a * b == c * d) by (nonlinear_arith)
        requires
            a == u1 * v1,
            b == u2 * v2,
            c == u1 * v2,
            d == u2 * v1,
    ;
    let p1 = u1 * u1;
    let p2 = u2 * u2;
    let q1 = v1 * v1;
    let q2 = v2 * v2;
    assert((p1 + p2) * (q1 + q2) == p1 * q1 + p1 * q2 + p2 * q1 + p2 * q2) by (nonlinear_arith);
    assert(a * a == p1 * q1) by (nonlinear_arith)
        requires
            a == u1 * v1,
            p1 == u1 * u1,
            q1 == v1 * v1,
    ;
    assert(b * b == p2 * q2) by (nonlinear_arith)
        requires
            b == u2 * v2,
            p2 == u2 * u2,
            q2 == v2 * v2,
    ;
    assert(c * c == p1 * q2) by (nonlinear_arith)
        requires
            c == u1 * v2,
            p1 == u1 * u1,
            q2 == v2 * v2,
    ;
    assert(d * d == p2 * q1) by (nonlinear_arith)
        requires
            d == u2 * v1,
            p2 == u2 * u2,
            q1 == v1 * v1,
    ;
    assert((a + b) * (a + b) == a * a + b * b + 2 * (a * b)) by (nonlinear_arith);
    assert((c - d) * (c - d) == c * c + d * d - 2 * (c * d)) by (nonlinear_arith);
    lemma_square_nonneg(c - d);
}

/// The triangle inequality, in squared form: writing `x, y, z` for the
/// squared lengths of the sides `ac, ab, bc`, the Euclidean inequality
/// `sqrt(x) <= sqrt(y) + sqrt(z)` holds exactly when `x <= y + z`, or
/// `(x - y - z)^2 <= 4yz` otherwise.
pub proof fn lemma_distance_triangle(a: PointV, b: PointV, c: PointV)
    ensures
        d2(a, c) <= d2(a, b) + d2(b, c) || (d2(a, c) - d2(a, b) - d2(b, c)) * (d2(a, c) - d2(
            a,
            b,
        ) - d2(b, c)) <= 4 * (d2(a, b) * d2(b, c)),
{
    let u1 = b.lat - a.lat;
    let u2 = b.lon - a.lon;
    let v1 = c.lat - b.lat;
    let v2 = c.lon - b.lon;
    let s = u1 * v1 + u2 * v2;
    let x = d2(a, c);
    let y = d2(a, b);
    let z = d2(b, c);
    assert(y == u1 * u1 + u2 * u2 && z == v1 * v1 + v2 * v2 && x - y - z == 2 * s) by (nonlinear_arith)
        requires
            u1 == b.lat - a.lat,
            u2 == b.lon - a.lon,
            v1 == c.lat - b.lat,
            v2 == c.lon - b.lon,
            s == u1 * v1 + u2 * v2,
            x == (a.lat - c.lat) * (a.lat - c.lat) + (a.lon - c.lon) * (a.lon - c.lon),
            y == (a.lat - b.lat) * (a.lat - b.lat) + (a.lon - b.lon) * (a.lon - b.lon),
            z == (b.lat - c.lat) * (b.lat - c.lat) + (b.lon - c.lon) * (b.lon - c.lon),
    ;
    lemma_cauchy_schwarz(u1, u2, v1, v2);
    if x > y + z {
        assert((x - y - z) * (x - y - z) == 4 * (s * s)) by (nonlinear_arith)
            requires
                x - y - z == 2 * s,
        ;
        assert(4 * (s * s) <= 4 * ((u1 * u1 + u2 * u2) * (v1 * v1 + v2 * v2)));
    }
}

/// Partition completeness: under any centroids, every input point lands
/// in the group of its nearest centroid and in no other, and the group
/// sizes add up to the input size — each point is in exactly one group.
pub proof fn lemma_partition_complete(ps: Seq<PointV>, cs: Seq<CentroidV>)
    requires
        cs.len() >= 1,
    ensures
        forall|p: PointV|
            ps.contains(p) ==> 0 <= #[trigger] nearest(p, cs) < cs.len() && group_of(
                ps,
                cs,
                nearest(p, cs),
            ).contains(p),
        forall|i: int, p: PointV|
            0 <= i < cs.len() && #[trigger] group_of(ps, cs, i).contains(p) ==> ps.contains(p)
                && nearest(p, cs) == i,
        total_len(partition_of(ps, cs)) == ps.len(),
{
    assert forall|p: PointV| ps.contains(p) implies 0 <= #[trigger] nearest(p, cs) < cs.len()
        && group_of(ps, cs, nearest(p, cs)).contains(p) by {
        lemma_nearest_upto_range(p, cs, cs.len());
        let j = choose|j: int| 0 <= j < ps.len() && ps[j] == p;
        ps.lemma_filter_contains(assigned_to(cs, nearest(p, cs)), j);
    }
    assert forall|i: int, p: PointV|
        0 <= i < cs.len() && #[trigger] group_of(ps, cs, i).contains(p) implies ps.contains(p)
        && nearest(p, cs) == i by {
        lemma_filter_sub(ps, assigned_to(cs, i));
        let g = group_of(ps, cs, i);
        let m = choose|m: int| 0 <= m < g.len() && g[m] == p;
        ps.lemma_filter_pred(assigned_to(cs, i), m);
    }
    lemma_partition_count(ps, cs);
}

proof fn lemma_total_len_zero(part: Seq<Seq<PointV>>)
    requires
        forall|m: int| 0 <= m < part.len() ==> #[trigger] part[m].len() == 0,
    ensures
        total_len(part) == 0,
    decreases part.len(),
{
    if part.len() > 0 {
        lemma_total_len_zero(part.drop_last());
    }
}

proof fn lemma_total_len_eq(pa: Seq<Seq<PointV>>, pb: Seq<Seq<PointV>>)
    requires
        pa.len() == pb.len(),
        forall|m: int| 0 <= m < pa.len() ==> #[trigger] pb[m].len() == pa[m].len(),
    ensures
        total_len(pb) == total_len(pa),
    decreases pa.len(),
{
    if pa.len() > 0 {
        lemma_total_len_eq(pa.drop_last(), pb.drop_last());
    }
}

proof fn lemma_total_len_bump(pa: Seq<Seq<PointV>>, pb: Seq<Seq<PointV>>, j: int)
    requires
        pa.len() == pb.len(),
        0 <= j < pa.len(),
        pb[j].len() == pa[j].len() + 1,
        forall|m: int| 0 <= m < pa.len() && m != j ==> #[trigger] pb[m].len() == pa[m].len(),
    ensures
        total_len(pb) == total_len(pa) + 1,
    decreases pa.len(),
{
    if j == pa.len() - 1 {
        lemma_total_len_eq(pa.drop_last(), pb.drop_last());
    } else {
        lemma_total_len_bump(pa.drop_last(), pb.drop_last(), j);
    }
}

proof fn lemma_partition_count(ps: Seq<PointV>, cs: Seq<CentroidV>)
    requires
        cs.len() >= 1,
    ensures
        total_len(partition_of(ps, cs)) == ps.len(),
    decreases ps.len(),
{
    reveal(Seq::filter);
    if ps.len() == 0 {
        lemma_total_len_zero(partition_of(ps, cs));
    } else {
        let q = ps.drop_last();
        let x = ps.last();
        lemma_partition_count(q, cs);
        lemma_nearest_upto_range(x, cs, cs.len());
        let j = nearest(x, cs);
        assert forall|i: int| 0 <= i < cs.len() implies #[trigger] group_of(ps, cs, i)
            == if i == j {
            group_of(q, cs, i).push(x)
        } else {
            group_of(q, cs, i)
        } by {
            lemma_filter_push(q, assigned_to(cs, i), x);
            assert(q.push(x) =~= ps);
        }
        lemma_total_len_bump(partition_of(q, cs), partition_of(ps, cs), j);
    }
}

/// Convergence means what it says: once the engine reports convergence
/// under centroids `cs`, recomputing each cluster's centroid from the
/// returned partition gives back exactly the centroid it was assigned
/// under — their distance is zero for every cluster index.
pub proof fn lemma_convergence_recompute(ps: Seq<PointV>, cs: Seq<CentroidV>, i: int)
    requires
        converged(ps, cs),
        0 <= i < cs.len(),
    ensures
        ceq(mean_or_keep(group_of(ps, cs, i), cs[i]), cs[i]),
{
    assert(step(ps, cs)[i] == mean_or_keep(group_of(ps, cs, i), cs[i]));
}

/// Determinism: the assignment and recomputation steps are pure
/// functions of the current centroids, so two complete runs from the
/// same initial centroids return the same partition and the same final
/// centroids.
pub proof fn lemma_run_deterministic(
    ps: Seq<PointV>,
    init: Seq<CentroidV>,
    part1: Seq<Seq<PointV>>,
    fin1: Seq<CentroidV>,
    part2: Seq<Seq<PointV>>,
    fin2: Seq<CentroidV>,
)
    requires
        is_run_result(ps, init, part1, fin1),
        is_run_result(ps, init, part2, fin2),
    ensures
        part1 == part2,
        fin1 == fin2,
{
    let n1 = choose|n: nat|
        {
            &&& #[trigger] converged_at(ps, init, n)
            &&& fin1 == iterate(ps, init, n)
            &&& part1 == partition_of(ps, fin1)
        };
    let n2 = choose|n: nat|
        {
            &&& #[trigger] converged_at(ps, init, n)
            &&& fin2 == iterate(ps, init, n)
            &&& part2 == partition_of(ps, fin2)
        };
    if n1 < n2 {
        assert(!converged(ps, iterate(ps, init, n1)));
    }
    if n2 < n1 {
        assert(!converged(ps, iterate(ps, init, n2)));
    }
    assert(n1 == n2);
}

/// Strict transitivity of the cross-multiplied distance comparison:
/// if `p` is strictly closer to `x` than to `y`, and `z` is no closer
/// than `y`, then `p` is strictly closer to `x` than to `z`.
pub proof fn lemma_closer_strict_trans(p: PointV, x: CentroidV, y: CentroidV, z: CentroidV)
    requires
        x.den >= 1,
        y.den >= 1,
        z.den >= 1,
        closer(p, x, y),
        !closer(p, z, y),
    ensures
        closer(p, x, z),
{
    let xn = cd2_num(p, x);
    let yn = cd2_num(p, y);
    let zn = cd2_num(p, z);
    let dx = x.den * x.den;
    let dy = y.den * y.den;
    let dz = z.den * z.den;
    lemma_square_pos(x.den);
    lemma_square_pos(y.den);
    lemma_square_pos(z.den);
    vstd::arithmetic::mul::lemma_mul_strict_inequality(xn * dy, yn * dx, dz);
    vstd::arithmetic::mul::lemma_mul_inequality(yn * dz, zn * dy, dx);
    assert((xn * dy) * dz == (xn * dz) * dy) by (nonlinear_arith);
    assert((yn * dx) * dz == (yn * dz) * dx) by (nonlinear_arith);
    assert((zn * dy) * dx == (zn * dx) * dy) by (nonlinear_arith);
    vstd::arithmetic::mul::lemma_mul_strict_inequality_converse(xn * dz, zn * dx, dy);
}

proof fn lemma_nearest_first_min_upto(p: PointV, cs: Seq<CentroidV>, n: nat)
    requires
        crate::model::wf_cseq(cs),
        1 <= n <= cs.len(),
    ensures
        0 <= nearest_upto(p, cs, n) < n,
        forall|j: int|
            0 <= j < n ==> !closer(p, #[trigger] cs[j], cs[nearest_upto(p, cs, n)]),
        forall|j: int|
            0 <= j < nearest_upto(p, cs, n) ==> closer(p, cs[nearest_upto(p, cs, n)], #[trigger] cs[j]),
    decreases n,
{
    if n > 1 {
        lemma_nearest_first_min_upto(p, cs, (n - 1) as nat);
        let prev = nearest_upto(p, cs, (n - 1) as nat);
        let m = nearest_upto(p, cs, n);
        if closer(p, cs[n - 1], cs[prev]) {
            assert forall|j: int| 0 <= j < n - 1 implies closer(p, cs[m], #[trigger] cs[j]) by {
                if j != prev {
                    lemma_closer_strict_trans(p, cs[n - 1], cs[prev], cs[j]);
                }
            }
        }
    }
}

/// The assignment rule, declaratively: the chosen cluster index is the
/// first strict minimum of the distances to the centroids — no centroid
/// is strictly closer than the chosen one, and the chosen one is
/// strictly closer than every centroid before it (ties keep the
/// earliest index).
pub proof fn lemma_nearest_first_min(p: PointV, cs: Seq<CentroidV>)
    requires
        crate::model::wf_cseq(cs),
        cs.len() >= 1,
    ensures
        0 <= nearest(p, cs) < cs.len(),
        forall|j: int| 0 <= j < cs.len() ==> !closer(p, #[trigger] cs[j], cs[nearest(p, cs)]),
        forall|j: int|
            0 <= j < nearest(p, cs) ==> closer(p, cs[nearest(p, cs)], #[trigger] cs[j]),
{
    lemma_nearest_first_min_upto(p, cs, cs.len());
}

proof fn lemma_mode_first_max_upto(ls: Seq<Seq<char>>, f: Seq<Seq<char>>, n: nat)
    requires
        1 <= n <= f.len(),
    ensures
        0 <= mode_upto(ls, f, n) < n,
        forall|j: int|
            0 <= j < n ==> count_of(ls, #[trigger] f[j]) <= count_of(ls, f[mode_upto(ls, f, n)]),
        forall|j: int|
            0 <= j < mode_upto(ls, f, n) ==> count_of(ls, #[trigger] f[j]) < count_of(
                ls,
                f[mode_upto(ls, f, n)],
            ),
    decreases n,
{
    if n > 1 {
        lemma_mode_first_max_upto(ls, f, (n - 1) as nat);
    }
}

/// The reporter's tie-break, declaratively: the reported label has the
/// greatest occurrence count of all distinct labels, and every distinct
/// label seen before it has a strictly smaller count — on a tie the
/// label seen first wins.
pub proof fn lemma_mode_first_max(ls: Seq<Seq<char>>)
    requires
        ls.len() >= 1,
    ensures
        0 <= mode_index(ls) < first_occurrences(ls).len(),
        forall|j: int|
            0 <= j < first_occurrences(ls).len() ==> count_of(
                ls,
                #[trigger] first_occurrences(ls)[j],
            ) <= count_of(ls, first_occurrences(ls)[mode_index(ls)]),
        forall|j: int|
            0 <= j < mode_index(ls) ==> count_of(ls, #[trigger] first_occurrences(ls)[j])
                < count_of(ls, first_occurrences(ls)[mode_index(ls)]),
{
    crate::model::lemma_first_occurrences(ls);
    assert(ls.contains(ls[0]));
    assert(first_occurrences(ls).len() >= 1);
    lemma_mode_first_max_upto(ls, first_occurrences(ls), first_occurrences(ls).len());
}

/// Coordinates pairwise distinct: no two points share both coordinates.
pub open spec fn distinct_coords(ps: Seq<PointV>) -> bool {
    forall|i: int, j: int|
        0 <= i < j < ps.len() ==> (#[trigger] ps[i]).lat != (#[trigger] ps[j]).lat || ps[i].lon
            != ps[j].lon
}

proof fn lemma_d2_pos(ps: Seq<PointV>, i: int, j: int)
    requires
        distinct_coords(ps),
        0 <= i < ps.len(),
        0 <= j < ps.len(),
        i != j,
    ensures
        d2(ps[i], ps[j]) > 0,
{
    lemma_square_nonneg(ps[i].lat - ps[j].lat);
    lemma_square_nonneg(ps[i].lon - ps[j].lon);
    if ps[i].lat != ps[j].lat {
        lemma_square_pos(ps[i].lat - ps[j].lat);
    } else {
        lemma_square_pos(ps[i].lon - ps[j].lon);
    }
}

proof fn lemma_closer_points(p: PointV, q1: PointV, q2: PointV)
    ensures
        closer(p, cent_of(q1), cent_of(q2)) <==> d2(p, q1) < d2(p, q2),
{
    let c1 = cent_of(q1);
    let c2 = cent_of(q2);
    crate::arith::lemma_mul_one(c1.den, c1.den);
    crate::arith::lemma_mul_one(c2.den, c2.den);
    crate::arith::lemma_mul_one(p.lat, c1.den);
    crate::arith::lemma_mul_one(p.lon, c1.den);
    crate::arith::lemma_mul_one(p.lat, c2.den);
    crate::arith::lemma_mul_one(p.lon, c2.den);
    assert(cd2_num(p, c1) == d2(p, q1));
    assert(cd2_num(p, c2) == d2(p, q2));
    crate::arith::lemma_mul_one(cd2_num(p, c1), c2.den * c2.den);
    crate::arith::lemma_mul_one(cd2_num(p, c2), c1.den * c1.den);
}

proof fn lemma_nearest_self_upto(ps: Seq<PointV>, j: int, n: nat)
    requires
        distinct_coords(ps),
        0 <= j < ps.len(),
        1 <= n <= ps.len(),
    ensures
        n <= j ==> 0 <= nearest_upto(ps[j], cents_of(ps), n) < n,
        n > j ==> nearest_upto(ps[j], cents_of(ps), n) == j,
    decreases n,
{
    let cs = cents_of(ps);
    let p = ps[j];
    lemma_distance_zero(p, p);
    if n > 1 {
        lemma_nearest_self_upto(ps, j, (n - 1) as nat);
        lemma_nearest_upto_range(p, cs, (n - 1) as nat);
        let prev = nearest_upto(p, cs, (n - 1) as nat);
        assert(cs[n - 1] == cent_of(ps[n - 1]));
        assert(cs[prev] == cent_of(ps[prev]));
        lemma_closer_points(p, ps[n - 1], ps[prev]);
        if n - 1 == j {
            lemma_d2_pos(ps, j, prev);
        } else if n - 1 > j {
            lemma_d2_pos(ps, j, n - 1);
        }
    }
}

proof fn lemma_group_single_upto(ps: Seq<PointV>, iv: Seq<PointV>, i: int, t: int)
    requires
        distinct_coords(ps),
        distinct_coords(iv),
        0 <= i < iv.len(),
        0 <= t <= ps.len(),
        forall|m: int| 0 <= m < ps.len() ==> iv.contains(#[trigger] ps[m]),
        forall|m: int, j: int|
            0 <= m < ps.len() && 0 <= j < iv.len() && #[trigger] ps[m] == #[trigger] iv[j]
                ==> nearest(ps[m], cents_of(iv)) == j,
    ensures
        group_of(ps.take(t), cents_of(iv), i) == if ps.take(t).contains(iv[i]) {
            seq![iv[i]]
        } else {
            Seq::<PointV>::empty()
        },
    decreases t,
{
    reveal(Seq::filter);
    let cs = cents_of(iv);
    if t == 0 {
        assert(ps.take(0) =~= Seq::<PointV>::empty());
        assert(group_of(ps.take(0), cs, i) =~= Seq::<PointV>::empty());
        assert(!ps.take(0).contains(iv[i]));
    } else {
        lemma_group_single_upto(ps, iv, i, t - 1);
        lemma_filter_push(ps.take(t - 1), assigned_to(cs, i), ps[t - 1]);
        assert(ps.take(t) =~= ps.take(t - 1).push(ps[t - 1]));
        let x = ps[t - 1];
        let j = choose|j: int| 0 <= j < iv.len() && iv[j] == x;
        assert(iv.contains(x));
        assert(0 <= j < iv.len() && iv[j] == x);
        assert(nearest(x, cs) == j);
        let prev = ps.take(t - 1);
        let cur = ps.take(t);
        if x == iv[i] {
            assert(assigned_to(cs, i)(x));
            if prev.contains(iv[i]) {
                let m = choose|m: int| 0 <= m < prev.len() && #[trigger] prev[m] == iv[i];
                assert(ps[m] == ps[t - 1]);
                assert(false);
            }
            assert(group_of(cur, cs, i) =~= seq![iv[i]]);
            assert(cur[t - 1] == iv[i]);
            assert(cur.contains(iv[i]));
        } else {
            assert(!assigned_to(cs, i)(x));
            if cur.contains(iv[i]) {
                let m = choose|m: int| 0 <= m < cur.len() && #[trigger] cur[m] == iv[i];
                assert(m < t - 1);
                assert(prev[m] == iv[i]);
                assert(prev.contains(iv[i]));
            }
            if prev.contains(iv[i]) {
                let m = choose|m: int| 0 <= m < prev.len() && #[trigger] prev[m] == iv[i];
                assert(cur[m] == iv[i]);
                assert(cur.contains(iv[i]));
            }
        }
    }
}

/// Boundary case: when the initial centroids are the input points
/// themselves — in any order, as a random draw of `k` equal to the number
/// of points gives — and no two points share coordinates, the first
/// assignment already matches the centroids exactly: the run converges
/// with zero recomputation steps and cluster `i` holds exactly the point
/// its centroid was drawn from.
pub proof fn lemma_one_point_per_cluster(ps: Seq<PointV>, iv: Seq<PointV>)
    requires
        ps.len() >= 1,
        distinct_coords(ps),
        iv.len() == ps.len(),
        iv.no_duplicates(),
        forall|m: int| 0 <= m < ps.len() ==> iv.contains(#[trigger] ps[m]),
        forall|m: int| 0 <= m < iv.len() ==> ps.contains(#[trigger] iv[m]),
    ensures
        converged_at(ps, cents_of(iv), 0),
        forall|i: int|
            0 <= i < iv.len() ==> #[trigger] partition_of(ps, cents_of(iv))[i] == seq![iv[i]],
{
    let cs = cents_of(iv);
    assert(distinct_coords(iv)) by {
        assert forall|a: int, b: int|
            0 <= a < b < iv.len() implies (#[trigger] iv[a]).lat != (#[trigger] iv[b]).lat
            || iv[a].lon != iv[b].lon by {
            let pa = choose|m: int| 0 <= m < ps.len() && ps[m] == iv[a];
            let pb = choose|m: int| 0 <= m < ps.len() && ps[m] == iv[b];
            assert(ps.contains(iv[a]) && ps.contains(iv[b]));
            if iv[a].lat == iv[b].lat && iv[a].lon == iv[b].lon {
                assert(iv[a] != iv[b]);
                assert(pa != pb);
                assert(ps[pa].lat != ps[pb].lat || ps[pa].lon != ps[pb].lon);
                assert(false);
            }
        }
    }
    assert forall|m: int, j: int|
        0 <= m < ps.len() && 0 <= j < iv.len() && #[trigger] ps[m] == #[trigger] iv[j] implies
        nearest(ps[m], cs) == j by {
        lemma_nearest_self_upto(iv, j, iv.len());
    }
    assert forall|i: int|
        0 <= i < iv.len() implies #[trigger] group_of(ps, cs, i) == seq![iv[i]] by {
        lemma_group_single_upto(ps, iv, i, ps.len() as int);
        assert(ps.take(ps.len() as int) =~= ps);
        assert(ps.contains(iv[i]));
    }
    assert forall|i: int| 0 <= i < cs.len() implies ceq(#[trigger] step(ps, cs)[i], cs[i]) by {
        let g = group_of(ps, cs, i);
        assert(g == seq![iv[i]]);
        assert(g.drop_last() =~= Seq::<PointV>::empty());
        assert(crate::model::sum_lat(Seq::<PointV>::empty()) == 0);
        assert(crate::model::sum_lon(Seq::<PointV>::empty()) == 0);
        assert(g.last() == iv[i]);
        assert(crate::model::sum_lat(g) == iv[i].lat);
        assert(crate::model::sum_lon(g) == iv[i].lon);
        assert(mean_of(g) == cent_of(iv[i]));
        assert(cs[i] == cent_of(iv[i]));
        assert(step(ps, cs)[i] == mean_or_keep(g, cs[i]));
    }
    assert(converged(ps, cs));
}

} // verus!

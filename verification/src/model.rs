//! The mathematical model of the clustering engine.
//!
//! Points are modelled by [`PointV`]: integer fixed-point coordinates plus
//! two label character sequences.  A centroid is modelled by [`CentroidV`]
//! as an exact rational per coordinate: `num_lat / den` and `num_lon / den`,
//! with `den` the number of points the centroid averages (an initial
//! centroid is a point with `den == 1`).  All comparisons between such
//! rationals are stated by cross-multiplication, so the model never leaves
//! the integers.

use vstd::prelude::*;

verus! {

/// Fixed-point coordinates must stay within this bound so that every
/// intermediate product of the engine fits in the machine integers used by
/// the executable code.
pub const COORD_LIMIT: i64 = 200_000_000;

/// The engine handles at most this many points, for the same reason.
pub const MAX_POINTS: usize = 100_000;

/// Model of a record: coordinates and two categorical labels.
pub ghost struct PointV {
    pub lat: int,
    pub lon: int,
    pub weapon: Seq<char>,
    pub race: Seq<char>,
}

/// Model of a centroid: the exact rational pair
/// `(num_lat / den, num_lon / den)`.
pub ghost struct CentroidV {
    pub num_lat: int,
    pub num_lon: int,
    pub den: int,
}

/// The centroid sitting exactly on a point.
pub open spec fn cent_of(p: PointV) -> CentroidV {
    CentroidV { num_lat: p.lat, num_lon: p.lon, den: 1 }
}

/// The centroids sitting exactly on a sequence of points.
pub open spec fn cents_of(iv: Seq<PointV>) -> Seq<CentroidV> {
    iv.map_values(|q: PointV| cent_of(q))
}

pub open spec fn wf_pt(p: PointV) -> bool {
    &&& -(COORD_LIMIT as int) <= p.lat <= COORD_LIMIT as int
    &&& -(COORD_LIMIT as int) <= p.lon <= COORD_LIMIT as int
}

pub open spec fn wf_ct(c: CentroidV) -> bool {
    &&& 1 <= c.den <= MAX_POINTS as int
    &&& -(c.den * (COORD_LIMIT as int)) <= c.num_lat <= c.den * (COORD_LIMIT as int)
    &&& -(c.den * (COORD_LIMIT as int)) <= c.num_lon <= c.den * (COORD_LIMIT as int)
}

pub open spec fn wf_pseq(ps: Seq<PointV>) -> bool {
    forall|i: int| 0 <= i < ps.len() ==> wf_pt(#[trigger] ps[i])
}

pub open spec fn wf_cseq(cs: Seq<CentroidV>) -> bool {
    forall|i: int| 0 <= i < cs.len() ==> wf_ct(#[trigger] cs[i])
}

/// Squared Euclidean distance between two points.
pub open spec fn d2(a: PointV, b: PointV) -> int {
    (a.lat - b.lat) * (a.lat - b.lat) + (a.lon - b.lon) * (a.lon - b.lon)
}

/// Numerator of the squared distance between a point and a centroid: the
/// squared distance itself is `cd2_num(p, c) / (c.den * c.den)`.
pub open spec fn cd2_num(p: PointV, c: CentroidV) -> int {
    let dl = p.lat * c.den - c.num_lat;
    let dn = p.lon * c.den - c.num_lon;
    dl * dl + dn * dn
}

/// `p` is strictly closer to `c1` than to `c2`, by cross-multiplying the
/// two rational squared distances.
pub open spec fn closer(p: PointV, c1: CentroidV, c2: CentroidV) -> bool {
    cd2_num(p, c1) * (c2.den * c2.den) < cd2_num(p, c2) * (c1.den * c1.den)
}

/// Index of the centroid nearest to `p` among the first `n` of `cs`,
/// scanning left to right and keeping the first minimum (a later centroid
/// wins only when strictly closer).
pub open spec fn nearest_upto(p: PointV, cs: Seq<CentroidV>, n: nat) -> int
    decreases n,
{
    if n <= 1 {
        0
    } else {
        let prev = nearest_upto(p, cs, (n - 1) as nat);
        if closer(p, cs[n - 1], cs[prev]) {
            n - 1
        } else {
            prev
        }
    }
}

/// Index of the nearest centroid with the first-wins tie-break.
pub open spec fn nearest(p: PointV, cs: Seq<CentroidV>) -> int {
    nearest_upto(p, cs, cs.len())
}

/// Membership test of cluster `i`: the points whose nearest centroid is
/// the `i`-th.
pub open spec fn assigned_to(cs: Seq<CentroidV>, i: int) -> spec_fn(PointV) -> bool {
    |q: PointV| nearest(q, cs) == i
}

/// The points assigned to cluster `i`, in input order.
pub open spec fn group_of(ps: Seq<PointV>, cs: Seq<CentroidV>, i: int) -> Seq<PointV> {
    ps.filter(assigned_to(cs, i))
}

/// The whole partition under centroids `cs`: one group per cluster index.
pub open spec fn partition_of(ps: Seq<PointV>, cs: Seq<CentroidV>) -> Seq<Seq<PointV>> {
    Seq::new(cs.len(), |i: int| group_of(ps, cs, i))
}

pub open spec fn sum_lat(g: Seq<PointV>) -> int
    decreases g.len(),
{
    if g.len() == 0 {
        0
    } else {
        sum_lat(g.drop_last()) + g.last().lat
    }
}

pub open spec fn sum_lon(g: Seq<PointV>) -> int
    decreases g.len(),
{
    if g.len() == 0 {
        0
    } else {
        sum_lon(g.drop_last()) + g.last().lon
    }
}

/// The exact componentwise mean of a nonempty group.
pub open spec fn mean_of(g: Seq<PointV>) -> CentroidV {
    CentroidV { num_lat: sum_lat(g), num_lon: sum_lon(g), den: g.len() as int }
}

/// Centroid recomputation for one cluster.  An empty cluster keeps its
/// previous centroid unchanged (the engine's documented empty-cluster
/// policy); a nonempty one moves to the exact mean of its members.
pub open spec fn mean_or_keep(g: Seq<PointV>, prev: CentroidV) -> CentroidV {
    if g.len() == 0 {
        prev
    } else {
        mean_of(g)
    }
}

/// One full iteration: assign every point to its nearest centroid, then
/// recompute every centroid from its cluster.
pub open spec fn step(ps: Seq<PointV>, cs: Seq<CentroidV>) -> Seq<CentroidV> {
    Seq::new(cs.len(), |i: int| mean_or_keep(group_of(ps, cs, i), cs[i]))
}

/// The two centroids denote the same rational coordinates.
pub open spec fn ceq(a: CentroidV, b: CentroidV) -> bool {
    &&& a.num_lat * b.den == b.num_lat * a.den
    &&& a.num_lon * b.den == b.num_lon * a.den
}

pub open spec fn all_ceq(a: Seq<CentroidV>, b: Seq<CentroidV>) -> bool {
    &&& a.len() == b.len()
    &&& forall|i: int| 0 <= i < a.len() ==> ceq(#[trigger] a[i], b[i])
}

/// Convergence: recomputing the centroids moves none of them.  Because the
/// distance between equal coordinates is zero and only then, this is the
/// "every old-to-new centroid distance is exactly zero" test.
pub open spec fn converged(ps: Seq<PointV>, cs: Seq<CentroidV>) -> bool {
    all_ceq(step(ps, cs), cs)
}

/// The centroids after `n` iterations from `cs`.
pub open spec fn iterate(ps: Seq<PointV>, cs: Seq<CentroidV>, n: nat) -> Seq<CentroidV>
    decreases n,
{
    if n == 0 {
        cs
    } else {
        step(ps, iterate(ps, cs, (n - 1) as nat))
    }
}

/// `n` is the first iteration count at which the run converges.
pub open spec fn converged_at(ps: Seq<PointV>, cs: Seq<CentroidV>, n: nat) -> bool {
    &&& converged(ps, iterate(ps, cs, n))
    &&& forall|m: nat| m < n ==> !converged(ps, #[trigger] iterate(ps, cs, m))
}

/// What a complete deterministic run from initial centroids `init` returns:
/// the centroids of the first converged iteration and the partition of the
/// points under them.
pub open spec fn is_run_result(
    ps: Seq<PointV>,
    init: Seq<CentroidV>,
    part: Seq<Seq<PointV>>,
    fin: Seq<CentroidV>,
) -> bool {
    exists|n: nat|
        {
            &&& #[trigger] converged_at(ps, init, n)
            &&& fin == iterate(ps, init, n)
            &&& part == partition_of(ps, fin)
        }
}

/// Total number of points across all groups of a partition.
pub open spec fn total_len(part: Seq<Seq<PointV>>) -> int
    decreases part.len(),
{
    if part.len() == 0 {
        0
    } else {
        total_len(part.drop_last()) + part.last().len()
    }
}

/// The distinct values of `s`, each at its first occurrence, in order.
pub open spec fn first_occurrences<A>(s: Seq<A>) -> Seq<A>
    decreases s.len(),
{
    if s.len() == 0 {
        Seq::empty()
    } else {
        let prefix = first_occurrences(s.drop_last());
        if prefix.contains(s.last()) {
            prefix
        } else {
            prefix.push(s.last())
        }
    }
}

/// A legal random initialization: `k` pairwise distinct points drawn from
/// the input.
pub open spec fn valid_init(iv: Seq<PointV>, ps: Seq<PointV>, k: int) -> bool {
    &&& iv.len() == k
    &&& iv.no_duplicates()
    &&& forall|i: int| 0 <= i < iv.len() ==> ps.contains(#[trigger] iv[i])
}

/// Filtering a sequence extended by one element keeps the filtered prefix
/// and appends the new element exactly when it satisfies the predicate.
pub proof fn lemma_filter_push<A>(s: Seq<A>, pred: spec_fn(A) -> bool, x: A)
    ensures
        s.push(x).filter(pred) == if pred(x) {
            s.filter(pred).push(x)
        } else {
            s.filter(pred)
        },
{
    reveal(Seq::filter);
    assert(s.push(x).drop_last() =~= s);
    assert(s.push(x).last() == x);
}

/// Every element of a filtered sequence is an element of the sequence it
/// was filtered from.
pub proof fn lemma_filter_sub<A>(s: Seq<A>, pred: spec_fn(A) -> bool)
    ensures
        forall|x: A| #[trigger] s.filter(pred).contains(x) ==> s.contains(x),
    decreases s.len(),
{
    reveal(Seq::filter);
    if s.len() > 0 {
        lemma_filter_sub(s.drop_last(), pred);
        assert forall|x: A| #[trigger] s.filter(pred).contains(x) implies s.contains(x) by {
            if s.drop_last().filter(pred).contains(x) {
                assert(s.drop_last().contains(x));
                let j = choose|j: int|
                    0 <= j < s.drop_last().len() && s.drop_last()[j] == x;
                assert(s[j] == x);
            } else {
                assert(x == s.last());
                assert(s[s.len() - 1] == x);
            }
        }
    }
}

/// Every cluster of well-formed points is itself well formed and no larger
/// than its input.
pub proof fn lemma_group_wf(ps: Seq<PointV>, cs: Seq<CentroidV>, i: int)
    requires
        wf_pseq(ps),
    ensures
        wf_pseq(group_of(ps, cs, i)),
        group_of(ps, cs, i).len() <= ps.len(),
{
    let g = group_of(ps, cs, i);
    ps.lemma_filter_len(assigned_to(cs, i));
    lemma_filter_sub(ps, assigned_to(cs, i));
    assert forall|j: int| 0 <= j < g.len() implies wf_pt(#[trigger] g[j]) by {
        assert(g.contains(g[j]));
        assert(ps.contains(g[j]));
        let m = choose|m: int| 0 <= m < ps.len() && ps[m] == g[j];
        assert(wf_pt(ps[m]));
    }
}

/// The coordinate sums of a well-formed group are bounded by the group
/// size times the coordinate limit.
pub proof fn lemma_sum_bounds(g: Seq<PointV>)
    requires
        wf_pseq(g),
    ensures
        -(g.len() * (COORD_LIMIT as int)) <= sum_lat(g) <= g.len() * (COORD_LIMIT as int),
        -(g.len() * (COORD_LIMIT as int)) <= sum_lon(g) <= g.len() * (COORD_LIMIT as int),
    decreases g.len(),
{
    if g.len() > 0 {
        assert(wf_pseq(g.drop_last())) by {
            assert(forall|j: int|
                0 <= j < g.drop_last().len() ==> #[trigger] g.drop_last()[j] == g[j]);
        }
        lemma_sum_bounds(g.drop_last());
        assert(wf_pt(g[g.len() - 1]));
    }
}

/// The recomputed centroid of a well-formed cluster is well formed.
pub proof fn lemma_mean_wf(g: Seq<PointV>, prev: CentroidV)
    requires
        wf_pseq(g),
        g.len() <= MAX_POINTS as int,
        wf_ct(prev),
    ensures
        wf_ct(mean_or_keep(g, prev)),
{
    if g.len() > 0 {
        lemma_sum_bounds(g);
    }
}

/// The nearest-centroid index always falls inside the scanned prefix.
pub proof fn lemma_nearest_upto_range(p: PointV, cs: Seq<CentroidV>, n: nat)
    requires
        n >= 1,
    ensures
        0 <= nearest_upto(p, cs, n) < n,
    decreases n,
{
    if n > 1 {
        lemma_nearest_upto_range(p, cs, (n - 1) as nat);
    }
}

/// The distinct-value list has no duplicates and holds exactly the values
/// of the sequence it was drawn from.
pub proof fn lemma_first_occurrences<A>(s: Seq<A>)
    ensures
        first_occurrences(s).no_duplicates(),
        forall|x: A| first_occurrences(s).contains(x) <==> s.contains(x),
    decreases s.len(),
{
    if s.len() > 0 {
        lemma_first_occurrences(s.drop_last());
        let prefix = first_occurrences(s.drop_last());
        let f = first_occurrences(s);
        assert forall|x: A| f.contains(x) implies s.contains(x) by {
            if prefix.contains(x) {
                assert(s.drop_last().contains(x));
                let j = choose|j: int|
                    0 <= j < s.drop_last().len() && s.drop_last()[j] == x;
                assert(s[j] == x);
            } else {
                assert(x == s.last());
                assert(s[s.len() - 1] == x);
            }
        }
        assert forall|x: A| s.contains(x) implies f.contains(x) by {
            let j = choose|j: int| 0 <= j < s.len() && s[j] == x;
            if j < s.len() - 1 {
                assert(s.drop_last()[j] == x);
                assert(s.drop_last().contains(x));
                assert(prefix.contains(x));
                if !prefix.contains(s.last()) {
                    assert(f == prefix.push(s.last()));
                    let m = choose|m: int| 0 <= m < prefix.len() && prefix[m] == x;
                    assert(f[m] == x);
                }
            } else {
                assert(x == s.last());
                if prefix.contains(x) {
                    if !prefix.contains(s.last()) {
                        assert(false);
                    }
                } else {
                    assert(f == prefix.push(x));
                    assert(f[f.len() - 1] == x);
                }
            }
        }
        if !prefix.contains(s.last()) {
            assert(f == prefix.push(s.last()));
            assert forall|i: int, j: int|
                0 <= i < f.len() && 0 <= j < f.len() && i != j implies f[i] != f[j] by {
                if i < f.len() - 1 && j < f.len() - 1 {
                    assert(f[i] == prefix[i] && f[j] == prefix[j]);
                } else if i == f.len() - 1 {
                    assert(f[j] == prefix[j]);
                    assert(prefix.contains(prefix[j]));
                } else {
                    assert(f[i] == prefix[i]);
                    assert(prefix.contains(prefix[i]));
                }
            }
        }
    }
}

} // verus!

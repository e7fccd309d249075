//! The executable record and centroid types.
//!
//! Coordinates are fixed-point integers: a caller scales latitude and
//! longitude by a constant factor of its choice before building points.
//! Everything the engine computes from them (distance comparisons, means,
//! the convergence test) is exact, so no precision is lost past that
//! initial scaling.

use vstd::prelude::*;

use crate::arith::lemma_mul_bounds;
use crate::model::{
    cd2_num, cent_of, closer, d2, wf_ct, wf_pt, CentroidV, PointV, COORD_LIMIT, MAX_POINTS,
};

verus! {

/// An immutable incident record: fixed-point coordinates plus two
/// categorical labels.
#[derive(Debug)]
pub struct Point {
    pub lat: i64,
    pub lon: i64,
    pub weapon: String,
    pub race: String,
}

impl View for Point {
    type V = PointV;

    open spec fn view(&self) -> PointV {
        PointV {
            lat: self.lat as int,
            lon: self.lon as int,
            weapon: self.weapon@,
            race: self.race@,
        }
    }
}

impl Clone for Point {
    fn clone(&self) -> (r: Self)
        ensures
            r@ == self@,
    {
        Point {
            lat: self.lat,
            lon: self.lon,
            weapon: self.weapon.clone(),
            race: self.race.clone(),
        }
    }
}

impl Point {
    /// Builds a record from already validated plain values.
    pub fn new(lat: i64, lon: i64, weapon: String, race: String) -> (r: Self)
        requires
            -COORD_LIMIT <= lat <= COORD_LIMIT,
            -COORD_LIMIT <= lon <= COORD_LIMIT,
        ensures
            r@ == (PointV { lat: lat as int, lon: lon as int, weapon: weapon@, race: race@ }),
            wf_pt(r@),
    {
        Point { lat, lon, weapon, race }
    }
}

/// Structural equality of two records: all four fields equal.
pub fn point_eq(a: &Point, b: &Point) -> (r: bool)
    ensures
        r == (a@ == b@),
{
    a.lat == b.lat && a.lon == b.lon && a.weapon == b.weapon && a.race == b.race
}

/// A cluster centroid, kept as the exact rational pair
/// `(lat_sum / count, lon_sum / count)` of the mean it denotes.
#[derive(Debug, Clone, Copy, PartialEq, Eq, Structural)]
pub struct Centroid {
    pub lat_sum: i64,
    pub lon_sum: i64,
    pub count: usize,
}

impl View for Centroid {
    type V = CentroidV;

    open spec fn view(&self) -> CentroidV {
        CentroidV {
            num_lat: self.lat_sum as int,
            num_lon: self.lon_sum as int,
            den: self.count as int,
        }
    }
}

impl Centroid {
    /// The centroid sitting exactly on a point.
    pub fn from_point(p: &Point) -> (r: Self)
        ensures
            r@ == cent_of(p@),
    {
        Centroid { lat_sum: p.lat, lon_sum: p.lon, count: 1 }
    }

    /// Whether two centroids denote exactly the same coordinates; this is
    /// the "distance between them is exactly zero" test of the
    /// convergence check.
    pub fn coords_equal(&self, other: &Centroid) -> (r: bool)
        requires
            wf_ct(self@),
            wf_ct(other@),
        ensures
            r == crate::model::ceq(self@, other@),
    {
        proof {
            let bound = (MAX_POINTS as int) * (COORD_LIMIT as int);
            lemma_mul_bounds(self@.num_lat, other@.den, bound, MAX_POINTS as int);
            lemma_mul_bounds(other@.num_lat, self@.den, bound, MAX_POINTS as int);
            lemma_mul_bounds(self@.num_lon, other@.den, bound, MAX_POINTS as int);
            lemma_mul_bounds(other@.num_lon, self@.den, bound, MAX_POINTS as int);
        }
        let a_lat = (self.lat_sum as i128) * (other.count as i128);
        let b_lat = (other.lat_sum as i128) * (self.count as i128);
        let a_lon = (self.lon_sum as i128) * (other.count as i128);
        let b_lon = (other.lon_sum as i128) * (self.count as i128);
        a_lat == b_lat && a_lon == b_lon
    }
}

/// The views of a sequence of records.
pub open spec fn pviews(ps: Seq<Point>) -> Seq<PointV> {
    ps.map_values(|p: Point| p@)
}

/// The views of a sequence of centroids.
pub open spec fn cviews(cs: Seq<Centroid>) -> Seq<CentroidV> {
    cs.map_values(|c: Centroid| c@)
}

/// The views of a partition: one point-view sequence per cluster.
pub open spec fn partition_views(gs: Seq<Vec<Point>>) -> Seq<Seq<PointV>> {
    gs.map_values(|g: Vec<Point>| pviews(g@))
}

/// Squared Euclidean distance between two records, exactly.  Comparing
/// squared distances orders points exactly as comparing the Euclidean
/// distances themselves would, and a squared distance is zero exactly when
/// the distance is.
pub fn distance_squared(a: &Point, b: &Point) -> (r: i64)
    requires
        wf_pt(a@),
        wf_pt(b@),
    ensures
        r == d2(a@, b@),
        r >= 0,
{
    proof {
        let db: int = 400_000_000;
        assert(db == 2 * (COORD_LIMIT as int));
        let dl = a@.lat - b@.lat;
        let dn = a@.lon - b@.lon;
        lemma_mul_bounds(dl, dl, db, db);
        lemma_mul_bounds(dn, dn, db, db);
        crate::arith::lemma_square_nonneg(dl);
        crate::arith::lemma_square_nonneg(dn);
        assert(db * db == 160_000_000_000_000_000);
    }
    let dlat: i64 = a.lat - b.lat;
    let dlon: i64 = a.lon - b.lon;
    dlat * dlat + dlon * dlon
}

/// Numerator of the squared distance from a point to a centroid, over the
/// common denominator `count * count`.
pub fn centroid_dist_num(p: &Point, c: &Centroid) -> (r: i128)
    requires
        wf_pt(p@),
        wf_ct(c@),
    ensures
        r == cd2_num(p@, c@),
        0 <= r <= 3_200_000_000_000_000_000_000_000_000,
{
    proof {
        let db: int = 40_000_000_000_000;
        assert(db == 2 * (MAX_POINTS as int) * (COORD_LIMIT as int));
        lemma_mul_bounds(p@.lat, c@.den, COORD_LIMIT as int, MAX_POINTS as int);
        lemma_mul_bounds(p@.lon, c@.den, COORD_LIMIT as int, MAX_POINTS as int);
        let dl = p@.lat * c@.den - c@.num_lat;
        let dn = p@.lon * c@.den - c@.num_lon;
        lemma_mul_bounds(dl, dl, db, db);
        lemma_mul_bounds(dn, dn, db, db);
        crate::arith::lemma_square_nonneg(dl);
        crate::arith::lemma_square_nonneg(dn);
    }
    let dl: i128 = (p.lat as i128) * (c.count as i128) - (c.lat_sum as i128);
    let dn: i128 = (p.lon as i128) * (c.count as i128) - (c.lon_sum as i128);
    dl * dl + dn * dn
}

/// Whether `p` is strictly closer to `c1` than to `c2`, by exact
/// cross-multiplied comparison of the two rational squared distances.
pub fn closer_exec(p: &Point, c1: &Centroid, c2: &Centroid) -> (r: bool)
    requires
        wf_pt(p@),
        wf_ct(c1@),
        wf_ct(c2@),
    ensures
        r == closer(p@, c1@, c2@),
{
    let d1 = centroid_dist_num(p, c1);
    let d2v = centroid_dist_num(p, c2);
    let den1 = c1.count as i128;
    let den2 = c2.count as i128;
    proof {
        let numbound: int = 3_200_000_000_000_000_000_000_000_000;
        let denbound: int = 10_000_000_000;
        assert(denbound == (MAX_POINTS as int) * (MAX_POINTS as int));
        lemma_mul_bounds(c1@.den, c1@.den, MAX_POINTS as int, MAX_POINTS as int);
        lemma_mul_bounds(c2@.den, c2@.den, MAX_POINTS as int, MAX_POINTS as int);
        lemma_mul_bounds(cd2_num(p@, c1@), c2@.den * c2@.den, numbound, denbound);
        lemma_mul_bounds(cd2_num(p@, c2@), c1@.den * c1@.den, numbound, denbound);
    }
    d1 * (den2 * den2) < d2v * (den1 * den1)
}

} // verus!

//! Per-cluster categorical statistics: the most frequent weapon and race
//! labels of a cluster, with counts.
//!
//! The winning label is the one with the strictly greatest number of
//! occurrences; on a tie the label seen first in the cluster wins, because
//! a later label replaces the current best only when its count is
//! strictly greater.

use vstd::prelude::*;

use crate::model::{first_occurrences, lemma_filter_push, lemma_first_occurrences};
use crate::point::Point;

verus! {

/// A record reduced to its two categorical labels.
pub struct DataObject {
    pub weapon: String,
    pub race: String,
}

impl DataObject {
    /// The labels of one record.
    pub fn from(dp: &Point) -> (r: Self)
        ensures
            r.weapon@ == dp@.weapon,
            r.race@ == dp@.race,
    {
        DataObject { weapon: dp.weapon.clone(), race: dp.race.clone() }
    }
}

/// The labels of every record of a cluster, in cluster order.
pub fn data_objects(cluster: &Vec<Point>) -> (r: Vec<DataObject>)
    ensures
        r@.len() == cluster@.len(),
        forall|i: int|
            0 <= i < cluster@.len() ==> #[trigger] r@[i].weapon@ == cluster@[i]@.weapon
                && r@[i].race@ == cluster@[i]@.race,
{
    let mut r: Vec<DataObject> = Vec::new();
    let mut t: usize = 0;
    while t < cluster.len()
        invariant
            t <= cluster@.len(),
            r@.len() == t,
            forall|i: int|
                0 <= i < t ==> #[trigger] r@[i].weapon@ == cluster@[i]@.weapon && r@[i].race@
                    == cluster@[i]@.race,
        decreases cluster@.len() - t,
    {
        let o = DataObject::from(&cluster[t]);
        r.push(o);
        t = t + 1;
    }
    r
}

/// The weapon labels of a cluster's records, in order.
pub fn weapon_labels(objs: &Vec<DataObject>) -> (r: Vec<String>)
    ensures
        r@.len() == objs@.len(),
        forall|i: int| 0 <= i < objs@.len() ==> #[trigger] r@[i]@ == objs@[i].weapon@,
{
    let mut r: Vec<String> = Vec::new();
    let mut t: usize = 0;
    while t < objs.len()
        invariant
            t <= objs@.len(),
            r@.len() == t,
            forall|i: int| 0 <= i < t ==> #[trigger] r@[i]@ == objs@[i].weapon@,
        decreases objs@.len() - t,
    {
        let s = objs[t].weapon.clone();
        r.push(s);
        t = t + 1;
    }
    r
}

/// The race labels of a cluster's records, in order.
pub fn race_labels(objs: &Vec<DataObject>) -> (r: Vec<String>)
    ensures
        r@.len() == objs@.len(),
        forall|i: int| 0 <= i < objs@.len() ==> #[trigger] r@[i]@ == objs@[i].race@,
{
    let mut r: Vec<String> = Vec::new();
    let mut t: usize = 0;
    while t < objs.len()
        invariant
            t <= objs@.len(),
            r@.len() == t,
            forall|i: int| 0 <= i < t ==> #[trigger] r@[i]@ == objs@[i].race@,
        decreases objs@.len() - t,
    {
        let s = objs[t].race.clone();
        r.push(s);
        t = t + 1;
    }
    r
}

/// The views of a sequence of labels.
pub open spec fn lviews(ls: Seq<String>) -> Seq<Seq<char>> {
    ls.map_values(|s: String| s@)
}

/// Equality with a fixed label.
pub open spec fn label_eq(l: Seq<char>) -> spec_fn(Seq<char>) -> bool {
    |x: Seq<char>| x == l
}

/// How many times label `l` occurs in `ls`.
pub open spec fn count_of(ls: Seq<Seq<char>>, l: Seq<char>) -> int {
    ls.filter(label_eq(l)).len() as int
}

/// Index, into the distinct-label list `f`, of the winning label among
/// the first `n` entries: a later label wins only with a strictly
/// greater count, so the first label seen keeps ties.
pub open spec fn mode_upto(ls: Seq<Seq<char>>, f: Seq<Seq<char>>, n: nat) -> int
    decreases n,
{
    if n <= 1 {
        0
    } else {
        let prev = mode_upto(ls, f, (n - 1) as nat);
        if count_of(ls, f[n - 1]) > count_of(ls, f[prev]) {
            n - 1
        } else {
            prev
        }
    }
}

/// Index of the winning label in the full distinct-label list.
pub open spec fn mode_index(ls: Seq<Seq<char>>) -> int {
    mode_upto(ls, first_occurrences(ls), first_occurrences(ls).len())
}

proof fn lemma_mode_upto_range(ls: Seq<Seq<char>>, f: Seq<Seq<char>>, n: nat)
    requires
        n >= 1,
    ensures
        0 <= mode_upto(ls, f, n) < n,
    decreases n,
{
    if n > 1 {
        lemma_mode_upto_range(ls, f, (n - 1) as nat);
    }
}

/// Whether some label of `v` equals `l`.
pub fn contains_label(v: &Vec<String>, l: &String) -> (r: bool)
    ensures
        r == lviews(v@).contains(l@),
{
    let mut i: usize = 0;
    while i < v.len()
        invariant
            i <= v@.len(),
            forall|j: int| 0 <= j < i ==> lviews(v@)[j] != l@,
        decreases v@.len() - i,
    {
        proof {
            assert(lviews(v@)[i as int] == v@[i as int]@);
        }
        if v[i] == *l {
            proof {
                assert(lviews(v@)[i as int] == l@);
            }
            return true;
        }
        i = i + 1;
    }
    proof {
        assert(lviews(v@).len() == v@.len());
    }
    false
}

/// How many labels of `labels` equal `l`.
pub fn count_label(labels: &Vec<String>, l: &String) -> (c: usize)
    ensures
        c == count_of(lviews(labels@), l@),
{
    let ghost ls = lviews(labels@);
    let mut c: usize = 0;
    let mut t: usize = 0;
    while t < labels.len()
        invariant
            ls == lviews(labels@),
            ls.len() == labels@.len(),
            t <= labels@.len(),
            c <= t,
            c == count_of(ls.take(t as int), l@),
        decreases labels@.len() - t,
    {
        proof {
            lemma_filter_push(ls.take(t as int), label_eq(l@), ls[t as int]);
            assert(ls.take(t + 1) =~= ls.take(t as int).push(ls[t as int]));
            assert(ls[t as int] == labels@[t as int]@);
            ls.take(t as int).lemma_filter_len(label_eq(l@));
        }
        if labels[t] == *l {
            c = c + 1;
        }
        t = t + 1;
    }
    proof {
        assert(ls.take(labels@.len() as int) =~= ls);
    }
    c
}

/// The most frequent label of `labels` and its count; `None` exactly for
/// an empty cluster.  Ties go to the label seen first.
pub fn most_frequent(labels: &Vec<String>) -> (r: Option<(String, usize)>)
    ensures
        r is None <==> labels@.len() == 0,
        r matches Some(lc) ==> {
            let ls = lviews(labels@);
            let f = first_occurrences(ls);
            let m = mode_index(ls);
            &&& 0 <= m < f.len()
            &&& lc.0@ == f[m]
            &&& lc.1 == count_of(ls, f[m])
        },
{
    let ghost ls = lviews(labels@);
    if labels.len() == 0 {
        return None;
    }
    let mut firsts: Vec<String> = Vec::new();
    let mut t: usize = 0;
    while t < labels.len()
        invariant
            ls == lviews(labels@),
            ls.len() == labels@.len(),
            t <= labels@.len(),
            lviews(firsts@) == first_occurrences(ls.take(t as int)),
            firsts@.len() <= t,
        decreases labels@.len() - t,
    {
        proof {
            let q = ls.take(t + 1);
            assert(q.drop_last() =~= ls.take(t as int));
            assert(q.last() == ls[t as int]);
            assert(ls[t as int] == labels@[t as int]@);
        }
        if !contains_label(&firsts, &labels[t]) {
            let s = labels[t].clone();
            firsts.push(s);
            proof {
                assert(lviews(firsts@) =~= first_occurrences(ls.take(t as int)).push(
                    ls[t as int],
                ));
            }
        }
        t = t + 1;
    }
    proof {
        assert(ls.take(labels@.len() as int) =~= ls);
        lemma_first_occurrences(ls);
        assert(ls.contains(ls[0]));
        assert(first_occurrences(ls).len() >= 1);
    }
    let ghost f = first_occurrences(ls);
    let mut best: usize = 0;
    let mut best_count: usize = count_label(labels, &firsts[0]);
    let mut i: usize = 1;
    proof {
        assert(lviews(firsts@)[0] == firsts@[0]@);
    }
    while i < firsts.len()
        invariant
            ls == lviews(labels@),
            f == first_occurrences(ls),
            lviews(firsts@) == f,
            firsts@.len() == f.len() >= 1,
            1 <= i <= firsts@.len(),
            best < i,
            best == mode_upto(ls, f, i as nat),
            best_count == count_of(ls, f[best as int]),
        decreases firsts@.len() - i,
    {
        proof {
            assert(lviews(firsts@)[i as int] == firsts@[i as int]@);
        }
        let c = count_label(labels, &firsts[i]);
        if c > best_count {
            best = i;
            best_count = c;
        }
        i = i + 1;
    }
    proof {
        assert(lviews(firsts@)[best as int] == firsts@[best as int]@);
    }
    let label = firsts[best].clone();
    Some((label, best_count))
}

} // verus!

//! Which images a grouping covers.
//!
//! An image is covered when it is placed in some group. Exact duplicates are
//! always covered. A higher threshold lets an anchor reach more records, and so
//! an earlier anchor may take a record away that would otherwise have formed a
//! group of its own with records the earlier anchor cannot reach. Where the
//! records that are near each other under the higher threshold form clusters
//! that lie apart, this cannot happen, and raising the threshold loses no
//! image.

use vstd::prelude::*;
use crate::fingerprint::{lemma_hamming_self, lemma_hamming_symmetric};
use crate::group_laws::{
    lemma_assigned_grows, lemma_group_is_assigned, lemma_index_groups_below, lemma_matches_below,
};
use crate::grouping::{
    assigned_before, forms_group, group_at, index_groups, index_groups_below, joins, matches_of,
    near, paths_at,
};
use crate::models::Record;

verus! {

/// No two records share a path.
pub open spec fn distinct_paths(recs: Seq<Record>) -> bool {
    forall|i: int, j: int| 0 <= i < j < recs.len() ==> recs[i].path != recs[j].path
}

/// Under the threshold `t` the records form clusters that lie apart: two
/// records that are both near a third are near each other.
pub open spec fn clusters_apart(recs: Seq<Record>, t: u32) -> bool {
    forall|i: int, j: int, k: int|
        0 <= i < recs.len() && 0 <= j < recs.len() && 0 <= k < recs.len() && i != j && j != k
            && i != k && #[trigger] near(recs, t, i, j) && #[trigger] near(recs, t, j, k)
            ==> near(recs, t, i, k)
}

/// Record `v` is placed in some group under the threshold `t`.
pub open spec fn is_grouped(recs: Seq<Record>, t: u32, v: int) -> bool {
    assigned_before(recs, t, recs.len() as int).contains(recs[v].path)
}

/// The number of records before `k` that are placed in some group.
pub open spec fn grouped_below(recs: Seq<Record>, t: u32, k: int) -> nat
    decreases k,
{
    if k <= 0 {
        0
    } else if is_grouped(recs, t, k - 1) {
        grouped_below(recs, t, k - 1) + 1
    } else {
        grouped_below(recs, t, k - 1)
    }
}

/// The number of records that are placed in some group.
pub open spec fn grouped_count(recs: Seq<Record>, t: u32) -> nat {
    grouped_below(recs, t, recs.len() as int)
}

/// Member `m` of the group that anchor `a` forms has the path `p`.
pub open spec fn placed(recs: Seq<Record>, t: u32, a: int, m: int, p: Seq<char>) -> bool {
    &&& forms_group(recs, t, assigned_before(recs, t, a), a)
    &&& 0 <= m < group_at(recs, t, a).len()
    &&& recs[group_at(recs, t, a)[m]].path == p
}

/// Some other record lies within the threshold of record `v`.
pub open spec fn has_neighbour(recs: Seq<Record>, t: u32, v: int) -> bool {
    exists|u: int| 0 <= u < recs.len() && u != v && #[trigger] near(recs, t, u, v)
}

/// Nearness does not depend on the order of the two records.
pub proof fn lemma_near_symmetric(recs: Seq<Record>, t: u32, i: int, j: int)
    ensures
        near(recs, t, i, j) == near(recs, t, j, i),
{
    lemma_hamming_symmetric(recs[i].bits, recs[j].bits);
}

/// What is near under a threshold is near under every higher one.
pub proof fn lemma_near_monotone(recs: Seq<Record>, t1: u32, t2: u32, i: int, j: int)
    requires
        t1 <= t2,
        near(recs, t1, i, j),
    ensures
        near(recs, t2, i, j),
{
}

/// Every assigned path is that of a member of a group which an earlier anchor
/// formed.
pub proof fn lemma_assigned_origin(recs: Seq<Record>, t: u32, i: int, p: Seq<char>)
    requires
        assigned_before(recs, t, i).contains(p),
    ensures
        exists|a: int, m: int| 0 <= a < i && #[trigger] placed(recs, t, a, m, p),
    decreases i,
{
    if i > 0 {
        let done = assigned_before(recs, t, i - 1);
        if done.contains(p) {
            lemma_assigned_origin(recs, t, i - 1, p);
            let (a, m) = choose|a: int, m: int| 0 <= a < i - 1 && #[trigger] placed(recs, t, a, m, p);
            assert(0 <= a < i && placed(recs, t, a, m, p));
        } else {
            let found = matches_of(recs, t, done, i - 1);
            assert(forms_group(recs, t, done, i - 1));
            if p == recs[i - 1].path {
                assert(group_at(recs, t, i - 1)[0] == i - 1);
                assert(placed(recs, t, i - 1, 0, p));
            } else {
                assert(paths_at(recs, found).contains(p));
                let m = choose|m: int| 0 <= m < found.len() && recs[#[trigger] found[m]].path == p;
                assert(group_at(recs, t, i - 1)[m + 1] == found[m]);
                assert(placed(recs, t, i - 1, m + 1, p));
            }
        }
    }
}

/// Where paths are distinct, a record that an anchor can reach and that is not
/// assigned yet joins the anchor's group.
proof fn lemma_reached_joins(recs: Seq<Record>, t: u32, a: int, x: int)
    requires
        distinct_paths(recs),
        0 <= a < x < recs.len(),
        near(recs, t, a, x),
        !assigned_before(recs, t, a).contains(recs[a].path),
        !assigned_before(recs, t, a).contains(recs[x].path),
    ensures
        forms_group(recs, t, assigned_before(recs, t, a), a),
        is_grouped(recs, t, a),
        is_grouped(recs, t, x),
{
    let n = recs.len() as int;
    let done = assigned_before(recs, t, a);
    let found = matches_of(recs, t, done, a);
    assert(joins(recs, t, done, a, x));
    lemma_matches_below(recs, t, done, a, n);
    assert(found.contains(x));
    let m = choose|m: int| 0 <= m < found.len() && found[m] == x;
    assert(group_at(recs, t, a)[m + 1] == x);
    assert(group_at(recs, t, a)[0] == a);
    lemma_group_is_assigned(recs, t, a, m + 1, n);
    lemma_group_is_assigned(recs, t, a, 0, n);
}

/// Where paths are distinct, a record whose path is assigned before `i` is a
/// match of an anchor before `i`, or such an anchor itself.
proof fn lemma_assigned_record(recs: Seq<Record>, t: u32, i: int, v: int) -> (a: int)
    requires
        distinct_paths(recs),
        0 <= v < recs.len(),
        0 <= i <= recs.len(),
        assigned_before(recs, t, i).contains(recs[v].path),
    ensures
        0 <= a < i,
        forms_group(recs, t, assigned_before(recs, t, a), a),
        a == v || (a < v && joins(recs, t, assigned_before(recs, t, a), a, v)),
{
    let n = recs.len() as int;
    let p = recs[v].path;
    lemma_assigned_origin(recs, t, i, p);
    let (a, m) = choose|a: int, m: int| 0 <= a < i && #[trigger] placed(recs, t, a, m, p);
    let done = assigned_before(recs, t, a);
    lemma_matches_below(recs, t, done, a, n);
    let w = group_at(recs, t, a)[m];
    if m == 0 {
        assert(w == a);
    } else {
        assert(w == matches_of(recs, t, done, a)[m - 1]);
    }
    assert(0 <= w < n);
    assert(w == v) by {
        if w < v {
            assert(recs[w].path != recs[v].path);
        } else if v < w {
            assert(recs[v].path != recs[w].path);
        }
    }
    a
}

/// Position `v` of the input occurs in one of the groups.
pub open spec fn in_some_group(recs: Seq<Record>, t: u32, v: int) -> bool {
    exists|g: int, m: int|
        0 <= g < index_groups(recs, t).len() && 0 <= m < index_groups(recs, t)[g].len()
            && #[trigger] index_groups(recs, t)[g][m] == v
}

/// The group of every anchor before `i` that forms one is among the groups
/// below `i`.
proof fn lemma_anchor_group_listed(recs: Seq<Record>, t: u32, a: int, i: int) -> (g: int)
    requires
        0 <= a < i,
        forms_group(recs, t, assigned_before(recs, t, a), a),
    ensures
        0 <= g < index_groups_below(recs, t, i).len(),
        index_groups_below(recs, t, i)[g] == group_at(recs, t, a),
    decreases i,
{
    if a == i - 1 {
        index_groups_below(recs, t, i).len() - 1
    } else {
        lemma_anchor_group_listed(recs, t, a, i - 1)
    }
}

/// The records whose path is assigned are those that occur in a group, where
/// paths are distinct; a record that occurs in a group has its path assigned
/// in any case.
pub proof fn lemma_grouped_iff_member(recs: Seq<Record>, t: u32, v: int)
    requires
        0 <= v < recs.len(),
    ensures
        in_some_group(recs, t, v) ==> is_grouped(recs, t, v),
        distinct_paths(recs) ==> (is_grouped(recs, t, v) <==> in_some_group(recs, t, v)),
{
    let n = recs.len() as int;
    let groups = index_groups(recs, t);
    lemma_index_groups_below(recs, t, n);
    if in_some_group(recs, t, v) {
        let (g, m) = choose|g: int, m: int|
            0 <= g < groups.len() && 0 <= m < groups[g].len() && #[trigger] groups[g][m] == v;
        lemma_group_is_assigned(recs, t, groups[g][0], m, n);
    }
    if distinct_paths(recs) && is_grouped(recs, t, v) {
        let a = lemma_assigned_record(recs, t, n, v);
        let done = assigned_before(recs, t, a);
        let g = lemma_anchor_group_listed(recs, t, a, n);
        if a == v {
            assert(groups[g][0] == v);
        } else {
            lemma_matches_below(recs, t, done, a, n);
            let found = matches_of(recs, t, done, a);
            assert(found.contains(v));
            let m = choose|m: int| 0 <= m < found.len() && found[m] == v;
            assert(groups[g][m + 1] == v);
        }
    }
}

/// Where paths are distinct, a record that is placed in a group has another
/// record within the threshold.
pub proof fn lemma_grouped_has_neighbour(recs: Seq<Record>, t: u32, v: int)
    requires
        distinct_paths(recs),
        0 <= v < recs.len(),
        is_grouped(recs, t, v),
    ensures
        has_neighbour(recs, t, v),
{
    let n = recs.len() as int;
    let a = lemma_assigned_record(recs, t, n, v);
    let done = assigned_before(recs, t, a);
    if a == v {
        lemma_matches_below(recs, t, done, a, n);
        let j = matches_of(recs, t, done, a)[0];
        assert(joins(recs, t, done, a, j));
        lemma_near_symmetric(recs, t, a, j);
        assert(near(recs, t, j, v));
    } else {
        assert(near(recs, t, a, v));
    }
}

/// Where paths are distinct, both of two records that are near each other are
/// placed in a group, if every earlier record is near both or near neither.
proof fn lemma_near_pair_is_grouped(recs: Seq<Record>, t: u32, w: int, x: int)
    requires
        distinct_paths(recs),
        0 <= w < x < recs.len(),
        near(recs, t, w, x),
        forall|a: int| 0 <= a < w ==> #[trigger] near(recs, t, a, w) == near(recs, t, a, x),
    ensures
        is_grouped(recs, t, w),
        is_grouped(recs, t, x),
{
    let n = recs.len() as int;
    let done = assigned_before(recs, t, w);
    if done.contains(recs[w].path) {
        lemma_assigned_grows(recs, t, w, n);
        let a = lemma_assigned_record(recs, t, w, w);
        let before = assigned_before(recs, t, a);
        assert(near(recs, t, a, w));
        assert(near(recs, t, a, x));
        if before.contains(recs[x].path) {
            lemma_assigned_grows(recs, t, a, n);
        } else {
            lemma_reached_joins(recs, t, a, x);
        }
    } else if done.contains(recs[x].path) {
        let a = lemma_assigned_record(recs, t, w, x);
        let before = assigned_before(recs, t, a);
        assert(near(recs, t, a, x));
        assert(near(recs, t, a, w));
        lemma_assigned_grows(recs, t, a, w);
        let found = matches_of(recs, t, before, a);
        lemma_matches_below(recs, t, before, a, n);
        assert(joins(recs, t, before, a, w));
        assert(found.contains(w));
        let m = choose|m: int| 0 <= m < found.len() && found[m] == w;
        assert(group_at(recs, t, a)[m + 1] == w);
        lemma_group_is_assigned(recs, t, a, m + 1, w);
        assert(false);
    } else {
        lemma_reached_joins(recs, t, w, x);
    }
}

/// Exact duplicates are always found: where no two records share a path and
/// the threshold is not 0, two records with the same fingerprint are both
/// placed in a group.
pub proof fn lemma_exact_duplicates_are_grouped(recs: Seq<Record>, t: u32, v: int, x: int)
    requires
        distinct_paths(recs),
        t > 0,
        0 <= v < x < recs.len(),
        recs[v].bits == recs[x].bits,
    ensures
        is_grouped(recs, t, v),
        is_grouped(recs, t, x),
{
    lemma_hamming_self(recs[v].bits);
    lemma_near_pair_is_grouped(recs, t, v, x);
}

/// Where the clusters lie apart, two records that are near each other have the
/// same earlier records near them.
proof fn lemma_clusters_share_neighbours(recs: Seq<Record>, t: u32, w: int, x: int)
    requires
        clusters_apart(recs, t),
        0 <= w < x < recs.len(),
        near(recs, t, w, x),
    ensures
        forall|a: int| 0 <= a < w ==> #[trigger] near(recs, t, a, w) == near(recs, t, a, x),
{
    lemma_near_symmetric(recs, t, w, x);
    assert forall|a: int| 0 <= a < w implies #[trigger] near(recs, t, a, w) == near(
        recs,
        t,
        a,
        x,
    ) by {
        if near(recs, t, a, w) {
            assert(near(recs, t, a, w) && near(recs, t, w, x));
        }
        if near(recs, t, a, x) {
            assert(near(recs, t, a, x) && near(recs, t, x, w));
        }
    }
}

/// Where paths are distinct and the clusters lie apart, every record with
/// another record within the threshold is placed in a group.
pub proof fn lemma_neighbour_is_grouped(recs: Seq<Record>, t: u32, v: int)
    requires
        distinct_paths(recs),
        clusters_apart(recs, t),
        0 <= v < recs.len(),
        has_neighbour(recs, t, v),
    ensures
        is_grouped(recs, t, v),
{
    let u = choose|u: int| 0 <= u < recs.len() && u != v && #[trigger] near(recs, t, u, v);
    if u < v {
        lemma_clusters_share_neighbours(recs, t, u, v);
        lemma_near_pair_is_grouped(recs, t, u, v);
    } else {
        lemma_near_symmetric(recs, t, u, v);
        lemma_clusters_share_neighbours(recs, t, v, u);
        lemma_near_pair_is_grouped(recs, t, v, u);
    }
}

/// Where every record that is grouped under one threshold is grouped under
/// another, the other groups at least as many.
proof fn lemma_grouped_below_monotone(recs: Seq<Record>, t1: u32, t2: u32, k: int)
    requires
        0 <= k <= recs.len(),
        forall|v: int| 0 <= v < recs.len() && is_grouped(recs, t1, v) ==> is_grouped(recs, t2, v),
    ensures
        grouped_below(recs, t1, k) <= grouped_below(recs, t2, k),
    decreases k,
{
    if k > 0 {
        lemma_grouped_below_monotone(recs, t1, t2, k - 1);
    }
}

/// Raising the threshold loses no image, where no two records share a path and
/// the records that are near each other under the higher threshold form
/// clusters that lie apart: every image that is placed in a group under the
/// lower threshold is placed in one under the higher, and so the number of
/// grouped images does not fall.
pub proof fn lemma_threshold_monotone(recs: Seq<Record>, t1: u32, t2: u32)
    requires
        t1 <= t2,
        distinct_paths(recs),
        clusters_apart(recs, t2),
    ensures
        forall|v: int| 0 <= v < recs.len() && is_grouped(recs, t1, v) ==> is_grouped(recs, t2, v),
        grouped_count(recs, t1) <= grouped_count(recs, t2),
{
    assert forall|v: int| 0 <= v < recs.len() && is_grouped(recs, t1, v) implies is_grouped(
        recs,
        t2,
        v,
    ) by {
        lemma_grouped_has_neighbour(recs, t1, v);
        let u = choose|u: int| 0 <= u < recs.len() && u != v && #[trigger] near(recs, t1, u, v);
        lemma_near_monotone(recs, t1, t2, u, v);
        assert(has_neighbour(recs, t2, v));
        lemma_neighbour_is_grouped(recs, t2, v);
    }
    lemma_grouped_below_monotone(recs, t1, t2, recs.len() as int);
}

} // verus!

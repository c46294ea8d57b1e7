//! What holds of every grouping: each group has an anchor and at least one
//! more member, every member lies within the threshold of its anchor, and no
//! image is placed twice.

use vstd::prelude::*;
use crate::fingerprint::hamming;
use crate::grouping::{
    assigned_before, duplicate_groups, forms_group, group_at, index_groups, index_groups_below,
    joins, matches_below, matches_of, near, paths_at, pick, pick_groups,
};
use crate::models::Record;

verus! {

/// The matches of an anchor are exactly the records that join it, in strictly
/// ascending order.
pub proof fn lemma_matches_below(recs: Seq<Record>, t: u32, done: Set<Seq<char>>, a: int, hi: int)
    ensures
        forall|m: int|
            0 <= m < matches_below(recs, t, done, a, hi).len() ==> {
                let j = #[trigger] matches_below(recs, t, done, a, hi)[m];
                a < j < hi && joins(recs, t, done, a, j)
            },
        forall|m1: int, m2: int|
            0 <= m1 < m2 < matches_below(recs, t, done, a, hi).len() ==> matches_below(
                recs,
                t,
                done,
                a,
                hi,
            )[m1] < matches_below(recs, t, done, a, hi)[m2],
        forall|j: int|
            a < j < hi && joins(recs, t, done, a, j) ==> matches_below(
                recs,
                t,
                done,
                a,
                hi,
            ).contains(j),
    decreases hi - a,
{
    if hi > a + 1 {
        lemma_matches_below(recs, t, done, a, hi - 1);
        let rest = matches_below(recs, t, done, a, hi - 1);
        let all = matches_below(recs, t, done, a, hi);
        assert forall|j: int| a < j < hi && joins(recs, t, done, a, j) implies all.contains(
            j,
        ) by {
            if j < hi - 1 {
                assert(rest.contains(j));
                let m = choose|m: int| 0 <= m < rest.len() && rest[m] == j;
                assert(all[m] == j);
            } else {
                assert(all[all.len() - 1] == j);
            }
        }
    }
}

/// A path that is assigned stays assigned.
pub proof fn lemma_assigned_grows(recs: Seq<Record>, t: u32, i1: int, i2: int)
    requires
        i1 <= i2,
    ensures
        assigned_before(recs, t, i1).subset_of(assigned_before(recs, t, i2)),
    decreases i2 - i1,
{
    if i1 < i2 {
        lemma_assigned_grows(recs, t, i1, i2 - 1);
        if i2 <= 0 {
            assert(assigned_before(recs, t, i1) =~= Set::<Seq<char>>::empty());
        }
    }
}

/// Once an anchor has formed its group, the paths of the anchor and of all its
/// matches are assigned.
pub proof fn lemma_group_is_assigned(recs: Seq<Record>, t: u32, a: int, m: int, i: int)
    requires
        0 <= a < i,
        forms_group(recs, t, assigned_before(recs, t, a), a),
        0 <= m < group_at(recs, t, a).len(),
    ensures
        assigned_before(recs, t, i).contains(recs[group_at(recs, t, a)[m]].path),
{
    let done = assigned_before(recs, t, a);
    let found = matches_of(recs, t, done, a);
    let next = assigned_before(recs, t, a + 1);
    assert(next == done.union(paths_at(recs, found)).insert(recs[a].path));
    if m > 0 {
        assert(group_at(recs, t, a)[m] == found[m - 1]);
        assert(paths_at(recs, found).contains(recs[found[m - 1]].path));
    }
    lemma_assigned_grows(recs, t, a + 1, i);
}

/// Each group below `i` is the group of an anchor before `i` that formed one,
/// and the anchors ascend with the groups.
pub proof fn lemma_index_groups_below(recs: Seq<Record>, t: u32, i: int)
    ensures
        forall|g: int|
            0 <= g < index_groups_below(recs, t, i).len() ==> {
                let group = #[trigger] index_groups_below(recs, t, i)[g];
                &&& group.len() > 0
                &&& 0 <= group[0] < i
                &&& forms_group(recs, t, assigned_before(recs, t, group[0]), group[0])
                &&& group == group_at(recs, t, group[0])
            },
        forall|g1: int, g2: int|
            0 <= g1 < g2 < index_groups_below(recs, t, i).len() ==> (#[trigger] index_groups_below(
                recs,
                t,
                i,
            )[g1])[0] < (#[trigger] index_groups_below(recs, t, i)[g2])[0],
    decreases i,
{
    if i > 0 {
        lemma_index_groups_below(recs, t, i - 1);
        let prev = index_groups_below(recs, t, i - 1);
        let all = index_groups_below(recs, t, i);
        assert(group_at(recs, t, i - 1)[0] == i - 1);
        assert forall|g: int| 0 <= g < all.len() implies {
            let group = #[trigger] all[g];
            &&& group.len() > 0
            &&& 0 <= group[0] < i
            &&& forms_group(recs, t, assigned_before(recs, t, group[0]), group[0])
            &&& group == group_at(recs, t, group[0])
        } by {
            if g < prev.len() {
                assert(all[g] == prev[g]);
            }
        }
        assert forall|g1: int, g2: int| 0 <= g1 < g2 < all.len() implies all[g1][0]
            < all[g2][0] by {
            assert(all[g1] == prev[g1]);
            if g2 < prev.len() {
                assert(all[g2] == prev[g2]);
            }
        }
    }
}

/// Every group is made of an anchor and at least one more member.
pub proof fn lemma_groups_have_two_members(recs: Seq<Record>, t: u32)
    ensures
        forall|g: int|
            0 <= g < duplicate_groups(recs, t).len() ==> (#[trigger] duplicate_groups(
                recs,
                t,
            )[g]).len() >= 2,
{
    lemma_index_groups_below(recs, t, recs.len() as int);
}

/// Every member of a group comes from the input, and every member but the
/// anchor lies within the threshold of the anchor.
pub proof fn lemma_members_near_anchor(recs: Seq<Record>, t: u32)
    ensures
        forall|g: int, m: int|
            0 <= g < duplicate_groups(recs, t).len() && 0 <= m < duplicate_groups(
                recs,
                t,
            )[g].len() ==> recs.contains(#[trigger] duplicate_groups(recs, t)[g][m]),
        forall|g: int, m: int|
            0 <= g < duplicate_groups(recs, t).len() && 1 <= m < duplicate_groups(
                recs,
                t,
            )[g].len() ==> hamming(
                duplicate_groups(recs, t)[g][0].bits,
                (#[trigger] duplicate_groups(recs, t)[g][m]).bits,
            ) < t,
{
    let n = recs.len() as int;
    let groups = index_groups(recs, t);
    lemma_index_groups_below(recs, t, n);
    assert forall|g: int, m: int| 0 <= g < groups.len() && 0 <= m < groups[g].len() implies {
        &&& 0 <= #[trigger] groups[g][m] < n
        &&& m >= 1 ==> near(recs, t, groups[g][0], groups[g][m])
    } by {
        let a = groups[g][0];
        let done = assigned_before(recs, t, a);
        lemma_matches_below(recs, t, done, a, n);
        if m >= 1 {
            assert(groups[g][m] == matches_of(recs, t, done, a)[m - 1]);
        }
    }
    assert forall|g: int, m: int|
        0 <= g < duplicate_groups(recs, t).len() && 0 <= m < duplicate_groups(
            recs,
            t,
        )[g].len() implies recs.contains(#[trigger] duplicate_groups(recs, t)[g][m]) by {
        assert(duplicate_groups(recs, t)[g][m] == recs[groups[g][m]]);
    }
    assert forall|g: int, m: int|
        0 <= g < duplicate_groups(recs, t).len() && 1 <= m < duplicate_groups(
            recs,
            t,
        )[g].len() implies hamming(
        duplicate_groups(recs, t)[g][0].bits,
        (#[trigger] duplicate_groups(recs, t)[g][m]).bits,
    ) < t by {
        assert(duplicate_groups(recs, t)[g][m] == recs[groups[g][m]]);
        assert(duplicate_groups(recs, t)[g][0] == recs[groups[g][0]]);
        assert(near(recs, t, groups[g][0], groups[g][m]));
    }
}

/// No position of the input is placed twice: not in two groups, and not twice
/// in one.
pub proof fn lemma_positions_placed_once(
    recs: Seq<Record>,
    t: u32,
    g1: int,
    m1: int,
    g2: int,
    m2: int,
)
    requires
        0 <= g1 < index_groups(recs, t).len(),
        0 <= m1 < index_groups(recs, t)[g1].len(),
        0 <= g2 < index_groups(recs, t).len(),
        0 <= m2 < index_groups(recs, t)[g2].len(),
        g1 != g2 || m1 != m2,
    ensures
        index_groups(recs, t)[g1][m1] != index_groups(recs, t)[g2][m2],
{
    let n = recs.len() as int;
    let groups = index_groups(recs, t);
    lemma_index_groups_below(recs, t, n);
    if g1 == g2 {
        let a = groups[g1][0];
        let done = assigned_before(recs, t, a);
        lemma_matches_below(recs, t, done, a, n);
        let found = matches_of(recs, t, done, a);
        if m1 >= 1 {
            assert(groups[g1][m1] == found[m1 - 1]);
        }
        if m2 >= 1 {
            assert(groups[g1][m2] == found[m2 - 1]);
        }
    } else {
        lemma_paths_in_one_group(recs, t, g1, m1, g2, m2);
    }
}

/// No path occurs in two groups.
pub proof fn lemma_paths_in_one_group(
    recs: Seq<Record>,
    t: u32,
    g1: int,
    m1: int,
    g2: int,
    m2: int,
)
    requires
        0 <= g1 < duplicate_groups(recs, t).len(),
        0 <= m1 < duplicate_groups(recs, t)[g1].len(),
        0 <= g2 < duplicate_groups(recs, t).len(),
        0 <= m2 < duplicate_groups(recs, t)[g2].len(),
        g1 != g2,
    ensures
        duplicate_groups(recs, t)[g1][m1].path != duplicate_groups(recs, t)[g2][m2].path,
        index_groups(recs, t)[g1][m1] != index_groups(recs, t)[g2][m2],
{
    let n = recs.len() as int;
    let groups = index_groups(recs, t);
    lemma_index_groups_below(recs, t, n);
    assert(duplicate_groups(recs, t)[g1][m1] == recs[groups[g1][m1]]);
    assert(duplicate_groups(recs, t)[g2][m2] == recs[groups[g2][m2]]);
    if g1 < g2 {
        lemma_earlier_group_is_assigned(recs, t, groups[g1][0], m1, groups[g2][0], m2);
    } else {
        lemma_earlier_group_is_assigned(recs, t, groups[g2][0], m2, groups[g1][0], m1);
    }
}

/// A member of the group of an earlier anchor and a member of the group of a
/// later one never share a path.
proof fn lemma_earlier_group_is_assigned(
    recs: Seq<Record>,
    t: u32,
    a1: int,
    m1: int,
    a2: int,
    m2: int,
)
    requires
        0 <= a1 < a2 < recs.len(),
        forms_group(recs, t, assigned_before(recs, t, a1), a1),
        forms_group(recs, t, assigned_before(recs, t, a2), a2),
        0 <= m1 < group_at(recs, t, a1).len(),
        0 <= m2 < group_at(recs, t, a2).len(),
    ensures
        recs[group_at(recs, t, a1)[m1]].path != recs[group_at(recs, t, a2)[m2]].path,
{
    let done = assigned_before(recs, t, a2);
    lemma_group_is_assigned(recs, t, a1, m1, a2);
    lemma_matches_below(recs, t, done, a2, recs.len() as int);
    if m2 >= 1 {
        assert(group_at(recs, t, a2)[m2] == matches_of(recs, t, done, a2)[m2 - 1]);
    }
}

} // verus!

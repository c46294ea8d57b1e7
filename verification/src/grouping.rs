//! Anchor-based grouping of near-duplicate images.
//!
//! The records are visited in order. A record whose path is not yet assigned
//! becomes an anchor; every later record that is still unassigned and whose
//! fingerprint lies within the threshold of the anchor's joins the anchor's
//! group. Membership is decided by the distance to the anchor alone, never by
//! the distance between two members.

use vstd::prelude::*;
use vstd::hash_set::StringHashSet;
use crate::fingerprint::hamming;
use crate::group_laws::{
    lemma_groups_have_two_members, lemma_members_near_anchor, lemma_paths_in_one_group,
};
use crate::models::{groups_of, records_of, DuplicatesGroup, ImageInfo, Record};

verus! {

/// Record `j` lies within the threshold `t` of record `a`.
pub open spec fn near(recs: Seq<Record>, t: u32, a: int, j: int) -> bool {
    hamming(recs[a].bits, recs[j].bits) < t
}

/// Record `j` joins the group of anchor `a`, where `done` holds the paths that
/// were assigned before `a` was visited: it comes after the anchor, lies within
/// the threshold, its path is unassigned, and no record between the two has
/// taken that path into the group already.
pub open spec fn joins(recs: Seq<Record>, t: u32, done: Set<Seq<char>>, a: int, j: int) -> bool {
    &&& a < j < recs.len()
    &&& near(recs, t, a, j)
    &&& !done.contains(recs[j].path)
    &&& forall|k: int| a < k < j && recs[k].path == recs[j].path ==> !near(recs, t, a, k)
}

/// The records before `hi` that join the group of anchor `a`, in ascending
/// order.
pub open spec fn matches_below(
    recs: Seq<Record>,
    t: u32,
    done: Set<Seq<char>>,
    a: int,
    hi: int,
) -> Seq<int>
    decreases hi - a,
{
    if hi <= a + 1 {
        Seq::empty()
    } else if joins(recs, t, done, a, hi - 1) {
        matches_below(recs, t, done, a, hi - 1).push(hi - 1)
    } else {
        matches_below(recs, t, done, a, hi - 1)
    }
}

/// All the records that join the group of anchor `a`.
pub open spec fn matches_of(recs: Seq<Record>, t: u32, done: Set<Seq<char>>, a: int) -> Seq<int> {
    matches_below(recs, t, done, a, recs.len() as int)
}

/// The paths of the records at the positions `idx`.
pub open spec fn paths_at(recs: Seq<Record>, idx: Seq<int>) -> Set<Seq<char>> {
    Set::new(|p: Seq<char>| exists|m: int| 0 <= m < idx.len() && recs[#[trigger] idx[m]].path == p)
}

/// Record `a` is an anchor that forms a group: its path is unassigned and at
/// least one record joins it.
pub open spec fn forms_group(recs: Seq<Record>, t: u32, done: Set<Seq<char>>, a: int) -> bool {
    !done.contains(recs[a].path) && matches_of(recs, t, done, a).len() > 0
}

/// The paths that are assigned once the records before `i` have been visited:
/// those of the anchors that formed a group, and of the members of their groups.
pub open spec fn assigned_before(recs: Seq<Record>, t: u32, i: int) -> Set<Seq<char>>
    decreases i,
{
    if i <= 0 {
        Set::empty()
    } else {
        let done = assigned_before(recs, t, i - 1);
        if forms_group(recs, t, done, i - 1) {
            done.union(paths_at(recs, matches_of(recs, t, done, i - 1))).insert(recs[i - 1].path)
        } else {
            done
        }
    }
}

/// The group of anchor `a`, as positions: the anchor, then its matches.
pub open spec fn group_at(recs: Seq<Record>, t: u32, a: int) -> Seq<int> {
    seq![a] + matches_of(recs, t, assigned_before(recs, t, a), a)
}

/// The groups formed by the anchors before `i`, as positions, in the order of
/// their anchors.
pub open spec fn index_groups_below(recs: Seq<Record>, t: u32, i: int) -> Seq<Seq<int>>
    decreases i,
{
    if i <= 0 {
        Seq::empty()
    } else if forms_group(recs, t, assigned_before(recs, t, i - 1), i - 1) {
        index_groups_below(recs, t, i - 1).push(group_at(recs, t, i - 1))
    } else {
        index_groups_below(recs, t, i - 1)
    }
}

/// All the groups of `recs` under the threshold `t`, as positions.
pub open spec fn index_groups(recs: Seq<Record>, t: u32) -> Seq<Seq<int>> {
    index_groups_below(recs, t, recs.len() as int)
}

/// The records at the positions `idx`, in that order.
pub open spec fn pick(recs: Seq<Record>, idx: Seq<int>) -> Seq<Record> {
    Seq::new(idx.len(), |m: int| recs[idx[m]])
}

/// The records at the positions that each group holds.
pub open spec fn pick_groups(recs: Seq<Record>, groups: Seq<Seq<int>>) -> Seq<Seq<Record>> {
    Seq::new(groups.len(), |g: int| pick(recs, groups[g]))
}

/// The duplicate groups of `recs` under the threshold `t`.
pub open spec fn duplicate_groups(recs: Seq<Record>, t: u32) -> Seq<Seq<Record>> {
    pick_groups(recs, index_groups(recs, t))
}

/// Some record after anchor `a` and before `hi` lies within the threshold and
/// has the path `p`.
pub open spec fn near_path_below(recs: Seq<Record>, t: u32, a: int, hi: int, p: Seq<char>) -> bool {
    exists|k: int| a < k < hi && #[trigger] near(recs, t, a, k) && recs[k].path == p
}

/// Groups the images whose fingerprints lie within `duplicate_threshold` of an
/// anchor image. Groups come in the order of their anchors, each with its
/// anchor first and its other members in the order of `images`; an image that
/// nothing joins forms no group. Images are told apart by their paths: once a
/// path is placed in a group, no later image with that path is looked at.
pub fn find_duplicates(images: Vec<ImageInfo>, duplicate_threshold: u32) -> (groups: Vec<
    DuplicatesGroup,
>)
    ensures
        groups_of(groups@) == duplicate_groups(records_of(images@), duplicate_threshold),
        images@.len() == 0 ==> groups@.len() == 0,
        forall|g: int| 0 <= g < groups@.len() ==> (#[trigger] groups@[g]).items@.len() >= 2,
        forall|g: int, m: int|
            0 <= g < groups@.len() && 1 <= m < groups@[g].items@.len() ==> hamming(
                groups@[g].items@[0].hash@,
                (#[trigger] groups@[g].items@[m]).hash@,
            ) < duplicate_threshold,
        forall|g1: int, m1: int, g2: int, m2: int|
            0 <= g1 < groups@.len() && 0 <= m1 < groups@[g1].items@.len() && 0 <= g2
                < groups@.len() && 0 <= m2 < groups@[g2].items@.len() && g1 != g2 ==> (
            #[trigger] groups@[g1].items@[m1]).path@ != (#[trigger] groups@[g2].items@[m2]).path@,
{
    let mut groups: Vec<DuplicatesGroup> = Vec::new();
    let mut processed = StringHashSet::new();
    let n: usize = images.len();
    let ghost recs = records_of(images@);
    let ghost t = duplicate_threshold;
    let mut i: usize = 0;
    assert(groups_of(groups@) =~= pick_groups(recs, index_groups_below(recs, t, 0)));
    while i < n
        invariant
            i <= n,
            n == images@.len(),
            recs == records_of(images@),
            t == duplicate_threshold,
            processed@ == assigned_before(recs, t, i as int),
            groups_of(groups@) == pick_groups(recs, index_groups_below(recs, t, i as int)),
        decreases n - i,
    {
        let ghost done = processed@;
        let ghost before = groups_of(groups@);
        if !processed.contains(images[i].path.as_str()) {
            let mut current: Vec<ImageInfo> = Vec::new();
            current.push(images[i].clone());
            let mut j: usize = i + 1;
            assert(records_of(current@) =~= pick(
                recs,
                seq![i as int] + matches_below(recs, t, done, i as int, j as int),
            ));
            assert(processed@ =~= done.union(
                paths_at(recs, matches_below(recs, t, done, i as int, j as int)),
            ));
            while j < n
                invariant
                    i < j <= n,
                    n == images@.len(),
                    recs == records_of(images@),
                    t == duplicate_threshold,
                    !done.contains(recs[i as int].path),
                    processed@ == done.union(
                        paths_at(recs, matches_below(recs, t, done, i as int, j as int)),
                    ),
                    forall|p: Seq<char>|
                        processed@.contains(p) <==> done.contains(p) || near_path_below(
                            recs,
                            t,
                            i as int,
                            j as int,
                            p,
                        ),
                    records_of(current@) == pick(
                        recs,
                        seq![i as int] + matches_below(recs, t, done, i as int, j as int),
                    ),
                decreases n - j,
            {
                let ghost found = matches_below(recs, t, done, i as int, j as int);
                let ghost marked = processed@;
                let ghost members = current@;
                let mut taken = false;
                if !processed.contains(images[j].path.as_str()) {
                    if images[i].hash.dist(&images[j].hash) < duplicate_threshold {
                        current.push(images[j].clone());
                        processed.insert(images[j].path.clone());
                        taken = true;
                    }
                }
                proof {
                    let pj = recs[j as int].path;
                    assert(near(recs, t, i as int, j as int) == (hamming(
                        images@[i as int].hash@,
                        images@[j as int].hash@,
                    ) < t));
                    if taken {
                        assert(joins(recs, t, done, i as int, j as int)) by {
                            assert forall|k: int|
                                i < k < j && recs[k].path == pj implies !near(
                                recs,
                                t,
                                i as int,
                                k,
                            ) by {
                                if near(recs, t, i as int, k) {
                                    assert(near_path_below(recs, t, i as int, j as int, pj));
                                }
                            }
                        }
                        let grown = found.push(j as int);
                        assert(matches_below(recs, t, done, i as int, j + 1) == grown);
                        assert(records_of(current@) =~= pick(recs, seq![i as int] + grown)) by {
                            let wanted = pick(recs, seq![i as int] + grown);
                            let had = seq![i as int] + found;
                            assert(records_of(members).len() == members.len());
                            assert(pick(recs, had).len() == had.len());
                            assert(had.len() == found.len() + 1);
                            assert(current@.len() == members.len() + 1);
                            assert(wanted.len() == found.len() + 2);
                            assert forall|m: int| 0 <= m < current@.len() implies records_of(
                                current@,
                            )[m] == wanted[m] by {
                                if m < members.len() {
                                    assert(current@[m] == members[m]);
                                    assert(records_of(members)[m] == pick(recs, had)[m]);
                                    assert((seq![i as int] + grown)[m] == had[m]);
                                } else {
                                    assert(current@[m]@ == images@[j as int]@);
                                    assert((seq![i as int] + grown)[m] == j);
                                }
                            }
                        }
                        assert(processed@ =~= done.union(paths_at(recs, grown))) by {
                            assert forall|p: Seq<char>|
                                processed@.contains(p) <==> done.union(
                                    paths_at(recs, grown),
                                ).contains(p) by {
                                if paths_at(recs, found).contains(p) {
                                    let m = choose|m: int|
                                        0 <= m < found.len() && recs[#[trigger] found[m]].path
                                            == p;
                                    assert(grown[m] == found[m]);
                                }
                                if p == pj {
                                    assert(grown[found.len() as int] == j);
                                }
                                if paths_at(recs, grown).contains(p) {
                                    let m = choose|m: int|
                                        0 <= m < grown.len() && recs[#[trigger] grown[m]].path
                                            == p;
                                    if m < found.len() {
                                        assert(found[m] == grown[m]);
                                    }
                                }
                            }
                        }
                    } else {
                        assert(!joins(recs, t, done, i as int, j as int)) by {
                            if marked.contains(pj) && !done.contains(pj) {
                                let k = choose|k: int|
                                    i < k < j && #[trigger] near(recs, t, i as int, k)
                                        && recs[k].path == pj;
                                assert(near(recs, t, i as int, k));
                            }
                        }
                        assert(matches_below(recs, t, done, i as int, j + 1) == found);
                    }
                    assert forall|p: Seq<char>|
                        processed@.contains(p) <==> done.contains(p) || near_path_below(
                            recs,
                            t,
                            i as int,
                            j + 1,
                            p,
                        ) by {
                        if near_path_below(recs, t, i as int, j as int, p) {
                            let k = choose|k: int|
                                i < k < j && #[trigger] near(recs, t, i as int, k) && recs[k].path
                                    == p;
                            assert(i < k < j + 1 && near(recs, t, i as int, k));
                        }
                        if near_path_below(recs, t, i as int, j + 1, p) {
                            let k = choose|k: int|
                                i < k < j + 1 && #[trigger] near(recs, t, i as int, k)
                                    && recs[k].path == p;
                            if k < j {
                                assert(near_path_below(recs, t, i as int, j as int, p));
                            }
                        }
                        if taken && p == pj {
                            assert(near(recs, t, i as int, j as int));
                        }
                    }
                }
                j = j + 1;
            }
            let ghost found = matches_of(recs, t, done, i as int);
            if current.len() > 1 {
                groups.push(DuplicatesGroup { items: current });
                processed.insert(images[i].path.clone());
                proof {
                    assert(forms_group(recs, t, done, i as int));
                    assert(processed@ =~= assigned_before(recs, t, i + 1));
                    assert(groups_of(groups@) =~= before.push(pick(recs, group_at(recs, t, i as int))));
                    assert(groups_of(groups@) =~= pick_groups(
                        recs,
                        index_groups_below(recs, t, i + 1),
                    ));
                }
            } else {
                proof {
                    assert(found.len() == 0);
                    assert(paths_at(recs, found) =~= Set::<Seq<char>>::empty());
                    assert(processed@ =~= done);
                    assert(!forms_group(recs, t, done, i as int));
                }
            }
        } else {
            proof {
                assert(!forms_group(recs, t, done, i as int));
            }
        }
        i = i + 1;
    }
    proof {
        let found = duplicate_groups(recs, t);
        lemma_groups_have_two_members(recs, t);
        lemma_members_near_anchor(recs, t);
        assert forall|g: int, m: int|
            0 <= g < groups@.len() && 0 <= m < groups@[g].items@.len() implies (
        #[trigger] groups@[g].items@[m])@ == found[g][m] && found[g].len()
            == groups@[g].items@.len() by {
            assert(groups_of(groups@)[g] == records_of(groups@[g].items@));
        }
        assert forall|g: int| 0 <= g < groups@.len() implies (#[trigger] groups@[g]).items@.len()
            >= 2 by {
            assert(groups_of(groups@)[g] == records_of(groups@[g].items@));
        }
        assert forall|g1: int, m1: int, g2: int, m2: int|
            0 <= g1 < groups@.len() && 0 <= m1 < groups@[g1].items@.len() && 0 <= g2
                < groups@.len() && 0 <= m2 < groups@[g2].items@.len() && g1 != g2 implies (
        #[trigger] groups@[g1].items@[m1]).path@ != (#[trigger] groups@[g2].items@[m2]).path@ by {
            lemma_paths_in_one_group(recs, t, g1, m1, g2, m2);
        }
    }
    groups
}

} // verus!

use vstd::prelude::*;
use crate::envelope::Envelope;
use crate::node::{RTreeNode, ParentNodeData};

verus! {

/// The sum of the intersection areas of `e` with the envelopes of `s[0..k]`, skipping index `i`.
pub open spec fn overlap_with_others(s: Seq<RTreeNode>, e: Envelope, i: int, k: int) -> int
    decreases k,
{
    if k <= 0 {
        0
    } else if k - 1 == i {
        overlap_with_others(s, e, i, k - 1)
    } else {
        overlap_with_others(s, e, i, k - 1) + e.intersection_area_spec(s[k - 1].envelope_spec())
    }
}

/// The score of child `i` when `e` is inserted under it and no child contains `e`:
/// (overlap increase, area increase, area). The overlap increase counts only when the children
/// are leaf parents, and is zero otherwise.
pub open spec fn choose_key(s: Seq<RTreeNode>, e: Envelope, i: int, all_leaves: bool) -> (
    int,
    int,
    int,
) {
    let old_env = s[i].envelope_spec();
    let new_env = old_env.merged_spec(e);
    let overlap_increase = if all_leaves {
        overlap_with_others(s, new_env, i, s.len() as int) - overlap_with_others(
            s,
            old_env,
            i,
            s.len() as int,
        )
    } else {
        0
    };
    (overlap_increase, new_env.area_spec() - old_env.area_spec(), new_env.area_spec())
}

/// Lexicographic `<` on triples.
pub open spec fn key_lt(a: (int, int, int), b: (int, int, int)) -> bool {
    a.0 < b.0 || (a.0 == b.0 && (a.1 < b.1 || (a.1 == b.1 && a.2 < b.2)))
}

/// Some child of `s` already contains `e`.
pub open spec fn some_contains(s: Seq<RTreeNode>, e: Envelope) -> bool {
    exists|j: int| 0 <= j < s.len() && (#[trigger] s[j]).envelope_spec().contains_spec(e)
}

/// The child that the chooser picks: among the children that contain `e`, the first of least
/// area; when none does, the first of least `choose_key`.
pub open spec fn is_chosen(s: Seq<RTreeNode>, e: Envelope, all_leaves: bool, r: int) -> bool {
    &&& 0 <= r < s.len()
    &&& some_contains(s, e) ==> {
        &&& s[r].envelope_spec().contains_spec(e)
        &&& forall|j: int|
            0 <= j < s.len() && (#[trigger] s[j]).envelope_spec().contains_spec(e) ==> {
                &&& s[r].envelope_spec().area_spec() <= s[j].envelope_spec().area_spec()
                &&& j < r ==> s[r].envelope_spec().area_spec() < s[j].envelope_spec().area_spec()
            }
    }
    &&& !some_contains(s, e) ==> forall|j: int|
        0 <= j < s.len() ==> {
            &&& !key_lt(#[trigger] choose_key(s, e, j, all_leaves), choose_key(s, e, r, all_leaves))
            &&& j < r ==> key_lt(choose_key(s, e, r, all_leaves), choose_key(s, e, j, all_leaves))
        }
}

/// Sums the intersection areas of `e` with every child but child `i`.
fn overlap_sum(children: &Vec<RTreeNode>, e: &Envelope, i: usize) -> (r: u128)
    ensures
        r as int == overlap_with_others(children@, *e, i as int, children@.len() as int),
        r as int <= children@.len() * 0x1_0000_0000_0000_0000,
{
    let mut sum: u128 = 0;
    let mut j: usize = 0;
    while j < children.len()
        invariant
            j <= children@.len(),
            sum as int == overlap_with_others(children@, *e, i as int, j as int),
            sum as int <= j * 0x1_0000_0000_0000_0000,
        decreases children@.len() - j,
    {
        if j != i {
            let a = e.intersection_area(&children[j].envelope());
            sum = sum + a;
        }
        j = j + 1;
    }
    sum
}

/// A larger envelope overlaps the others at least as much.
proof fn lemma_overlap_monotone(s: Seq<RTreeNode>, a: Envelope, b: Envelope, i: int, k: int)
    requires
        b.contains_spec(a),
        k <= s.len(),
    ensures
        overlap_with_others(s, a, i, k) <= overlap_with_others(s, b, i, k),
    decreases k,
{
    if k > 0 {
        lemma_overlap_monotone(s, a, b, i, k - 1);
        crate::envelope::lemma_intersection_monotone(a, b, s[k - 1].envelope_spec());
    }
}

fn key_less(a: (u128, u128, u128), b: (u128, u128, u128)) -> (r: bool)
    ensures
        r == key_lt((a.0 as int, a.1 as int, a.2 as int), (b.0 as int, b.1 as int, b.2 as int)),
{
    a.0 < b.0 || (a.0 == b.0 && (a.1 < b.1 || (a.1 == b.1 && a.2 < b.2)))
}

/// Picks the child of `node` under which `to_insert` goes (see `is_chosen`); `all_leaves`
/// says that the children of `node` are leaf parents.
pub fn choose_subtree(node: &ParentNodeData, to_insert: &RTreeNode, all_leaves: bool) -> (r:
    usize)
    requires
        node.children@.len() > 0,
    ensures
        is_chosen(node.children@, to_insert.envelope_spec(), all_leaves, r as int),
{
    let ghost s = node.children@;
    let insertion_envelope = to_insert.envelope();
    let ghost e = insertion_envelope;
    let mut found = false;
    let mut min_area: u128 = u128::MAX;
    let mut min_index: usize = 0;
    let mut index: usize = 0;
    while index < node.children.len()
        invariant
            s == node.children@,
            e == insertion_envelope,
            index <= s.len(),
            min_index < s.len(),
            found <==> exists|j: int|
                0 <= j < index && (#[trigger] s[j]).envelope_spec().contains_spec(e),
            !found ==> min_area == u128::MAX,
            found ==> {
                &&& min_index < index
                &&& s[min_index as int].envelope_spec().contains_spec(e)
                &&& min_area as int == s[min_index as int].envelope_spec().area_spec()
            },
            forall|j: int|
                0 <= j < index && (#[trigger] s[j]).envelope_spec().contains_spec(e) ==> {
                    &&& min_area <= s[j].envelope_spec().area_spec()
                    &&& j < min_index ==> min_area < s[j].envelope_spec().area_spec()
                },
        decreases s.len() - index,
    {
        let envelope = node.children[index].envelope();
        if envelope.contains_envelope(&insertion_envelope) {
            found = true;
            let area = envelope.area();
            if area < min_area {
                min_area = area;
                min_index = index;
            }
        }
        index = index + 1;
    }
    if !found {
        let mut min: (u128, u128, u128) = (0, 0, 0);
        let mut index: usize = 0;
        while index < node.children.len()
            invariant
                s == node.children@,
                e == insertion_envelope,
                index <= s.len(),
                min_index < s.len(),
                index > 0 ==> min_index < index,
                index > 0 ==> (min.0 as int, min.1 as int, min.2 as int) == choose_key(
                    s,
                    e,
                    min_index as int,
                    all_leaves,
                ),
                forall|j: int|
                    0 <= j < index ==> {
                        &&& !key_lt(
                            #[trigger] choose_key(s, e, j, all_leaves),
                            choose_key(s, e, min_index as int, all_leaves),
                        )
                        &&& j < min_index ==> key_lt(
                            choose_key(s, e, min_index as int, all_leaves),
                            choose_key(s, e, j, all_leaves),
                        )
                    },
            decreases s.len() - index,
        {
            let envelope = node.children[index].envelope();
            let new_envelope = envelope.merged(&insertion_envelope);
            proof {
                crate::envelope::lemma_merged_contains(envelope, e);
                crate::envelope::lemma_area_monotone(envelope, new_envelope);
            }
            let overlap_increase: u128 = if all_leaves {
                let overlap = overlap_sum(&node.children, &envelope, index);
                let new_overlap = overlap_sum(&node.children, &new_envelope, index);
                proof {
                    lemma_overlap_monotone(s, envelope, new_envelope, index as int, s.len() as int);
                }
                new_overlap - overlap
            } else {
                0
            };
            let area = new_envelope.area();
            let area_increase = area - envelope.area();
            let new_min = (overlap_increase, area_increase, area);
            if key_less(new_min, min) || index == 0 {
                min = new_min;
                min_index = index;
            }
            index = index + 1;
        }
    }
    min_index
}

} // verus!

use vstd::prelude::*;
use vstd::multiset::Multiset;
use crate::envelope::{Envelope, Point, point_envelope};
use crate::node::{RTreeNode, ParentNodeData, leaves, leaves_of_prefix, node_wf, parent_wf, lemma_leaves_within};

verus! {

/// How many copies of `p` the objects `m` hold inside `query`.
pub open spec fn count_within(m: Multiset<Point>, query: Envelope, p: Point) -> nat {
    if query.contains_spec(point_envelope(p)) {
        m.count(p)
    } else {
        0
    }
}

/// Appends to `out` the objects under `node` that lie inside `query`, skipping the subtrees
/// whose envelopes do not meet `query`.
pub fn collect_within(node: &RTreeNode, query: &Envelope, out: &mut Vec<Point>, Ghost(h): Ghost<
    nat,
>)
    requires
        node_wf(*node, h),
    ensures
        forall|p: Point|
            (#[trigger] final(out)@.to_multiset().count(p)) == old(out)@.to_multiset().count(p)
                + count_within(leaves(*node), *query, p),
    decreases node,
{
    broadcast use vstd::seq_lib::group_to_multiset_ensures;

    match node {
        RTreeNode::Leaf(p) => {
            if query.contains_envelope(&Envelope::from_point(p)) {
                out.push(*p);
            }
        },
        RTreeNode::Parent(d) => {
            let ghost s = d.children@;
            let mut i: usize = 0;
            while i < d.children.len()
                invariant
                    s == d.children@,
                    node_wf(*node, h),
                    *node == RTreeNode::Parent(*d),
                    i <= s.len(),
                    forall|p: Point|
                        (#[trigger] out@.to_multiset().count(p)) == old(out)@.to_multiset().count(p)
                            + count_within(leaves_of_prefix(s, i as int), *query, p),
                decreases s.len() - i,
            {
                let child = &d.children[i];
                assert(node_wf(s[i as int], (h - 1) as nat));
                assert(leaves_of_prefix(s, i + 1) == leaves_of_prefix(s, i as int).add(
                    leaves(s[i as int]),
                ));
                if child.envelope().intersects(query) {
                    collect_within(child, query, out, Ghost((h - 1) as nat));
                } else {
                    assert forall|p: Point| count_within(leaves(*child), *query, p) == 0 by {
                        if leaves(*child).count(p) > 0 {
                            lemma_leaves_within(*child, (h - 1) as nat, p);
                        }
                    }
                }
                i = i + 1;
            }
        },
    }
}

/// Appends every object under `node` to `out`.
pub fn collect_all(node: &RTreeNode, out: &mut Vec<Point>)
    ensures
        final(out)@.to_multiset() == old(out)@.to_multiset().add(leaves(*node)),
    decreases node,
{
    broadcast use vstd::seq_lib::group_to_multiset_ensures;

    match node {
        RTreeNode::Leaf(p) => {
            out.push(*p);
            assert(out@.to_multiset() =~= old(out)@.to_multiset().add(leaves(*node)));
        },
        RTreeNode::Parent(d) => {
            let ghost s = d.children@;
            let mut i: usize = 0;
            while i < d.children.len()
                invariant
                    s == d.children@,
                    *node == RTreeNode::Parent(*d),
                    i <= s.len(),
                    out@.to_multiset() == old(out)@.to_multiset().add(
                        leaves_of_prefix(s, i as int),
                    ),
                decreases s.len() - i,
            {
                assert(leaves_of_prefix(s, i + 1) == leaves_of_prefix(s, i as int).add(
                    leaves(s[i as int]),
                ));
                let child = &d.children[i];
                assert(*child == s[i as int]);
                assert(decreases_to!(*node => node->Parent_0.children@[i as int]));
                collect_all(child, out);
                assert(out@.to_multiset() =~= old(out)@.to_multiset().add(
                    leaves_of_prefix(s, i + 1),
                ));
                i = i + 1;
            }
        },
    }
}

/// Appends every object under `d` to `out`.
pub fn collect_parent(d: &ParentNodeData, out: &mut Vec<Point>)
    ensures
        final(out)@.to_multiset() == old(out)@.to_multiset().add(leaves(RTreeNode::Parent(*d))),
{
    let ghost s = d.children@;
    let mut i: usize = 0;
    while i < d.children.len()
        invariant
            s == d.children@,
            i <= s.len(),
            out@.to_multiset() == old(out)@.to_multiset().add(leaves_of_prefix(s, i as int)),
        decreases s.len() - i,
    {
        assert(leaves_of_prefix(s, i + 1) == leaves_of_prefix(s, i as int).add(leaves(s[i as int])));
        collect_all(&d.children[i], out);
        assert(out@.to_multiset() =~= old(out)@.to_multiset().add(leaves_of_prefix(s, i + 1)));
        i = i + 1;
    }
}

/// Appends to `out` the objects under `d` that lie inside `query`.
pub fn collect_parent_within(
    d: &ParentNodeData,
    query: &Envelope,
    out: &mut Vec<Point>,
    Ghost(h): Ghost<nat>,
)
    requires
        parent_wf(*d, h),
    ensures
        forall|p: Point|
            (#[trigger] final(out)@.to_multiset().count(p)) == old(out)@.to_multiset().count(p)
                + count_within(leaves(RTreeNode::Parent(*d)), *query, p),
{
    let ghost s = d.children@;
    let mut i: usize = 0;
    while i < d.children.len()
        invariant
            s == d.children@,
            parent_wf(*d, h),
            i <= s.len(),
            forall|p: Point|
                (#[trigger] out@.to_multiset().count(p)) == old(out)@.to_multiset().count(p)
                    + count_within(leaves_of_prefix(s, i as int), *query, p),
        decreases s.len() - i,
    {
        assert(node_wf(s[i as int], (h - 1) as nat));
        assert(leaves_of_prefix(s, i + 1) == leaves_of_prefix(s, i as int).add(leaves(s[i as int])));
        collect_within(&d.children[i], query, out, Ghost((h - 1) as nat));
        i = i + 1;
    }
}

} // verus!

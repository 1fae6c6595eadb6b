use vstd::prelude::*;
use vstd::multiset::Multiset;
use crate::envelope::{Point, point_envelope};
use crate::locate::count_within;
use crate::node::{
    RTreeNode, all_fanout_ok, descendant, leaves, node_wf, parent_wf,
    lemma_ancestor_covers_descendant, lemma_leaf_parent_count,
};
use crate::rtree::RTree;

verus! {

/// In a well-formed tree of height `h > 0` every leaf lies `h` levels below the root, and
/// every parent caches the merge of its children's envelopes.
pub proof fn lemma_balanced_and_tight(tree: RTree)
    requires
        tree.wf(),
        tree.height_spec() > 0,
    ensures
        parent_wf(tree.root_spec(), tree.height_spec()),
{
}

/// The root of a well-formed tree has at least two children, unless the tree holds at most one
/// object.
pub proof fn lemma_root_has_two_children(tree: RTree)
    requires
        tree.wf(),
    ensures
        tree.root_spec().children@.len() >= 2 || tree.size_spec() <= 1,
{
    if tree.height_spec() == 1 {
        lemma_leaf_parent_count(tree.root_spec());
    }
}

/// The size of a well-formed tree is the number of objects reachable from its root.
pub proof fn lemma_size_counts_leaves(tree: RTree)
    requires
        tree.wf(),
    ensures
        tree.size_spec() == leaves(RTreeNode::Parent(tree.root_spec())).len(),
{
}

/// Every parent below the root of a well-formed tree has between `min_size` and `max_size`
/// children, when handing back `reinsertion_count` children of an overfull parent leaves at
/// least `min_size`.
pub proof fn lemma_fanout_bounds(tree: RTree)
    requires
        tree.wf(),
        tree.params_spec().reinsertion_count + tree.params_spec().min_size
            <= tree.params_spec().max_size + 1,
    ensures
        all_fanout_ok(
            tree.root_spec().children@,
            tree.params_spec().min_size as nat,
            tree.params_spec().max_size as nat,
        ),
{
}

/// After an insertion of `t` (`after` holds what `before` held, and `t`), every object held
/// before is still found, `t` is found, and a query over the envelope of `t` reports `t`.
pub proof fn lemma_inserted_is_found(before: RTree, after: RTree, t: Point)
    requires
        after.contents() == before.contents().insert(t),
    ensures
        after.contents().count(t) > 0,
        count_within(after.contents(), point_envelope(t), t) > 0,
        forall|p: Point| before.contents().count(p) > 0 ==> #[trigger] after.contents().count(p) > 0,
{
}

/// Starting from an empty tree and inserting `points` one by one, in any order, the tree
/// holds exactly the multiset of `points`.
pub proof fn lemma_contents_are_the_inserted(trees: Seq<RTree>, points: Seq<Point>)
    requires
        trees.len() == points.len() + 1,
        trees[0].contents() == Multiset::<Point>::empty(),
        forall|i: int|
            0 <= i < points.len() ==> #[trigger] trees[i + 1].contents() == trees[i].contents().insert(
                points[i],
            ),
    ensures
        trees.last().contents() == points.to_multiset(),
    decreases points.len(),
{
    broadcast use vstd::seq_lib::group_to_multiset_ensures;

    if points.len() == 0 {
        assert(points.to_multiset() =~= Multiset::empty());
    } else {
        let n = points.len() - 1;
        lemma_contents_are_the_inserted(trees.drop_last(), points.drop_last());
        assert(points =~= points.drop_last().push(points[n]));
        assert(trees[n + 1].contents() == trees[n].contents().insert(points[n]));
    }
}

/// Along any path down from the root of a well-formed tree, each ancestor's envelope covers
/// each descendant's.
pub proof fn lemma_envelopes_monotone_on_paths(tree: RTree, path: Seq<int>)
    requires
        tree.wf(),
        tree.height_spec() > 0,
    ensures
        tree.root_spec().envelope.contains_spec(
            descendant(RTreeNode::Parent(tree.root_spec()), path).envelope_spec(),
        ),
{
    lemma_ancestor_covers_descendant(RTreeNode::Parent(tree.root_spec()), tree.height_spec(), path);
}

} // verus!

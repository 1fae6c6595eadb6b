use vstd::prelude::*;
use vstd::multiset::Multiset;
use crate::chooser::choose_subtree;
use crate::envelope::{Point, neutral_envelope};
use crate::node::{
    RTreeNode, ParentNodeData, envelope_for_children, envelope_of, envelope_of_prefix, leaves,
    leaves_of, node_wf, parent_wf, fanout_ok, all_fanout_ok, lemma_leaves_push,
    lemma_leaves_remove, lemma_leaves_split, lemma_drawn_from_fanout, drawn_from, descendant,
    holds_at, lemma_holds_below_child, lemma_holds_after_regroup,
};
use crate::params::RTreeParams;
use crate::rtree::RTree;
use crate::split::{
    all_at_level, reinsert, split, sorted_by, stable_reorder, center_key, is_best_split, sorted_on_best_axis,
};

verus! {

/// Reinsertion is still permitted for the nodes of `level`.
pub open spec fn reinsert_allowed(permitted: Seq<bool>, level: int) -> bool {
    0 <= level < permitted.len() && permitted[level]
}

/// What an insertion below a node left for its ancestors to do.
pub enum InsertionResult {
    /// The node was split; this new sibling goes next to it.
    Split(RTreeNode),
    /// These nodes were taken out to be inserted again; the number says how many levels above
    /// the node that gave them up the report has come.
    Reinsert(Vec<RTreeNode>, usize),
    /// Nothing is left to do.
    Complete,
}

/// The objects that an insertion result carries.
pub open spec fn result_leaves(r: InsertionResult) -> Multiset<Point> {
    match r {
        InsertionResult::Split(s) => leaves(s),
        InsertionResult::Reinsert(v, _) => leaves_of(v@),
        InsertionResult::Complete => Multiset::empty(),
    }
}

/// After a child was added to `node`: `Complete` while it has at most `max_size` children;
/// otherwise `Reinsert` of the children that `reinsert` picks when reinsertion is enabled and
/// still allowed at this level, else `Split` with the sibling that `split` makes.
fn resolve_overflow(
    node: &mut ParentNodeData,
    allow_reinsert: bool,
    params: &RTreeParams,
    Ghost(h): Ghost<nat>,
) -> (r: InsertionResult)
    requires
        parent_wf(*old(node), h),
        params.wf(),
    ensures
        parent_wf(*final(node), h),
        leaves(RTreeNode::Parent(*final(node))).add(result_leaves(r)) == leaves(
            RTreeNode::Parent(*old(node)),
        ),
        old(node).children@.len() <= params.max_size <==> r is Complete,
        r is Complete ==> *final(node) == *old(node),
        r is Reinsert <==> (old(node).children@.len() > params.max_size && params.reinsertion_count
            > 0 && allow_reinsert),
        r is Split ==> node_wf(r->Split_0, h),
        r is Reinsert ==> r->Reinsert_1 == 0 && all_at_level(r->Reinsert_0@, (h - 1) as nat),
        r is Reinsert ==> final(node).children@.len() == old(node).children@.len()
            - params.reinsertion_count && drawn_from(r->Reinsert_0@, old(node).children@),
        r is Reinsert ==> r->Reinsert_0@.len() == params.reinsertion_count && (final(node).children@
            + r->Reinsert_0@).to_multiset() == old(node).children@.to_multiset() && sorted_by(
            final(node).children@ + r->Reinsert_0@,
            center_key(old(node).envelope),
        ) && (exists|p: Seq<int>|
            stable_reorder(
                final(node).children@ + r->Reinsert_0@,
                old(node).children@,
                center_key(old(node).envelope),
                p,
            )),
        r is Split ==> (final(node).children@ + r->Split_0->Parent_0.children@).to_multiset()
            == old(node).children@.to_multiset() && is_best_split(
            final(node).children@ + r->Split_0->Parent_0.children@,
            final(node).children@.len() as int,
            params.min_size as int,
        ) && sorted_on_best_axis(
            final(node).children@ + r->Split_0->Parent_0.children@,
            old(node).children@,
            params.min_size as int,
        ),
        r is Split ==> r->Split_0 is Parent && params.min_size <= final(node).children@.len()
            && params.min_size <= r->Split_0->Parent_0.children@.len()
            && final(node).children@.len() + r->Split_0->Parent_0.children@.len()
            == old(node).children@.len() && drawn_from(
            r->Split_0->Parent_0.children@,
            old(node).children@,
        ),
        drawn_from(final(node).children@, old(node).children@),
{
    if node.children.len() > params.max_size {
        let reinsertion_count = params.reinsertion_count;
        if reinsertion_count == 0 || !allow_reinsert {
            let offsplit = split(node, params, Ghost(h));
            InsertionResult::Split(offsplit)
        } else {
            let reinsertion_nodes = reinsert(node, params, Ghost(h));
            InsertionResult::Reinsert(reinsertion_nodes, 0)
        }
    } else {
        InsertionResult::Complete
    }
}

/// Inserts `t`, a node of level `h - 1 - target_height`, below `node`, a parent of level
/// `node_level == h`, descending by `choose_subtree` and resolving overflow on the way back
/// up. An overfull parent may hand back children for reinsertion only while `permitted` still
/// allows it for the level of its children. Each visited
/// parent takes the merge of its children's envelopes on the way back up: the same envelope
/// as merging in the envelope of `t` on the way down, and also right after children were
/// handed back for reinsertion.
fn recursive_insert(
    node: &mut ParentNodeData,
    t: RTreeNode,
    target_height: usize,
    node_level: usize,
    permitted: &Vec<bool>,
    params: &RTreeParams,
    Ghost(h): Ghost<nat>,
) -> (r: InsertionResult)
    requires
        parent_wf(*old(node), h),
        node_level == h,
        target_height < h <= usize::MAX,
        node_wf(t, (h - 1 - target_height) as nat),
        params.wf(),
        all_fanout_ok(old(node).children@, params.min_fanout(), params.max_size as nat),
        fanout_ok(t, params.min_fanout(), params.max_size as nat),
    ensures
        parent_wf(*final(node), h),
        leaves(RTreeNode::Parent(*final(node))).add(result_leaves(r)) == leaves(
            RTreeNode::Parent(*old(node)),
        ).add(leaves(t)),
        r is Split ==> node_wf(r->Split_0, h),
        r is Reinsert ==> r->Reinsert_1 <= target_height && r->Reinsert_0@.len()
            == params.reinsertion_count && params.reinsertion_count > 0 && reinsert_allowed(
            permitted@,
            h - 1 - r->Reinsert_1,
        ),
        r is Split ==> params.min_size <= final(node).children@.len() && params.min_size
            <= r->Split_0->Parent_0.children@.len(),
        target_height == 0 && old(node).children@.len() >= params.max_size ==> (r is Reinsert
            <==> params.reinsertion_count > 0 && reinsert_allowed(permitted@, h - 1)),
        r is Reinsert ==> r->Reinsert_1 < h && all_at_level(
            r->Reinsert_0@,
            (h - 1 - r->Reinsert_1) as nat,
        ),
        all_fanout_ok(final(node).children@, params.min_fanout(), params.max_size as nat),
        old(node).children@.len() <= params.max_size ==> final(node).children@.len()
            <= params.max_size,
        old(node).children@.len() >= params.min_fanout() ==> final(node).children@.len()
            >= params.min_fanout(),
        r is Split ==> r->Split_0 is Parent && final(node).children@.len() >= params.min_fanout()
            && all_fanout_ok(
            r->Split_0->Parent_0.children@,
            params.min_fanout(),
            params.max_size as nat,
        ) && (old(node).children@.len() <= params.max_size ==> fanout_ok(
            r->Split_0,
            params.min_fanout(),
            params.max_size as nat,
        )),
        r is Reinsert ==> all_fanout_ok(r->Reinsert_0@, params.min_fanout(), params.max_size as nat),
        !(r is Split) && old(node).children@.len() >= 2 ==> final(node).children@.len() >= 2,
        target_height == 0 ==> (old(node).children@.len() < params.max_size <==> r is Complete),
        target_height == 0 && r is Complete ==> final(node).children@ == old(node).children@.push(t),
        r is Complete ==> holds_at(RTreeNode::Parent(*final(node)), t, (target_height + 1) as nat),
        r is Split ==> holds_at(RTreeNode::Parent(*final(node)), t, (target_height + 1) as nat)
            || holds_at(r->Split_0, t, (target_height + 1) as nat),
        target_height == 0 && r is Reinsert ==> final(node).children@.len() + r->Reinsert_0@.len()
            == old(node).children@.len() + 1,
    decreases target_height,
{
    let ghost lo = params.min_fanout();
    let ghost hi = params.max_size as nat;
    if target_height == 0 {
        proof {
            lemma_leaves_push(node.children@, t);
        }
        node.children.push(t);
        node.envelope = envelope_for_children(&node.children);
        assert(all_fanout_ok(node.children@, lo, hi));
        let ghost pushed = node.children@;
        let allow_reinsert = node_level - 1 < permitted.len() && permitted[node_level - 1];
        let r = resolve_overflow(node, allow_reinsert, params, Ghost(h));
        proof {
            lemma_drawn_from_fanout(node.children@, pushed, lo, hi);
            if r is Split {
                lemma_drawn_from_fanout(r->Split_0->Parent_0.children@, pushed, lo, hi);
            }
            if r is Reinsert {
                lemma_drawn_from_fanout(r->Reinsert_0@, pushed, lo, hi);
            }
            assert(descendant(t, Seq::<int>::empty()) == t);
            assert(holds_at(pushed[pushed.len() - 1], t, 0));
            if r is Complete {
                lemma_holds_below_child(*node, pushed.len() - 1, t, 0);
            }
            if r is Split {
                lemma_holds_after_regroup(pushed, pushed.len() - 1, *node, r->Split_0->Parent_0, t, 0);
            }
        }
        return r;
    }
    let all_leaves = target_height == 1;
    let index = choose_subtree(node, &t, all_leaves);
    let ghost before = node.children@;
    proof {
        lemma_leaves_remove(before, index as int);
    }
    let child = node.children.remove(index);
    match child {
        RTreeNode::Parent(mut data) => {
            let ghost old_data = data;
            let expand = recursive_insert(
                &mut data,
                t,
                target_height - 1,
                node_level - 1,
                permitted,
                params,
                Ghost((h - 1) as nat),
            );
            let ghost rest = node.children@;
            node.children.insert(index, RTreeNode::Parent(data));
            proof {
                assert(node.children@.remove(index as int) =~= rest);
                lemma_leaves_remove(node.children@, index as int);
                assert(all_at_level(node.children@, (h - 1) as nat));
                assert(fanout_ok(before[index as int], lo, hi));
                assert(fanout_ok(RTreeNode::Parent(data), lo, hi));
                assert(all_fanout_ok(node.children@, lo, hi));
            }
            let ghost total = leaves_of(before).add(leaves(t));
            proof {
                let a = leaves_of(rest);
                let d = leaves(RTreeNode::Parent(data));
                let d0 = leaves(RTreeNode::Parent(old_data));
                let rr = result_leaves(expand);
                let tt = leaves(t);
                assert(a.add(d).add(rr) =~= a.add(d.add(rr)));
                assert(a.add(d0.add(tt)) =~= a.add(d0).add(tt));
                assert(leaves_of(node.children@).add(result_leaves(expand)) == total);
            }
            match expand {
                InsertionResult::Split(child) => {
                    proof {
                        lemma_leaves_push(node.children@, child);
                    }
                    node.children.push(child);
                    node.envelope = envelope_for_children(&node.children);
                    let ghost pre = *node;
                    assert(all_fanout_ok(node.children@, lo, hi));
                    let allow_reinsert = node_level - 1 < permitted.len() && permitted[node_level
                        - 1];
                    let r = resolve_overflow(node, allow_reinsert, params, Ghost(h));
                    proof {
                        let k = if holds_at(RTreeNode::Parent(data), t, target_height as nat) {
                            index as int
                        } else {
                            pre.children@.len() - 1
                        };
                        assert(holds_at(pre.children@[k], t, target_height as nat));
                        if r is Complete {
                            lemma_holds_below_child(pre, k, t, target_height as nat);
                        }
                        if r is Split {
                            lemma_holds_after_regroup(
                                pre.children@,
                                k,
                                *node,
                                r->Split_0->Parent_0,
                                t,
                                target_height as nat,
                            );
                        }
                        assert(leaves(RTreeNode::Parent(pre)) =~= total);
                        lemma_drawn_from_fanout(node.children@, pre.children@, lo, hi);
                        if r is Split {
                            lemma_drawn_from_fanout(r->Split_0->Parent_0.children@, pre.children@, lo, hi);
                        }
                        if r is Reinsert {
                            lemma_drawn_from_fanout(r->Reinsert_0@, pre.children@, lo, hi);
                        }
                    }
                    r
                },
                InsertionResult::Reinsert(reinsertion_nodes, height) => {
                    node.envelope = envelope_for_children(&node.children);
                    InsertionResult::Reinsert(reinsertion_nodes, height + 1)
                },
                InsertionResult::Complete => {
                    node.envelope = envelope_for_children(&node.children);
                    proof {
                        assert(leaves_of(node.children@) =~= total);
                        lemma_holds_below_child(*node, index as int, t, target_height as nat);
                    }
                    InsertionResult::Complete
                },
            }
        },
        RTreeNode::Leaf(p) => {
            proof {
                assert(node_wf(before[index as int], (h - 1) as nat));
            }
            node.children.insert(index, RTreeNode::Leaf(p));
            InsertionResult::Complete
        },
    }
}

/// The number of `true` entries of `s`.
pub open spec fn count_true(s: Seq<bool>) -> nat
    decreases s.len(),
{
    if s.len() == 0 {
        0
    } else {
        count_true(s.drop_last()) + if s.last() { 1nat } else { 0nat }
    }
}

proof fn lemma_count_clear(s: Seq<bool>, i: int)
    requires
        0 <= i < s.len(),
    ensures
        count_true(s.update(i, false)) + if s[i] { 1nat } else { 0nat } == count_true(s),
    decreases s.len(),
{
    if i < s.len() - 1 {
        lemma_count_clear(s.drop_last(), i);
        assert(s.update(i, false).drop_last() =~= s.drop_last().update(i, false));
    } else {
        assert(s.update(i, false).drop_last() =~= s.drop_last());
    }
}

/// The R* insertion discipline: subtree choice by least overlap and area growth, forced
/// reinsertion once per level and insertion, and splits that minimise overlap.
pub enum RStarInsertionStrategy {
    RStar,
}

/// A discipline for placing a new object in a tree.
pub trait InsertionStrategy {
    /// Inserts `t` into `tree`, leaving the count of objects to the caller.
    fn insert(tree: &mut RTree, t: Point)
        requires
            old(tree).wf(),
        ensures
            final(tree).shape_wf(),
            final(tree).contents() == old(tree).contents().insert(t),
            final(tree).size_spec() == old(tree).size_spec(),
            final(tree).params_spec() == old(tree).params_spec(),
            final(tree).height_spec() >= old(tree).height_spec(),
            final(tree).height_spec() >= 1,
            old(tree).size_spec() == 0 ==> final(tree).height_spec() == 1
                && final(tree).root_spec().children@ == seq![RTreeNode::Leaf(t)],
            old(tree).height_spec() == 1 && old(tree).root_spec().children@.len()
                == old(tree).params_spec().max_size ==> final(tree).height_spec() == 2
                && final(tree).root_spec().children@.len() == 2
                && final(tree).root_spec().children@[0] is Parent
                && final(tree).root_spec().children@[1] is Parent,
    ;
}

impl InsertionStrategy for RStarInsertionStrategy {
    /// The new leaf, and the nodes that overflowing parents hand back for reinsertion, are
    /// driven from the root through a stack; a split of the root grows the tree by one level.
    /// Each level may hand back children at most once per insertion: its entry in the
    /// permission vector is cleared on first use, so later overflows there split.
    fn insert(tree: &mut RTree, t: Point) {
        if tree.size == 0 {
            // The first leaf goes directly under the root, one level down.
            tree.height = 1;
        }
        let params = tree.params;
        let mut tree_height = tree.height;
        let ghost start = tree.contents().insert(t);
        let ghost first_split = old(tree).height == 1 && old(tree).root.children@.len()
            == params.max_size;
        let mut stack_nodes: Vec<RTreeNode> = Vec::new();
        let mut stack_levels: Vec<usize> = Vec::new();
        stack_nodes.push(RTreeNode::Leaf(t));
        stack_levels.push(0);
        proof {
            lemma_leaves_push(Seq::empty(), RTreeNode::Leaf(t));
            assert(leaves_of(stack_nodes@) =~= Multiset::singleton(t));
            assert(tree.contents().add(leaves_of(stack_nodes@)) =~= start);
        }
        let mut reinsertions: Vec<bool> = Vec::new();
        let mut i: usize = 0;
        while i < tree_height
            invariant
                reinsertions@.len() == i <= tree_height,
            decreases tree_height - i,
        {
            reinsertions.push(true);
            i = i + 1;
        }
        while stack_nodes.len() > 0
            invariant
                params == tree.params,
                params.wf(),
                tree.size == old(tree).size,
                tree_height == tree.height,
                tree_height >= 1,
                tree_height >= old(tree).height,
                parent_wf(tree.root, tree_height as nat),
                all_fanout_ok(tree.root.children@, params.min_fanout(), params.max_size as nat),
                tree_height < usize::MAX ==> tree.root.children@.len() <= params.max_size,
                tree_height >= 2 ==> tree.root.children@.len() >= 2,
                all_fanout_ok(stack_nodes@, params.min_fanout(), params.max_size as nat),
                stack_levels@.len() == stack_nodes@.len(),
                forall|j: int|
                    0 <= j < stack_nodes@.len() ==> #[trigger] stack_levels@[j] < tree_height
                        && node_wf(stack_nodes@[j], stack_levels@[j] as nat),
                tree.contents().add(leaves_of(stack_nodes@)) == start,
                old(tree).size == 0 ==> tree_height == 1 && (if stack_nodes@.len() == 0 {
                    tree.root.children@ == seq![RTreeNode::Leaf(t)]
                } else {
                    tree.root.children@.len() == 0 && stack_nodes@ == seq![RTreeNode::Leaf(t)]
                        && stack_levels@[0] == 0
                }),
                first_split ==> (tree_height == 1 && tree.root.children@.len() + stack_nodes@.len()
                    == params.max_size + 1 && forall|j: int|
                    0 <= j < stack_levels@.len() ==> #[trigger] stack_levels@[j] == 0) || (
                tree_height == 2 && stack_nodes@.len() == 0 && tree.root.children@.len() == 2
                    && tree.root.children@[0] is Parent && tree.root.children@[1] is Parent),
            decreases count_true(reinsertions@), stack_nodes@.len(),
        {
            let ghost nodes_before = stack_nodes@;
            let next = stack_nodes.pop().unwrap();
            let node_height = stack_levels.pop().unwrap();
            proof {
                assert(nodes_before =~= stack_nodes@.push(next));
                lemma_leaves_push(stack_nodes@, next);
                assert(node_wf(nodes_before[nodes_before.len() - 1], node_height as nat));
                assert(fanout_ok(nodes_before[nodes_before.len() - 1], params.min_fanout(), params.max_size as nat));
                assert(all_fanout_ok(stack_nodes@, params.min_fanout(), params.max_size as nat));
            }
            let ghost root_before = tree.root;
            let result = recursive_insert(
                &mut tree.root,
                next,
                tree_height - node_height - 1,
                tree_height,
                &reinsertions,
                &params,
                Ghost(tree_height as nat),
            );
            proof {
                assert(leaves(RTreeNode::Parent(tree.root)).add(result_leaves(result)).add(
                    leaves_of(stack_nodes@),
                ) =~= start);
            }
            match result {
                InsertionResult::Split(node) => {
                    // The root itself split: a new root takes both halves, one level higher.
                    if tree_height < usize::MAX {
                        tree_height = tree_height + 1;
                        let mut old_root = ParentNodeData::new_root();
                        std::mem::swap(&mut old_root, &mut tree.root);
                        tree.height = tree_height;
                        let new_envelope = old_root.envelope.merged(&node.envelope());
                        tree.root.envelope = new_envelope;
                        tree.root.children.push(RTreeNode::Parent(old_root));
                        tree.root.children.push(node);
                        proof {
                            let s = tree.root.children@;
                            assert(s[0] == RTreeNode::Parent(old_root));
                            assert(s[1] == node);
                            assert(envelope_of_prefix(s, 0) == neutral_envelope());
                            assert(envelope_of_prefix(s, 1) == old_root.envelope);
                            assert(envelope_of(s) == new_envelope);
                            lemma_leaves_push(seq![RTreeNode::Parent(old_root)], node);
                            lemma_leaves_push(Seq::empty(), RTreeNode::Parent(old_root));
                            assert(s =~= seq![RTreeNode::Parent(old_root)].push(node));
                            assert(seq![RTreeNode::Parent(old_root)] =~= Seq::<RTreeNode>::empty().push(RTreeNode::Parent(old_root)));
                            assert(leaves_of(Seq::<RTreeNode>::empty()) =~= Multiset::empty());
                            assert(tree.contents() =~= leaves(RTreeNode::Parent(old_root)).add(leaves(node)));
                            assert(tree.contents().add(leaves_of(stack_nodes@)) =~= start);
                        }
                    } else {
                        // The level count cannot grow: the root keeps all its children.
                        match node {
                            RTreeNode::Parent(mut data) => {
                                let ghost rest = tree.root.children@;
                                let ghost moved = data.children@;
                                tree.root.children.append(&mut data.children);
                                tree.root.envelope = envelope_for_children(&tree.root.children);
                                proof {
                                    lemma_leaves_split(tree.root.children@, rest.len() as int);
                                    assert(tree.root.children@.subrange(0, rest.len() as int) =~= rest);
                                    assert(tree.root.children@.subrange(rest.len() as int, tree.root.children@.len() as int) =~= moved);
                                    assert(tree.contents().add(leaves_of(stack_nodes@)) =~= start);
                                }
                            },
                            RTreeNode::Leaf(_) => {},  // a split always hands back a parent
                        }
                    }
                },
                InsertionResult::Reinsert(nodes, height) => {
                    let node_height = tree_height - height - 1;
                    // The first reinsertion from this level is the last one in this insertion.
                    let ghost bits_before = reinsertions@;
                    reinsertions.set(node_height, false);
                    proof {
                        lemma_count_clear(bits_before, node_height as int);
                    }
                    // The handed-back nodes go onto the stack for the level they came from.
                    let ghost stack_before = stack_nodes@;
                    let mut nodes = nodes;
                    let count = nodes.len();
                    let ghost moved = nodes@;
                    stack_nodes.append(&mut nodes);
                    proof {
                        lemma_leaves_split(stack_nodes@, stack_before.len() as int);
                        assert(stack_nodes@.subrange(0, stack_before.len() as int) =~= stack_before);
                        assert(stack_nodes@.subrange(stack_before.len() as int, stack_nodes@.len() as int) =~= moved);
                    }
                    let mut k: usize = 0;
                    while k < count
                        invariant
                            k <= count,
                            count == moved.len(),
                            stack_nodes@ == stack_before + moved,
                            all_fanout_ok(stack_nodes@, params.min_fanout(), params.max_size as nat),
                            stack_levels@.len() == stack_before.len() + k,
                            node_height < tree_height,
                            all_at_level(moved, node_height as nat),
                            forall|j: int|
                                0 <= j < stack_before.len() + k ==> #[trigger] stack_levels@[j] < tree_height
                                    && node_wf(stack_nodes@[j], stack_levels@[j] as nat),
                            first_split && tree_height == 1 ==> node_height == 0 && forall|j: int|
                                0 <= j < stack_before.len() + k ==> #[trigger] stack_levels@[j] == 0,
                        decreases count - k,
                    {
                        stack_levels.push(node_height);
                        k = k + 1;
                    }
                },
                InsertionResult::Complete => {
                    proof {
                        assert(tree.contents().add(leaves_of(stack_nodes@)) =~= start);
                    }
                },
            }
        }
        proof {
            assert(stack_nodes@ =~= Seq::<RTreeNode>::empty());
            assert(leaves_of(stack_nodes@) =~= Multiset::empty());
            assert(tree.contents() =~= start);
        }
    }
}

} // verus!

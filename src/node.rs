use vstd::prelude::*;
use vstd::multiset::Multiset;
use crate::envelope::{Envelope, Point, neutral_envelope, point_envelope};

verus! {

/// A node of the tree: one stored object, or a parent of an ordered list of nodes.
pub enum RTreeNode {
    Leaf(Point),
    Parent(ParentNodeData),
}

/// A parent node: its children and the cached envelope that covers them.
pub struct ParentNodeData {
    pub children: Vec<RTreeNode>,
    pub envelope: Envelope,
}

impl RTreeNode {
    /// The envelope of a node: the point's for a leaf, the cached one for a parent.
    pub open spec fn envelope_spec(self) -> Envelope {
        match self {
            RTreeNode::Leaf(p) => point_envelope(p),
            RTreeNode::Parent(d) => d.envelope,
        }
    }

    pub fn envelope(&self) -> (r: Envelope)
        ensures
            r == self.envelope_spec(),
    {
        match self {
            RTreeNode::Leaf(p) => Envelope::from_point(p),
            RTreeNode::Parent(d) => d.envelope,
        }
    }
}

/// The merge of the envelopes of the first `k` nodes of `s`, starting from the neutral envelope.
pub open spec fn envelope_of_prefix(s: Seq<RTreeNode>, k: int) -> Envelope
    decreases k,
{
    if k <= 0 {
        neutral_envelope()
    } else {
        envelope_of_prefix(s, k - 1).merged_spec(s[k - 1].envelope_spec())
    }
}

/// The tight envelope of a list of nodes.
pub open spec fn envelope_of(s: Seq<RTreeNode>) -> Envelope {
    envelope_of_prefix(s, s.len() as int)
}

/// The objects stored under a node, with their multiplicities.
pub open spec fn leaves(n: RTreeNode) -> Multiset<Point>
    decreases n, 0nat,
{
    match n {
        RTreeNode::Leaf(p) => Multiset::singleton(p),
        RTreeNode::Parent(d) => leaves_of_prefix(d.children@, d.children@.len() as int),
    }
}

/// The objects stored under the first `k` nodes of `s`.
pub open spec fn leaves_of_prefix(s: Seq<RTreeNode>, k: int) -> Multiset<Point>
    decreases s, k,
{
    if k <= 0 || k > s.len() {
        Multiset::empty()
    } else {
        leaves_of_prefix(s, k - 1).add(leaves(s[k - 1]))
    }
}

pub open spec fn leaves_of(s: Seq<RTreeNode>) -> Multiset<Point> {
    leaves_of_prefix(s, s.len() as int)
}

/// A node at level `h` (0 for a leaf): every leaf below it lies `h` levels down, every
/// parent below it caches the tight envelope of its children, and only a leaf parent may be
/// childless.
pub open spec fn node_wf(n: RTreeNode, h: nat) -> bool
    decreases n,
{
    match n {
        RTreeNode::Leaf(_) => h == 0,
        RTreeNode::Parent(d) => h >= 1 && d.envelope == envelope_of(d.children@) && (h >= 2
            ==> d.children@.len() > 0) && forall|i: int|
            0 <= i < d.children@.len() ==> node_wf(#[trigger] d.children@[i], (h - 1) as nat),
    }
}

/// A parent node at level `h`, checked as `node_wf` checks it.
pub open spec fn parent_wf(d: ParentNodeData, h: nat) -> bool {
    node_wf(RTreeNode::Parent(d), h)
}

impl ParentNodeData {
    /// An empty parent with the neutral envelope.
    pub fn new_root() -> (r: ParentNodeData)
        ensures
            r.children@.len() == 0,
            r.envelope == neutral_envelope(),
    {
        ParentNodeData { children: Vec::new(), envelope: Envelope::new_empty() }
    }

    /// A parent of `children`, with their tight envelope.
    pub fn new_parent(children: Vec<RTreeNode>) -> (r: ParentNodeData)
        ensures
            r.children@ == children@,
            r.envelope == envelope_of(children@),
    {
        let envelope = envelope_for_children(&children);
        ParentNodeData { children, envelope }
    }
}

/// The tight envelope of a list of nodes.
pub fn envelope_for_children(children: &Vec<RTreeNode>) -> (r: Envelope)
    ensures
        r == envelope_of(children@),
{
    let mut result = Envelope::new_empty();
    let mut i: usize = 0;
    while i < children.len()
        invariant
            i <= children@.len(),
            result == envelope_of_prefix(children@, i as int),
        decreases children@.len() - i,
    {
        let e = children[i].envelope();
        result.merge(&e);
        i = i + 1;
    }
    result
}

/// The objects under a prefix depend on that prefix alone.
pub proof fn lemma_leaves_prefix(s: Seq<RTreeNode>, t: Seq<RTreeNode>, k: int)
    requires
        0 <= k <= s.len(),
        k <= t.len(),
        forall|j: int| 0 <= j < k ==> s[j] == t[j],
    ensures
        leaves_of_prefix(s, k) == leaves_of_prefix(t, k),
    decreases k,
{
    if k > 0 {
        lemma_leaves_prefix(s, t, k - 1);
    }
}

pub proof fn lemma_leaves_push(s: Seq<RTreeNode>, x: RTreeNode)
    ensures
        leaves_of(s.push(x)) == leaves_of(s).add(leaves(x)),
{
    lemma_leaves_prefix(s.push(x), s, s.len() as int);
}

pub proof fn lemma_leaves_remove(s: Seq<RTreeNode>, i: int)
    requires
        0 <= i < s.len(),
    ensures
        leaves_of(s) == leaves_of(s.remove(i)).add(leaves(s[i])),
    decreases s.len(),
{
    let last = s.len() - 1;
    if i == last {
        assert(s.remove(i) =~= s.drop_last());
        lemma_leaves_prefix(s, s.drop_last(), last);
    } else {
        let d = s.drop_last();
        lemma_leaves_remove(d, i);
        lemma_leaves_prefix(s, d, last);
        assert(s.remove(i) =~= d.remove(i).push(s[last]));
        lemma_leaves_push(d.remove(i), s[last]);
        assert(leaves_of(s) == leaves_of(d).add(leaves(s[last])));
    }
}

/// Cutting a list in two splits its objects between the parts.
pub proof fn lemma_leaves_split(s: Seq<RTreeNode>, k: int)
    requires
        0 <= k <= s.len(),
    ensures
        leaves_of(s) == leaves_of(s.subrange(0, k)).add(leaves_of(s.subrange(k, s.len() as int))),
    decreases s.len(),
{
    if k == s.len() {
        assert(s.subrange(0, k) =~= s);
        assert(s.subrange(k, s.len() as int) =~= Seq::<RTreeNode>::empty());
    } else {
        let d = s.drop_last();
        lemma_leaves_split(d, k);
        assert(d.subrange(0, k) =~= s.subrange(0, k));
        assert(s.subrange(k, s.len() as int) =~= d.subrange(k, d.len() as int).push(s.last()));
        lemma_leaves_push(d.subrange(k, d.len() as int), s.last());
        assert(s =~= d.push(s.last()));
        lemma_leaves_push(d, s.last());
    }
}

/// The envelope of a prefix depends on that prefix alone.
pub proof fn lemma_envelope_prefix(s: Seq<RTreeNode>, t: Seq<RTreeNode>, k: int)
    requires
        0 <= k <= s.len(),
        k <= t.len(),
        forall|j: int| 0 <= j < k ==> s[j] == t[j],
    ensures
        envelope_of_prefix(s, k) == envelope_of_prefix(t, k),
    decreases k,
{
    if k > 0 {
        lemma_envelope_prefix(s, t, k - 1);
    }
}

/// The tight envelope of `s[lo..hi]`.
pub fn envelope_of_range(children: &Vec<RTreeNode>, lo: usize, hi: usize) -> (r: Envelope)
    requires
        lo <= hi <= children@.len(),
    ensures
        r == envelope_of(children@.subrange(lo as int, hi as int)),
{
    let mut result = Envelope::new_empty();
    let mut i: usize = lo;
    while i < hi
        invariant
            lo <= i <= hi <= children@.len(),
            result == envelope_of(children@.subrange(lo as int, i as int)),
        decreases hi - i,
    {
        let e = children[i].envelope();
        proof {
            let a = children@.subrange(lo as int, i as int);
            let b = children@.subrange(lo as int, i + 1);
            lemma_envelope_prefix(a, b, a.len() as int);
        }
        result.merge(&e);
        i = i + 1;
    }
    result
}

/// An object of a list lies under one of its elements.
pub proof fn lemma_leaves_of_prefix_member(s: Seq<RTreeNode>, k: int, p: Point) -> (i: int)
    requires
        0 <= k <= s.len(),
        leaves_of_prefix(s, k).count(p) > 0,
    ensures
        0 <= i < k,
        leaves(s[i]).count(p) > 0,
    decreases k,
{
    if leaves(s[k - 1]).count(p) > 0 {
        k - 1
    } else {
        lemma_leaves_of_prefix_member(s, k - 1, p)
    }
}

/// The merge of a list covers each element's envelope.
pub proof fn lemma_envelope_of_prefix_covers(s: Seq<RTreeNode>, k: int, j: int)
    requires
        0 <= j < k <= s.len(),
    ensures
        envelope_of_prefix(s, k).contains_spec(s[j].envelope_spec()),
    decreases k,
{
    if j < k - 1 {
        lemma_envelope_of_prefix_covers(s, k - 1, j);
    }
}

/// Every parent's envelope covers the envelope of each of its children.
pub proof fn lemma_parent_covers_child(d: ParentNodeData, h: nat, i: int)
    requires
        parent_wf(d, h),
        0 <= i < d.children@.len(),
    ensures
        d.envelope.contains_spec(d.children@[i].envelope_spec()),
        node_wf(d.children@[i], (h - 1) as nat),
{
    lemma_envelope_of_prefix_covers(d.children@, d.children@.len() as int, i);
}

/// Every object stored under a node lies inside the node's envelope.
pub proof fn lemma_leaves_within(n: RTreeNode, h: nat, p: Point)
    requires
        node_wf(n, h),
        leaves(n).count(p) > 0,
    ensures
        n.envelope_spec().contains_spec(point_envelope(p)),
    decreases n,
{
    if let RTreeNode::Parent(d) = n {
        let i = lemma_leaves_of_prefix_member(d.children@, d.children@.len() as int, p);
        lemma_parent_covers_child(d, h, i);
        lemma_leaves_within(d.children@[i], (h - 1) as nat, p);
    }
}

/// The node reached from `n` by following the child indices of `path`.
pub open spec fn descendant(n: RTreeNode, path: Seq<int>) -> RTreeNode
    decreases path.len(),
{
    if path.len() == 0 {
        n
    } else {
        let d = descendant(n, path.drop_last());
        match d {
            RTreeNode::Parent(data) if 0 <= path.last() < data.children@.len() => data.children@[path.last()],
            _ => d,
        }
    }
}

/// Along any path down a well-formed node, every ancestor's envelope covers every
/// descendant's envelope.
pub proof fn lemma_ancestor_covers_descendant(n: RTreeNode, h: nat, path: Seq<int>)
    requires
        node_wf(n, h),
    ensures
        n.envelope_spec().contains_spec(descendant(n, path).envelope_spec()),
        exists|l: nat| node_wf(descendant(n, path), l),
    decreases path.len(),
{
    if path.len() == 0 {
        assert(node_wf(descendant(n, path), h));
    } else {
        lemma_ancestor_covers_descendant(n, h, path.drop_last());
        let d = descendant(n, path.drop_last());
        let l0 = choose|l: nat| node_wf(d, l);
        if let RTreeNode::Parent(data) = d {
            if 0 <= path.last() < data.children@.len() {
                lemma_parent_covers_child(data, l0, path.last());
                assert(node_wf(descendant(n, path), (l0 - 1) as nat));
            } else {
                assert(node_wf(descendant(n, path), l0));
            }
        } else {
            assert(node_wf(descendant(n, path), l0));
        }
    }
}

/// Every parent at or below `n` has between `lo` and `hi` children.
pub open spec fn fanout_ok(n: RTreeNode, lo: nat, hi: nat) -> bool
    decreases n,
{
    match n {
        RTreeNode::Leaf(_) => true,
        RTreeNode::Parent(d) => lo <= d.children@.len() <= hi && forall|i: int|
            0 <= i < d.children@.len() ==> fanout_ok(#[trigger] d.children@[i], lo, hi),
    }
}

/// Every node of `s` satisfies `fanout_ok`.
pub open spec fn all_fanout_ok(s: Seq<RTreeNode>, lo: nat, hi: nat) -> bool {
    forall|i: int| 0 <= i < s.len() ==> fanout_ok(#[trigger] s[i], lo, hi)
}

/// Every element of `t` is an element of `s`.
pub open spec fn drawn_from(t: Seq<RTreeNode>, s: Seq<RTreeNode>) -> bool {
    forall|i: int| 0 <= i < t.len() ==> s.contains(#[trigger] t[i])
}

pub proof fn lemma_drawn_from_fanout(t: Seq<RTreeNode>, s: Seq<RTreeNode>, lo: nat, hi: nat)
    requires
        drawn_from(t, s),
        all_fanout_ok(s, lo, hi),
    ensures
        all_fanout_ok(t, lo, hi),
{
    assert forall|i: int| 0 <= i < t.len() implies fanout_ok(#[trigger] t[i], lo, hi) by {
        assert(s.contains(t[i]));
    }
}

pub proof fn lemma_drawn_from_trans(a: Seq<RTreeNode>, b: Seq<RTreeNode>, c: Seq<RTreeNode>)
    requires
        drawn_from(a, b),
        drawn_from(b, c),
    ensures
        drawn_from(a, c),
{
    assert forall|i: int| 0 <= i < a.len() implies c.contains(#[trigger] a[i]) by {
        assert(b.contains(a[i]));
        let j = choose|j: int| 0 <= j < b.len() && b[j] == a[i];
        assert(c.contains(b[j]));
    }
}

pub proof fn lemma_drawn_from_subrange(s: Seq<RTreeNode>, lo: int, hi: int)
    requires
        0 <= lo <= hi <= s.len(),
    ensures
        drawn_from(s.subrange(lo, hi), s),
{
    assert forall|i: int| 0 <= i < hi - lo implies s.contains(#[trigger] s.subrange(lo, hi)[i]) by {
        assert(s[lo + i] == s.subrange(lo, hi)[i]);
    }
}

/// A leaf parent holds as many objects as it has children.
pub proof fn lemma_leaf_parent_count(d: ParentNodeData)
    requires
        parent_wf(d, 1),
    ensures
        leaves(RTreeNode::Parent(d)).len() == d.children@.len(),
{
    lemma_leaf_prefix_count(d.children@, d.children@.len() as int);
}

proof fn lemma_leaf_prefix_count(s: Seq<RTreeNode>, k: int)
    requires
        0 <= k <= s.len(),
        forall|i: int| 0 <= i < s.len() ==> node_wf(#[trigger] s[i], 0),
    ensures
        leaves_of_prefix(s, k).len() == k,
    decreases k,
{
    if k > 0 {
        lemma_leaf_prefix_count(s, k - 1);
        assert(node_wf(s[k - 1], 0));
        assert(leaves(s[k - 1]) == Multiset::singleton(s[k - 1]->Leaf_0));
        assert(leaves(s[k - 1]).len() == 1);
    }
}

/// A path below a parent's child is a path below the parent, one step longer.
pub proof fn lemma_descendant_prepend(d: ParentNodeData, i: int, p: Seq<int>)
    requires
        0 <= i < d.children@.len(),
    ensures
        descendant(RTreeNode::Parent(d), seq![i] + p) == descendant(d.children@[i], p),
    decreases p.len(),
{
    if p.len() == 0 {
        assert(seq![i] + p =~= seq![i]);
        assert(seq![i].drop_last() =~= Seq::<int>::empty());
        assert(descendant(RTreeNode::Parent(d), Seq::<int>::empty()) == RTreeNode::Parent(d));
        assert(descendant(RTreeNode::Parent(d), seq![i]) == d.children@[i]);
        assert(descendant(d.children@[i], p) == d.children@[i]);
    } else {
        let q = seq![i] + p;
        lemma_descendant_prepend(d, i, p.drop_last());
        assert(q.drop_last() =~= seq![i] + p.drop_last());
        assert(q.last() == p.last());
        assert(q.len() > 0);
    }
}

/// `t` hangs `depth` levels below `n`.
pub open spec fn holds_at(n: RTreeNode, t: RTreeNode, depth: nat) -> bool {
    exists|path: Seq<int>| path.len() == depth && #[trigger] descendant(n, path) == t
}

/// `t` hangs `depth` levels below the `k`-th node of `s`, and `s` was reordered and cut into the
/// children of `a` followed by those of `b`: then `t` hangs `depth + 1` levels below one of them.
pub proof fn lemma_holds_after_regroup(
    s: Seq<RTreeNode>,
    k: int,
    a: ParentNodeData,
    b: ParentNodeData,
    t: RTreeNode,
    depth: nat,
)
    requires
        0 <= k < s.len(),
        holds_at(s[k], t, depth),
        (a.children@ + b.children@).to_multiset() == s.to_multiset(),
    ensures
        holds_at(RTreeNode::Parent(a), t, depth + 1) || holds_at(RTreeNode::Parent(b), t, depth + 1),
{
    let joined = a.children@ + b.children@;
    vstd::seq_lib::to_multiset_contains(s, s[k]);
    vstd::seq_lib::to_multiset_contains(joined, s[k]);
    assert(s.contains(s[k]));
    let j = choose|j: int| 0 <= j < joined.len() && joined[j] == s[k];
    let p = choose|p: Seq<int>| p.len() == depth && #[trigger] descendant(s[k], p) == t;
    if j < a.children@.len() {
        lemma_descendant_prepend(a, j, p);
        assert(descendant(RTreeNode::Parent(a), seq![j] + p) == t);
    } else {
        lemma_descendant_prepend(b, j - a.children@.len(), p);
        assert(descendant(RTreeNode::Parent(b), seq![j - a.children@.len()] + p) == t);
    }
}

/// `t` hangs `depth` levels below the `k`-th child of `d`.
pub proof fn lemma_holds_below_child(d: ParentNodeData, k: int, t: RTreeNode, depth: nat)
    requires
        0 <= k < d.children@.len(),
        holds_at(d.children@[k], t, depth),
    ensures
        holds_at(RTreeNode::Parent(d), t, depth + 1),
{
    let p = choose|p: Seq<int>| p.len() == depth && #[trigger] descendant(d.children@[k], p) == t;
    lemma_descendant_prepend(d, k, p);
    assert(descendant(RTreeNode::Parent(d), seq![k] + p) == t);
}

} // verus!

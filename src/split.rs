use vstd::prelude::*;
use vstd::multiset::Multiset;
use crate::envelope::Envelope;
use crate::node::{
    RTreeNode, ParentNodeData, envelope_for_children, envelope_of, envelope_of_range,
    leaves, leaves_of, node_wf, parent_wf, lemma_leaves_push, lemma_leaves_remove,
    lemma_leaves_split, drawn_from, lemma_drawn_from_trans, lemma_drawn_from_subrange,
};
use crate::params::RTreeParams;

verus! {

/// Every node of `s` stands at level `h`.
pub open spec fn all_at_level(s: Seq<RTreeNode>, h: nat) -> bool {
    forall|i: int| 0 <= i < s.len() ==> node_wf(#[trigger] s[i], h)
}

/// `s` is ordered by increasing `key`.
pub open spec fn sorted_by(s: Seq<RTreeNode>, key: spec_fn(RTreeNode) -> int) -> bool {
    forall|i: int, j: int| 0 <= i < j < s.len() ==> key(#[trigger] s[i]) <= key(#[trigger] s[j])
}

/// `s` is `o` reordered by the index map `p` (`s[i] == o[p[i]]`, no index used twice), and
/// nodes of equal `key` keep their order from `o`.
pub open spec fn stable_reorder(
    s: Seq<RTreeNode>,
    o: Seq<RTreeNode>,
    key: spec_fn(RTreeNode) -> int,
    p: Seq<int>,
) -> bool {
    &&& p.len() == s.len()
    &&& forall|i: int| 0 <= i < s.len() ==> 0 <= #[trigger] p[i] < o.len() && s[i] == o[p[i]]
    &&& forall|i: int, j: int| 0 <= i < j < s.len() ==> #[trigger] p[i] != #[trigger] p[j]
    &&& forall|i: int, j: int|
        0 <= i < j < s.len() && key(#[trigger] s[i]) == key(#[trigger] s[j]) ==> p[i] < p[j]
}

/// Reorders `children` by increasing `keys` (the key of each child); equal keys keep their
/// order.
fn sort_by_keys(
    children: &mut Vec<RTreeNode>,
    keys: Vec<i128>,
    Ghost(key): Ghost<spec_fn(RTreeNode) -> int>,
    Ghost(h): Ghost<nat>,
)
    requires
        keys@.len() == old(children)@.len(),
        forall|i: int| 0 <= i < keys@.len() ==> keys@[i] as int == key(#[trigger] old(children)@[i]),
        all_at_level(old(children)@, h),
    ensures
        sorted_by(final(children)@, key),
        exists|p: Seq<int>| stable_reorder(final(children)@, old(children)@, key, p),
        final(children)@.to_multiset() == old(children)@.to_multiset(),
        final(children)@.len() == old(children)@.len(),
        leaves_of(final(children)@) == leaves_of(old(children)@),
        all_at_level(final(children)@, h),
        drawn_from(final(children)@, old(children)@),
{
    let mut keys = keys;
    let mut out: Vec<RTreeNode> = Vec::new();
    let ghost mut out_idx: Seq<int> = Seq::empty();
    let ghost mut rem_idx: Seq<int> = Seq::new(old(children)@.len(), |i: int| i);
    proof {
        vstd::seq_lib::to_multiset_len(out@);
        assert(out@.to_multiset() =~= Multiset::empty());
        assert(out@.to_multiset().add(children@.to_multiset()) =~= children@.to_multiset());
    }
    while children.len() > 0
        invariant
            keys@.len() == children@.len(),
            all_at_level(children@, h),
            all_at_level(out@, h),
            out@.len() + children@.len() == old(children)@.len(),
            leaves_of(out@).add(leaves_of(children@)) == leaves_of(old(children)@),
            drawn_from(out@, old(children)@),
            drawn_from(children@, old(children)@),
            forall|i: int| 0 <= i < keys@.len() ==> keys@[i] as int == key(#[trigger] children@[i]),
            sorted_by(out@, key),
            out@.to_multiset().add(children@.to_multiset()) == old(children)@.to_multiset(),
            forall|i: int, j: int|
                0 <= i < out@.len() && 0 <= j < children@.len() ==> key(#[trigger] out@[i]) <= key(
                    #[trigger] children@[j],
                ),
            out_idx.len() == out@.len(),
            rem_idx.len() == children@.len(),
            forall|i: int|
                0 <= i < out@.len() ==> 0 <= #[trigger] out_idx[i] < old(children)@.len() && out@[i]
                    == old(children)@[out_idx[i]],
            forall|i: int|
                0 <= i < children@.len() ==> 0 <= #[trigger] rem_idx[i] < old(children)@.len()
                    && children@[i] == old(children)@[rem_idx[i]],
            forall|i: int, j: int|
                0 <= i < j < children@.len() ==> #[trigger] rem_idx[i] < #[trigger] rem_idx[j],
            forall|i: int, j: int|
                0 <= i < j < out@.len() ==> #[trigger] out_idx[i] != #[trigger] out_idx[j],
            forall|i: int, j: int|
                0 <= i < out@.len() && 0 <= j < children@.len() ==> #[trigger] out_idx[i]
                    != #[trigger] rem_idx[j],
            forall|i: int, j: int|
                0 <= i < j < out@.len() && key(#[trigger] out@[i]) == key(#[trigger] out@[j])
                    ==> out_idx[i] < out_idx[j],
            forall|i: int, j: int|
                0 <= i < out@.len() && 0 <= j < children@.len() && key(#[trigger] out@[i]) == key(
                    #[trigger] children@[j],
                ) ==> out_idx[i] < rem_idx[j],
        decreases children@.len(),
    {
        let mut m: usize = 0;
        let mut j: usize = 1;
        while j < keys.len()
            invariant
                keys@.len() == children@.len(),
                m < j <= keys@.len(),
                forall|l: int| 0 <= l < j ==> keys@[m as int] <= #[trigger] keys@[l],
                forall|l: int| 0 <= l < m ==> keys@[m as int] < #[trigger] keys@[l],
            decreases keys@.len() - j,
        {
            if keys[j] < keys[m] {
                m = j;
            }
            j = j + 1;
        }
        proof {
            lemma_leaves_remove(children@, m as int);
            lemma_leaves_push(out@, children@[m as int]);
        }
        let ghost before = children@;
        let ghost out_before = out@;
        let ghost keys_before = keys@;
        let c = children.remove(m);
        keys.remove(m);
        out.push(c);
        proof {
            let oi = out_idx;
            let ri = rem_idx;
            out_idx = oi.push(ri[m as int]);
            rem_idx = ri.remove(m as int);
            assert forall|j: int| 0 <= j < children@.len() implies (if j < m {
                children@[j] == before[j] && rem_idx[j] == ri[j]
            } else {
                children@[j] == before[j + 1] && rem_idx[j] == ri[j + 1]
            }) by {}
            assert forall|i: int| 0 <= i < out@.len() implies (if i < oi.len() {
                out@[i] == out_before[i] && out_idx[i] == oi[i]
            } else {
                out@[i] == before[m as int] && out_idx[i] == ri[m as int]
            }) by {}
            assert forall|l: int| 0 <= l < before.len() && l != m && key(before[l]) == key(
                before[m as int],
            ) implies l > m by {
                assert(keys_before[l] as int == key(before[l]));
            }
            assert(before.contains(before[m as int]));
            assert forall|i: int| 0 <= i < children@.len() implies old(children)@.contains(
                #[trigger] children@[i],
            ) by {
                if i < m {
                    assert(children@[i] == before[i]);
                    assert(before.contains(before[i]));
                } else {
                    assert(children@[i] == before[i + 1]);
                    assert(before.contains(before[i + 1]));
                }
            }
            assert forall|i: int| 0 <= i < out@.len() implies old(children)@.contains(
                #[trigger] out@[i],
            ) by {
                if i < out_before.len() {
                    assert(out@[i] == out_before[i]);
                }
            }
            assert forall|i: int| 0 <= i < keys@.len() implies keys@[i] as int == key(
                #[trigger] children@[i],
            ) by {
                if i < m {
                    assert(children@[i] == before[i]);
                } else {
                    assert(children@[i] == before[i + 1]);
                }
            }
            assert forall|i: int, j: int|
                0 <= i < out@.len() && 0 <= j < children@.len() implies key(#[trigger] out@[i])
                <= key(#[trigger] children@[j]) by {
                let jj = if j < m { j } else { j + 1 };
                assert(children@[j] == before[jj]);
                if i < out_before.len() {
                    assert(out@[i] == out_before[i]);
                }
            }
            assert forall|i: int, j: int| 0 <= i < j < out@.len() implies key(#[trigger] out@[i])
                <= key(#[trigger] out@[j]) by {
                assert(out@[i] == if i < out_before.len() { out_before[i] } else { before[m as int] });
                assert(out@[j] == if j < out_before.len() { out_before[j] } else { before[m as int] });
                if j == out_before.len() {
                    assert(out@[j] == before[m as int]);
                }
            }
            assert(leaves_of(out@).add(leaves_of(children@)) =~= leaves_of(old(children)@));
            assert(out@ =~= out_before.push(before[m as int]));
            assert(children@ =~= before.remove(m as int));
            vstd::seq_lib::to_multiset_build(out_before, before[m as int]);
            vstd::seq_lib::to_multiset_remove(before, m as int);
            vstd::seq_lib::to_multiset_contains(before, before[m as int]);
            assert(out@.to_multiset().add(children@.to_multiset()) =~= old(children)@.to_multiset());
        }
    }
    proof {
        vstd::seq_lib::to_multiset_len(children@);
        assert(children@.to_multiset() =~= Multiset::empty());
        assert(out@.to_multiset() =~= old(children)@.to_multiset());
        assert(stable_reorder(out@, old(children)@, key, out_idx));
    }
    *children = out;
}

/// How far the center of a node's envelope lies from the center of `c`.
pub open spec fn center_key(c: Envelope) -> spec_fn(RTreeNode) -> int {
    |n: RTreeNode| n.envelope_spec().center_distance_spec(c)
}

/// Removes the `reinsertion_count` children whose centers lie farthest from the center of
/// `node`, and hands them back; `node` keeps the others and their tight envelope.
pub(crate) fn reinsert(node: &mut ParentNodeData, params: &RTreeParams, Ghost(h): Ghost<nat>) -> (r: Vec<
    RTreeNode,
>)
    requires
        parent_wf(*old(node), h),
        old(node).children@.len() > params.reinsertion_count,
    ensures
        parent_wf(*final(node), h),
        all_at_level(r@, (h - 1) as nat),
        r@.len() == params.reinsertion_count,
        final(node).children@.len() == old(node).children@.len() - params.reinsertion_count,
        leaves_of(final(node).children@).add(leaves_of(r@)) == leaves_of(old(node).children@),
        drawn_from(final(node).children@, old(node).children@),
        drawn_from(r@, old(node).children@),
        (final(node).children@ + r@).to_multiset() == old(node).children@.to_multiset(),
        sorted_by(final(node).children@ + r@, center_key(old(node).envelope)),
        exists|p: Seq<int>|
            stable_reorder(
                final(node).children@ + r@,
                old(node).children@,
                center_key(old(node).envelope),
                p,
            ),
        forall|i: int, j: int|
            0 <= i < final(node).children@.len() && 0 <= j < r@.len() ==> (
            #[trigger] final(node).children@[i]).envelope_spec().center_distance_spec(
                old(node).envelope,
            ) <= (#[trigger] r@[j]).envelope_spec().center_distance_spec(old(node).envelope),
{
    let center = node.envelope;
    let ghost key = center_key(center);
    let mut keys: Vec<i128> = Vec::new();
    let mut i: usize = 0;
    while i < node.children.len()
        invariant
            i <= node.children@.len(),
            keys@.len() == i,
            key == center_key(center),
            forall|l: int| 0 <= l < i ==> keys@[l] as int == key(#[trigger] node.children@[l]),
        decreases node.children@.len() - i,
    {
        let d = node.children[i].envelope().center_distance_2(&center);
        keys.push(d as i128);

        i = i + 1;
    }
    sort_by_keys(&mut node.children, keys, Ghost(key), Ghost((h - 1) as nat));
    let num_children = node.children.len();
    let ghost sorted = node.children@;
    let result = node.children.split_off(num_children - params.reinsertion_count);
    proof {
        lemma_leaves_split(sorted, num_children - params.reinsertion_count);
        lemma_drawn_from_subrange(sorted, 0, num_children - params.reinsertion_count);
        lemma_drawn_from_subrange(sorted, num_children - params.reinsertion_count, num_children as int);
        lemma_drawn_from_trans(node.children@, sorted, old(node).children@);
        lemma_drawn_from_trans(result@, sorted, old(node).children@);
        let cut = num_children - params.reinsertion_count;
        assert(node.children@ + result@ =~= sorted);
        let p = choose|p: Seq<int>| stable_reorder(sorted, old(node).children@, key, p);
        assert(stable_reorder(node.children@ + result@, old(node).children@, key, p));
        assert forall|i: int, j: int| 0 <= i < node.children@.len() && 0 <= j < result@.len() implies key(
            #[trigger] node.children@[i],
        ) <= key(#[trigger] result@[j]) by {
            assert(node.children@[i] == sorted[i]);
            assert(result@[j] == sorted[cut + j]);
        }
    }
    node.envelope = envelope_for_children(&node.children);
    result
}

/// The lower bound of a node's envelope on `axis`.
pub open spec fn lower_key(axis: usize) -> spec_fn(RTreeNode) -> int {
    |n: RTreeNode| n.envelope_spec().lower_on_spec(axis)
}

/// Sorts `children` by the lower bound of their envelopes on `axis`.
fn align_envelopes(axis: usize, children: &mut Vec<RTreeNode>, Ghost(h): Ghost<nat>)
    requires
        all_at_level(old(children)@, h),
    ensures
        sorted_by(final(children)@, lower_key(axis)),
        final(children)@.to_multiset() == old(children)@.to_multiset(),
        final(children)@.len() == old(children)@.len(),
        leaves_of(final(children)@) == leaves_of(old(children)@),
        all_at_level(final(children)@, h),
        drawn_from(final(children)@, old(children)@),
{
    let mut keys: Vec<i128> = Vec::new();
    let mut i: usize = 0;
    while i < children.len()
        invariant
            i <= children@.len(),
            keys@.len() == i,
            forall|l: int| 0 <= l < i ==> keys@[l] as int == lower_key(axis)(#[trigger] children@[l]),
        decreases children@.len() - i,
    {
        let k = children[i].envelope().lower_on(axis);
        keys.push(k as i128);
        i = i + 1;
    }
    sort_by_keys(children, keys, Ghost(lower_key(axis)), Ghost(h));
}

/// The sum of the margins of the two groups when `s` is cut before index `k`.
pub open spec fn margin_of_cut(s: Seq<RTreeNode>, k: int) -> int {
    envelope_of(s.subrange(0, k)).margin_spec() + envelope_of(
        s.subrange(k, s.len() as int),
    ).margin_spec()
}

/// The least `margin_of_cut` over the cuts `min..=k` of `s`.
pub open spec fn min_margin(s: Seq<RTreeNode>, min: int, k: int) -> int
    decreases k - min,
{
    if k <= min {
        margin_of_cut(s, min)
    } else {
        let m = min_margin(s, min, k - 1);
        let c = margin_of_cut(s, k);
        if c < m {
            c
        } else {
            m
        }
    }
}

/// `s` holds the nodes of `o`, in some order sorted along `axis`.
pub open spec fn arranged_along(s: Seq<RTreeNode>, o: Seq<RTreeNode>, axis: usize) -> bool {
    &&& s.len() == o.len()
    &&& s.to_multiset() == o.to_multiset()
    &&& drawn_from(s, o)
    &&& sorted_by(s, lower_key(axis))
}

/// `s` is ordered along the axis that `get_split_axis` picks for the nodes `o`: axis 1 when,
/// over arrangements of `o` sorted along each axis, its least margin sum is smaller.
pub open spec fn sorted_on_best_axis(s: Seq<RTreeNode>, o: Seq<RTreeNode>, min: int) -> bool {
    exists|s0: Seq<RTreeNode>, s1: Seq<RTreeNode>|
        #[trigger] arranged_along(s0, o, 0) && #[trigger] arranged_along(s1, o, 1) && sorted_by(
            s,
            lower_key(
                if min_margin(s1, min, o.len() - min) < min_margin(s0, min, o.len() - min) {
                    1
                } else {
                    0
                },
            ),
        )
}

/// The axis to split along: for each axis the children are sorted along it, and scored by the
/// least sum of the margins of the two groups over the admissible cuts; the axis with the
/// smaller score wins, the first one on equal scores. The children are left reordered.
fn get_split_axis(node: &mut ParentNodeData, params: &RTreeParams, Ghost(h): Ghost<nat>) -> (r:
    usize)
    requires
        parent_wf(*old(node), h),
        params.wf(),
        old(node).children@.len() >= 2 * params.min_size,
    ensures
        r < 2,
        final(node).envelope == old(node).envelope,
        final(node).children@.len() == old(node).children@.len(),
        all_at_level(final(node).children@, (h - 1) as nat),
        leaves_of(final(node).children@) == leaves_of(old(node).children@),
        drawn_from(final(node).children@, old(node).children@),
        final(node).children@.to_multiset() == old(node).children@.to_multiset(),
        exists|s0: Seq<RTreeNode>, s1: Seq<RTreeNode>|
            #[trigger] arranged_along(s0, old(node).children@, 0) && #[trigger] arranged_along(
                s1,
                old(node).children@,
                1,
            ) && (r == 1 <==> min_margin(
                s1,
                params.min_size as int,
                old(node).children@.len() - params.min_size,
            ) < min_margin(s0, params.min_size as int, old(node).children@.len() - params.min_size)),
{
    let mut best_goodness: u128 = 0;
    let mut best_axis: usize = 0;
    let min_size = params.min_size;
    let ghost n = node.children@.len() as int;
    let ghost m = min_size as int;
    let ghost mut s0: Seq<RTreeNode> = Seq::empty();
    let ghost mut s1: Seq<RTreeNode> = Seq::empty();
    let mut axis: usize = 0;
    while axis < 2
        invariant
            axis <= 2,
            best_axis < 2,
            node.envelope == old(node).envelope,
            node.children@.len() == old(node).children@.len(),
            all_at_level(node.children@, (h - 1) as nat),
            leaves_of(node.children@) == leaves_of(old(node).children@),
            drawn_from(node.children@, old(node).children@),
            node.children@.to_multiset() == old(node).children@.to_multiset(),
            min_size == params.min_size,
            params.wf(),
            old(node).children@.len() >= 2 * params.min_size,
            n == old(node).children@.len(),
            m == min_size,
            axis >= 1 ==> arranged_along(s0, old(node).children@, 0) && best_axis < axis,
            axis == 1 ==> best_goodness as int == min_margin(s0, m, n - m),
            axis == 2 ==> arranged_along(s1, old(node).children@, 1) && (best_axis == 1
                <==> min_margin(s1, m, n - m) < min_margin(s0, m, n - m)),
        decreases 2 - axis,
    {
        let ghost prev = node.children@;
        align_envelopes(axis, &mut node.children, Ghost((h - 1) as nat));
        proof {
            lemma_drawn_from_trans(node.children@, prev, old(node).children@);
        }
        let ghost s = node.children@;
        let n_children = node.children.len();
        let mut axis_best: u128 = 0;
        let mut k: usize = min_size;
        while k <= n_children - min_size
            invariant
                node.children@ == s,
                s.len() == n_children,
                n_children >= 2 * min_size,
                min_size >= 1,
                min_size <= k <= n_children - min_size + 1,
                k > min_size ==> axis_best as int == min_margin(s, min_size as int, k - 1),
            decreases n_children - k + 1,
        {
            let first_envelope = envelope_of_range(&node.children, 0, k);
            let second_envelope = envelope_of_range(&node.children, k, n_children);
            let margin_value = first_envelope.margin_value() + second_envelope.margin_value();
            if margin_value < axis_best || k == min_size {
                axis_best = margin_value;
            }
            k = k + 1;
        }
        proof {
            if axis == 0 {
                s0 = s;
            } else {
                s1 = s;
            }
        }
        if axis_best < best_goodness || axis == 0 {
            best_goodness = axis_best;
            best_axis = axis;
        }
        axis = axis + 1;
    }
    best_axis
}

/// The score of cutting `s` before index `k`: (intersection area, sum of areas) of the two
/// groups' envelopes.
pub open spec fn split_key(s: Seq<RTreeNode>, k: int) -> (int, int) {
    let l = envelope_of(s.subrange(0, k));
    let r = envelope_of(s.subrange(k, s.len() as int));
    (l.intersection_area_spec(r), l.area_spec() + r.area_spec())
}

/// Lexicographic `<` on pairs.
pub open spec fn pair_lt(a: (int, int), b: (int, int)) -> bool {
    a.0 < b.0 || (a.0 == b.0 && a.1 < b.1)
}

/// `k` is the first admissible cut of `s` (leaving at least `min` nodes on each side) of least
/// `split_key`.
pub open spec fn is_best_split(s: Seq<RTreeNode>, k: int, min: int) -> bool {
    &&& min <= k <= s.len() - min
    &&& forall|j: int|
        min <= j <= s.len() - min ==> {
            &&& !pair_lt(#[trigger] split_key(s, j), split_key(s, k))
            &&& j < k ==> pair_lt(split_key(s, k), split_key(s, j))
        }
}

/// Splits an overfull node in two along the axis of `get_split_axis`, at the admissible index
/// whose groups overlap least (then: whose areas sum least; then: the smallest index). `node`
/// keeps the first group; the second comes back as a new parent.
#[verifier::rlimit(40)]
pub(crate) fn split(node: &mut ParentNodeData, params: &RTreeParams, Ghost(h): Ghost<nat>) -> (r: RTreeNode)
    requires
        parent_wf(*old(node), h),
        params.wf(),
        old(node).children@.len() >= 2 * params.min_size,
    ensures
        parent_wf(*final(node), h),
        node_wf(r, h),
        r is Parent,
        params.min_size <= final(node).children@.len(),
        params.min_size <= r->Parent_0.children@.len(),
        final(node).children@.len() + r->Parent_0.children@.len() == old(node).children@.len(),
        leaves(RTreeNode::Parent(*final(node))).add(leaves(r)) == leaves(
            RTreeNode::Parent(*old(node)),
        ),
        drawn_from(final(node).children@, old(node).children@),
        drawn_from(r->Parent_0.children@, old(node).children@),
        (final(node).children@ + r->Parent_0.children@).to_multiset()
            == old(node).children@.to_multiset(),
        sorted_on_best_axis(
            final(node).children@ + r->Parent_0.children@,
            old(node).children@,
            params.min_size as int,
        ),
        is_best_split(
            final(node).children@ + r->Parent_0.children@,
            final(node).children@.len() as int,
            params.min_size as int,
        ),
{
    let axis = get_split_axis(node, params, Ghost(h));
    let ghost (w0, w1) = choose|s0: Seq<RTreeNode>, s1: Seq<RTreeNode>|
        #[trigger] arranged_along(s0, old(node).children@, 0) && #[trigger] arranged_along(
            s1,
            old(node).children@,
            1,
        ) && (axis == 1 <==> min_margin(
            s1,
            params.min_size as int,
            old(node).children@.len() - params.min_size,
        ) < min_margin(s0, params.min_size as int, old(node).children@.len() - params.min_size));
    let ghost prev = node.children@;
    align_envelopes(axis, &mut node.children, Ghost((h - 1) as nat));
    proof {
        lemma_drawn_from_trans(node.children@, prev, old(node).children@);
    }
    let min_size = params.min_size;
    let n = node.children.len();
    let ghost s = node.children@;
    let mut best: (u128, u128) = (0, 0);
    let mut best_index: usize = min_size;
    let mut k: usize = min_size;
    while k <= n - min_size
        invariant
            node.children@ == s,
            s.len() == n,
            n >= 2 * min_size,
            min_size >= 1,
            min_size <= k <= n - min_size + 1,
            min_size <= best_index <= n - min_size,
            k > min_size ==> best_index < k && (best.0 as int, best.1 as int) == split_key(
                s,
                best_index as int,
            ),
            forall|j: int|
                min_size <= j < k ==> {
                    &&& !pair_lt(#[trigger] split_key(s, j), split_key(s, best_index as int))
                    &&& j < best_index ==> pair_lt(split_key(s, best_index as int), split_key(s, j))
                },
        decreases n - k + 1,
    {
        let first_envelope = envelope_of_range(&node.children, 0, k);
        let second_envelope = envelope_of_range(&node.children, k, n);
        let overlap_value = first_envelope.intersection_area(&second_envelope);
        let area_value = first_envelope.area() + second_envelope.area();
        if overlap_value < best.0 || (overlap_value == best.0 && area_value < best.1) || k
            == min_size {
            best = (overlap_value, area_value);
            best_index = k;
        }
        k = k + 1;
    }
    let ghost sorted = node.children@;
    let offsplit = node.children.split_off(best_index);
    proof {
        lemma_leaves_split(sorted, best_index as int);
        lemma_drawn_from_subrange(sorted, 0, best_index as int);
        lemma_drawn_from_subrange(sorted, best_index as int, n as int);
        lemma_drawn_from_trans(node.children@, sorted, old(node).children@);
        lemma_drawn_from_trans(offsplit@, sorted, old(node).children@);
    }
    node.envelope = envelope_for_children(&node.children);
    let sibling = ParentNodeData::new_parent(offsplit);
    proof {
        assert(all_at_level(sibling.children@, (h - 1) as nat));
        assert(all_at_level(node.children@, (h - 1) as nat));
        assert(node.children@ + sibling.children@ =~= s);
        assert(arranged_along(w0, old(node).children@, 0));
        assert(arranged_along(w1, old(node).children@, 1));
    }
    RTreeNode::Parent(sibling)
}

} // verus!

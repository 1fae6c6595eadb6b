use vstd::prelude::*;
use vstd::multiset::Multiset;
use crate::envelope::{Envelope, Point, neutral_envelope, point_envelope};
use crate::locate::{collect_parent, collect_parent_within, count_within};
use crate::node::{RTreeNode, ParentNodeData, all_fanout_ok, leaves, parent_wf};
use crate::params::RTreeParams;
use crate::rstar::{InsertionStrategy, RStarInsertionStrategy};

verus! {

/// An R*-tree of points.
pub struct RTree {
    pub(crate) root: ParentNodeData,
    pub(crate) size: usize,
    pub(crate) height: usize,
    pub(crate) params: RTreeParams,
}

impl RTree {
    /// The points stored in the tree, with their multiplicities.
    pub open(crate) spec fn contents(self) -> Multiset<Point> {
        leaves(RTreeNode::Parent(self.root))
    }

    pub open(crate) spec fn size_spec(self) -> nat {
        self.size as nat
    }

    pub open(crate) spec fn height_spec(self) -> nat {
        self.height as nat
    }

    pub open(crate) spec fn params_spec(self) -> RTreeParams {
        self.params
    }

    pub open(crate) spec fn root_spec(self) -> ParentNodeData {
        self.root
    }

    /// The shape of a tree: an empty root at height 0, or else a root whose leaves all lie
    /// `height` levels down, with tight envelopes throughout; every parent but the root has
    /// between `min_fanout` and `max_size` children; the root has at most `max_size` as long as
    /// the height can still grow, and at least 2 above height 1.
    pub open(crate) spec fn shape_wf(self) -> bool {
        &&& self.params.wf()
        &&& all_fanout_ok(self.root.children@, self.params.min_fanout(), self.params.max_size as nat)
        &&& self.height < usize::MAX ==> self.root.children@.len() <= self.params.max_size
        &&& self.height >= 2 ==> self.root.children@.len() >= 2
        &&& self.height == 0 ==> self.root.children@.len() == 0 && self.root.envelope
            == neutral_envelope()
        &&& self.height > 0 ==> parent_wf(self.root, self.height as nat)
    }

    /// A well-formed tree: its shape, and a size that counts its points.
    pub open(crate) spec fn wf(self) -> bool {
        &&& self.shape_wf()
        &&& self.size == self.contents().len()
        &&& (self.height == 0) == (self.size == 0)
    }

    /// An empty tree with the usual parameters.
    pub fn new() -> (r: RTree)
        ensures
            r.wf(),
            r.size_spec() == 0,
            r.height_spec() == 0,
            r.contents() =~= Multiset::empty(),
            r.params_spec() == (RTreeParams { min_size: 3, max_size: 6, reinsertion_count: 2 }),
    {
        Self::new_with_params(RTreeParams::default_params())
    }

    /// An empty tree with the given parameters.
    pub fn new_with_params(params: RTreeParams) -> (r: RTree)
        requires
            params.wf(),
        ensures
            r.wf(),
            r.size_spec() == 0,
            r.height_spec() == 0,
            r.contents() =~= Multiset::empty(),
            r.params_spec() == params,
    {
        RTree { root: ParentNodeData::new_root(), size: 0, height: 0, params }
    }

    pub fn size(&self) -> (r: usize)
        ensures
            r == self.size_spec(),
    {
        self.size
    }

    pub fn height(&self) -> (r: usize)
        ensures
            r == self.height_spec(),
    {
        self.height
    }

    pub fn params(&self) -> (r: RTreeParams)
        ensures
            r == self.params_spec(),
    {
        self.params
    }

    pub fn root(&self) -> (r: &ParentNodeData)
        ensures
            *r == self.root_spec(),
    {
        &self.root
    }

    /// Inserts one point.
    pub fn insert(&mut self, t: Point)
        requires
            old(self).wf(),
            old(self).size_spec() < usize::MAX,
        ensures
            final(self).wf(),
            final(self).contents() == old(self).contents().insert(t),
            final(self).size_spec() == old(self).size_spec() + 1,
            final(self).height_spec() >= old(self).height_spec(),
            final(self).height_spec() >= 1,
            final(self).params_spec() == old(self).params_spec(),
            old(self).size_spec() == 0 ==> final(self).height_spec() == 1
                && final(self).root_spec().children@ == seq![RTreeNode::Leaf(t)],
            old(self).height_spec() == 1 && old(self).root_spec().children@.len()
                == old(self).params_spec().max_size ==> final(self).height_spec() == 2
                && final(self).root_spec().children@.len() == 2
                && final(self).root_spec().children@[0] is Parent
                && final(self).root_spec().children@[1] is Parent,
    {
        RStarInsertionStrategy::insert(self, t);
        self.size = self.size + 1;
    }

    /// Every stored point, once per copy.
    pub fn iter(&self) -> (r: Vec<Point>)
        ensures
            r@.to_multiset() == self.contents(),
    {
        let mut out: Vec<Point> = Vec::new();
        collect_parent(&self.root, &mut out);
        proof {
            broadcast use vstd::seq_lib::group_to_multiset_ensures;

            assert(out@.to_multiset() =~= self.contents());
        }
        out
    }

    /// Every stored point inside `envelope`, once per copy.
    pub fn locate_in_envelope(&self, envelope: &Envelope) -> (r: Vec<Point>)
        requires
            self.wf(),
        ensures
            forall|p: Point|
                (#[trigger] r@.to_multiset().count(p)) == count_within(
                    self.contents(),
                    *envelope,
                    p,
                ),
    {
        broadcast use vstd::seq_lib::group_to_multiset_ensures;

        let mut out: Vec<Point> = Vec::new();
        if self.height > 0 {
            collect_parent_within(&self.root, envelope, &mut out, Ghost(self.height as nat));
        }
        out
    }

    /// Every stored copy of `point`.
    pub fn locate_all(&self, point: &Point) -> (r: Vec<Point>)
        requires
            self.wf(),
        ensures
            forall|p: Point|
                (#[trigger] r@.to_multiset().count(p)) == if p == *point {
                    self.contents().count(p)
                } else {
                    0
                },
    {
        let r = self.locate_in_envelope(&Envelope::from_point(point));
        assert forall|p: Point|
            (#[trigger] r@.to_multiset().count(p)) == if p == *point {
                self.contents().count(p)
            } else {
                0
            } by {
            assert(point_envelope(*point).contains_spec(point_envelope(p)) <==> p == *point);
        }
        r
    }

    /// A stored point equal to `point`, if there is one.
    pub fn locate(&self, point: &Point) -> (r: Option<Point>)
        requires
            self.wf(),
        ensures
            r.is_some() <==> self.contents().count(*point) > 0,
            r.is_some() ==> r.unwrap() == *point,
    {
        broadcast use vstd::seq_lib::group_to_multiset_ensures;

        let all = self.locate_all(point);
        if all.len() > 0 {
            assert(all@.to_multiset().count(all@[0]) > 0);
            Some(all[0])
        } else {
            assert(all@.to_multiset().count(*point) == 0);
            None
        }
    }

    /// Whether `t` is stored in the tree.
    pub fn contains(&self, t: &Point) -> (r: bool)
        requires
            self.wf(),
        ensures
            r == (self.contents().count(*t) > 0),
    {
        self.locate(t).is_some()
    }

    /// A stored point nearest to `query_point` (the first one met on equal distances), or
    /// `None` for an empty tree.
    pub fn nearest_neighbor(&self, query_point: &Point) -> (r: Option<Point>)
        ensures
            r.is_none() <==> self.contents().len() == 0,
            r.is_some() ==> self.contents().count(r.unwrap()) > 0,
            r.is_some() ==> forall|p: Point|
                self.contents().count(p) > 0 ==> r.unwrap().distance_2_spec(*query_point)
                    <= #[trigger] p.distance_2_spec(*query_point),
    {
        broadcast use vstd::seq_lib::group_to_multiset_ensures;

        let all = self.iter();
        if all.len() == 0 {
            assert(all@.to_multiset().len() == 0);
            return None;
        }
        let mut best: usize = 0;
        let mut best_distance = all[0].distance_2(query_point);
        let mut i: usize = 1;
        while i < all.len()
            invariant
                1 <= i <= all@.len(),
                best < all@.len(),
                best_distance as int == all@[best as int].distance_2_spec(*query_point),
                forall|j: int|
                    0 <= j < i ==> all@[best as int].distance_2_spec(*query_point)
                        <= #[trigger] all@[j].distance_2_spec(*query_point),
            decreases all@.len() - i,
        {
            let d = all[i].distance_2(query_point);
            if d < best_distance {
                best = i;
                best_distance = d;
            }
            i = i + 1;
        }
        let r = all[best];
        assert(all@.to_multiset().count(r) > 0);
        assert forall|p: Point|
            self.contents().count(p) > 0 implies r.distance_2_spec(*query_point)
                <= #[trigger] p.distance_2_spec(*query_point) by {
            assert(all@.contains(p));
        }
        Some(r)
    }
}

} // verus!

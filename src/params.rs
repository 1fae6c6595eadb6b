use vstd::prelude::*;

verus! {

/// The fan-out bounds of a tree and how many children an overfull node hands back for
/// reinsertion.
#[derive(Clone, Copy, Debug, PartialEq, Eq, Structural)]
pub struct RTreeParams {
    pub min_size: usize,
    pub max_size: usize,
    pub reinsertion_count: usize,
}

impl RTreeParams {
    /// `1 <= min_size <= max_size / 2` and `reinsertion_count < max_size`; an overfull node
    /// (`max_size + 1` children) must still fit in a `usize`.
    pub open spec fn wf(self) -> bool {
        1 <= self.min_size && 2 * self.min_size <= self.max_size && self.reinsertion_count
            < self.max_size && self.max_size < usize::MAX
    }

    /// The fewest children that a non-root parent is kept at: `min_size`, unless handing back
    /// `reinsertion_count` children of an overfull parent would leave fewer; then 1.
    pub open spec fn min_fanout(self) -> nat {
        if self.reinsertion_count + self.min_size <= self.max_size + 1 {
            self.min_size as nat
        } else {
            1
        }
    }

    /// The usual parameters: `min_size = 3`, `max_size = 6`, `reinsertion_count = 2`.
    pub fn default_params() -> (r: RTreeParams)
        ensures
            r.min_size == 3,
            r.max_size == 6,
            r.reinsertion_count == 2,
            r.wf(),
    {
        RTreeParams { min_size: 3, max_size: 6, reinsertion_count: 2 }
    }

    /// Parameters of the caller's choice; `None` when they break the bounds of `wf`.
    pub fn custom(min_size: usize, max_size: usize, reinsertion_count: usize) -> (r: Option<
        RTreeParams,
    >)
        ensures
            r.is_some() <==> (RTreeParams { min_size, max_size, reinsertion_count }).wf(),
            r.is_some() ==> r.unwrap() == (RTreeParams { min_size, max_size, reinsertion_count }),
    {
        if 1 <= min_size && min_size <= max_size / 2 && reinsertion_count < max_size && max_size
            < usize::MAX {
            Some(RTreeParams { min_size, max_size, reinsertion_count })
        } else {
            None
        }
    }
}

} // verus!

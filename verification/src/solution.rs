use vstd::prelude::*;

verus! {

/// The ordered route plus its cached total length; the unit of work passed
/// between all search stages.  While complete, `route` is a permutation of
/// all point indices and `distance` is the sum of consecutive edges plus the
/// closing edge; while partial, `distance` is the cost of the path only.
#[derive(Clone, Debug)]
pub struct Solution {
    pub route: Vec<u32>,
    pub distance: u64,
}

impl Solution {
    pub fn len(&self) -> (l: usize)
        ensures
            l == self.route@.len(),
    {
        self.route.len()
    }

    pub fn new() -> (s: Solution)
        ensures
            s.route@.len() == 0,
            s.distance == 0,
    {
        Solution { route: Vec::new(), distance: 0 }
    }

    /// An explicit copy whose route and distance are known to match.
    pub fn duplicate(&self) -> (s: Solution)
        ensures
            s.route@ == self.route@,
            s.distance == self.distance,
    {
        let route = self.route.clone();
        proof {
            assert(route@ =~= self.route@);
        }
        Solution { route, distance: self.distance }
    }
}

} // verus!

//! Configuration for batch benchmark runs: how many games per setting and
//! which board sizes to sweep. The runner that plays the games and writes
//! reports lives outside the verified core.
use vstd::prelude::*;

verus! {

pub struct MetaHeuristicRunner {
    pub iterations: usize,
    pub board_sizes: Vec<(usize, usize)>,
}

impl MetaHeuristicRunner {
    pub fn new(iterations: usize) -> (r: MetaHeuristicRunner)
        ensures
            r.iterations == iterations,
            r.board_sizes@ =~= seq![(3usize, 3usize), (5usize, 5usize), (8usize, 8usize), (10usize, 10usize)],
    {
        let mut sizes: Vec<(usize, usize)> = Vec::new();
        sizes.push((3, 3));
        sizes.push((5, 5));
        sizes.push((8, 8));
        sizes.push((10, 10));
        MetaHeuristicRunner { iterations, board_sizes: sizes }
    }
}

} // verus!

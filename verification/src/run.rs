use vstd::prelude::*;

verus! {

/// One completed, successfully scored worker invocation: the score to
/// maximize (higher is better) and the artifact file holding the worker's
/// raw output. Runs are ranked by score alone; the artifact path plays no
/// part in the ordering.
pub struct Run {
    pub score: u64,
    pub path: Vec<u8>,
}

impl Run {
    pub fn new(score: u64, path: Vec<u8>) -> (r: Run)
        ensures
            r.score == score,
            r.path == path,
    {
        Run { score, path }
    }
}

} // verus!

//! The arithmetic of a benchmark run: how a run's operations are shared out
//! between its connections.
use vstd::prelude::*;

verus! {

/// How many operations each of `concurrency` connections performs when a
/// run of `ops` operations is shared out evenly; the remainder is dropped.
pub fn ops_per_task(ops: usize, concurrency: usize) -> (per_task: usize)
    requires
        concurrency > 0,
    ensures
        per_task == ops / concurrency,
        per_task * concurrency <= ops,
        ops - per_task * concurrency < concurrency,
{
    let per_task = ops / concurrency;
    assert(per_task * concurrency <= ops && ops - per_task * concurrency < concurrency) by (nonlinear_arith)
        requires
            per_task == ops / concurrency,
            concurrency > 0,
    ;
    per_task
}

} // verus!

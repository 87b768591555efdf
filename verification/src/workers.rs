//! How the ranges of the input are shared out among the workers.
use vstd::prelude::*;

verus! {

/// The number of ranges into which the input is cut.
pub const NUM_CHUNKS: usize = 72;

/// How many ranges in a row one worker takes, so that `workers` workers share
/// `chunks` ranges: one each where there is a worker for every range, else as
/// many as the ranges divided by the workers give, rounded down; the ranges
/// that this leaves over go to further workers. No workers count as one
/// worker.
pub open spec fn group_len(chunks: int, workers: int) -> int {
    if workers <= 1 {
        if chunks < 1 {
            1
        } else {
            chunks
        }
    } else if chunks <= workers {
        1
    } else {
        chunks / workers
    }
}

/// How many ranges in a row one of `workers` workers takes of `chunks` ranges.
pub fn chunks_per_worker(chunks: usize, workers: usize) -> (len: usize)
    ensures
        len == group_len(chunks as int, workers as int),
        1 <= len,
{
    if workers <= 1 {
        if chunks < 1 {
            1
        } else {
            chunks
        }
    } else if chunks <= workers {
        1
    } else {
        let len = chunks / workers;
        assert(len >= 1) by (nonlinear_arith)
            requires
                len == chunks as int / workers as int,
                chunks > workers,
                workers > 1,
        ;
        len
    }
}

/// Asks `num_cpus::get` for the number of logical CPUs that this process may
/// use. The number depends on the machine and on what the process is allowed,
/// so nothing is claimed of it.
#[verifier::external_body]
fn logical_cpus() -> (cpus: usize) {
    num_cpus::get()
}

/// How many ranges in a row one worker takes of `chunks` ranges where there
/// is one worker for each logical CPU of the machine.
pub fn chunks_per_cpu(chunks: usize) -> (len: usize)
    ensures
        exists|workers: usize| len == #[trigger] group_len(chunks as int, workers as int),
        1 <= len,
{
    let workers = logical_cpus();
    chunks_per_worker(chunks, workers)
}

} // verus!

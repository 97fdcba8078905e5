//! Running one worker per partition and combining what the workers return.

use crate::error::JobError;
use crate::partition::Partition;
use vstd::prelude::*;

verus! {

/// `result` is what one more partition makes of the outcome so far: an
/// earlier error stays; otherwise the worker runs on the partition, and its
/// error, or the total combined with what it returns, is the result.
pub open spec fn steps_to<R, W: Fn(&Partition) -> Result<R, JobError>, C: Fn(R, R) -> R>(
    part: Partition,
    worker: W,
    combine: C,
    before: Result<R, JobError>,
    result: Result<R, JobError>,
) -> bool {
    match before {
        Err(e) => result == Err::<R, JobError>(e),
        Ok(total) => exists|outcome: Result<R, JobError>|
            #[trigger] call_ensures(worker, (&part,), outcome) && match outcome {
                Err(e) => result == Err::<R, JobError>(e),
                Ok(share) => result is Ok && call_ensures(combine, (total, share), result->Ok_0),
            },
    }
}

/// `result` is what comes of running the worker on the partitions in list
/// order and combining each outcome into the running total, which starts as
/// `identity`: the total after the last partition, or the error of the
/// first worker that failed, after which no worker runs.
pub open spec fn runs_to<R, W: Fn(&Partition) -> Result<R, JobError>, C: Fn(R, R) -> R>(
    parts: Seq<Partition>,
    worker: W,
    combine: C,
    identity: R,
    result: Result<R, JobError>,
) -> bool
    decreases parts.len(),
{
    if parts.len() == 0 {
        result == Ok::<R, JobError>(identity)
    } else {
        exists|before: Result<R, JobError>|
            runs_to(parts.drop_last(), worker, combine, identity, before) && #[trigger] steps_to(
                parts.last(),
                worker,
                combine,
                before,
                result,
            )
    }
}

proof fn lemma_error_is_final<R, W: Fn(&Partition) -> Result<R, JobError>, C: Fn(R, R) -> R>(
    parts: Seq<Partition>,
    worker: W,
    combine: C,
    identity: R,
    error: JobError,
    n: int,
)
    requires
        0 <= n <= parts.len(),
        runs_to(parts.take(n), worker, combine, identity, Err::<R, JobError>(error)),
    ensures
        runs_to(parts, worker, combine, identity, Err::<R, JobError>(error)),
    decreases parts.len() - n,
{
    if n < parts.len() {
        let failed = Err::<R, JobError>(error);
        assert(parts.take(n + 1).drop_last() =~= parts.take(n));
        assert(runs_to(parts.take(n + 1), worker, combine, identity, failed)) by {
            assert(steps_to(parts.take(n + 1).last(), worker, combine, failed, failed));
        }
        lemma_error_is_final(parts, worker, combine, identity, error, n + 1);
    } else {
        assert(parts.take(n) =~= parts);
    }
}

/// Runs the worker on every partition and folds the outcomes into one with
/// `combine`, starting from `identity`. A worker's error ends the run at
/// once and is the result; no partial total is handed out.
///
/// The partitions are taken in list order. Callers whose `combine` is
/// associative and commutative, with `identity` as its identity, get the
/// result that any other order would give.
pub fn run_partitions<R, W, C>(
    parts: &Vec<Partition>,
    worker: W,
    combine: C,
    identity: R,
) -> (result: Result<R, JobError>) where W: Fn(&Partition) -> Result<R, JobError>, C: Fn(R, R) -> R
    requires
        forall|i: int| 0 <= i < parts@.len() ==> call_requires(worker, (&#[trigger] parts@[i],)),
        forall|a: R, b: R| call_requires(combine, (a, b)),
    ensures
        runs_to(parts@, worker, combine, identity, result),
{
    let mut total = identity;
    let mut i: usize = 0;
    while i < parts.len()
        invariant
            i <= parts@.len(),
            forall|k: int|
                0 <= k < parts@.len() ==> call_requires(worker, (&#[trigger] parts@[k],)),
            forall|a: R, b: R| call_requires(combine, (a, b)),
            runs_to(parts@.take(i as int), worker, combine, identity, Ok::<R, JobError>(total)),
        decreases parts@.len() - i,
    {
        let ghost before = Ok::<R, JobError>(total);
        proof {
            assert(parts@.take(i + 1).drop_last() =~= parts@.take(i as int));
        }
        match worker(&parts[i]) {
            Err(e) => {
                proof {
                    assert(runs_to(
                        parts@.take(i + 1),
                        worker,
                        combine,
                        identity,
                        Err::<R, JobError>(e),
                    )) by {
                        assert(runs_to(
                            parts@.take(i + 1).drop_last(),
                            worker,
                            combine,
                            identity,
                            before,
                        ));
                        assert(steps_to(
                            parts@.take(i + 1).last(),
                            worker,
                            combine,
                            before,
                            Err::<R, JobError>(e),
                        ));
                    }
                    lemma_error_is_final(parts@, worker, combine, identity, e, i + 1);
                }
                return Err(e);
            },
            Ok(part) => {
                total = combine(total, part);
                proof {
                    assert(runs_to(
                        parts@.take(i + 1),
                        worker,
                        combine,
                        identity,
                        Ok::<R, JobError>(total),
                    )) by {
                        assert(runs_to(
                            parts@.take(i + 1).drop_last(),
                            worker,
                            combine,
                            identity,
                            before,
                        ));
                        assert(steps_to(
                            parts@.take(i + 1).last(),
                            worker,
                            combine,
                            before,
                            Ok::<R, JobError>(total),
                        ));
                    }
                }
            },
        }
        i += 1;
    }
    proof {
        assert(parts@.take(i as int) =~= parts@);
    }
    Ok(total)
}

} // verus!

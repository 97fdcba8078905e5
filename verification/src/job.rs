//! The map/reduce job as callers start it: one step at a time, from a
//! source store into an output store.

use crate::error::JobError;
use crate::map_stage::{map_error, map_store, mapped_entries};
use crate::reduce_stage::{reduce_error, reduce_store, reduced};
use crate::store::{contents, write_all, MemStore};
use vstd::prelude::*;

verus! {

/// The two steps of the job.
#[derive(Clone, Copy, Debug, PartialEq, Eq, Structural)]
pub enum Step {
    /// From the source entries to entries that sort by group.
    MapStage,
    /// From the sorted entries to one entry per group.
    ReduceStage,
}

/// What a completed step reports.
#[derive(Clone, Copy, Debug, PartialEq, Eq, Structural)]
pub struct JobStats {
    /// The source entries that the step has read.
    pub entries_processed: usize,
    /// The groups that the step has written; a map step writes none.
    pub groups_emitted: usize,
}

impl JobStats {
    /// Whether the component-wise sum with `other` fits the counters.
    pub open spec fn sum_fits(self, other: JobStats) -> bool {
        &&& self.entries_processed + other.entries_processed <= usize::MAX
        &&& self.groups_emitted + other.groups_emitted <= usize::MAX
    }

    /// The component-wise sum, where it fits.
    pub open spec fn plus(self, other: JobStats) -> Option<JobStats> {
        if self.sum_fits(other) {
            Some(
                JobStats {
                    entries_processed: (self.entries_processed + other.entries_processed) as usize,
                    groups_emitted: (self.groups_emitted + other.groups_emitted) as usize,
                },
            )
        } else {
            None
        }
    }

    /// The report of a step that had nothing to do: the identity of
    /// [`JobStats::combine`].
    pub fn zero() -> (stats: JobStats)
        ensures
            stats == (JobStats { entries_processed: 0, groups_emitted: 0 }),
    {
        JobStats { entries_processed: 0, groups_emitted: 0 }
    }

    /// Adds the reports of two partitions. The result is `None` where a sum
    /// does not fit its counter.
    pub fn combine(self, other: JobStats) -> (sum: Option<JobStats>)
        ensures
            sum == self.plus(other),
    {
        if self.entries_processed > usize::MAX - other.entries_processed {
            return None;
        }
        if self.groups_emitted > usize::MAX - other.groups_emitted {
            return None;
        }
        Some(
            JobStats {
                entries_processed: self.entries_processed + other.entries_processed,
                groups_emitted: self.groups_emitted + other.groups_emitted,
            },
        )
    }
}

/// Combining reports does not depend on the order of the two partitions,
/// nor on how three partitions are grouped, and the report of a step that
/// had nothing to do changes nothing.
pub proof fn lemma_stats_combine_laws(a: JobStats, b: JobStats, c: JobStats)
    ensures
        a.plus(b) == b.plus(a),
        (match a.plus(b) {
            Some(ab) => ab.plus(c),
            None => None,
        }) == (match b.plus(c) {
            Some(bc) => a.plus(bc),
            None => None,
        }),
        a.plus(JobStats { entries_processed: 0, groups_emitted: 0 }) == Some(a),
{
}

/// Why a step does not run, if it does not.
pub open spec fn step_error(step: Step, entries: Seq<(Seq<u8>, Seq<u8>)>, width: nat) -> Option<
    JobError,
> {
    match step {
        Step::MapStage => map_error(entries, width),
        Step::ReduceStage => reduce_error(entries, width),
    }
}

/// The writes of a step, in the order in which they reach the output store.
pub open spec fn step_writes(step: Step, entries: Seq<(Seq<u8>, Seq<u8>)>) -> Seq<
    (Seq<u8>, Seq<u8>),
> {
    match step {
        Step::MapStage => mapped_entries(entries),
        Step::ReduceStage => reduced(entries),
    }
}

/// Runs one step of the job from `source` into `output`, over the
/// consecutive hexadecimal partitions of the given width.
///
/// A step that cannot run as a whole writes nothing.
pub fn map_reduce(source: &MemStore, output: &mut MemStore, step: Step, width: u32) -> (result:
    Result<JobStats, JobError>)
    ensures
        match step_error(step, source@, width as nat) {
            Some(e) => result == Err::<JobStats, JobError>(e) && final(output)@ == old(output)@,
            None => {
                &&& result is Ok
                &&& result->Ok_0.entries_processed == source@.len()
                &&& result->Ok_0.groups_emitted == match step {
                    Step::MapStage => 0,
                    Step::ReduceStage => reduced(source@).len(),
                }
                &&& contents(final(output)@) == write_all(
                    contents(old(output)@),
                    step_writes(step, source@),
                )
            },
        },
{
    match step {
        Step::MapStage => match map_store(source, output, width) {
            Ok(count) => Ok(JobStats { entries_processed: count, groups_emitted: 0 }),
            Err(e) => Err(e),
        },
        Step::ReduceStage => reduce_store(source, output, width),
    }
}

} // verus!

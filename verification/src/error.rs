//! Errors that abort a job.

use vstd::prelude::*;

verus! {

/// The four families of failure a job distinguishes.
#[derive(Clone, Copy, Debug, PartialEq, Eq, Structural)]
pub enum ErrorKind {
    /// The underlying store could not be read or written.
    StoreAccess,
    /// An intermediate key does not have the shape the reduce stage expects.
    MalformedKey,
    /// The data breaks an assumption that keeps partitions independent.
    InvariantViolation,
    /// The job was asked to run with parameters it cannot honour.
    Configuration,
}

/// Why a job was aborted. No partial result accompanies an error.
#[derive(Clone, Copy, Debug, PartialEq, Eq, Structural)]
pub enum JobError {
    /// A read from or a write to the store failed.
    StoreAccess,
    /// An intermediate key holds no separator byte.
    MalformedKey,
    /// A grouping key is shorter than the partition prefix width, so its
    /// group could straddle two partitions.
    GroupKeyTooShort,
    /// A value that is to become a sort key is not valid UTF-8 text.
    ValueNotText,
    /// A value that is to become a sort key holds the separator byte.
    SeparatorInValue,
    /// The partition width is zero, or yields more partitions than
    /// the partitioner is willing to create.
    InvalidWidth,
    /// The alphabet has fewer than two symbols or is not strictly ascending.
    InvalidAlphabet,
}

impl JobError {
    /// The family this error belongs to.
    pub open spec fn spec_kind(self) -> ErrorKind {
        match self {
            JobError::StoreAccess => ErrorKind::StoreAccess,
            JobError::MalformedKey => ErrorKind::MalformedKey,
            JobError::GroupKeyTooShort => ErrorKind::InvariantViolation,
            JobError::ValueNotText => ErrorKind::InvariantViolation,
            JobError::SeparatorInValue => ErrorKind::InvariantViolation,
            JobError::InvalidWidth => ErrorKind::Configuration,
            JobError::InvalidAlphabet => ErrorKind::Configuration,
        }
    }

    /// The family this error belongs to.
    #[verifier::when_used_as_spec(spec_kind)]
    pub fn kind(self) -> (k: ErrorKind)
        ensures
            k == self.spec_kind(),
    {
        match self {
            JobError::StoreAccess => ErrorKind::StoreAccess,
            JobError::MalformedKey => ErrorKind::MalformedKey,
            JobError::GroupKeyTooShort => ErrorKind::InvariantViolation,
            JobError::ValueNotText => ErrorKind::InvariantViolation,
            JobError::SeparatorInValue => ErrorKind::InvariantViolation,
            JobError::InvalidWidth => ErrorKind::Configuration,
            JobError::InvalidAlphabet => ErrorKind::Configuration,
        }
    }
}

} // verus!

//! The errors the allocator reports.
use vstd::prelude::*;

verus! {

/// Why a request to the pool failed.
#[derive(Clone, Copy, Debug, PartialEq, Eq, Structural)]
pub enum BuddyError {
    /// The request cannot be satisfied: it is larger than the pool, the
    /// mapping could not be had, or no free block is large enough.
    NoMemory,
    /// A structural invariant of the pool does not hold: `realloc` was given
    /// a pointer behind which no header of an allocated block lies.
    CorruptedMemoryPool,
}

/// The error number that POSIX gives to "out of memory".
pub const ENOMEM: i32 = 12;

/// Calls `errno::set_errno`: stores `code` as the error number of the calling
/// thread. Nothing is returned.
#[verifier::external_body]
pub(crate) fn set_errno(code: i32) {
    errno::set_errno(errno::Errno(code));
}

impl BuddyError {
    /// The text that describes the error.
    pub open spec fn spec_message(self) -> Seq<char> {
        match self {
            BuddyError::NoMemory => "Insufficient memory available"@,
            BuddyError::CorruptedMemoryPool => "Memory pool is corrupted or invalid"@,
        }
    }

    /// Describes the error in words.
    pub fn message(&self) -> (text: String)
        ensures
            text@ == self.spec_message(),
    {
        match self {
            BuddyError::NoMemory => "Insufficient memory available".to_owned(),
            BuddyError::CorruptedMemoryPool => "Memory pool is corrupted or invalid".to_owned(),
        }
    }
}

} // verus!

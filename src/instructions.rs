//! Values that the processor's special instructions report, and the retry
//! rule for the hardware random number instructions.

use vstd::prelude::*;

verus! {

/// Why a hardware random number could not be had.
#[derive(Clone, Copy, Debug, PartialEq, Eq, Structural)]
pub enum RandError {
    /// The processor lacks the instruction.
    NotSupported,
    /// The instruction kept failing.
    HardFailure,
}

/// How many times a random number instruction is tried before giving up.
pub const RAND_ATTEMPTS: u32 = 100;

/// The carry flag of `rflags`, which the instructions set on success.
pub const CARRY_FLAG: u64 = 1;

/// What to do after one try of a random number instruction.
#[derive(Clone, Copy, Debug, PartialEq, Eq, Structural)]
pub enum RandStep {
    /// The try gave this number.
    Value(u64),
    /// The try failed; pause and try again.
    Retry,
    /// Give up with this error.
    Stop(RandError),
}

/// Decides after try number `attempt` (from 0) of a random number
/// instruction that returned `result` with flags `rflags`: a non-zero result
/// with the carry flag set is the number; otherwise try again, up to
/// `RAND_ATTEMPTS` tries in all. Without the instruction there is nothing to try.
pub fn rand_step(supported: bool, attempt: u32, result: u64, rflags: u64) -> (r: RandStep)
    ensures
        !supported ==> r == RandStep::Stop(RandError::NotSupported),
        supported && result > 0 && rflags & CARRY_FLAG != 0 ==> r == RandStep::Value(result),
        supported && !(result > 0 && rflags & CARRY_FLAG != 0) ==> r == if attempt + 1 >= RAND_ATTEMPTS {
            RandStep::Stop(RandError::HardFailure)
        } else {
            RandStep::Retry
        },
{
    if !supported {
        RandStep::Stop(RandError::NotSupported)
    } else if result > 0 && rflags & CARRY_FLAG != 0 {
        RandStep::Value(result)
    } else if attempt >= RAND_ATTEMPTS - 1 {
        RandStep::Stop(RandError::HardFailure)
    } else {
        RandStep::Retry
    }
}

} // verus!

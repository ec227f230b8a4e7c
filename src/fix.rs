//! Checks made on the output of the audio fix pipeline.
use vstd::prelude::*;

verus! {

/// Options of the fix command.
#[derive(Clone, Debug)]
pub struct CmdFix {
    /// Overwrite existing output files.
    pub overwrite: bool,
    /// Output directory.
    pub output: String,
    /// Files or directories to scan, recursively, for MP3 files to fix.
    pub paths: Vec<String>,
}

/// What the length of a processed file says about it.
#[derive(Clone, Copy, Debug, PartialEq, Eq)]
pub enum LengthCheck {
    /// Nothing suspicious.
    Fine,
    /// The output has no length at all.
    Empty,
    /// The output lost at least 80% of its length, measured against the
    /// output's own length.
    Shrunk,
}

/// The check on an input of length `input` and an output of length `output`
/// (same unit): empty when the output has no length; shrunk when the length
/// lost is at least 80% of the output's length.
pub open spec fn length_check_spec(input: nat, output: nat) -> LengthCheck {
    if output == 0 {
        LengthCheck::Empty
    } else if (input - output) * 100 >= 80 * output {
        LengthCheck::Shrunk
    } else {
        LengthCheck::Fine
    }
}

/// Checks the length of a processed file against its input.
pub fn length_check(input: u64, output: u64) -> (r: LengthCheck)
    ensures
        r == length_check_spec(input as nat, output as nat),
{
    if output == 0 {
        LengthCheck::Empty
    } else if input as u128 * 100 >= 180 * output as u128 {
        LengthCheck::Shrunk
    } else {
        LengthCheck::Fine
    }
}

/// A file is processed unless its output exists and may not be overwritten.
pub fn should_process(overwrite: bool, output_exists: bool) -> (r: bool)
    ensures
        r == (overwrite || !output_exists),
{
    overwrite || !output_exists
}

} // verus!

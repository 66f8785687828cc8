//! How results are printed: a table for a terminal, NDJSON otherwise.
use vstd::prelude::*;

verus! {

/// The form of printed results.
#[derive(Clone, Copy, Debug, PartialEq, Eq, Structural)]
pub enum OutputFormat {
    Human,
    Ndjson,
}

/// NDJSON when `--json` is given or standard output is not a terminal,
/// else the table for people.
pub fn detect_format(json_flag: bool, stdout_is_terminal: bool) -> (r: OutputFormat)
    ensures
        r == if json_flag || !stdout_is_terminal {
            OutputFormat::Ndjson
        } else {
            OutputFormat::Human
        },
{
    if json_flag || !stdout_is_terminal {
        OutputFormat::Ndjson
    } else {
        OutputFormat::Human
    }
}

} // verus!

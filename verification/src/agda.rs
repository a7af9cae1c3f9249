//! The outcome of a typecheck with `agda -i <root> <file>`. When `agda` is
//! not on `PATH` the engine degrades gracefully (`available: false`) rather
//! than erroring, so linting, DAG extraction and triage still work.

use vstd::prelude::*;
use crate::prover::{tail, tail_spec, TAIL_LINES};

verus! {

/// The result of a typecheck attempt.
#[derive(Clone, Debug)]
pub struct AgdaOutcome {
    /// Whether the `agda` binary was found and executed.
    pub available: bool,
    /// Process exit code, if the process ran.
    pub exit_code: Option<i32>,
    /// `true` iff agda exited 0.
    pub ok: bool,
    /// Last few lines of combined stdout+stderr.
    pub output_tail: String,
}

impl AgdaOutcome {
    /// `agda` was not found.
    pub fn unavailable() -> (o: AgdaOutcome)
        ensures
            !o.available,
            o.exit_code is None,
            !o.ok,
            o.output_tail@.len() == 0,
    {
        AgdaOutcome { available: false, exit_code: None, ok: false, output_tail: String::new() }
    }

    /// `agda` ran, exited with `exit_code` (`success` when 0) and printed
    /// `output` (stdout then stderr); its last lines are kept.
    pub fn ran(exit_code: Option<i32>, success: bool, output: &str) -> (o: AgdaOutcome)
        ensures
            o.available,
            o.exit_code == exit_code,
            o.ok == success,
            o.output_tail@ == tail_spec(output@, TAIL_LINES as nat),
    {
        AgdaOutcome { available: true, exit_code, ok: success, output_tail: tail(output, TAIL_LINES) }
    }
}

} // verus!

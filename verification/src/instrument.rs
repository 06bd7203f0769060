//! The records of an instrumented or certified solve: verdicts kept apart
//! from budget exhaustion, and the measurements a report needs.

use vstd::prelude::*;

verus! {

/// A backend's answer, with budget exhaustion kept distinct from a verdict.
#[derive(Copy, Clone, PartialEq, Eq, Debug, Structural)]
pub enum InstrumentVerdict {
    /// An instance exists (for a `check`, a counterexample).
    Sat,
    /// No instance within scope.
    Unsat,
    /// The conflict budget, or the wall deadline, ran out: not a verdict.
    Unknown,
}

impl InstrumentVerdict {
    /// The artifact spelling.
    pub fn name(self) -> (s: &'static str)
        ensures
            s@ == match self {
                InstrumentVerdict::Sat => "sat"@,
                InstrumentVerdict::Unsat => "unsat"@,
                InstrumentVerdict::Unknown => "unknown"@,
            },
    {
        match self {
            InstrumentVerdict::Sat => "sat",
            InstrumentVerdict::Unsat => "unsat",
            InstrumentVerdict::Unknown => "unknown",
        }
    }
}

/// One instrumented solve: the verdict plus the measurements of its row.
#[derive(Clone, PartialEq, Eq, Debug)]
pub struct InstrumentOutcome {
    /// The solver's answer.
    pub verdict: InstrumentVerdict,
    /// Number of CNF variables.
    pub num_vars: u32,
    /// Clause count of the same CNF.
    pub num_clauses: usize,
    /// Conflicts analyzed, when the backend exposes the counter.
    pub conflicts_used: Option<u64>,
    /// Wall milliseconds spent encoding.
    pub encode_ms: u128,
    /// Wall milliseconds spent inside the solver.
    pub solve_ms: u128,
    /// The self-check failure for a SAT answer, if any.
    pub self_check_fail: Option<String>,
}

/// What one certified solve measured, whatever verdict it reached.
#[derive(Copy, Clone, PartialEq, Eq, Debug, Structural)]
pub struct CertifyMeasurements {
    /// Number of CNF variables.
    pub num_vars: u32,
    /// Clause count of the CNF written out for the proof checker.
    pub num_clauses: usize,
    /// Conflicts analyzed reaching this answer.
    pub conflicts_used: u64,
    /// Wall milliseconds spent encoding.
    pub encode_ms: u128,
    /// Wall milliseconds spent inside the solver.
    pub solve_ms: u128,
}

/// What a certification found, with the two non-answers kept apart from the
/// two verdicts.
#[derive(Copy, Clone, PartialEq, Eq, Debug, Structural)]
pub enum CertifyOutcome {
    /// The goal folded to `false` while encoding: unsatisfiable by
    /// construction, and no solver ran.
    TriviallyUnsat,
    /// Unsatisfiable, with a proof.
    Unsat(CertifyMeasurements),
    /// Satisfiable: nothing to certify.
    Sat(CertifyMeasurements),
    /// The conflict budget ran out: not a verdict.
    Unknown(CertifyMeasurements),
}

impl CertifyOutcome {
    /// The artifact spelling.
    pub fn name(self) -> (s: &'static str)
        ensures
            s@ == match self {
                CertifyOutcome::TriviallyUnsat => "trivially_unsat"@,
                CertifyOutcome::Unsat(_) => "unsat"@,
                CertifyOutcome::Sat(_) => "sat"@,
                CertifyOutcome::Unknown(_) => "unknown"@,
            },
    {
        match self {
            CertifyOutcome::TriviallyUnsat => "trivially_unsat",
            CertifyOutcome::Unsat(_) => "unsat",
            CertifyOutcome::Sat(_) => "sat",
            CertifyOutcome::Unknown(_) => "unknown",
        }
    }

    /// The measurements, when a solver actually ran.
    pub fn measurements(self) -> (m: Option<CertifyMeasurements>)
        ensures
            m == match self {
                CertifyOutcome::TriviallyUnsat => None,
                CertifyOutcome::Unsat(x) => Some(x),
                CertifyOutcome::Sat(x) => Some(x),
                CertifyOutcome::Unknown(x) => Some(x),
            },
    {
        match self {
            CertifyOutcome::TriviallyUnsat => None,
            CertifyOutcome::Unsat(m) => Some(m),
            CertifyOutcome::Sat(m) => Some(m),
            CertifyOutcome::Unknown(m) => Some(m),
        }
    }
}

} // verus!

//! Benchmark manifest: the versioned, machine-readable description of a run.

use vstd::prelude::*;

use crate::akx::knowledge::Utility;
use crate::text;

verus! {

/// Bumped on any incompatible manifest schema change.
pub const MANIFEST_SCHEMA_VERSION: u32 = 1;

#[derive(Clone, Copy, Debug, PartialEq, Eq, Structural)]
pub enum ManifestError {
    /// The manifest is of another schema version than this build supports.
    SchemaVersion { found: u32, expected: u32 },
}

/// Expected verdict for a problem, when the manifest pins one.
#[derive(Clone, Copy, Debug, PartialEq, Eq, Structural)]
pub enum Expected {
    Sat,
    Unsat,
}

impl Expected {
    pub fn name(&self) -> (s: &'static str)
        ensures
            s@ == (match *self {
                Expected::Sat => "SAT"@,
                Expected::Unsat => "UNSAT"@,
            }),
    {
        match self {
            Expected::Sat => "SAT",
            Expected::Unsat => "UNSAT",
        }
    }
}

/// A single problem in the benchmark set.
#[derive(Debug, Clone)]
pub struct Problem {
    /// Short unique name used in results.
    pub name: String,
    /// Path to the problem file.
    pub file: String,
    /// Pinned expected verdict, if known.
    pub expect: Option<Expected>,
}

/// An external solver that every problem is also given to.
#[derive(Debug, Clone)]
pub struct BaselineConfig {
    pub name: String,
    pub binary: String,
    pub args: Vec<String>,
}

/// Solver configuration shared across the run.
#[derive(Clone, Copy, Debug, PartialEq, Eq, Structural)]
pub struct SolverConfig {
    pub workers: u32,
    pub seed: u64,
    pub deterministic: bool,
    /// Exchange learned clauses between workers. `false` runs an isolated
    /// multi-worker portfolio.
    pub clause_sharing: bool,
    /// Only share clauses whose estimated utility is at least this. A higher
    /// threshold filters out junk (high-LBD) learned clauses. 0 shares
    /// everything.
    pub export_min_utility: Utility,
    /// Only apply imported clauses whose estimated utility is at least this.
    /// 0 applies everything that reaches the import gate.
    pub import_min_utility: Utility,
    /// Per-problem conflict budget. `None` means unlimited.
    pub max_conflicts_per_problem: Option<u64>,
    /// Per-problem wall-clock budget in seconds.
    pub timeout_secs: u64,
}

impl Default for SolverConfig {
    fn default() -> (c: Self)
        ensures
            c == (SolverConfig {
                workers: 1,
                seed: 1,
                deterministic: true,
                clause_sharing: true,
                export_min_utility: 250_000_000,
                import_min_utility: 143_000_000,
                max_conflicts_per_problem: Some(100_000u64),
                timeout_secs: 300,
            }),
    {
        SolverConfig {
            workers: 1,
            seed: 1,
            deterministic: true,
            clause_sharing: true,
            export_min_utility: 250_000_000,
            import_min_utility: 143_000_000,
            max_conflicts_per_problem: Some(100_000),
            timeout_secs: 300,
        }
    }
}

impl SolverConfig {
    /// The conflict budget of each problem.
    pub fn budget(&self) -> (b: u64)
        ensures
            b == (match self.max_conflicts_per_problem {
                Some(n) => n,
                None => u64::MAX,
            }),
    {
        match self.max_conflicts_per_problem {
            Some(n) => n,
            None => u64::MAX,
        }
    }

    /// The wall-clock budget of each problem in nanoseconds.
    pub fn timeout_ns(&self) -> (t: u128)
        ensures
            t == self.timeout_secs * 1_000_000_000,
    {
        self.timeout_secs as u128 * 1_000_000_000
    }
}

/// Output configuration: where results and traces go.
#[derive(Debug, Clone)]
pub struct OutputConfig {
    /// Directory for results and traces. Created if missing.
    pub dir: String,
    /// Write a `.rmtrace` per problem alongside the result.
    pub trace: bool,
}

impl Default for OutputConfig {
    fn default() -> (c: Self)
        ensures
            c.dir@ == "results"@,
            !c.trace,
    {
        OutputConfig { dir: text::copy_str("results"), trace: false }
    }
}

/// A complete benchmark run description.
#[derive(Debug, Clone)]
pub struct Manifest {
    pub schema_version: u32,
    pub name: String,
    pub description: String,
    pub solver: SolverConfig,
    pub output: OutputConfig,
    pub baselines: Vec<BaselineConfig>,
    pub problems: Vec<Problem>,
}

impl Manifest {
    /// A manifest of the schema version that this build supports.
    pub fn checked(self) -> (r: Result<Manifest, ManifestError>)
        ensures
            r == (if self.schema_version == MANIFEST_SCHEMA_VERSION {
                Ok(self)
            } else {
                Err(
                    ManifestError::SchemaVersion {
                        found: self.schema_version,
                        expected: MANIFEST_SCHEMA_VERSION,
                    },
                )
            }),
    {
        if self.schema_version != MANIFEST_SCHEMA_VERSION {
            return Err(
                ManifestError::SchemaVersion {
                    found: self.schema_version,
                    expected: MANIFEST_SCHEMA_VERSION,
                },
            );
        }
        Ok(self)
    }
}

} // verus!

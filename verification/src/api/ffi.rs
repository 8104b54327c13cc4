//! Result codes of the C interface and the rules of its batch call.
//!
//! Every check returns `0` = SAT, `1` = UNSAT, `2` = UNKNOWN.

use vstd::prelude::*;

use crate::api::pool::JobResult;
use crate::api::solver::{SatResult, SolverConfig};

verus! {

pub const RM_SAT: i32 = 0;

pub const RM_UNSAT: i32 = 1;

pub const RM_UNKNOWN: i32 = 2;

/// The code of a result.
pub open spec fn code_of(r: SatResult) -> i32 {
    match r {
        SatResult::Sat(_) => RM_SAT,
        SatResult::Unsat => RM_UNSAT,
        SatResult::Unknown(_) => RM_UNKNOWN,
    }
}

pub fn sat_result_code(r: &SatResult) -> (c: i32)
    ensures
        c == code_of(*r),
{
    match r {
        SatResult::Sat(_) => RM_SAT,
        SatResult::Unsat => RM_UNSAT,
        SatResult::Unknown(_) => RM_UNKNOWN,
    }
}

/// The configuration of a solver or a pool: at least one worker, no time limit.
pub fn solver_config(num_workers: u32, max_conflicts: u64) -> (c: SolverConfig)
    ensures
        c.num_workers == (if num_workers == 0 {
            1
        } else {
            num_workers as int
        }),
        c.max_conflicts == max_conflicts,
        c.timeout is None,
{
    let workers: u32 = if num_workers == 0 {
        1
    } else {
        num_workers
    };
    SolverConfig { num_workers: workers as usize, max_conflicts, timeout: None }
}

/// How many scripts before position `n` could be read.
pub open spec fn read_before(readable: Seq<bool>, n: int) -> int
    decreases n,
{
    if n <= 0 {
        0
    } else {
        read_before(readable, n - 1) + (if readable[n - 1] {
            1int
        } else {
            0
        })
    }
}

proof fn read_before_grows(readable: Seq<bool>, m: int, n: int)
    requires
        0 <= m <= n,
    ensures
        0 <= read_before(readable, m) <= read_before(readable, n) <= n,
    decreases n,
{
    if m < n {
        read_before_grows(readable, m, n - 1);
    } else if n > 0 {
        read_before_grows(readable, m - 1, n - 1);
    }
}

/// The code of script `i`: that of its outcome, or unknown if it could not be
/// read.
pub open spec fn batch_code(readable: Seq<bool>, outcomes: Seq<JobResult>, i: int) -> i32 {
    if readable[i] {
        code_of(outcomes[read_before(readable, i)].result)
    } else {
        RM_UNKNOWN
    }
}

/// How many of the first `n` codes are conclusive.
pub open spec fn decided(codes: Seq<i32>, n: int) -> int
    decreases n,
{
    if n <= 0 {
        0
    } else {
        decided(codes, n - 1) + (if codes[n - 1] != RM_UNKNOWN {
            1int
        } else {
            0
        })
    }
}

proof fn decided_frame(a: Seq<i32>, b: Seq<i32>, n: int)
    requires
        n <= a.len(),
        n <= b.len(),
        forall|i: int| 0 <= i < n ==> #[trigger] a[i] == b[i],
    ensures
        decided(a, n) == decided(b, n),
        n >= 0 ==> 0 <= decided(a, n) <= n,
    decreases n,
{
    if n > 0 {
        decided_frame(a, b, n - 1);
    }
}

/// The codes of a batch, one for each script in its place, and the number of
/// conclusive ones. Outcomes are of the scripts that could be read, in order.
pub fn batch_codes(readable: &[bool], outcomes: &[JobResult]) -> (r: (Vec<i32>, u32))
    requires
        readable@.len() <= u32::MAX,
        outcomes@.len() == read_before(readable@, readable@.len() as int),
    ensures
        r.0@.len() == readable@.len(),
        forall|i: int|
            0 <= i < readable@.len() ==> #[trigger] r.0@[i] == batch_code(
                readable@,
                outcomes@,
                i,
            ),
        r.1 == decided(r.0@, readable@.len() as int),
{
    let mut codes: Vec<i32> = Vec::new();
    let mut conclusive: u32 = 0;
    let mut next: usize = 0;
    let mut i: usize = 0;
    while i < readable.len()
        invariant
            i <= readable@.len() <= u32::MAX,
            outcomes@.len() == read_before(readable@, readable@.len() as int),
            next == read_before(readable@, i as int),
            codes@.len() == i,
            conclusive == decided(codes@, i as int),
            forall|k: int|
                0 <= k < i ==> #[trigger] codes@[k] == batch_code(readable@, outcomes@, k),
        decreases readable@.len() - i,
    {
        let ghost before = codes@;
        proof {
            read_before_grows(readable@, i + 1, readable@.len() as int);
            decided_frame(before, before, i as int);
        }
        let mut code: i32 = RM_UNKNOWN;
        if readable[i] {
            code = sat_result_code(&outcomes[next].result);
            next += 1;
        }
        codes.push(code);
        if code != RM_UNKNOWN {
            conclusive += 1;
        }
        proof {
            decided_frame(before, codes@, i as int);
        }
        i += 1;
    }
    (codes, conclusive)
}

} // verus!

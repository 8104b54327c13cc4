//! What a worker does with a task: polling, renewing its lease, and reporting.

use vstd::prelude::*;

use crate::text;
#[allow(unused_imports)]
use crate::text::Text;

verus! {

/// A model value: the name of a constant and the text of its value.
pub struct Binding {
    pub name: String,
    pub value: String,
}

#[verifier::ext_equal]
pub struct BindingView {
    pub name: Text,
    pub value: Text,
}

impl View for Binding {
    type V = BindingView;

    open spec fn view(&self) -> BindingView {
        BindingView { name: self.name@, value: self.value@ }
    }
}

pub open spec fn binding_views(values: Seq<Binding>) -> Seq<BindingView> {
    values.map_values(|b: Binding| b@)
}

/// How solving a script ended.
pub enum SolveOutcome {
    /// The script could not be parsed.
    ParseError(String),
    /// The script asserts nothing.
    EmptyProblem,
    /// The solver failed.
    SolverError(String),
    Sat(Vec<Binding>),
    Unsat,
    Unknown,
}

/// The text of a model: `(name value)` for each constant, separated by spaces.
pub open spec fn model_text(values: Seq<BindingView>) -> Text
    decreases values.len(),
{
    if values.len() == 0 {
        Seq::empty()
    } else {
        let entry = "("@ + values.last().name + " "@ + values.last().value + ")"@;
        if values.len() == 1 {
            entry
        } else {
            model_text(values.drop_last()) + " "@ + entry
        }
    }
}

/// The result code and the text that are reported for an outcome.
pub open spec fn reported(o: SolveOutcome) -> (u32, Text) {
    match o {
        SolveOutcome::ParseError(e) => (2, "parse error: "@ + e@),
        SolveOutcome::EmptyProblem => (0, Seq::empty()),
        SolveOutcome::SolverError(e) => (2, "solver error: "@ + e@),
        SolveOutcome::Sat(values) => (0, model_text(binding_views(values@))),
        SolveOutcome::Unsat => (1, Seq::empty()),
        SolveOutcome::Unknown => (2, Seq::empty()),
    }
}

/// Write a model.
pub fn write_model(values: &Vec<Binding>) -> (s: String)
    ensures
        s@ == model_text(binding_views(values@)),
{
    let ghost all = binding_views(values@);
    let mut s: String = String::new();
    let mut i: usize = 0;
    assert(s@ =~= model_text(all.take(0)));
    while i < values.len()
        invariant
            i <= values@.len(),
            all == binding_views(values@),
            s@ == model_text(all.take(i as int)),
        decreases values@.len() - i,
    {
        let ghost before = s@;
        if i > 0 {
            s.append(" ");
        }
        s.append("(");
        s.append(values[i].name.as_str());
        s.append(" ");
        s.append(values[i].value.as_str());
        s.append(")");
        proof {
            let next = all.take(i + 1);
            assert(next.drop_last() =~= all.take(i as int));
            assert(next.last() == values@[i as int]@);
            let entry = "("@ + next.last().name + " "@ + next.last().value + ")"@;
            if i == 0 {
                assert(s@ =~= entry);
            } else {
                assert(s@ =~= before + " "@ + entry);
            }
        }
        i += 1;
    }
    assert(all.take(i as int) =~= all);
    s
}

/// The result code and the model that are reported: 0 = SAT, 1 = UNSAT,
/// 2 = UNKNOWN. A script that asserts nothing is trivially satisfiable.
pub fn report_of(outcome: &SolveOutcome) -> (r: (u32, String))
    ensures
        (r.0, r.1@) == reported(*outcome),
{
    match outcome {
        SolveOutcome::ParseError(e) => {
            let mut s = String::from_str("parse error: ");
            s.append(e.as_str());
            (2, s)
        },
        SolveOutcome::EmptyProblem => (0, empty_text()),
        SolveOutcome::SolverError(e) => {
            let mut s = String::from_str("solver error: ");
            s.append(e.as_str());
            (2, s)
        },
        SolveOutcome::Sat(values) => (0, write_model(values)),
        SolveOutcome::Unsat => (1, empty_text()),
        SolveOutcome::Unknown => (2, empty_text()),
    }
}

fn empty_text() -> (s: String)
    ensures
        s@ == Seq::<char>::empty(),
{
    let s = String::new();
    assert(s@ =~= Seq::<char>::empty());
    s
}

/// Shortest time between two renewals of a lease, in milliseconds.
pub const MIN_RENEWAL_MS: u64 = 5_000;

/// How often a lease is renewed: twice in its life, but not too often.
pub fn renewal_interval_ms(lease_ttl_ms: u64) -> (ms: u64)
    ensures
        ms == (if lease_ttl_ms / 2 < MIN_RENEWAL_MS {
            MIN_RENEWAL_MS
        } else {
            lease_ttl_ms / 2
        }),
{
    let half: u64 = lease_ttl_ms / 2;
    if half < MIN_RENEWAL_MS {
        MIN_RENEWAL_MS
    } else {
        half
    }
}

/// How a poll for work ended.
#[derive(Clone, Copy, Debug, PartialEq, Eq, Structural)]
pub enum PollOutcome {
    /// The coordinator could not be reached.
    Unreachable,
    /// The coordinator answered with a status.
    Status(u16),
}

/// What the worker does next.
#[derive(Clone, Copy, Debug, PartialEq, Eq, Structural)]
pub enum NextStep {
    /// Wait for the retry interval, then poll again.
    BackOff,
    /// Poll again at once.
    PollAgain,
    /// Read the task from the answer and solve it.
    TakeTask,
}

/// What a worker does after a poll: no content means no work within the poll
/// window; any other status that is no success is backed off from.
pub fn after_poll(outcome: PollOutcome) -> (s: NextStep)
    ensures
        s == (match outcome {
            PollOutcome::Unreachable => NextStep::BackOff,
            PollOutcome::Status(code) => if code == 204 {
                NextStep::PollAgain
            } else if 200 <= code < 300 {
                NextStep::TakeTask
            } else {
                NextStep::BackOff
            },
        }),
{
    match outcome {
        PollOutcome::Unreachable => NextStep::BackOff,
        PollOutcome::Status(code) => {
            if code == 204 {
                NextStep::PollAgain
            } else if code >= 200 && code < 300 {
                NextStep::TakeTask
            } else {
                NextStep::BackOff
            }
        },
    }
}

} // verus!

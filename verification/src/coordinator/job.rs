//! Job and task types for the distributed coordinator.

use vstd::prelude::*;

use crate::text;
#[allow(unused_imports)]
use crate::text::Text;

verus! {

pub type JobId = u128;

pub type TaskId = u128;

#[derive(Clone, Copy, Debug, PartialEq, Eq, Structural)]
pub enum JobStatus {
    Pending,
    Running,
    Complete,
}

/// The name of a status.
pub open spec fn status_text(s: JobStatus) -> Text {
    match s {
        JobStatus::Pending => "pending"@,
        JobStatus::Running => "running"@,
        JobStatus::Complete => "complete"@,
    }
}

impl JobStatus {
    /// The name of the status.
    pub fn name(self) -> (s: &'static str)
        ensures
            s@ == status_text(self),
    {
        match self {
            JobStatus::Pending => "pending",
            JobStatus::Running => "running",
            JobStatus::Complete => "complete",
        }
    }
}

// ---------------------------------------------------------------------------
// Batches (proof farm)
// ---------------------------------------------------------------------------

#[derive(Clone, Debug)]
pub struct TaskResult {
    /// 0 = SAT, 1 = UNSAT, 2 = UNKNOWN
    pub code: u32,
    pub model: String,
}

#[verifier::ext_equal]
pub struct ResultView {
    pub code: u32,
    pub model: Text,
}

impl View for TaskResult {
    type V = ResultView;

    open spec fn view(&self) -> ResultView {
        ResultView { code: self.code, model: self.model@ }
    }
}

pub struct BatchJob {
    pub id: JobId,
    pub results: Vec<Option<TaskResult>>,
    pub pending: usize,
    pub status: JobStatus,
}

#[verifier::ext_equal]
pub struct BatchView {
    pub id: JobId,
    pub results: Seq<Option<ResultView>>,
    pub pending: usize,
    pub status: JobStatus,
}

pub open spec fn result_view(r: Option<TaskResult>) -> Option<ResultView> {
    match r {
        Some(t) => Some(t@),
        None => None,
    }
}

impl View for BatchJob {
    type V = BatchView;

    open spec fn view(&self) -> BatchView {
        BatchView {
            id: self.id,
            results: self.results@.map_values(|r: Option<TaskResult>| result_view(r)),
            pending: self.pending,
            status: self.status,
        }
    }
}

/// How many results are missing.
pub open spec fn missing(results: Seq<Option<ResultView>>) -> nat
    decreases results.len(),
{
    if results.len() == 0 {
        0
    } else {
        missing(results.drop_last()) + (if results.last() is None {
            1nat
        } else {
            0
        })
    }
}

/// The count of pending results is right, and the job is complete exactly if
/// none is missing.
pub open spec fn batch_ok(b: BatchView) -> bool {
    &&& b.pending == missing(b.results)
    &&& b.status == (if b.pending == 0 {
        JobStatus::Complete
    } else {
        JobStatus::Running
    })
}

/// A fresh batch.
pub open spec fn fresh_batch(id: JobId, count: nat) -> BatchView {
    BatchView {
        id,
        results: Seq::new(count, |i: int| None),
        pending: count as usize,
        status: if count == 0 {
            JobStatus::Complete
        } else {
            JobStatus::Running
        },
    }
}

/// The batch after a result was recorded. The first result for a script counts.
pub open spec fn recorded(b: BatchView, index: int, r: ResultView) -> BatchView {
    if b.results[index] is None {
        let pending = if b.pending > 0 {
            (b.pending - 1) as usize
        } else {
            0
        };
        BatchView {
            results: b.results.update(index, Some(r)),
            pending,
            status: if pending == 0 {
                JobStatus::Complete
            } else {
                b.status
            },
            ..b
        }
    } else {
        BatchView {
            status: if b.pending == 0 {
                JobStatus::Complete
            } else {
                b.status
            },
            ..b
        }
    }
}

proof fn none_missing(n: nat)
    ensures
        missing(Seq::new(n, |i: int| None)) == n,
    decreases n,
{
    if n > 0 {
        let s = Seq::<Option<ResultView>>::new(n, |i: int| None);
        assert(s.drop_last() =~= Seq::new((n - 1) as nat, |i: int| None));
        none_missing((n - 1) as nat);
    }
}

proof fn missing_update(s: Seq<Option<ResultView>>, i: int, r: ResultView)
    requires
        0 <= i < s.len(),
        s[i] is None,
    ensures
        missing(s) == missing(s.update(i, Some(r))) + 1,
    decreases s.len(),
{
    let u = s.update(i, Some(r));
    if i == s.len() - 1 {
        assert(u.drop_last() =~= s.drop_last());
    } else {
        assert(u.drop_last() =~= s.drop_last().update(i, Some(r)));
        missing_update(s.drop_last(), i, r);
    }
}

proof fn missing_bounds(s: Seq<Option<ResultView>>)
    ensures
        missing(s) <= s.len(),
        missing(s) == 0 <==> forall|i: int| 0 <= i < s.len() ==> #[trigger] s[i] is Some,
    decreases s.len(),
{
    if s.len() > 0 {
        let t = s.drop_last();
        missing_bounds(t);
        if missing(s) == 0 {
            assert forall|i: int| 0 <= i < s.len() implies #[trigger] s[i] is Some by {
                if i < t.len() {
                    assert(t[i] == s[i]);
                }
            }
        }
        if forall|i: int| 0 <= i < s.len() ==> #[trigger] s[i] is Some {
            assert forall|i: int| 0 <= i < t.len() implies #[trigger] t[i] is Some by {
                assert(t[i] == s[i]);
            }
            assert(s[s.len() - 1] is Some);
        }
    }
}

/// A batch is complete exactly if every script has a result.
pub proof fn batch_complete_iff_all_in(b: BatchView)
    requires
        batch_ok(b),
    ensures
        b.status == JobStatus::Complete <==> forall|i: int|
            0 <= i < b.results.len() ==> #[trigger] b.results[i] is Some,
{
    missing_bounds(b.results);
}

/// Recording keeps a batch in order, and never replaces a result.
pub proof fn recording_keeps_order(b: BatchView, index: int, r: ResultView)
    requires
        batch_ok(b),
        0 <= index < b.results.len(),
    ensures
        batch_ok(recorded(b, index, r)),
        forall|i: int|
            0 <= i < b.results.len() && b.results[i] is Some ==> #[trigger] recorded(
                b,
                index,
                r,
            ).results[i] == b.results[i],
{
    if b.results[index] is None {
        missing_update(b.results, index, r);
    }
}

impl BatchJob {
    pub fn new(id: JobId, count: usize) -> (b: Self)
        ensures
            b@ == fresh_batch(id, count as nat),
            batch_ok(b@),
    {
        let mut results: Vec<Option<TaskResult>> = Vec::new();
        while results.len() < count
            invariant
                results@.len() <= count,
                forall|i: int| 0 <= i < results@.len() ==> #[trigger] results@[i] is None,
            decreases count - results@.len(),
        {
            results.push(None);
        }
        let b = BatchJob {
            id,
            results,
            pending: count,
            status: if count == 0 {
                JobStatus::Complete
            } else {
                JobStatus::Running
            },
        };
        proof {
            assert(b@.results =~= fresh_batch(id, count as nat).results);
            none_missing(count as nat);
        }
        b
    }

    /// Record a result at `index`. Returns true when all results are in.
    pub fn record(&mut self, index: usize, result: TaskResult) -> (all_in: bool)
        requires
            index < old(self)@.results.len(),
        ensures
            final(self)@ == recorded(old(self)@, index as int, result@),
            all_in == (final(self)@.pending == 0),
    {
        let ghost before = self@;
        let ghost r = result@;
        let empty: bool = self.results[index].is_none();
        assert(before.results[index as int] == result_view(self.results@[index as int]));
        if empty {
            self.results[index] = Some(result);
            assert(self@.results =~= before.results.update(index as int, Some(r)));
            if self.pending > 0 {
                self.pending -= 1;
            }
        }
        if self.pending == 0 {
            self.status = JobStatus::Complete;
        }
        self.pending == 0
    }
}

// ---------------------------------------------------------------------------
// Cube-and-conquer
// ---------------------------------------------------------------------------

#[derive(Clone, Copy, Debug, PartialEq, Eq, Structural)]
pub enum Verdict {
    Sat,
    Unsat,
    Unknown,
}

/// The name of a verdict.
pub open spec fn verdict_text(v: Verdict) -> Text {
    match v {
        Verdict::Sat => "sat"@,
        Verdict::Unsat => "unsat"@,
        Verdict::Unknown => "unknown"@,
    }
}

impl Verdict {
    /// The name of the verdict.
    pub fn name(self) -> (s: &'static str)
        ensures
            s@ == verdict_text(self),
    {
        match self {
            Verdict::Sat => "sat",
            Verdict::Unsat => "unsat",
            Verdict::Unknown => "unknown",
        }
    }
}

#[derive(Clone, Copy, PartialEq, Eq, Debug, Structural)]
pub enum CubeNodeStatus {
    Open,
    Assigned,
    ClosedSat,
    ClosedUnsat,
    Cancelled,
}

#[derive(Debug, Clone)]
pub struct CubeNode {
    pub id: u64,
    pub parent: Option<u64>,
    /// Extra SMT-LIB 2 `(assert ...)` lines prepended for this cube branch.
    pub extra_assertions: Vec<String>,
    pub status: CubeNodeStatus,
    pub task_id: Option<TaskId>,
}

#[verifier::ext_equal]
pub struct CubeNodeView {
    pub id: u64,
    pub parent: Option<u64>,
    pub assertions: Seq<Text>,
    pub status: CubeNodeStatus,
    pub task_id: Option<TaskId>,
}

impl View for CubeNode {
    type V = CubeNodeView;

    open spec fn view(&self) -> CubeNodeView {
        CubeNodeView {
            id: self.id,
            parent: self.parent,
            assertions: text::string_texts(self.extra_assertions@),
            status: self.status,
            task_id: self.task_id,
        }
    }
}

/// A node that nobody works on yet.
pub open spec fn open_node(id: u64, parent: Option<u64>, assertions: Seq<Text>) -> CubeNodeView {
    CubeNodeView { id, parent, assertions, status: CubeNodeStatus::Open, task_id: None }
}

impl CubeNode {
    fn root() -> (n: Self)
        ensures
            n@ == open_node(0, None, Seq::empty()),
    {
        let n = CubeNode {
            id: 0,
            parent: None,
            extra_assertions: Vec::new(),
            status: CubeNodeStatus::Open,
            task_id: None,
        };
        assert(n@.assertions =~= Seq::<Text>::empty());
        n
    }
}

pub struct CubeJob {
    pub id: JobId,
    /// SMT-LIB 2 without trailing `(check-sat)`.
    pub base_script: String,
    pub max_conflicts: u64,
    /// The nodes, numbered in the order of their creation from the root, 0.
    pub nodes: Vec<CubeNode>,
    pub next_node_id: u64,
    pub status: JobStatus,
    pub verdict: Option<Verdict>,
}

#[verifier::ext_equal]
pub struct CubeView {
    pub id: JobId,
    pub base: Text,
    pub max_conflicts: u64,
    pub nodes: Seq<CubeNodeView>,
    pub next_node_id: u64,
    pub status: JobStatus,
    pub verdict: Option<Verdict>,
}

pub open spec fn cube_node_views(nodes: Seq<CubeNode>) -> Seq<CubeNodeView> {
    nodes.map_values(|n: CubeNode| n@)
}

impl View for CubeJob {
    type V = CubeView;

    open spec fn view(&self) -> CubeView {
        CubeView {
            id: self.id,
            base: self.base_script@,
            max_conflicts: self.max_conflicts,
            nodes: cube_node_views(self.nodes@),
            next_node_id: self.next_node_id,
            status: self.status,
            verdict: self.verdict,
        }
    }
}

/// The nodes are numbered in order.
pub open spec fn cube_ok(c: CubeView) -> bool {
    &&& c.next_node_id == c.nodes.len()
    &&& forall|i: int| 0 <= i < c.nodes.len() ==> (#[trigger] c.nodes[i]).id == i
}

/// A fresh job.
pub open spec fn fresh_cube(id: JobId, base: Text, max_conflicts: u64) -> CubeView {
    CubeView {
        id,
        base,
        max_conflicts,
        nodes: seq![open_node(0, None, Seq::empty())],
        next_node_id: 1,
        status: JobStatus::Running,
        verdict: None,
    }
}

/// Some lines, each with its end.
pub open spec fn lines(assertions: Seq<Text>) -> Text
    decreases assertions.len(),
{
    if assertions.len() == 0 {
        Seq::empty()
    } else {
        lines(assertions.drop_last()) + assertions.last().push('\n')
    }
}

/// A script: the base, the assertions of a cube and the question.
pub open spec fn script_text(base: Text, assertions: Seq<Text>) -> Text {
    base.push('\n') + lines(assertions) + "(check-sat)\n"@
}

/// Build the script of a cube.
pub fn build_script(base: &str, assertions: &Vec<String>) -> (s: String)
    ensures
        s@ == script_text(base@, text::string_texts(assertions@)),
{
    let ghost all = text::string_texts(assertions@);
    let mut s: String = text::copy_str(base);
    s.push('\n');
    let mut i: usize = 0;
    assert(s@ =~= base@.push('\n') + lines(all.take(0)));
    while i < assertions.len()
        invariant
            i <= assertions@.len(),
            all == text::string_texts(assertions@),
            s@ == base@.push('\n') + lines(all.take(i as int)),
        decreases assertions@.len() - i,
    {
        s.append(assertions[i].as_str());
        s.push('\n');
        proof {
            assert(all.take(i + 1).drop_last() =~= all.take(i as int));
            assert(all.take(i + 1).last() == assertions@[i as int]@);
            assert(s@ =~= base@.push('\n') + lines(all.take(i + 1)));
        }
        i += 1;
    }
    assert(all.take(i as int) =~= all);
    s.append("(check-sat)\n");
    s
}

/// A node has been split.
pub open spec fn has_child(nodes: Seq<CubeNodeView>, id: u64) -> bool {
    exists|i: int| 0 <= i < nodes.len() && (#[trigger] nodes[i]).parent == Some(id)
}

/// A node is split or closed-UNSAT.
pub open spec fn refuted_or_split(nodes: Seq<CubeNodeView>, i: int) -> bool {
    has_child(nodes, nodes[i].id) || nodes[i].status == CubeNodeStatus::ClosedUnsat
}

/// Every leaf is closed-UNSAT.
pub open spec fn all_refuted(nodes: Seq<CubeNodeView>) -> bool {
    forall|i: int| 0 <= i < nodes.len() ==> #[trigger] refuted_or_split(nodes, i)
}

/// Some node is closed-SAT.
pub open spec fn some_satisfied(nodes: Seq<CubeNodeView>) -> bool {
    exists|i: int| 0 <= i < nodes.len() && (#[trigger] nodes[i]).status == CubeNodeStatus::ClosedSat
}

/// The identifiers of the open nodes, in order.
pub open spec fn open_ids(nodes: Seq<CubeNodeView>) -> Seq<u64>
    decreases nodes.len(),
{
    if nodes.len() == 0 {
        Seq::empty()
    } else {
        let before = open_ids(nodes.drop_last());
        if nodes.last().status == CubeNodeStatus::Open {
            before.push(nodes.last().id)
        } else {
            before
        }
    }
}

/// The job with the status of a node replaced, if there is such a node.
pub open spec fn with_node_status(c: CubeView, id: u64, status: CubeNodeStatus) -> CubeView {
    if id < c.nodes.len() {
        CubeView {
            nodes: c.nodes.update(
                id as int,
                CubeNodeView { status, ..c.nodes[id as int] },
            ),
            ..c
        }
    } else {
        c
    }
}

/// The job with the status and the task of a node replaced.
pub open spec fn with_node(
    c: CubeView,
    id: u64,
    status: CubeNodeStatus,
    task_id: Option<TaskId>,
) -> CubeView {
    if id < c.nodes.len() {
        CubeView {
            nodes: c.nodes.update(
                id as int,
                CubeNodeView { status, task_id, ..c.nodes[id as int] },
            ),
            ..c
        }
    } else {
        c
    }
}

/// The assertions of a node, none if there is no such node.
pub open spec fn assertions_of(c: CubeView, id: u64) -> Seq<Text> {
    if id < c.nodes.len() {
        c.nodes[id as int].assertions
    } else {
        Seq::empty()
    }
}

/// The script of a node, empty if there is no such node.
pub open spec fn node_script(c: CubeView, id: u64) -> Text {
    if id < c.nodes.len() {
        script_text(c.base, c.nodes[id as int].assertions)
    } else {
        Seq::empty()
    }
}

/// Changing a node keeps the job in order.
pub proof fn node_change_keeps_order(
    c: CubeView,
    id: u64,
    status: CubeNodeStatus,
    task_id: Option<TaskId>,
)
    requires
        cube_ok(c),
    ensures
        cube_ok(with_node(c, id, status, task_id)),
        cube_ok(with_node_status(c, id, status)),
{
}

impl CubeJob {
    pub fn new(id: JobId, base_script: String, max_conflicts: u64) -> (j: Self)
        ensures
            j@ == fresh_cube(id, base_script@, max_conflicts),
            cube_ok(j@),
    {
        let mut nodes: Vec<CubeNode> = Vec::new();
        nodes.push(CubeNode::root());
        let j = CubeJob {
            id,
            base_script,
            max_conflicts,
            nodes,
            next_node_id: 1,
            status: JobStatus::Running,
            verdict: None,
        };
        assert(j@.nodes =~= seq![open_node(0, None, Seq::empty())]);
        j
    }

    /// Build the full SMT-LIB 2 script for `node_id` (base + cube assertions + check-sat).
    pub fn script_for(&self, node_id: u64) -> (s: Option<String>)
        requires
            cube_ok(self@),
        ensures
            match s {
                Some(script) => node_id < self@.nodes.len() && script@ == node_script(
                    self@,
                    node_id,
                ),
                None => node_id >= self@.nodes.len(),
            },
    {
        if node_id < self.nodes.len() as u64 {
            assert(self@.nodes[node_id as int] == self.nodes@[node_id as int]@);
            Some(
                build_script(
                    self.base_script.as_str(),
                    &self.nodes[node_id as usize].extra_assertions,
                ),
            )
        } else {
            None
        }
    }

    /// A node for changing. What the caller makes of it is what the job holds
    /// afterwards.
    pub fn get_node_mut(&mut self, id: u64) -> (n: Option<&mut CubeNode>)
        requires
            cube_ok(old(self)@),
        ensures
            match n {
                Some(node) => {
                    &&& id < old(self)@.nodes.len()
                    &&& node@ == old(self)@.nodes[id as int]
                    &&& final(self)@ == (CubeView {
                        nodes: old(self)@.nodes.update(id as int, final(node)@),
                        ..old(self)@
                    })
                },
                None => id >= old(self)@.nodes.len() && final(self)@ == old(self)@,
            },
    {
        if id < self.nodes.len() as u64 {
            let ghost before = self.nodes@;
            let node = &mut self.nodes[id as usize];
            proof {
                assert(cube_node_views(before.update(id as int, *final(node)))
                    =~= cube_node_views(before).update(id as int, final(node)@));
            }
            Some(node)
        } else {
            None
        }
    }

    /// True iff every leaf is ClosedUnsat.
    pub fn is_unsat(&self) -> (b: bool)
        ensures
            b == all_refuted(self@.nodes),
    {
        let mut i: usize = 0;
        while i < self.nodes.len()
            invariant
                i <= self.nodes@.len(),
                forall|k: int| 0 <= k < i ==> #[trigger] refuted_or_split(self@.nodes, k),
            decreases self.nodes@.len() - i,
        {
            assert(self@.nodes[i as int] == self.nodes@[i as int]@);
            if self.nodes[i].status != CubeNodeStatus::ClosedUnsat && !self.is_interior(
                self.nodes[i].id,
            ) {
                assert(!refuted_or_split(self@.nodes, i as int));
                return false;
            }
            i += 1;
        }
        true
    }

    /// Whether a node appears as parent of at least one other node.
    fn is_interior(&self, id: u64) -> (b: bool)
        ensures
            b == has_child(self@.nodes, id),
    {
        let mut i: usize = 0;
        while i < self.nodes.len()
            invariant
                i <= self.nodes@.len(),
                forall|k: int| 0 <= k < i ==> (#[trigger] self@.nodes[k]).parent != Some(id),
            decreases self.nodes@.len() - i,
        {
            assert(self@.nodes[i as int] == self.nodes@[i as int]@);
            if let Some(p) = self.nodes[i].parent {
                if p == id {
                    return true;
                }
            }
            i += 1;
        }
        false
    }

    pub fn is_sat(&self) -> (b: bool)
        ensures
            b == some_satisfied(self@.nodes),
    {
        let mut i: usize = 0;
        while i < self.nodes.len()
            invariant
                i <= self.nodes@.len(),
                forall|k: int|
                    0 <= k < i ==> (#[trigger] self@.nodes[k]).status != CubeNodeStatus::ClosedSat,
            decreases self.nodes@.len() - i,
        {
            assert(self@.nodes[i as int] == self.nodes@[i as int]@);
            if self.nodes[i].status == CubeNodeStatus::ClosedSat {
                return true;
            }
            i += 1;
        }
        false
    }

    pub fn open_node_ids(&self) -> (ids: Vec<u64>)
        ensures
            ids@ == open_ids(self@.nodes),
    {
        let ghost all = self@.nodes;
        let mut ids: Vec<u64> = Vec::new();
        let mut i: usize = 0;
        while i < self.nodes.len()
            invariant
                i <= self.nodes@.len(),
                all == self@.nodes,
                ids@ == open_ids(all.take(i as int)),
            decreases self.nodes@.len() - i,
        {
            assert(all.take(i + 1).drop_last() =~= all.take(i as int));
            assert(all.take(i + 1).last() == self.nodes@[i as int]@);
            if self.nodes[i].status == CubeNodeStatus::Open {
                ids.push(self.nodes[i].id);
            }
            i += 1;
        }
        assert(all.take(i as int) =~= all);
        ids
    }
}

// ---------------------------------------------------------------------------
// Tasks dispatched to remote workers
// ---------------------------------------------------------------------------

#[derive(Debug)]
pub struct Task {
    pub id: TaskId,
    pub kind: TaskKind,
}

#[derive(Clone, Debug)]
pub enum TaskKind {
    Batch { job_id: JobId, script_index: usize, script: String, max_conflicts: u64 },
    Cube { job_id: JobId, node_id: u64, script: String, max_conflicts: u64 },
}

#[verifier::ext_equal]
pub struct TaskView {
    pub id: TaskId,
    pub kind: TaskKindView,
}

#[verifier::ext_equal]
pub enum TaskKindView {
    Batch { job_id: JobId, script_index: usize, script: Text, max_conflicts: u64 },
    Cube { job_id: JobId, node_id: u64, script: Text, max_conflicts: u64 },
}

impl View for Task {
    type V = TaskView;

    open spec fn view(&self) -> TaskView {
        TaskView {
            id: self.id,
            kind: match self.kind {
                TaskKind::Batch { job_id, script_index, script, max_conflicts } => {
                    TaskKindView::Batch { job_id, script_index, script: script@, max_conflicts }
                },
                TaskKind::Cube { job_id, node_id, script, max_conflicts } => {
                    TaskKindView::Cube { job_id, node_id, script: script@, max_conflicts }
                },
            },
        }
    }
}

impl Clone for Task {
    fn clone(&self) -> (t: Self)
        ensures
            t@ == self@,
    {
        match &self.kind {
            TaskKind::Batch { job_id, script_index, script, max_conflicts } => Task {
                id: self.id,
                kind: TaskKind::Batch {
                    job_id: *job_id,
                    script_index: *script_index,
                    script: text::copy_str(script.as_str()),
                    max_conflicts: *max_conflicts,
                },
            },
            TaskKind::Cube { job_id, node_id, script, max_conflicts } => Task {
                id: self.id,
                kind: TaskKind::Cube {
                    job_id: *job_id,
                    node_id: *node_id,
                    script: text::copy_str(script.as_str()),
                    max_conflicts: *max_conflicts,
                },
            },
        }
    }
}

impl Task {
    pub fn max_conflicts(&self) -> (n: u64)
        ensures
            n == (match self@.kind {
                TaskKindView::Batch { max_conflicts, .. } => max_conflicts,
                TaskKindView::Cube { max_conflicts, .. } => max_conflicts,
            }),
    {
        match &self.kind {
            TaskKind::Batch { max_conflicts, .. } => *max_conflicts,
            TaskKind::Cube { max_conflicts, .. } => *max_conflicts,
        }
    }

    pub fn script(&self) -> (s: &str)
        ensures
            s@ == (match self@.kind {
                TaskKindView::Batch { script, .. } => script,
                TaskKindView::Cube { script, .. } => script,
            }),
    {
        match &self.kind {
            TaskKind::Batch { script, .. } => script.as_str(),
            TaskKind::Cube { script, .. } => script.as_str(),
        }
    }
}

/// A task that a worker holds until a deadline, in nanoseconds on a monotonic
/// clock.
pub struct InFlightTask {
    pub task: Task,
    pub worker_id: u32,
    pub deadline: u64,
}

#[verifier::ext_equal]
pub struct FlightView {
    pub task: TaskView,
    pub worker_id: u32,
    pub deadline: u64,
}

impl View for InFlightTask {
    type V = FlightView;

    open spec fn view(&self) -> FlightView {
        FlightView { task: self.task@, worker_id: self.worker_id, deadline: self.deadline }
    }
}

} // verus!

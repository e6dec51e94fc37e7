//! The daemon's decisions: which runs it tracks, which tasks it has handed
//! out for each, and what each incoming event does to a run. Receiving
//! events, reading and writing the store and posting tasks are the caller's
//! part.
use crate::config::{declares_task, views, workflow_named, Config, Workflow};
use crate::dag::{executable_ids, workflow_complete};
use crate::executor::{
    build_next, build_task_output, lemma_executable_declared, output_for, outputs_for, task_named, FlowStatus,
    TaskOutput,
};
use crate::gate::{block_reason, gate_block};
use crate::keys::{distinct, first_index, has_key, lemma_distinct_index, lemma_first_index_absent};
use crate::output::RunOutput;
use crate::state::{
    StepView, initial_step, key_of_workflow, opt_view, state_wf, step_or_initial, StepEntry, StepStatus, WorkflowState,
    new_workflow_id, hyphenated_uuid,
};
use crate::store::RunStatus;
use crate::text::{cat, own, str_eq};
use crate::transitions::{
    apply_complete, apply_pause, apply_reject, apply_report, awaits_approval, completed_steps, noted_step,
    rejected_step, with_steps, CompleteStep,
};
use vstd::prelude::*;

verus! {

/// A run the daemon tracks: the name of its workflow in the config, and the
/// tasks handed out and not completed since.
pub struct RunningWorkflow {
    pub workflow_id: String,
    pub workflow: String,
    /// Each task at most once.
    pub dispatched: Vec<String>,
}

/// The runs a daemon tracks, each id once, and the config it serves, which
/// stays the same for its whole life (see `daemon_wf`).
pub struct Daemon {
    pub running: Vec<RunningWorkflow>,
    pub config: Config,
}

/// What the daemon knows of one tracked run.
pub struct RunView {
    pub workflow: Seq<char>,
    pub sent: Set<Seq<char>>,
}

/// The ids of the tracked runs, in order.
pub open spec fn run_ids(d: Daemon) -> Seq<Seq<char>> {
    d.running@.map_values(|r: RunningWorkflow| r.workflow_id@)
}

/// The view of one tracked run.
pub open spec fn run_view(r: RunningWorkflow) -> RunView {
    RunView { workflow: r.workflow@, sent: views(r.dispatched@).to_set() }
}

/// The daemon tracks each run once, and each run's handed-out list holds
/// each task once.
pub open spec fn runs_wf(d: Daemon) -> bool {
    &&& distinct(run_ids(d))
    &&& forall|i: int| 0 <= i < d.running@.len() ==> distinct(views(#[trigger] d.running@[i].dispatched@))
}

/// A well-formed daemon: its runs are well-formed, and each is a run of a
/// workflow its config names.
pub open spec fn daemon_wf(d: Daemon) -> bool {
    &&& runs_wf(d)
    &&& tracks_known(d@, d.config)
}

/// The tracked runs by id.
#[verifier::opaque]
pub open spec fn runs_view(d: Daemon) -> Map<Seq<char>, RunView> {
    Map::new(
        |k: Seq<char>| has_key(run_ids(d), k),
        |k: Seq<char>| run_view(d.running@[first_index(run_ids(d), k).unwrap()]),
    )
}

impl View for Daemon {
    type V = Map<Seq<char>, RunView>;

    open spec fn view(&self) -> Map<Seq<char>, RunView> {
        runs_view(*self)
    }
}

proof fn lemma_view_at(d: Daemon, j: int)
    requires
        runs_wf(d),
        0 <= j < d.running@.len(),
    ensures
        d@.dom().contains(d.running@[j].workflow_id@),
        d@[d.running@[j].workflow_id@] == run_view(d.running@[j]),
{
    reveal(runs_view);
    assert(run_ids(d)[j] == d.running@[j].workflow_id@);
    lemma_distinct_index(run_ids(d), run_ids(d)[j], j);
}

proof fn lemma_view_key(d: Daemon, k: Seq<char>) -> (j: int)
    requires
        runs_wf(d),
        d@.dom().contains(k),
    ensures
        0 <= j < d.running@.len(),
        d.running@[j].workflow_id@ == k,
        d@[k] == run_view(d.running@[j]),
{
    reveal(runs_view);
    let j = choose|j: int| 0 <= j < run_ids(d).len() && run_ids(d)[j] == k;
    lemma_view_at(d, j);
    j
}

/// Replacing the run at `j` by one under the same id updates that id only.
proof fn lemma_view_update(d0: Daemon, d1: Daemon, j: int, r: RunningWorkflow)
    requires
        runs_wf(d0),
        0 <= j < d0.running@.len(),
        d1.running@ == d0.running@.update(j, r),
        r.workflow_id@ == d0.running@[j].workflow_id@,
        distinct(views(r.dispatched@)),
    ensures
        runs_wf(d1),
        run_ids(d1) == run_ids(d0),
        d1@ == d0@.insert(r.workflow_id@, run_view(r)),
{
    reveal(runs_view);
    assert(run_ids(d1) =~= run_ids(d0));
    lemma_view_at(d0, j);
    assert forall|i: int| 0 <= i < d1.running@.len() implies distinct(views(#[trigger] d1.running@[i].dispatched@)) by {
        if i != j {
            assert(d1.running@[i] == d0.running@[i]);
        }
    }
    assert(runs_wf(d1));
    assert forall|k: Seq<char>| #[trigger] d1@.dom().contains(k) <==> d0@.insert(r.workflow_id@, run_view(r)).dom().contains(k) by {}
    assert forall|k: Seq<char>| d1@.dom().contains(k) implies #[trigger] d1@[k] == d0@.insert(r.workflow_id@, run_view(r))[k] by {
        let m = lemma_view_key(d1, k);
        if m == j {
            assert(d1.running@[m] == r);
        } else {
            assert(d1.running@[m] == d0.running@[m]);
            lemma_view_at(d0, m);
            assert(run_ids(d0)[m] != run_ids(d0)[j]);
            assert(run_ids(d0)[m] == k);
        }
    }
    assert(d1@ =~= d0@.insert(r.workflow_id@, run_view(r)));
}

/// Appending a run under a new id adds that id only.
proof fn lemma_view_push(d0: Daemon, d1: Daemon, r: RunningWorkflow)
    requires
        runs_wf(d0),
        !has_key(run_ids(d0), r.workflow_id@),
        d1.running@ == d0.running@.push(r),
        distinct(views(r.dispatched@)),
    ensures
        runs_wf(d1),
        d1@ == d0@.insert(r.workflow_id@, run_view(r)),
{
    reveal(runs_view);
    let n = d0.running@.len() as int;
    assert(run_ids(d1) =~= run_ids(d0).push(r.workflow_id@));
    assert forall|a: int, b: int| 0 <= a < run_ids(d1).len() && 0 <= b < run_ids(d1).len() && a != b implies run_ids(d1)[a] != run_ids(d1)[b] by {
        if a == n {
            assert(run_ids(d0)[b] == run_ids(d1)[b]);
        } else if b == n {
            assert(run_ids(d0)[a] == run_ids(d1)[a]);
        } else {
            assert(run_ids(d0)[a] == run_ids(d1)[a]);
            assert(run_ids(d0)[b] == run_ids(d1)[b]);
        }
    }
    assert forall|i: int| 0 <= i < d1.running@.len() implies distinct(views(#[trigger] d1.running@[i].dispatched@)) by {
        if i < n {
            assert(d1.running@[i] == d0.running@[i]);
        }
    }
    let m0 = d0@.insert(r.workflow_id@, run_view(r));
    assert forall|k: Seq<char>| #[trigger] d1@.dom().contains(k) <==> m0.dom().contains(k) by {
        if d1@.dom().contains(k) {
            let m = lemma_view_key(d1, k);
            if m < n {
                assert(d1.running@[m] == d0.running@[m]);
                lemma_view_at(d0, m);
            }
        }
        if d0@.dom().contains(k) {
            let m = lemma_view_key(d0, k);
            assert(d1.running@[m] == d0.running@[m]);
            lemma_view_at(d1, m);
        }
        if k == r.workflow_id@ {
            lemma_view_at(d1, n);
        }
    }
    assert forall|k: Seq<char>| d1@.dom().contains(k) implies #[trigger] d1@[k] == m0[k] by {
        let m = lemma_view_key(d1, k);
        if m < n {
            assert(d1.running@[m] == d0.running@[m]);
            lemma_view_at(d0, m);
        }
    }
    assert(d1@ =~= m0);
}

/// Removing the run at `j` removes its id only.
proof fn lemma_view_remove(d0: Daemon, d1: Daemon, j: int)
    requires
        runs_wf(d0),
        0 <= j < d0.running@.len(),
        d1.running@ == d0.running@.remove(j),
    ensures
        runs_wf(d1),
        d1@ == d0@.remove(d0.running@[j].workflow_id@),
{
    reveal(runs_view);
    let id = d0.running@[j].workflow_id@;
    assert(run_ids(d1) =~= run_ids(d0).remove(j));
    assert forall|a: int, b: int| 0 <= a < run_ids(d1).len() && 0 <= b < run_ids(d1).len() && a != b implies run_ids(d1)[a] != run_ids(d1)[b] by {
        let a0 = if a < j { a } else { a + 1 };
        let b0 = if b < j { b } else { b + 1 };
        assert(run_ids(d1)[a] == run_ids(d0)[a0]);
        assert(run_ids(d1)[b] == run_ids(d0)[b0]);
    }
    assert forall|i: int| 0 <= i < d1.running@.len() implies distinct(views(#[trigger] d1.running@[i].dispatched@)) by {
        if i < j {
            assert(d1.running@[i] == d0.running@[i]);
        } else {
            assert(d1.running@[i] == d0.running@[i + 1]);
        }
    }
    let m0 = d0@.remove(id);
    assert forall|k: Seq<char>| #[trigger] d1@.dom().contains(k) <==> m0.dom().contains(k) by {
        if d1@.dom().contains(k) {
            let m = lemma_view_key(d1, k);
            let m1 = if m < j { m } else { m + 1 };
            assert(d1.running@[m] == d0.running@[m1]);
            lemma_view_at(d0, m1);
            lemma_view_at(d0, j);
            assert(run_ids(d0)[m1] != run_ids(d0)[j]);
        }
        if m0.dom().contains(k) {
            let m = lemma_view_key(d0, k);
            assert(m != j);
            let m1 = if m < j { m } else { m - 1 };
            assert(d1.running@[m1] == d0.running@[m]);
            lemma_view_at(d1, m1);
        }
    }
    assert forall|k: Seq<char>| d1@.dom().contains(k) implies #[trigger] d1@[k] == m0[k] by {
        let m = lemma_view_key(d1, k);
        let m1 = if m < j { m } else { m + 1 };
        assert(d1.running@[m] == d0.running@[m1]);
        lemma_view_at(d0, m1);
    }
    assert(d1@ =~= m0);
}

/// The keys of the in-progress entries among the first `n`, in order, that
/// name a task of `wf`.
pub open spec fn in_progress_ids(entries: Seq<StepEntry>, wf: Workflow, n: int) -> Seq<Seq<char>>
    decreases n,
{
    if n <= 0 {
        Seq::empty()
    } else {
        let prev = in_progress_ids(entries, wf, n - 1);
        let e = entries[n - 1];
        if e.state.status == StepStatus::InProgress && declares_task(wf, e.key@) {
            prev.push(e.key@)
        } else {
            prev
        }
    }
}

/// The tasks to hand out again when a paused run resumes: every in-progress
/// task of the run, in the order its state records them.
pub fn in_progress_outputs(state: &WorkflowState, wf: &Workflow, config: &Config) -> (r: Vec<TaskOutput>)
    ensures
        ({
            let ids = in_progress_ids(state.tasks@, *wf, state.tasks@.len() as int);
            &&& r@.len() == ids.len()
            &&& forall|j: int| 0 <= j < ids.len() ==> output_for(#[trigger] r@[j], task_named(*wf, ids[j]), *config)
        }),
{
    let mut r: Vec<TaskOutput> = Vec::new();
    let mut i: usize = 0;
    while i < state.tasks.len()
        invariant
            i <= state.tasks.len(),
            ({
                let ids = in_progress_ids(state.tasks@, *wf, i as int);
                &&& r@.len() == ids.len()
                &&& forall|j: int| 0 <= j < ids.len() ==> output_for(#[trigger] r@[j], task_named(*wf, ids[j]), *config)
            }),
        decreases state.tasks.len() - i,
    {
        let e = &state.tasks[i];
        let ghost prev = in_progress_ids(state.tasks@, *wf, i as int);
        let ghost r0 = r@;
        proof {
            assert(in_progress_ids(state.tasks@, *wf, i + 1) == (if e.state.status == StepStatus::InProgress && declares_task(*wf, e.key@) {
                prev.push(e.key@)
            } else {
                prev
            }));
        }
        if e.state.status == StepStatus::InProgress {
            match build_task_output(e.key.as_str(), wf, config) {
                Some(o) => {
                    r.push(o);
                    proof {
                        assert forall|j: int| 0 <= j < prev.len() + 1 implies output_for(#[trigger] r@[j], task_named(*wf, prev.push(e.key@)[j]), *config) by {
                            if j < prev.len() {
                                assert(r@[j] == r0[j]);
                            }
                        }
                    }
                },
                None => {},
            }
        }
        i += 1;
    }
    r
}

/// The ids of a sequence of task outputs, in order.
pub open spec fn output_ids(ts: Seq<TaskOutput>) -> Seq<Seq<char>> {
    ts.map_values(|t: TaskOutput| t.task_id@)
}

/// The ids among `ids` that are neither in `sent` nor earlier in `ids`, in order.
pub open spec fn unsent_ids(sent: Set<Seq<char>>, ids: Seq<Seq<char>>) -> Seq<Seq<char>>
    decreases ids.len(),
{
    if ids.len() == 0 {
        Seq::empty()
    } else {
        let prev = unsent_ids(sent, ids.drop_last());
        if sent.contains(ids.last()) || ids.drop_last().contains(ids.last()) {
            prev
        } else {
            prev.push(ids.last())
        }
    }
}

/// The outputs among `ts` whose task is neither in `sent` nor handed out
/// earlier in `ts`, in order.
pub open spec fn unsent(sent: Set<Seq<char>>, ts: Seq<TaskOutput>) -> Seq<TaskOutput>
    decreases ts.len(),
{
    if ts.len() == 0 {
        Seq::empty()
    } else {
        let prev = unsent(sent, ts.drop_last());
        if sent.contains(ts.last().task_id@) || output_ids(ts.drop_last()).contains(ts.last().task_id@) {
            prev
        } else {
            prev.push(ts.last())
        }
    }
}

/// The task named by a declared id carries that id.
proof fn lemma_task_named_id(wf: Workflow, id: Seq<char>)
    requires
        declares_task(wf, id),
    ensures
        task_named(wf, id).id@ == id,
{
    crate::keys::lemma_first_index_facts(crate::config::task_ids(wf), id);
    let i = crate::config::task_index(wf, id).unwrap();
    assert(crate::config::task_ids(wf)[i] == wf.tasks@[i].id@);
}

/// Filtering outputs by what was sent filters their ids the same way, and
/// the kept outputs still hand out the tasks their ids name.
proof fn lemma_unsent_outputs(sent: Set<Seq<char>>, ts: Seq<TaskOutput>, wf: Workflow, ids: Seq<Seq<char>>, c: Config)
    requires
        crate::executor::outputs_for(ts, wf, ids, c),
        forall|j: int| 0 <= j < ids.len() ==> declares_task(wf, #[trigger] ids[j]),
    ensures
        output_ids(ts) == ids,
        crate::executor::outputs_for(unsent(sent, ts), wf, unsent_ids(sent, ids), c),
    decreases ts.len(),
{
    assert forall|j: int| 0 <= j < ids.len() implies #[trigger] output_ids(ts)[j] == ids[j] by {
        lemma_task_named_id(wf, ids[j]);
    }
    assert(output_ids(ts) =~= ids);
    if ts.len() > 0 {
        let pt = ts.drop_last();
        let pi = ids.drop_last();
        assert forall|j: int| 0 <= j < pi.len() implies output_for(#[trigger] pt[j], task_named(wf, pi[j]), c) by {
            assert(pt[j] == ts[j]);
            assert(pi[j] == ids[j]);
        }
        assert forall|j: int| 0 <= j < pi.len() implies declares_task(wf, #[trigger] pi[j]) by {
            assert(pi[j] == ids[j]);
        }
        lemma_unsent_outputs(sent, pt, wf, pi, c);
        assert(output_ids(pt) =~= pi);
        let last = ts.last();
        assert(last == ts[ts.len() - 1]);
        assert(output_for(last, task_named(wf, ids.last()), c));
        let pu = unsent(sent, pt);
        let pv = unsent_ids(sent, pi);
        if !(sent.contains(last.task_id@) || output_ids(pt).contains(last.task_id@)) {
            assert forall|j: int| 0 <= j < pv.len() + 1 implies output_for(#[trigger] pu.push(last)[j], task_named(wf, pv.push(ids.last())[j]), c) by {
                if j < pv.len() {
                    assert(pu.push(last)[j] == pu[j]);
                    assert(pv.push(ids.last())[j] == pv[j]);
                }
            }
        }
    }
}


/// An event the daemon receives.
pub enum DaemonEvent {
    /// Start a run of the named workflow.
    Run { workflow_name: String },
    /// Shut the daemon down.
    Stop,
    /// A task of a run was completed.
    Complete { workflow_id: String, task_id: String, summary: Option<String> },
    /// An intermediate report on a task of a run.
    Report { workflow_id: String, task_id: String, summary: Option<String> },
    /// Approve a run that awaits approval.
    Approve { workflow_id: String },
    /// Resume a paused run.
    Resume { workflow_id: String },
    /// Reject the task a run awaits approval for, and redo it.
    Reject { workflow_id: String, task_id: String, reason: Option<String> },
    /// Work on a task of a run needs the user.
    Pause { workflow_id: String, task_id: String, reason: Option<String> },
}

/// What the store holds for a run when an event about it arrives: its stored
/// status and its state.
pub struct StoredRun {
    pub status: String,
    pub state: WorkflowState,
}

/// Something the daemon reports to its operator.
pub enum Notice {
    /// A run was started.
    Started,
    /// The event names a run the daemon does not track.
    UnknownRun,
    /// A completion arrived for a task.
    TaskCompleted,
    /// The completion check refused a completion, for this reason.
    GateRefused(String),
    /// The run waits for approval.
    AwaitingApproval,
    /// The run is over.
    Finished,
    /// An approval arrived for a run in this status, which does not await it.
    NotAwaitingApproval(String),
    /// The run was approved; its next tasks go out.
    Approved,
    /// The run was approved and is over.
    FinishedAfterApproval,
    /// A resumption arrived for a run in this status, which is not paused.
    NotPaused(String),
    /// The run was resumed; its in-progress tasks go out again.
    Resumed,
    /// A rejection arrived for a run that does not await approval.
    RejectIgnored,
    /// The task was sent back to work.
    Rejected,
    /// Work on a task waits for the user.
    Paused,
    /// A report could not be recorded, for this reason.
    ReportFailed(String),
}

/// What the caller does after an event, in this order: store `save`, set the
/// run's stored status, mark the run completed in the store (`clear`), hand
/// out `dispatch`, stamp the update time of `touch`; report `notices`; answer
/// a start request with `reply`; stop on `fatal` or `stop`.
pub struct DaemonAction {
    pub reply: Option<Result<RunOutput, String>>,
    pub save: Option<WorkflowState>,
    pub set_status: Option<RunStatus>,
    pub clear: bool,
    pub dispatch: Vec<TaskOutput>,
    pub touch: Option<String>,
    pub notices: Vec<Notice>,
    pub fatal: Option<String>,
    pub stop: bool,
}

/// The action does nothing but report.
pub open spec fn no_effects(a: DaemonAction) -> bool {
    &&& a.reply is None
    &&& a.save is None
    &&& a.set_status is None
    &&& !a.clear
    &&& a.dispatch@.len() == 0
    &&& a.touch is None
    &&& a.fatal is None
    &&& !a.stop
}

/// The action stops the daemon with message `m`, after reporting `notices`.
pub open spec fn fails_with(a: DaemonAction, m: Seq<char>, notices: Seq<Notice>) -> bool {
    &&& a.reply is None
    &&& a.save is None
    &&& a.set_status is None
    &&& !a.clear
    &&& a.dispatch@.len() == 0
    &&& a.touch is None
    &&& !a.stop
    &&& a.fatal matches Some(f) && f@ == m
    &&& a.notices@ == notices
}

/// The stored status of a run whose state can be read back.
pub open spec fn loadable(status: Seq<char>) -> bool {
    status == "active"@ || status == "awaiting_approval"@ || status == "paused"@
}

/// The ids handed out next for a run of `wf` in `steps`: none once every
/// task is completed, else the executable ones.
pub open spec fn next_ids(wf: Workflow, steps: Map<Seq<char>, StepView>) -> Seq<Seq<char>> {
    if workflow_complete(wf, steps) {
        Seq::empty()
    } else {
        executable_ids(wf, steps)
    }
}

/// `a` hands out, for a run of `wf`, the outputs of `ids` not in `sent`.
pub open spec fn dispatches(a: DaemonAction, wf: Workflow, sent: Set<Seq<char>>, ids: Seq<Seq<char>>, c: Config) -> bool {
    outputs_for(a.dispatch@, wf, unsent_ids(sent, ids), c)
}

/// `d` with the sent set of tracked run `id` replaced.
pub open spec fn with_sent(d: Map<Seq<char>, RunView>, id: Seq<char>, sent: Set<Seq<char>>) -> Map<Seq<char>, RunView> {
    d.insert(id, RunView { sent, ..d[id] })
}

/// The message for a workflow name the config does not hold.
pub open spec fn unknown_workflow_msg(name: Seq<char>) -> Seq<char> {
    "workflow '"@ + name + "' not found in config.yml"@
}

/// A start request for workflow `name`.
pub open spec fn run_effect(d0: Map<Seq<char>, RunView>, d1: Map<Seq<char>, RunView>, name: Seq<char>, c: Config, now: Seq<char>, a: DaemonAction) -> bool {
    match workflow_named(c, name) {
        None => {
            &&& d1 == d0
            &&& a.reply matches Some(Err(m)) && m@ == unknown_workflow_msg(name)
            &&& a.save is None && a.set_status is None && !a.clear && a.dispatch@.len() == 0
            &&& a.touch is None && a.fatal is None && !a.stop && a.notices@.len() == 0
        },
        Some(wf) => a.save matches Some(st) && {
            let id = st.workflow_id@;
            let ids = next_ids(wf, st@.steps);
            &&& hyphenated_uuid(id)
            &&& st.workflow@ == name
            &&& st.started_at@ == now
            &&& state_wf(st)
            &&& forall|k: Seq<char>| #[trigger] st@.steps.contains_key(k) <==> key_of_workflow(wf, k)
            &&& forall|k: Seq<char>| #[trigger] st@.steps.contains_key(k) ==> st@.steps[k] == initial_step()
            &&& a.reply matches Some(Ok(o)) && o.workflow_id@ == id && o.workflow@ == name
            &&& dispatches(a, wf, Set::empty(), ids, c)
            &&& d1 == d0.insert(id, RunView { workflow: name, sent: ids.to_set() })
            &&& a.set_status is None && !a.clear && a.touch is None && a.fatal is None && !a.stop
            &&& a.notices@ == seq![Notice::Started]
        },
    }
}

/// A report on task `task` of run `id`.
pub open spec fn report_effect(
    d0: Map<Seq<char>, RunView>,
    d1: Map<Seq<char>, RunView>,
    id: Seq<char>,
    task: Seq<char>,
    summary: Option<Seq<char>>,
    stored: Option<StoredRun>,
    now: Seq<char>,
    a: DaemonAction,
) -> bool {
    &&& d1 == d0
    &&& a.reply is None && a.set_status is None && !a.clear && a.dispatch@.len() == 0 && a.fatal is None && !a.stop
    &&& if !d0.dom().contains(id) {
        a.save is None && a.touch is None && a.notices@ == seq![Notice::UnknownRun]
    } else {
        match stored {
            Some(s) if loadable(s.status@) && s.state@.steps.contains_key(task) => {
                &&& a.save matches Some(st) && st@ == with_steps(
                    s.state@,
                    s.state@.steps.insert(task, noted_step(s.state@.steps[task], "report"@, summary, now)),
                )
                &&& a.touch matches Some(t) && t@ == task
                &&& a.notices@.len() == 0
            },
            Some(s) if loadable(s.status@) => {
                &&& a.save is None && a.touch is None
                &&& a.notices@.len() == 1
                &&& a.notices@[0] matches Notice::ReportFailed(m) && m@ == "unknown task_id '"@ + task + "' in workflow"@
            },
            _ => {
                &&& a.save is None && a.touch is None
                &&& a.notices@.len() == 1
                &&& a.notices@[0] matches Notice::ReportFailed(m) && m@ == "workflow state not found"@
            },
        }
    }
}

/// A completion of task `task` of run `id`.
pub open spec fn complete_effect(
    d0: Map<Seq<char>, RunView>,
    d1: Map<Seq<char>, RunView>,
    id: Seq<char>,
    task: Seq<char>,
    summary: Option<Seq<char>>,
    stored: Option<StoredRun>,
    c: Config,
    now: Seq<char>,
    a: DaemonAction,
) -> bool {
    if !d0.dom().contains(id) {
        d1 == d0 && no_effects(a) && a.notices@ == seq![Notice::UnknownRun]
    } else {
        let v = d0[id];
        let sent = v.sent.remove(task);
        match workflow_named(c, v.workflow) {
            None => d1 == with_sent(d0, id, sent) && fails_with(a, unknown_workflow_msg(v.workflow), seq![Notice::TaskCompleted]),
            Some(wf) => match stored {
                Some(s) if loadable(s.status@) => {
                    let waiting = s.status@ == "awaiting_approval"@;
                    match gate_block(wf, s.state@.steps, task) {
                        Some(b) => {
                            &&& d1 == with_sent(d0, id, sent)
                            &&& no_effects(a)
                            &&& a.notices@.len() == (if waiting { 3int } else { 2int })
                            &&& a.notices@[0] == Notice::TaskCompleted
                            &&& a.notices@[1] matches Notice::GateRefused(m) && m@ == block_reason(task, b)
                            &&& waiting ==> a.notices@[2] == Notice::AwaitingApproval
                        },
                        None => {
                            let steps = completed_steps(wf, s.state@.steps, task, summary, now);
                            &&& a.save matches Some(st) && st@ == with_steps(s.state@, steps)
                            &&& a.reply is None && a.touch is None && a.fatal is None && !a.stop
                            &&& if awaits_approval(wf, task) {
                                &&& d1 == with_sent(d0, id, sent)
                                &&& a.set_status == Some(RunStatus::AwaitingApproval) && !a.clear && a.dispatch@.len() == 0
                                &&& a.notices@ == seq![Notice::TaskCompleted, Notice::AwaitingApproval]
                            } else if workflow_complete(wf, steps) {
                                &&& d1 == d0.remove(id)
                                &&& a.set_status is None && a.clear && a.dispatch@.len() == 0
                                &&& a.notices@ == seq![Notice::TaskCompleted, Notice::Finished]
                            } else if s.status@ == "paused"@ {
                                &&& d1 == with_sent(d0, id, sent)
                                &&& a.set_status is None && !a.clear && a.dispatch@.len() == 0
                                &&& a.notices@ == seq![Notice::TaskCompleted, Notice::Paused]
                            } else {
                                let ids = executable_ids(wf, steps);
                                &&& d1 == with_sent(d0, id, sent + ids.to_set())
                                &&& a.set_status is None && !a.clear
                                &&& dispatches(a, wf, sent, ids, c)
                                &&& a.notices@ == (if waiting { seq![Notice::TaskCompleted, Notice::AwaitingApproval] } else { seq![Notice::TaskCompleted] })
                            }
                        },
                    }
                },
                _ => d1 == with_sent(d0, id, sent) && fails_with(a, "workflow state not found"@, seq![Notice::TaskCompleted]),
            },
        }
    }
}

/// An approval of run `id`.
pub open spec fn approve_effect(
    d0: Map<Seq<char>, RunView>,
    d1: Map<Seq<char>, RunView>,
    id: Seq<char>,
    stored: Option<StoredRun>,
    c: Config,
    a: DaemonAction,
) -> bool {
    if !d0.dom().contains(id) {
        d1 == d0 && no_effects(a) && a.notices@ == seq![Notice::UnknownRun]
    } else {
        let v = d0[id];
        match workflow_named(c, v.workflow) {
            None => d1 == d0 && fails_with(a, unknown_workflow_msg(v.workflow), Seq::empty()),
            Some(wf) => match stored {
                None => d1 == d0 && fails_with(a, "workflow not found"@, Seq::empty()),
                Some(s) => if s.status@ != "awaiting_approval"@ {
                    &&& d1 == d0 && no_effects(a)
                    &&& a.notices@.len() == 1
                    &&& a.notices@[0] matches Notice::NotAwaitingApproval(st) && st@ == s.status@
                } else {
                    let steps = s.state@.steps;
                    &&& a.set_status == Some(RunStatus::Active)
                    &&& a.reply is None && a.save is None && a.touch is None && a.fatal is None && !a.stop
                    &&& if workflow_complete(wf, steps) {
                        &&& d1 == d0.remove(id)
                        &&& a.clear && a.dispatch@.len() == 0
                        &&& a.notices@ == seq![Notice::Approved, Notice::FinishedAfterApproval]
                    } else {
                        let ids = executable_ids(wf, steps);
                        &&& d1 == with_sent(d0, id, v.sent + ids.to_set())
                        &&& !a.clear && dispatches(a, wf, v.sent, ids, c)
                        &&& a.notices@ == seq![Notice::Approved]
                    }
                },
            },
        }
    }
}

/// A resumption of run `id`.
pub open spec fn resume_effect(
    d0: Map<Seq<char>, RunView>,
    d1: Map<Seq<char>, RunView>,
    id: Seq<char>,
    stored: Option<StoredRun>,
    c: Config,
    a: DaemonAction,
) -> bool {
    if !d0.dom().contains(id) {
        d1 == d0 && no_effects(a) && a.notices@ == seq![Notice::UnknownRun]
    } else {
        let v = d0[id];
        match workflow_named(c, v.workflow) {
            None => d1 == d0 && fails_with(a, unknown_workflow_msg(v.workflow), Seq::empty()),
            Some(wf) => match stored {
                None => d1 == d0 && fails_with(a, "workflow not found"@, Seq::empty()),
                Some(s) => if s.status@ != "paused"@ {
                    &&& d1 == d0 && no_effects(a)
                    &&& a.notices@.len() == 1
                    &&& a.notices@[0] matches Notice::NotPaused(st) && st@ == s.status@
                } else {
                    let again = in_progress_ids(s.state.tasks@, wf, s.state.tasks@.len() as int);
                    let ids = again + next_ids(wf, s.state@.steps);
                    let sent = v.sent.difference(again.to_set());
                    &&& a.set_status == Some(RunStatus::Active)
                    &&& a.reply is None && a.save is None && !a.clear && a.touch is None && a.fatal is None && !a.stop
                    &&& d1 == with_sent(d0, id, sent + ids.to_set())
                    &&& dispatches(a, wf, sent, ids, c)
                    &&& a.notices@ == seq![Notice::Resumed]
                },
            },
        }
    }
}

/// A rejection of task `task` of run `id`.
pub open spec fn reject_effect(
    d0: Map<Seq<char>, RunView>,
    d1: Map<Seq<char>, RunView>,
    id: Seq<char>,
    task: Seq<char>,
    reason: Option<Seq<char>>,
    stored: Option<StoredRun>,
    c: Config,
    now: Seq<char>,
    a: DaemonAction,
) -> bool {
    if !d0.dom().contains(id) {
        d1 == d0 && no_effects(a) && a.notices@ == seq![Notice::UnknownRun]
    } else {
        let v = d0[id];
        match workflow_named(c, v.workflow) {
            None => d1 == d0 && fails_with(a, unknown_workflow_msg(v.workflow), Seq::empty()),
            Some(wf) => match stored {
                None => d1 == d0 && fails_with(a, "workflow not found"@, Seq::empty()),
                Some(s) => if s.status@ != "awaiting_approval"@ {
                    d1 == d0 && no_effects(a) && a.notices@ == seq![Notice::RejectIgnored]
                } else {
                    let steps = s.state@.steps.insert(task, rejected_step(step_or_initial(s.state@.steps, task), reason, now));
                    &&& a.save matches Some(st) && st@ == with_steps(s.state@, steps)
                    &&& a.set_status == Some(RunStatus::Active)
                    &&& a.reply is None && !a.clear && a.touch is None && a.fatal is None && !a.stop
                    &&& a.notices@ == seq![Notice::Rejected]
                    &&& if declares_task(wf, task) {
                        &&& d1 == with_sent(d0, id, v.sent.insert(task))
                        &&& dispatches(a, wf, v.sent.remove(task), seq![task], c)
                    } else {
                        d1 == d0 && a.dispatch@.len() == 0
                    }
                },
            },
        }
    }
}

/// A pause of task `task` of run `id`.
pub open spec fn pause_effect(
    d0: Map<Seq<char>, RunView>,
    d1: Map<Seq<char>, RunView>,
    id: Seq<char>,
    task: Seq<char>,
    reason: Option<Seq<char>>,
    stored: Option<StoredRun>,
    now: Seq<char>,
    a: DaemonAction,
) -> bool {
    &&& d1 == d0
    &&& if !d0.dom().contains(id) {
        no_effects(a) && a.notices@ == seq![Notice::UnknownRun]
    } else {
        &&& a.set_status == Some(RunStatus::Paused)
        &&& a.touch matches Some(t) && t@ == task
        &&& a.reply is None && !a.clear && a.dispatch@.len() == 0 && a.fatal is None && !a.stop
        &&& a.notices@ == seq![Notice::Paused]
        &&& match stored {
            Some(s) => a.save matches Some(st) && st@ == with_steps(
                s.state@,
                s.state@.steps.insert(task, noted_step(step_or_initial(s.state@.steps, task), "pause"@, reason, now)),
            ),
            None => a.save is None,
        }
    }
}

/// Every run the daemon tracks is of a workflow the config names.
pub open spec fn tracks_known(d: Map<Seq<char>, RunView>, c: Config) -> bool {
    forall|id: Seq<char>| #[trigger] d.dom().contains(id) ==> workflow_named(c, d[id].workflow) is Some
}

/// What the daemon does on event `e` (see the effect of each event).
pub open spec fn event_effect(
    d0: Map<Seq<char>, RunView>,
    d1: Map<Seq<char>, RunView>,
    e: DaemonEvent,
    stored: Option<StoredRun>,
    c: Config,
    now: Seq<char>,
    a: DaemonAction,
) -> bool {
    match e {
        DaemonEvent::Run { workflow_name } => run_effect(d0, d1, workflow_name@, c, now, a),
        DaemonEvent::Stop => {
            &&& d1 == d0
            &&& a.stop
            &&& a.reply is None && a.save is None && a.set_status is None && !a.clear
            &&& a.dispatch@.len() == 0 && a.touch is None && a.fatal is None && a.notices@.len() == 0
        },
        DaemonEvent::Complete { workflow_id, task_id, summary } => complete_effect(
            d0, d1, workflow_id@, task_id@, opt_view(summary), stored, c, now, a),
        DaemonEvent::Report { workflow_id, task_id, summary } => report_effect(
            d0, d1, workflow_id@, task_id@, opt_view(summary), stored, now, a),
        DaemonEvent::Approve { workflow_id } => approve_effect(d0, d1, workflow_id@, stored, c, a),
        DaemonEvent::Resume { workflow_id } => resume_effect(d0, d1, workflow_id@, stored, c, a),
        DaemonEvent::Reject { workflow_id, task_id, reason } => reject_effect(
            d0, d1, workflow_id@, task_id@, opt_view(reason), stored, c, now, a),
        DaemonEvent::Pause { workflow_id, task_id, reason } => pause_effect(
            d0, d1, workflow_id@, task_id@, opt_view(reason), stored, now, a),
    }
}

/// An action that only reports `notices`.
fn notify(notices: Vec<Notice>) -> (a: DaemonAction)
    ensures
        no_effects(a),
        a.notices@ == notices@,
{
    DaemonAction {
        reply: None,
        save: None,
        set_status: None,
        clear: false,
        dispatch: Vec::new(),
        touch: None,
        notices,
        fatal: None,
        stop: false,
    }
}

/// An action that stops the daemon with message `m`, after reporting `notices`.
fn failure(m: String, notices: Vec<Notice>) -> (a: DaemonAction)
    ensures
        fails_with(a, m@, notices@),
{
    DaemonAction {
        reply: None,
        save: None,
        set_status: None,
        clear: false,
        dispatch: Vec::new(),
        touch: None,
        notices,
        fatal: Some(m),
        stop: false,
    }
}

/// A list of one notice.
fn one(n: Notice) -> (r: Vec<Notice>)
    ensures
        r@ == seq![n],
{
    let mut r = Vec::new();
    r.push(n);
    r
}

/// A list of two notices.
fn two(n: Notice, m: Notice) -> (r: Vec<Notice>)
    ensures
        r@ == seq![n, m],
{
    let mut r = Vec::new();
    r.push(n);
    r.push(m);
    r
}

/// The stored status is one under which the run's state can be read back.
pub fn is_loadable(status: &str) -> (r: bool)
    ensures
        r == loadable(status@),
{
    str_eq(status, "active") || str_eq(status, "awaiting_approval") || str_eq(status, "paused")
}

/// The message for a workflow name the config does not hold.
fn unknown_workflow(name: &str) -> (r: String)
    ensures
        r@ == unknown_workflow_msg(name@),
{
    let mut m = own("workflow '");
    m.append(name);
    m.append("' not found in config.yml");
    m
}

impl Daemon {
    /// A daemon serving `config`, tracking no run.
    pub fn new(config: Config) -> (d: Daemon)
        ensures
            daemon_wf(d),
            d@ == Map::<Seq<char>, RunView>::empty(),
            d.config == config,
    {
        let d = Daemon { running: Vec::new(), config };
        proof {
            reveal(runs_view);
        }
        assert(d@ =~= Map::<Seq<char>, RunView>::empty());
        d
    }

    /// The position of the tracked run with this id.
    fn find(&self, workflow_id: &str) -> (r: Option<usize>)
        requires
            runs_wf(*self),
        ensures
            r matches Some(i) ==> i < self.running@.len() && self.running@[i as int].workflow_id@ == workflow_id@
                && self@[workflow_id@] == run_view(self.running@[i as int]),
            r is None <==> !self@.dom().contains(workflow_id@),
    {
        let mut i: usize = 0;
        while i < self.running.len()
            invariant
                runs_wf(*self),
                i <= self.running.len(),
                forall|j: int| 0 <= j < i ==> run_ids(*self)[j] != workflow_id@,
            decreases self.running.len() - i,
        {
            if str_eq(self.running[i].workflow_id.as_str(), workflow_id) {
                proof {
                    lemma_view_at(*self, i as int);
                }
                return Some(i);
            }
            i += 1;
        }
        proof {
            lemma_first_index_absent(run_ids(*self), workflow_id@);
            reveal(runs_view);
        }
        None
    }

    /// The run with this id is tracked.
    pub fn is_tracked(&self, workflow_id: &str) -> (r: bool)
        requires
            runs_wf(*self),
        ensures
            r == self@.dom().contains(workflow_id@),
    {
        self.find(workflow_id).is_some()
    }

    /// The name of the workflow of the tracked run with this id.
    pub fn workflow_of(&self, workflow_id: &str) -> (r: Option<&str>)
        requires
            runs_wf(*self),
        ensures
            r is Some <==> self@.dom().contains(workflow_id@),
            r matches Some(w) ==> w@ == self@[workflow_id@].workflow,
    {
        match self.find(workflow_id) {
            Some(i) => Some(self.running[i].workflow.as_str()),
            None => None,
        }
    }

    /// Tracks a newly started run of the named workflow, with nothing handed
    /// out yet. A run already tracked under the same id is replaced.
    fn track(&mut self, workflow_id: String, workflow: String)
        requires
            runs_wf(*old(self)),
        ensures
            runs_wf(*final(self)),
            final(self)@ == old(self)@.insert(workflow_id@, RunView { workflow: workflow@, sent: Set::empty() }),
    {
        let r = RunningWorkflow { workflow_id, workflow, dispatched: Vec::new() };
        proof {
            assert(views(r.dispatched@) =~= Seq::<Seq<char>>::empty());
            assert(views(r.dispatched@).to_set() =~= Set::<Seq<char>>::empty());
        }
        match self.find(r.workflow_id.as_str()) {
            Some(i) => {
                let ghost d0 = *self;
                self.running.set(i, r);
                proof {
                    lemma_view_update(d0, *self, i as int, r);
                }
            },
            None => {
                let ghost d0 = *self;
                self.running.push(r);
                proof {
                    reveal(runs_view);
                    lemma_view_push(d0, *self, r);
                }
            },
        }
    }

    /// Stops tracking a run.
    fn drop_run(&mut self, workflow_id: &str)
        requires
            runs_wf(*old(self)),
        ensures
            runs_wf(*final(self)),
            final(self)@ == old(self)@.remove(workflow_id@),
            final(self).config == old(self).config,
    {
        match self.find(workflow_id) {
            Some(i) => {
                let ghost d0 = *self;
                self.running.remove(i);
                proof {
                    lemma_view_remove(d0, *self, i as int);
                }
            },
            None => {
                assert(self@ =~= self@.remove(workflow_id@));
            },
        }
    }

    /// Stops tracking a run, as when starting it failed.
    pub fn untrack(&mut self, workflow_id: &str)
        requires
            daemon_wf(*old(self)),
        ensures
            daemon_wf(*final(self)),
            final(self)@ == old(self)@.remove(workflow_id@),
            final(self).config == old(self).config,
    {
        self.drop_run(workflow_id);
    }

    /// The task has been handed out for the tracked run and not completed since.
    pub fn was_sent(&self, workflow_id: &str, task_id: &str) -> (r: bool)
        requires
            runs_wf(*self),
            self@.dom().contains(workflow_id@),
        ensures
            r == self@[workflow_id@].sent.contains(task_id@),
    {
        let i = match self.find(workflow_id) {
            Some(i) => i,
            None => return false,
        };
        let d = &self.running[i].dispatched;
        let mut k: usize = 0;
        while k < d.len()
            invariant
                i < self.running@.len(),
                self@[workflow_id@] == run_view(self.running@[i as int]),
                d@ == self.running@[i as int].dispatched@,
                k <= d.len(),
                forall|j: int| 0 <= j < k ==> views(d@)[j] != task_id@,
            decreases d.len() - k,
        {
            if str_eq(d[k].as_str(), task_id) {
                assert(views(d@)[k as int] == task_id@);
                assert(views(d@).contains(task_id@));
                return true;
            }
            k += 1;
        }
        false
    }

    /// Records that the task was handed out for the tracked run.
    pub fn mark_sent(&mut self, workflow_id: &str, task_id: &str)
        requires
            runs_wf(*old(self)),
            old(self)@.dom().contains(workflow_id@),
        ensures
            runs_wf(*final(self)),
            final(self)@ == old(self)@.insert(
                workflow_id@,
                RunView { sent: old(self)@[workflow_id@].sent.insert(task_id@), ..old(self)@[workflow_id@] },
            ),
    {
        if self.was_sent(workflow_id, task_id) {
            proof {
                let v = self@[workflow_id@];
                assert(v.sent =~= v.sent.insert(task_id@));
                assert(self@ =~= self@.insert(workflow_id@, RunView { sent: v.sent.insert(task_id@), ..v }));
            }
            return ;
        }
        let i = match self.find(workflow_id) {
            Some(i) => i,
            None => return ,
        };
        let ghost d0 = *self;
        let mut r = self.running.remove(i);
        let ghost v0 = views(r.dispatched@);
        r.dispatched.push(own(task_id));
        proof {
            assert(views(r.dispatched@) =~= v0.push(task_id@));
            v0.lemma_push_to_set_commute(task_id@);
            assert(!v0.contains(task_id@));
            assert(d0.running@[i as int] == d0.running@.remove(i as int).insert(i as int, d0.running@[i as int])[i as int]);
            assert forall|a: int, b: int| 0 <= a < views(r.dispatched@).len() && 0 <= b < views(r.dispatched@).len() && a != b implies views(r.dispatched@)[a] != views(r.dispatched@)[b] by {
                if a == v0.len() {
                    assert(views(r.dispatched@)[b] == v0[b]);
                } else if b == v0.len() {
                    assert(views(r.dispatched@)[a] == v0[a]);
                } else {
                    assert(views(r.dispatched@)[a] == v0[a]);
                    assert(views(r.dispatched@)[b] == v0[b]);
                }
            }
        }
        self.running.insert(i, r);
        proof {
            assert(self.running@ =~= d0.running@.update(i as int, r));
            lemma_view_update(d0, *self, i as int, r);
        }
    }

    /// Forgets that the task was handed out for the tracked run, so that it
    /// is handed out again.
    pub fn forget_sent(&mut self, workflow_id: &str, task_id: &str)
        requires
            runs_wf(*old(self)),
            old(self)@.dom().contains(workflow_id@),
        ensures
            runs_wf(*final(self)),
            final(self)@ == old(self)@.insert(
                workflow_id@,
                RunView { sent: old(self)@[workflow_id@].sent.remove(task_id@), ..old(self)@[workflow_id@] },
            ),
    {
        let i = match self.find(workflow_id) {
            Some(i) => i,
            None => return ,
        };
        let ghost d0 = *self;
        let mut r = self.running.remove(i);
        proof {
            assert(r == d0.running@[i as int]);
        }
        let ghost d = views(r.dispatched@);
        let mut kept: Vec<String> = Vec::new();
        let mut k: usize = 0;
        proof {
            assert(views(kept@).to_set() =~= d.subrange(0, 0).to_set().remove(task_id@));
        }
        while k < r.dispatched.len()
            invariant
                d == views(r.dispatched@),
                distinct(d),
                k <= r.dispatched.len(),
                distinct(views(kept@)),
                views(kept@).to_set() == d.subrange(0, k as int).to_set().remove(task_id@),
            decreases r.dispatched.len() - k,
        {
            let ghost kv = views(kept@);
            let ghost s0 = d.subrange(0, k as int);
            let ghost y = d[k as int];
            proof {
                assert(d.subrange(0, k + 1) =~= s0.push(y));
                s0.lemma_push_to_set_commute(y);
                assert(!s0.contains(y)) by {
                    if s0.contains(y) {
                        let j = choose|j: int| 0 <= j < s0.len() && s0[j] == y;
                        assert(d[j] == y);
                    }
                }
            }
            if !str_eq(r.dispatched[k].as_str(), task_id) {
                kept.push(r.dispatched[k].clone());
                proof {
                    assert(views(kept@) =~= kv.push(y));
                    kv.lemma_push_to_set_commute(y);
                    assert(!kv.contains(y)) by {
                        if kv.contains(y) {
                            assert(kv.to_set().contains(y));
                        }
                    }
                    assert forall|a: int, b: int| 0 <= a < views(kept@).len() && 0 <= b < views(kept@).len() && a != b implies views(kept@)[a] != views(kept@)[b] by {
                        if a == kv.len() {
                            assert(kv[b] == views(kept@)[b]);
                        } else if b == kv.len() {
                            assert(kv[a] == views(kept@)[a]);
                        } else {
                            assert(kv[a] == views(kept@)[a]);
                            assert(kv[b] == views(kept@)[b]);
                        }
                    }
                    assert(views(kept@).to_set() =~= s0.push(y).to_set().remove(task_id@));
                }
            } else {
                proof {
                    assert(kv.to_set() =~= s0.push(y).to_set().remove(task_id@));
                }
            }
            k += 1;
        }
        proof {
            assert(d.subrange(0, d.len() as int) =~= d);
        }
        r.dispatched = kept;
        self.running.insert(i, r);
        proof {
            assert(self.running@ =~= d0.running@.update(i as int, r));
            lemma_view_update(d0, *self, i as int, r);
        }
    }
    /// Hands out the outputs whose tasks were not handed out for the tracked
    /// run (nor earlier in `ts`), and records every task of `ts` as handed out.
    pub fn send_new(&mut self, workflow_id: &str, ts: Vec<TaskOutput>) -> (r: Vec<TaskOutput>)
        requires
            runs_wf(*old(self)),
            old(self)@.dom().contains(workflow_id@),
        ensures
            runs_wf(*final(self)),
            r@ == unsent(old(self)@[workflow_id@].sent, ts@),
            final(self)@ == old(self)@.insert(
                workflow_id@,
                RunView { sent: old(self)@[workflow_id@].sent + output_ids(ts@).to_set(), ..old(self)@[workflow_id@] },
            ),
    {
        let ghost m0 = self@;
        let ghost v0 = self@[workflow_id@];
        let ghost all = ts@;
        let ghost mut cur: Set<Seq<char>> = v0.sent;
        let mut rest = ts;
        let mut r: Vec<TaskOutput> = Vec::new();
        let mut k: usize = 0;
        proof {
            lemma_sent_prefix(v0.sent, all, 0);
            assert(self@ =~= m0.insert(workflow_id@, RunView { sent: cur, ..v0 }));
            assert(rest@ =~= all.subrange(0, all.len() as int));
            assert(all.len() == rest.len());
        }
        while rest.len() > 0
            invariant
                runs_wf(*self),
                k <= all.len(),
                all.len() <= usize::MAX,
                rest@ == all.subrange(k as int, all.len() as int),
                r@ == unsent(v0.sent, all.subrange(0, k as int)),
                cur == v0.sent + output_ids(all.subrange(0, k as int)).to_set(),
                self@ == m0.insert(workflow_id@, RunView { sent: cur, ..v0 }),
            decreases rest.len(),
        {
            assert(k < all.len());
            let t = rest.remove(0);
            proof {
                assert(t == all[k as int]);
                lemma_unsent_step(v0.sent, all, k as int);
            }
            let ghost cur0 = cur;
            let ghost before = self@;
            if !self.was_sent(workflow_id, t.task_id.as_str()) {
                self.mark_sent(workflow_id, t.task_id.as_str());
                r.push(t);
                proof {
                    assert(before[workflow_id@] == RunView { sent: cur0, ..v0 });
                    assert(self@ =~= m0.insert(workflow_id@, RunView { sent: cur0.insert(t.task_id@), ..v0 }));
                }
            } else {
                proof {
                    assert(cur0.insert(t.task_id@) =~= cur0);
                }
            }
            proof {
                cur = cur0.insert(t.task_id@);
            }
            k += 1;
            proof {
                assert(rest@ =~= all.subrange(k as int, all.len() as int));
            }
        }
        proof {
            assert(all.subrange(0, all.len() as int) =~= all);
        }
        r
    }

    /// A report on a task of a run (see `report_effect`).
    pub fn on_report(&mut self, workflow_id: &str, task_id: &str, summary: Option<String>, stored: Option<StoredRun>, now: &str) -> (a: DaemonAction)
        requires
            runs_wf(*old(self)),
            stored matches Some(s) ==> state_wf(s.state),
        ensures
            runs_wf(*final(self)),
            report_effect(old(self)@, final(self)@, workflow_id@, task_id@, opt_view(summary), stored, now@, a),
    {
        if !self.is_tracked(workflow_id) {
            return notify(one(Notice::UnknownRun));
        }
        match stored {
            Some(s) => {
                if !is_loadable(s.status.as_str()) {
                    return notify(one(Notice::ReportFailed(own("workflow state not found"))));
                }
                let mut st = s.state;
                match apply_report(&mut st, task_id, summary, now) {
                    Ok(()) => {
                        let mut a = notify(Vec::new());
                        a.save = Some(st);
                        a.touch = Some(own(task_id));
                        a
                    },
                    Err(m) => notify(one(Notice::ReportFailed(m))),
                }
            },
            None => notify(one(Notice::ReportFailed(own("workflow state not found")))),
        }
    }

    /// A pause of a task of a run (see `pause_effect`).
    pub fn on_pause(&mut self, workflow_id: &str, task_id: &str, reason: Option<String>, stored: Option<StoredRun>, now: &str) -> (a: DaemonAction)
        requires
            runs_wf(*old(self)),
            stored matches Some(s) ==> state_wf(s.state),
        ensures
            runs_wf(*final(self)),
            pause_effect(old(self)@, final(self)@, workflow_id@, task_id@, opt_view(reason), stored, now@, a),
    {
        if !self.is_tracked(workflow_id) {
            return notify(one(Notice::UnknownRun));
        }
        let mut a = notify(one(Notice::Paused));
        a.set_status = Some(RunStatus::Paused);
        a.touch = Some(own(task_id));
        match stored {
            Some(s) => {
                let mut st = s.state;
                apply_pause(&mut st, task_id, reason, now);
                a.save = Some(st);
            },
            None => {},
        }
        a
    }

    /// A request to start a run of the named workflow (see `run_effect`).
    #[verifier::rlimit(50)]
    pub fn on_run(&mut self, workflow_name: &str, config: &Config, now: &str) -> (a: DaemonAction)
        requires
            runs_wf(*old(self)),
        ensures
            runs_wf(*final(self)),
            run_effect(old(self)@, final(self)@, workflow_name@, *config, now@, a),
    {
        let wf = match config.get_workflow(workflow_name) {
            Some(w) => w,
            None => {
                let mut a = notify(Vec::new());
                a.reply = Some(Err(unknown_workflow(workflow_name)));
                return a;
            },
        };
        let st = WorkflowState::with_identity(new_workflow_id(), own(now), workflow_name, wf);
        let id = st.workflow_id.clone();
        let next = build_next(wf, &st, config);
        let ghost ids = next_ids(*wf, st@.steps);
        proof {
            lemma_next_ids(*wf, st@.steps);
            if !workflow_complete(*wf, st@.steps) {
                lemma_unsent_outputs(Set::empty(), next.tasks@, *wf, ids, *config);
            } else {
                assert(next.tasks@ =~= Seq::<TaskOutput>::empty());
                assert(ids =~= Seq::<Seq<char>>::empty());
                assert(output_ids(next.tasks@) =~= ids);
                assert(unsent(Set::empty(), next.tasks@) =~= Seq::<TaskOutput>::empty());
                assert(unsent_ids(Set::empty(), ids) =~= Seq::<Seq<char>>::empty());
            }
        }
        self.track(id.clone(), own(workflow_name));
        let dispatch = self.send_new(id.as_str(), next.tasks);
        proof {
            assert(Set::<Seq<char>>::empty() + ids.to_set() =~= ids.to_set());
            assert(self@ =~= old(self)@.insert(id@, RunView { workflow: workflow_name@, sent: ids.to_set() }));
        }
        let out = RunOutput { workflow_id: id, workflow: own(workflow_name) };
        DaemonAction {
            reply: Some(Ok(out)),
            save: Some(st),
            set_status: None,
            clear: false,
            dispatch,
            touch: None,
            notices: one(Notice::Started),
            fatal: None,
            stop: false,
        }
    }

    /// Forgets that the tasks of `ts` were handed out for the tracked run.
    pub fn forget_all(&mut self, workflow_id: &str, ts: &Vec<TaskOutput>)
        requires
            runs_wf(*old(self)),
            old(self)@.dom().contains(workflow_id@),
        ensures
            runs_wf(*final(self)),
            final(self)@ == with_sent(old(self)@, workflow_id@, old(self)@[workflow_id@].sent.difference(output_ids(ts@).to_set())),
    {
        let ghost v0 = self@[workflow_id@];
        let mut k: usize = 0;
        proof {
            assert(output_ids(ts@.subrange(0, 0)).to_set() =~= Set::<Seq<char>>::empty());
            assert(v0.sent.difference(Set::<Seq<char>>::empty()) =~= v0.sent);
            assert(self@ =~= with_sent(old(self)@, workflow_id@, v0.sent));
        }
        while k < ts.len()
            invariant
                runs_wf(*self),
                k <= ts.len(),
                old(self)@.dom().contains(workflow_id@),
                v0 == old(self)@[workflow_id@],
                self@ == with_sent(old(self)@, workflow_id@, v0.sent.difference(output_ids(ts@.subrange(0, k as int)).to_set())),
            decreases ts.len() - k,
        {
            let ghost pre = ts@.subrange(0, k as int);
            self.forget_sent(workflow_id, ts[k].task_id.as_str());
            proof {
                let cur = ts@.subrange(0, k + 1);
                assert(cur =~= pre.push(ts@[k as int]));
                assert(output_ids(cur) =~= output_ids(pre).push(ts@[k as int].task_id@));
                output_ids(pre).lemma_push_to_set_commute(ts@[k as int].task_id@);
                assert(v0.sent.difference(output_ids(pre).to_set()).remove(ts@[k as int].task_id@) =~= v0.sent.difference(output_ids(cur).to_set()));
                assert(self@ =~= with_sent(old(self)@, workflow_id@, v0.sent.difference(output_ids(cur).to_set())));
            }
            k += 1;
        }
        proof {
            assert(ts@.subrange(0, ts@.len() as int) =~= ts@);
        }
    }

    /// A completion of a task of a run (see `complete_effect`).
    #[verifier::rlimit(50)]
    pub fn on_complete(
        &mut self,
        workflow_id: &str,
        task_id: &str,
        summary: Option<String>,
        stored: Option<StoredRun>,
        config: &Config,
        now: &str,
    ) -> (a: DaemonAction)
        requires
            runs_wf(*old(self)),
            stored matches Some(s) ==> state_wf(s.state),
        ensures
            runs_wf(*final(self)),
            complete_effect(old(self)@, final(self)@, workflow_id@, task_id@, opt_view(summary), stored, *config, now@, a),
    {
        if !self.is_tracked(workflow_id) {
            return notify(one(Notice::UnknownRun));
        }
        let ghost d0 = self@;
        self.forget_sent(workflow_id, task_id);
        let wname = match self.workflow_of(workflow_id) {
            Some(w) => w,
            None => return notify(Vec::new()),
        };
        let wf = match config.get_workflow(wname) {
            Some(w) => w,
            None => return failure(unknown_workflow(wname), one(Notice::TaskCompleted)),
        };
        let s = match stored {
            Some(s) => s,
            None => return failure(own("workflow state not found"), one(Notice::TaskCompleted)),
        };
        if !is_loadable(s.status.as_str()) {
            return failure(own("workflow state not found"), one(Notice::TaskCompleted));
        }
        let waiting = str_eq(s.status.as_str(), "awaiting_approval");
        let mut st = s.state;
        let step = apply_complete(&mut st, wf, task_id, summary, now, config);
        match step {
            CompleteStep::Gated(m) => {
                let mut notices = two(Notice::TaskCompleted, Notice::GateRefused(m));
                if waiting {
                    notices.push(Notice::AwaitingApproval);
                }
                notify(notices)
            },
            CompleteStep::AwaitingApproval => {
                let mut a = notify(two(Notice::TaskCompleted, Notice::AwaitingApproval));
                a.save = Some(st);
                a.set_status = Some(RunStatus::AwaitingApproval);
                a
            },
            CompleteStep::Finished => {
                self.drop_run(workflow_id);
                proof {
                    assert(self@ =~= d0.remove(workflow_id@));
                }
                let mut a = notify(two(Notice::TaskCompleted, Notice::Finished));
                a.save = Some(st);
                a.clear = true;
                a
            },
            CompleteStep::Next(o) => {
                if str_eq(s.status.as_str(), "paused") {
                    let mut a = notify(two(Notice::TaskCompleted, Notice::Paused));
                    a.save = Some(st);
                    return a;
                }
                let ghost steps = st@.steps;
                let ghost ids = executable_ids(*wf, steps);
                let ghost sent = d0[workflow_id@].sent.remove(task_id@);
                proof {
                    lemma_executable_declared(*wf, steps, wf.tasks@.len() as int);
                    lemma_unsent_outputs(sent, o.tasks@, *wf, ids, *config);
                }
                let dispatch = self.send_new(workflow_id, o.tasks);
                proof {
                    assert(self@ =~= with_sent(d0, workflow_id@, sent + ids.to_set()));
                }
                let notices = if waiting {
                    two(Notice::TaskCompleted, Notice::AwaitingApproval)
                } else {
                    one(Notice::TaskCompleted)
                };
                let mut a = notify(notices);
                a.save = Some(st);
                a.dispatch = dispatch;
                a
            },
        }
    }

    /// An approval of a run (see `approve_effect`).
    #[verifier::rlimit(50)]
    pub fn on_approve(&mut self, workflow_id: &str, stored: Option<StoredRun>, config: &Config) -> (a: DaemonAction)
        requires
            runs_wf(*old(self)),
        ensures
            runs_wf(*final(self)),
            approve_effect(old(self)@, final(self)@, workflow_id@, stored, *config, a),
    {
        if !self.is_tracked(workflow_id) {
            return notify(one(Notice::UnknownRun));
        }
        let ghost d0 = self@;
        let wname = match self.workflow_of(workflow_id) {
            Some(w) => w,
            None => return notify(Vec::new()),
        };
        let wf = match config.get_workflow(wname) {
            Some(w) => w,
            None => return failure(unknown_workflow(wname), Vec::new()),
        };
        let s = match stored {
            Some(s) => s,
            None => return failure(own("workflow not found"), Vec::new()),
        };
        if !str_eq(s.status.as_str(), "awaiting_approval") {
            return notify(one(Notice::NotAwaitingApproval(s.status)));
        }
        let next = build_next(wf, &s.state, config);
        if next.status == FlowStatus::Completed {
            self.drop_run(workflow_id);
            let mut a = notify(two(Notice::Approved, Notice::FinishedAfterApproval));
            a.set_status = Some(RunStatus::Active);
            a.clear = true;
            return a;
        }
        let ghost steps = s.state@.steps;
        let ghost ids = executable_ids(*wf, steps);
        let ghost sent = d0[workflow_id@].sent;
        proof {
            lemma_executable_declared(*wf, steps, wf.tasks@.len() as int);
            lemma_unsent_outputs(sent, next.tasks@, *wf, ids, *config);
        }
        let dispatch = self.send_new(workflow_id, next.tasks);
        let mut a = notify(one(Notice::Approved));
        a.set_status = Some(RunStatus::Active);
        a.dispatch = dispatch;
        a
    }

    /// A resumption of a paused run (see `resume_effect`).
    #[verifier::rlimit(50)]
    pub fn on_resume(&mut self, workflow_id: &str, stored: Option<StoredRun>, config: &Config) -> (a: DaemonAction)
        requires
            runs_wf(*old(self)),
        ensures
            runs_wf(*final(self)),
            resume_effect(old(self)@, final(self)@, workflow_id@, stored, *config, a),
    {
        if !self.is_tracked(workflow_id) {
            return notify(one(Notice::UnknownRun));
        }
        let ghost d0 = self@;
        let wname = match self.workflow_of(workflow_id) {
            Some(w) => w,
            None => return notify(Vec::new()),
        };
        let wf = match config.get_workflow(wname) {
            Some(w) => w,
            None => return failure(unknown_workflow(wname), Vec::new()),
        };
        let s = match stored {
            Some(s) => s,
            None => return failure(own("workflow not found"), Vec::new()),
        };
        if !str_eq(s.status.as_str(), "paused") {
            return notify(one(Notice::NotPaused(s.status)));
        }
        let again_outs = in_progress_outputs(&s.state, wf, config);
        let ghost again = in_progress_ids(s.state.tasks@, *wf, s.state.tasks@.len() as int);
        let ghost next = next_ids(*wf, s.state@.steps);
        let ghost ids = again + next;
        let ghost sent = d0[workflow_id@].sent.difference(again.to_set());
        proof {
            lemma_in_progress_declared(s.state.tasks@, *wf, s.state.tasks@.len() as int);
            lemma_executable_declared(*wf, s.state@.steps, wf.tasks@.len() as int);
            lemma_unsent_outputs(sent, again_outs@, *wf, again, *config);
        }
        self.forget_all(workflow_id, &again_outs);
        let next_out = build_next(wf, &s.state, config);
        let ghost first = again_outs@;
        let mut outs = again_outs;
        let mut rest = next_out.tasks;
        let ghost second = rest@;
        outs.append(&mut rest);
        proof {
            assert(outs@ =~= first + second);
            assert(crate::executor::outputs_for(second, *wf, next, *config));
            assert(forall|k: int| 0 <= k < next.len() ==> declares_task(*wf, #[trigger] next[k]));
            assert forall|k: int| 0 <= k < ids.len() implies declares_task(*wf, #[trigger] ids[k]) by {
                if k >= again.len() {
                    assert(ids[k] == next[k - again.len()]);
                }
            }
            assert forall|k: int| 0 <= k < ids.len() implies output_for(#[trigger] outs@[k], task_named(*wf, ids[k]), *config) by {
                if k >= again.len() {
                    assert(ids[k] == next[k - again.len()]);
                    assert(outs@[k] == second[k - again.len()]);
                } else {
                    assert(outs@[k] == first[k]);
                }
            }
            lemma_unsent_outputs(sent, outs@, *wf, ids, *config);
        }
        let dispatch = self.send_new(workflow_id, outs);
        proof {
            assert(self@ =~= with_sent(d0, workflow_id@, sent + ids.to_set()));
        }
        let mut a = notify(one(Notice::Resumed));
        a.set_status = Some(RunStatus::Active);
        a.dispatch = dispatch;
        a
    }

    /// Hands out task `t` of the tracked run again, whether or not it was
    /// handed out before.
    fn send_again(&mut self, workflow_id: &str, task_id: &str, t: TaskOutput, wf: &Workflow, config: &Config) -> (r: Vec<TaskOutput>)
        requires
            runs_wf(*old(self)),
            old(self)@.dom().contains(workflow_id@),
            declares_task(*wf, task_id@),
            output_for(t, task_named(*wf, task_id@), *config),
        ensures
            runs_wf(*final(self)),
            final(self)@ == with_sent(old(self)@, workflow_id@, old(self)@[workflow_id@].sent.insert(task_id@)),
            outputs_for(r@, *wf, unsent_ids(old(self)@[workflow_id@].sent.remove(task_id@), seq![task_id@]), *config),
    {
        let ghost d0 = self@;
        let ghost v0 = d0[workflow_id@];
        proof {
            lemma_resend(v0.sent, t, *wf, task_id@, *config);
        }
        self.forget_sent(workflow_id, task_id);
        let mut ts: Vec<TaskOutput> = Vec::new();
        ts.push(t);
        proof {
            assert(ts@ == seq![t]);
        }
        let r = self.send_new(workflow_id, ts);
        proof {
            assert(self@ =~= with_sent(d0, workflow_id@, v0.sent.insert(task_id@)));
        }
        r
    }

    /// A rejection of the task a run awaits approval for (see `reject_effect`).
    #[verifier::rlimit(50)]
    pub fn on_reject(
        &mut self,
        workflow_id: &str,
        task_id: &str,
        reason: Option<String>,
        stored: Option<StoredRun>,
        config: &Config,
        now: &str,
    ) -> (a: DaemonAction)
        requires
            runs_wf(*old(self)),
            stored matches Some(s) ==> state_wf(s.state),
        ensures
            runs_wf(*final(self)),
            reject_effect(old(self)@, final(self)@, workflow_id@, task_id@, opt_view(reason), stored, *config, now@, a),
    {
        if !self.is_tracked(workflow_id) {
            return notify(one(Notice::UnknownRun));
        }
        let ghost d0 = self@;
        let wname = match self.workflow_of(workflow_id) {
            Some(w) => w,
            None => return notify(Vec::new()),
        };
        let wf = match config.get_workflow(wname) {
            Some(w) => w,
            None => return failure(unknown_workflow(wname), Vec::new()),
        };
        let s = match stored {
            Some(s) => s,
            None => return failure(own("workflow not found"), Vec::new()),
        };
        if !str_eq(s.status.as_str(), "awaiting_approval") {
            return notify(one(Notice::RejectIgnored));
        }
        let mut st = s.state;
        apply_reject(&mut st, task_id, reason, now);
        let mut a = notify(one(Notice::Rejected));
        a.save = Some(st);
        a.set_status = Some(RunStatus::Active);
        match build_task_output(task_id, wf, config) {
            Some(t) => {
                a.dispatch = self.send_again(workflow_id, task_id, t, wf, config);
            },
            None => {},
        }
        a
    }

    /// What the daemon does on an event, given what the store holds for the
    /// run it names and the time it arrived (see `event_effect`).
    pub fn handle(&mut self, event: DaemonEvent, stored: Option<StoredRun>, now: &str) -> (a: DaemonAction)
        requires
            daemon_wf(*old(self)),
            stored matches Some(s) ==> state_wf(s.state),
        ensures
            daemon_wf(*final(self)),
            final(self).config == old(self).config,
            event_effect(old(self)@, final(self)@, event, stored, old(self).config, now@, a),
    {
        let ghost d0 = self@;
        let ghost e0 = event;
        let ghost st0 = stored;
        let mut config = Config { imports: Vec::new(), vars: Vec::new(), workflows: Vec::new() };
        std::mem::swap(&mut config, &mut self.config);
        proof {
            reveal(runs_view);
            assert(self@ == d0);
        }
        let a = self.handle_event(event, stored, &config, now);
        let ghost d1 = self@;
        self.config = config;
        proof {
            reveal(runs_view);
            assert(self@ == d1);
            lemma_effect_keeps_known(d0, self@, e0, st0, config, now@, a);
        }
        a
    }

    fn handle_event(&mut self, event: DaemonEvent, stored: Option<StoredRun>, config: &Config, now: &str) -> (a: DaemonAction)
        requires
            runs_wf(*old(self)),
            stored matches Some(s) ==> state_wf(s.state),
        ensures
            runs_wf(*final(self)),
            event_effect(old(self)@, final(self)@, event, stored, *config, now@, a),
    {
        match event {
            DaemonEvent::Run { workflow_name } => self.on_run(workflow_name.as_str(), config, now),
            DaemonEvent::Stop => {
                let mut a = notify(Vec::new());
                a.stop = true;
                a
            },
            DaemonEvent::Complete { workflow_id, task_id, summary } => self.on_complete(
                workflow_id.as_str(),
                task_id.as_str(),
                summary,
                stored,
                config,
                now,
            ),
            DaemonEvent::Report { workflow_id, task_id, summary } => self.on_report(
                workflow_id.as_str(),
                task_id.as_str(),
                summary,
                stored,
                now,
            ),
            DaemonEvent::Approve { workflow_id } => self.on_approve(workflow_id.as_str(), stored, config),
            DaemonEvent::Resume { workflow_id } => self.on_resume(workflow_id.as_str(), stored, config),
            DaemonEvent::Reject { workflow_id, task_id, reason } => self.on_reject(
                workflow_id.as_str(),
                task_id.as_str(),
                reason,
                stored,
                config,
                now,
            ),
            DaemonEvent::Pause { workflow_id, task_id, reason } => self.on_pause(
                workflow_id.as_str(),
                task_id.as_str(),
                reason,
                stored,
                now,
            ),
        }
    }
}

/// Handing out task `id` again after forgetting it: the one output goes
/// out, and the sent set ends up holding the task.
proof fn lemma_resend(sent: Set<Seq<char>>, t: TaskOutput, wf: Workflow, id: Seq<char>, c: Config)
    requires
        declares_task(wf, id),
        output_for(t, task_named(wf, id), c),
    ensures
        unsent(sent.remove(id), seq![t]) == seq![t],
        outputs_for(seq![t], wf, unsent_ids(sent.remove(id), seq![id]), c),
        sent.remove(id) + output_ids(seq![t]).to_set() == sent.insert(id),
{
    lemma_task_named_id(wf, id);
    lemma_single_unsent(sent.remove(id), t, id);
    lemma_single_output(t, wf, id, c);
    assert(output_ids(seq![t]).to_set() =~= Set::<Seq<char>>::empty().insert(id));
    assert(sent.remove(id) + output_ids(seq![t]).to_set() =~= sent.insert(id));
}

/// One output of a task hands out that task alone.
proof fn lemma_single_output(t: TaskOutput, wf: Workflow, id: Seq<char>, c: Config)
    requires
        output_for(t, task_named(wf, id), c),
    ensures
        outputs_for(seq![t], wf, seq![id], c),
{
    assert forall|j: int| 0 <= j < 1 implies output_for(#[trigger] seq![t][j], task_named(wf, seq![id][j]), c) by {
        assert(j == 0);
        assert(seq![t][0] == t);
        assert(seq![id][0] == id);
    }
}

/// A single output whose task was not sent is handed out.
proof fn lemma_single_unsent(sent: Set<Seq<char>>, t: TaskOutput, id: Seq<char>)
    requires
        t.task_id@ == id,
        !sent.contains(id),
    ensures
        unsent(sent, seq![t]) == seq![t],
        unsent_ids(sent, seq![id]) == seq![id],
        output_ids(seq![t]) == seq![id],
{
    assert(seq![t].drop_last() =~= Seq::<TaskOutput>::empty());
    assert(seq![id].drop_last() =~= Seq::<Seq<char>>::empty());
    assert(output_ids(Seq::<TaskOutput>::empty()) =~= Seq::<Seq<char>>::empty());
    assert(output_ids(seq![t]) =~= seq![id]);
    assert(unsent(sent, seq![t].drop_last()) == Seq::<TaskOutput>::empty());
    assert(unsent_ids(sent, seq![id].drop_last()) == Seq::<Seq<char>>::empty());
    assert(!output_ids(seq![t].drop_last()).contains(id));
    assert(!seq![id].drop_last().contains(id));
    assert(unsent(sent, seq![t]) =~= Seq::<TaskOutput>::empty().push(t));
    assert(unsent_ids(sent, seq![id]) =~= Seq::<Seq<char>>::empty().push(id));
}

/// Every id that `in_progress_ids` yields is a declared task.
proof fn lemma_in_progress_declared(entries: Seq<StepEntry>, wf: Workflow, n: int)
    ensures
        forall|j: int| 0 <= j < in_progress_ids(entries, wf, n).len() ==> declares_task(wf, #[trigger] in_progress_ids(entries, wf, n)[j]),
    decreases n,
{
    if n > 0 {
        lemma_in_progress_declared(entries, wf, n - 1);
        let prev = in_progress_ids(entries, wf, n - 1);
        assert forall|j: int| 0 <= j < in_progress_ids(entries, wf, n).len() implies declares_task(wf, #[trigger] in_progress_ids(entries, wf, n)[j]) by {
            if j < prev.len() {
                assert(in_progress_ids(entries, wf, n)[j] == prev[j]);
            }
        }
    }
}

/// What `next_ids` is made of: executable tasks, all declared.
proof fn lemma_next_ids(wf: Workflow, steps: Map<Seq<char>, StepView>)
    ensures
        forall|j: int| 0 <= j < next_ids(wf, steps).len() ==> declares_task(wf, #[trigger] next_ids(wf, steps)[j]),
{
    lemma_executable_declared(wf, steps, wf.tasks@.len() as int);
}

/// The sent set after the first `k` outputs, as the sent set before plus their ids.
proof fn lemma_sent_prefix(sent: Set<Seq<char>>, all: Seq<TaskOutput>, k: int)
    requires
        k == 0,
    ensures
        sent + output_ids(all.subrange(0, k)).to_set() == sent,
{
    assert(output_ids(all.subrange(0, k)).to_set() =~= Set::<Seq<char>>::empty());
    assert(sent + Set::<Seq<char>>::empty() =~= sent);
}

/// One step of `send_new`: the output at `k` is kept exactly when its task is
/// not yet in the sent set, and the sent set grows by its task.
proof fn lemma_unsent_step(sent: Set<Seq<char>>, all: Seq<TaskOutput>, k: int)
    requires
        0 <= k < all.len(),
    ensures
        ({
            let pre = all.subrange(0, k);
            let cur = all.subrange(0, k + 1);
            let t = all[k];
            let s0 = sent + output_ids(pre).to_set();
            &&& s0.contains(t.task_id@) ==> unsent(sent, cur) == unsent(sent, pre)
            &&& !s0.contains(t.task_id@) ==> unsent(sent, cur) == unsent(sent, pre).push(t)
            &&& sent + output_ids(cur).to_set() == s0.insert(t.task_id@)
        }),
{
    let pre = all.subrange(0, k);
    let cur = all.subrange(0, k + 1);
    let t = all[k];
    assert(cur =~= pre.push(t));
    assert(cur.drop_last() =~= pre);
    assert(cur.last() == t);
    assert(output_ids(cur) =~= output_ids(pre).push(t.task_id@));
    output_ids(pre).lemma_push_to_set_commute(t.task_id@);
    assert(sent + output_ids(pre).to_set().insert(t.task_id@) =~= (sent + output_ids(pre).to_set()).insert(t.task_id@));
    let s0 = sent + output_ids(pre).to_set();
    if output_ids(pre).contains(t.task_id@) {
        assert(s0.contains(t.task_id@));
    }
    if s0.contains(t.task_id@) && !sent.contains(t.task_id@) {
        assert(output_ids(pre).to_set().contains(t.task_id@));
    }
}

/// No event makes the daemon track a run of a workflow the config does
/// not name.
#[verifier::spinoff_prover]
#[verifier::rlimit(40)]
pub proof fn lemma_effect_keeps_known(
    d0: Map<Seq<char>, RunView>,
    d1: Map<Seq<char>, RunView>,
    e: DaemonEvent,
    stored: Option<StoredRun>,
    c: Config,
    now: Seq<char>,
    a: DaemonAction,
)
    requires
        event_effect(d0, d1, e, stored, c, now, a),
    ensures
        tracks_known(d0, c) ==> tracks_known(d1, c),
{
    if tracks_known(d0, c) {
        assert forall|id: Seq<char>| #[trigger] d1.dom().contains(id) implies workflow_named(c, d1[id].workflow) is Some by {
            if d0.dom().contains(id) {
                assert(workflow_named(c, d0[id].workflow) is Some);
            }
        }
    }
}

} // verus!

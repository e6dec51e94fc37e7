//! The operations that move a run forward: completing, reporting on,
//! rejecting and pausing a step. Each works on the state in memory; storing
//! it is the caller's part.
use crate::config::{copy_opt_string, declares_task, Config, Workflow};
use crate::dag::{is_workflow_complete, parent_of, parent_spec, workflow_complete};
use crate::executor::{build_next, build_task_output, is_next_output, output_for, task_named, FlowStatus, TaskOutput, WorkflowOutput};
use crate::output::{CompleteOutput, RejectOutput};
use crate::gate::{block_reason, check, gate_block};
use crate::state::{
    opt_view, reports_view, started_step, state_wf, status_of, step_or_initial, sync_applies, ActionReport,
    ReportView, StateView, StepState, StepStatus, StepView, WorkflowState,
};
use crate::text::own;
use vstd::prelude::*;

verus! {

/// The report appended to `s` with the given type, text and time.
pub open spec fn next_report(s: StepView, action_type: Seq<char>, stdout: Option<Seq<char>>, now: Seq<char>) -> ReportView {
    ReportView {
        action_index: s.reports.len() as usize,
        action_type,
        exit_code: None,
        stdout,
        recorded_at: now,
    }
}

/// `s` completed at `now`, with a `complete` report carrying the summary.
pub open spec fn completed_step(s: StepView, summary: Option<Seq<char>>, now: Seq<char>) -> StepView {
    StepView {
        status: StepStatus::Completed,
        completed_at: Some(now),
        reports: s.reports.push(next_report(s, "complete"@, summary, now)),
        ..s
    }
}

/// `s` sent back to work: in progress, no completion time, and a `reject`
/// report carrying the reason when one is given.
pub open spec fn rejected_step(s: StepView, reason: Option<Seq<char>>, now: Seq<char>) -> StepView {
    StepView {
        status: StepStatus::InProgress,
        completed_at: None,
        reports: match reason {
            Some(_) => s.reports.push(next_report(s, "reject"@, reason, now)),
            None => s.reports,
        },
        ..s
    }
}

/// `s` with a report of the given type appended and its update time set.
pub open spec fn noted_step(s: StepView, action_type: Seq<char>, text: Option<Seq<char>>, now: Seq<char>) -> StepView {
    StepView {
        updated_at: Some(now),
        reports: s.reports.push(next_report(s, action_type, text, now)),
        ..s
    }
}

/// The steps after an agent key's parent is synced (see `sync_agents_parent_at`).
pub open spec fn after_sync(wf: Workflow, steps: Map<Seq<char>, StepView>, id: Seq<char>, now: Seq<char>) -> Map<Seq<char>, StepView> {
    match parent_spec(id) {
        Some(p) => if sync_applies(wf, steps, p) {
            steps.insert(p, started_step(step_or_initial(steps, p), now))
        } else {
            steps
        },
        None => steps,
    }
}

/// The steps after completing `id` at `now` (gate passed).
pub open spec fn completed_steps(
    wf: Workflow,
    steps: Map<Seq<char>, StepView>,
    id: Seq<char>,
    summary: Option<Seq<char>>,
    now: Seq<char>,
) -> Map<Seq<char>, StepView> {
    let done = steps.insert(id, completed_step(step_or_initial(steps, id), summary, now));
    after_sync(wf, done, id, now)
}

/// `s` with an action reported on it: a pending step moves to in progress,
/// started at `now`, and the report is appended as given, recorded at `now`.
pub open spec fn reported_step(
    s: StepView,
    action_index: usize,
    action_type: Seq<char>,
    exit_code: Option<i32>,
    stdout: Option<Seq<char>>,
    now: Seq<char>,
) -> StepView {
    let started = if s.status == StepStatus::Pending {
        StepView { status: StepStatus::InProgress, started_at: Some(now), ..s }
    } else {
        s
    };
    StepView {
        reports: started.reports.push(ReportView { action_index, action_type, exit_code, stdout, recorded_at: now }),
        ..started
    }
}

/// Completing `id` pauses the run for approval: it is a task, not an agent,
/// and it asks for approval.
pub open spec fn awaits_approval(wf: Workflow, id: Seq<char>) -> bool {
    parent_spec(id) is None && declares_task(wf, id) && task_named(wf, id).approval
}

/// What completing a step leads to.
pub enum CompleteStep {
    /// The completion check refused; the state is unchanged.
    Gated(String),
    /// The task asks for approval; the run waits for it.
    AwaitingApproval,
    /// Every task is completed; the run is over.
    Finished,
    /// The next set of tasks to hand out.
    Next(WorkflowOutput),
}

/// `st` with its steps replaced by `steps`.
pub open spec fn with_steps(st: StateView, steps: Map<Seq<char>, StepView>) -> StateView {
    StateView { steps, ..st }
}

/// `r` is a refusal with message `m`.
pub open spec fn gated_as(r: CompleteStep, m: Seq<char>) -> bool {
    match r {
        CompleteStep::Gated(x) => x@ == m,
        _ => false,
    }
}

/// `r` hands out the next set of tasks of `wf` in state `st`.
pub open spec fn next_as(r: CompleteStep, wf: Workflow, st: StateView, c: Config) -> bool {
    match r {
        CompleteStep::Next(o) => is_next_output(o, wf, st, c),
        _ => false,
    }
}

/// Marks a step completed at `now`, if the completion check lets it, and says what follows.
///
/// The step gets a `complete` report carrying `summary`; completing an agent
/// step syncs its parent. A completed approval task pauses the run; a run
/// whose tasks are all completed is finished; otherwise the next tasks follow.
pub fn apply_complete(
    state: &mut WorkflowState,
    wf: &Workflow,
    task_id: &str,
    summary: Option<String>,
    now: &str,
    config: &Config,
) -> (r: CompleteStep)
    requires
        state_wf(*old(state)),
    ensures
        state_wf(*final(state)),
        gate_block(*wf, old(state)@.steps, task_id@) matches Some(b) ==> gated_as(r, block_reason(task_id@, b))
            && final(state)@ == old(state)@,
        gate_block(*wf, old(state)@.steps, task_id@) is None ==> {
            let steps = completed_steps(*wf, old(state)@.steps, task_id@, opt_view(summary), now@);
            &&& final(state)@ == with_steps(old(state)@, steps)
            &&& awaits_approval(*wf, task_id@) ==> (r is AwaitingApproval)
            &&& !awaits_approval(*wf, task_id@) && workflow_complete(*wf, steps) ==> (r is Finished)
            &&& !awaits_approval(*wf, task_id@) && !workflow_complete(*wf, steps) ==> next_as(r, *wf, final(state)@, *config)
        },
{
    let gate = check(wf, state, task_id);
    if !gate.allowed {
        let reason = match gate.reason {
            Some(m) => m,
            None => String::new(),
        };
        return CompleteStep::Gated(reason);
    }
    let ghost steps0 = state@.steps;
    let i = state.entry(task_id);
    let mut s = state.take_state(i);
    let ghost before = s@;
    let n = s.action_reports.len();
    s.status = StepStatus::Completed;
    s.completed_at = Some(own(now));
    s.action_reports.push(
        ActionReport {
            action_index: n,
            action_type: own("complete"),
            exit_code: None,
            stdout: summary,
            recorded_at: own(now),
        },
    );
    proof {
        assert(reports_view(s.action_reports@) =~= before.reports.push(next_report(before, "complete"@, opt_view(summary), now@)));
        assert(s@ == completed_step(step_or_initial(steps0, task_id@), opt_view(summary), now@));
    }
    state.set_state(i, s);
    proof {
        assert(state@.steps =~= steps0.insert(task_id@, completed_step(step_or_initial(steps0, task_id@), opt_view(summary), now@)));
    }
    let parent = parent_of(task_id);
    match parent {
        Some(p) => state.sync_agents_parent_at(p, wf, now),
        None => {},
    }
    proof {
        assert(state@.steps =~= completed_steps(*wf, steps0, task_id@, opt_view(summary), now@));
    }
    if parent.is_none() {
        match wf.find_task(task_id) {
            Some(t) => {
                if wf.tasks[t].approval {
                    return CompleteStep::AwaitingApproval;
                }
            },
            None => {},
        }
    }
    if is_workflow_complete(wf, state) {
        return CompleteStep::Finished;
    }
    CompleteStep::Next(build_next(wf, state, config))
}

/// The answer to completing `task_id` in run `workflow_id` of `workflow`,
/// from what completing it led to: a refusal carries its reason and no next
/// state; a completed approval task an `AwaitingApproval` state without
/// tasks; a finished run a `Completed` state without tasks; otherwise the
/// next set of tasks.
pub fn complete_output(task_id: &str, workflow_id: &str, workflow: &str, step: CompleteStep) -> (r: CompleteOutput)
    ensures
        r.task_id@ == task_id@,
        r.allowed <==> !(step is Gated),
        step matches CompleteStep::Gated(m) ==> r.reason == Some(m) && r.next is None,
        !(step is Gated) ==> r.reason is None,
        step is AwaitingApproval ==> (r.next matches Some(o) && o.workflow_id@ == workflow_id@ && o.workflow@ == workflow@
            && o.status == FlowStatus::AwaitingApproval && o.tasks@.len() == 0),
        step is Finished ==> (r.next matches Some(o) && o.workflow_id@ == workflow_id@ && o.workflow@ == workflow@
            && o.status == FlowStatus::Completed && o.tasks@.len() == 0),
        step matches CompleteStep::Next(o) ==> r.next == Some(o),
{
    match step {
        CompleteStep::Gated(m) => CompleteOutput { task_id: own(task_id), allowed: false, reason: Some(m), next: None },
        CompleteStep::AwaitingApproval => CompleteOutput {
            task_id: own(task_id),
            allowed: true,
            reason: None,
            next: Some(
                WorkflowOutput {
                    workflow_id: own(workflow_id),
                    workflow: own(workflow),
                    status: FlowStatus::AwaitingApproval,
                    tasks: Vec::new(),
                },
            ),
        },
        CompleteStep::Finished => CompleteOutput {
            task_id: own(task_id),
            allowed: true,
            reason: None,
            next: Some(
                WorkflowOutput {
                    workflow_id: own(workflow_id),
                    workflow: own(workflow),
                    status: FlowStatus::Completed,
                    tasks: Vec::new(),
                },
            ),
        },
        CompleteStep::Next(o) => CompleteOutput { task_id: own(task_id), allowed: true, reason: None, next: Some(o) },
    }
}

/// The message when a rejection arrives for a run that does not await approval.
pub open spec fn not_awaiting_msg(status: Seq<char>) -> Seq<char> {
    "workflow is not awaiting approval (current status: "@ + status + "); nothing to reject"@
}

/// Rejects `task_id` of a run whose stored status is `status`. A run that
/// does not await approval is an error and is left as it is. Otherwise the
/// step goes back to work (see `apply_reject`) and the answer hands the task
/// out again where the workflow declares it; the caller then stores the
/// state and sets the run active again.
pub fn reject_step(
    status: &str,
    state: &mut WorkflowState,
    wf: &Workflow,
    task_id: &str,
    reason: Option<String>,
    now: &str,
    config: &Config,
) -> (r: Result<RejectOutput, String>)
    requires
        state_wf(*old(state)),
    ensures
        state_wf(*final(state)),
        r is Err <==> status@ != "awaiting_approval"@,
        r matches Err(m) ==> m@ == not_awaiting_msg(status@) && final(state)@ == old(state)@,
        r matches Ok(o) ==> {
            &&& final(state)@ == with_steps(
                old(state)@,
                old(state)@.steps.insert(
                    task_id@,
                    rejected_step(step_or_initial(old(state)@.steps, task_id@), opt_view(reason), now@),
                ),
            )
            &&& o.task_id@ == task_id@
            &&& o.reason == reason
            &&& (o.task is Some <==> declares_task(*wf, task_id@))
            &&& (o.task matches Some(t) ==> output_for(t, task_named(*wf, task_id@), *config))
        },
{
    if !crate::text::str_eq(status, "awaiting_approval") {
        let mut m = own("workflow is not awaiting approval (current status: ");
        m.append(status);
        m.append("); nothing to reject");
        return Err(m);
    }
    let kept = copy_opt_string(&reason);
    apply_reject(state, task_id, reason, now);
    Ok(RejectOutput { task_id: own(task_id), reason: kept, task: build_task_output(task_id, wf, config) })
}

/// Sends a step back to work at `now` after a rejection, recording the reason
/// when one is given.
pub fn apply_reject(state: &mut WorkflowState, task_id: &str, reason: Option<String>, now: &str)
    requires
        state_wf(*old(state)),
    ensures
        state_wf(*final(state)),
        final(state)@ == with_steps(
            old(state)@,
            old(state)@.steps.insert(
                task_id@,
                rejected_step(step_or_initial(old(state)@.steps, task_id@), opt_view(reason), now@),
            ),
        ),
{
    let ghost steps0 = state@.steps;
    let i = state.entry(task_id);
    let mut s = state.take_state(i);
    let ghost before = s@;
    let n = s.action_reports.len();
    s.status = StepStatus::InProgress;
    s.completed_at = None;
    match reason {
        Some(text) => {
            s.action_reports.push(
                ActionReport {
                    action_index: n,
                    action_type: own("reject"),
                    exit_code: None,
                    stdout: Some(text),
                    recorded_at: own(now),
                },
            );
            proof {
                assert(reports_view(s.action_reports@) =~= before.reports.push(next_report(before, "reject"@, opt_view(reason), now@)));
            }
        },
        None => {},
    }
    proof {
        assert(s@ == rejected_step(step_or_initial(steps0, task_id@), opt_view(reason), now@));
    }
    state.set_state(i, s);
    proof {
        assert(state@.steps =~= steps0.insert(task_id@, rejected_step(step_or_initial(steps0, task_id@), opt_view(reason), now@)));
    }
}

/// Appends a report of the given type to a step and stamps its update time;
/// the step's status is left as it is.
fn note_step(state: &mut WorkflowState, task_id: &str, action_type: &str, text: Option<String>, now: &str)
    requires
        state_wf(*old(state)),
    ensures
        state_wf(*final(state)),
        final(state)@ == with_steps(
            old(state)@,
            old(state)@.steps.insert(
                task_id@,
                noted_step(step_or_initial(old(state)@.steps, task_id@), action_type@, opt_view(text), now@),
            ),
        ),
{
    let ghost steps0 = state@.steps;
    let i = state.entry(task_id);
    let mut s = state.take_state(i);
    let ghost before = s@;
    let n = s.action_reports.len();
    s.updated_at = Some(own(now));
    s.action_reports.push(
        ActionReport {
            action_index: n,
            action_type: own(action_type),
            exit_code: None,
            stdout: text,
            recorded_at: own(now),
        },
    );
    proof {
        assert(reports_view(s.action_reports@) =~= before.reports.push(next_report(before, action_type@, opt_view(text), now@)));
        assert(s@ == noted_step(step_or_initial(steps0, task_id@), action_type@, opt_view(text), now@));
    }
    state.set_state(i, s);
    proof {
        assert(state@.steps =~= steps0.insert(task_id@, noted_step(step_or_initial(steps0, task_id@), action_type@, opt_view(text), now@)));
    }
}

/// Records an intermediate report on a known step. The step's status does
/// not change. A step the run does not know is an error.
pub fn apply_report(state: &mut WorkflowState, task_id: &str, summary: Option<String>, now: &str) -> (r: Result<(), String>)
    requires
        state_wf(*old(state)),
    ensures
        state_wf(*final(state)),
        r is Ok <==> old(state)@.steps.contains_key(task_id@),
        r matches Err(m) ==> m@ == "unknown task_id '"@ + task_id@ + "' in workflow"@,
        r is Err ==> final(state)@ == old(state)@,
        r is Ok ==> final(state)@ == with_steps(
            old(state)@,
            old(state)@.steps.insert(
                task_id@,
                noted_step(old(state)@.steps[task_id@], "report"@, opt_view(summary), now@),
            ),
        ),
{
    if state.find(task_id).is_none() {
        let mut m = own("unknown task_id '");
        m.append(task_id);
        m.append("' in workflow");
        return Err(m);
    }
    note_step(state, task_id, "report", summary, now);
    Ok(())
}

/// Records an action reported on step `task_id` at `now`: a pending step
/// moves to in progress, the report is appended with the index, type, exit
/// code and output given, and a report on an agent syncs its parent. A step
/// the run does not know is an error, and the state does not change.
pub fn apply_action_report(
    state: &mut WorkflowState,
    wf: &Workflow,
    task_id: &str,
    action_index: usize,
    action_type: String,
    exit_code: Option<i32>,
    stdout: Option<String>,
    now: &str,
) -> (r: Result<(), String>)
    requires
        state_wf(*old(state)),
    ensures
        state_wf(*final(state)),
        r is Ok <==> old(state)@.steps.contains_key(task_id@),
        r matches Err(m) ==> m@ == "unknown task_id '"@ + task_id@ + "' in workflow"@,
        r is Err ==> final(state)@ == old(state)@,
        r is Ok ==> final(state)@ == with_steps(
            old(state)@,
            after_sync(
                *wf,
                old(state)@.steps.insert(
                    task_id@,
                    reported_step(
                        old(state)@.steps[task_id@],
                        action_index,
                        action_type@,
                        exit_code,
                        opt_view(stdout),
                        now@,
                    ),
                ),
                task_id@,
                now@,
            ),
        ),
{
    if state.find(task_id).is_none() {
        let mut m = own("unknown task_id '");
        m.append(task_id);
        m.append("' in workflow");
        return Err(m);
    }
    let ghost steps0 = state@.steps;
    let ghost av = action_type@;
    let ghost ov = opt_view(stdout);
    let i = state.entry(task_id);
    let mut s = state.take_state(i);
    let ghost before = s@;
    if s.status == StepStatus::Pending {
        s.status = StepStatus::InProgress;
        s.started_at = Some(own(now));
    }
    let ghost mid = s@;
    s.action_reports.push(ActionReport { action_index, action_type, exit_code, stdout, recorded_at: own(now) });
    proof {
        assert(reports_view(s.action_reports@) =~= mid.reports.push(
            ReportView { action_index, action_type: av, exit_code, stdout: ov, recorded_at: now@ },
        ));
        assert(s@ == reported_step(step_or_initial(steps0, task_id@), action_index, av, exit_code, ov, now@));
    }
    state.set_state(i, s);
    proof {
        assert(state@.steps =~= steps0.insert(task_id@, reported_step(step_or_initial(steps0, task_id@), action_index, av, exit_code, ov, now@)));
    }
    match parent_of(task_id) {
        Some(p) => state.sync_agents_parent_at(p, wf, now),
        None => {},
    }
    Ok(())
}

/// Records that work on a step was paused, with the reason when one is given.
pub fn apply_pause(state: &mut WorkflowState, task_id: &str, reason: Option<String>, now: &str)
    requires
        state_wf(*old(state)),
    ensures
        state_wf(*final(state)),
        final(state)@ == with_steps(
            old(state)@,
            old(state)@.steps.insert(
                task_id@,
                noted_step(step_or_initial(old(state)@.steps, task_id@), "pause"@, opt_view(reason), now@),
            ),
        ),
{
    note_step(state, task_id, "pause", reason, now);
}

} // verus!

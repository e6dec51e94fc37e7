//! The `requires` graph: which tasks can run now, and whether a run is done.
use crate::config::{declares_task, task_ids, views, Task, Workflow};
use crate::state::{status_of, StepStatus, StepView, WorkflowState};
use crate::text::{find_char, first_index_of};
use vstd::prelude::*;
use vstd::string::*;

verus! {

/// Every requirement is completed, or names no task of the workflow (such a
/// name does not hold a task back).
pub open spec fn requires_met_spec(wf: Workflow, steps: Map<Seq<char>, StepView>, reqs: Seq<Seq<char>>) -> bool {
    forall|r: int|
        0 <= r < reqs.len() ==> status_of(steps, #[trigger] reqs[r]) == StepStatus::Completed
            || !declares_task(wf, reqs[r])
}

/// Task `t` can be handed out now: it is neither completed nor failed, its
/// requirements are met, and, for an agents task, it has not started yet
/// (its agents run on their own once it is handed out).
pub open spec fn is_executable(wf: Workflow, steps: Map<Seq<char>, StepView>, t: Task) -> bool {
    let st = status_of(steps, t.id@);
    &&& st != StepStatus::Completed
    &&& st != StepStatus::Failed
    &&& requires_met_spec(wf, steps, views(t.requires@))
    &&& (t.agents@.len() > 0 ==> st == StepStatus::Pending)
}

/// The ids of the executable tasks among the first `n`, in workflow order.
pub open spec fn executable_prefix(wf: Workflow, steps: Map<Seq<char>, StepView>, n: int) -> Seq<Seq<char>>
    decreases n,
{
    if n <= 0 {
        Seq::empty()
    } else {
        let prev = executable_prefix(wf, steps, n - 1);
        if is_executable(wf, steps, wf.tasks@[n - 1]) {
            prev.push(wf.tasks@[n - 1].id@)
        } else {
            prev
        }
    }
}

/// The ids of all executable tasks, in workflow order.
pub open spec fn executable_ids(wf: Workflow, steps: Map<Seq<char>, StepView>) -> Seq<Seq<char>> {
    executable_prefix(wf, steps, wf.tasks@.len() as int)
}

/// Every task of the workflow is completed.
pub open spec fn workflow_complete(wf: Workflow, steps: Map<Seq<char>, StepView>) -> bool {
    forall|t: int| 0 <= t < wf.tasks@.len() ==> status_of(steps, #[trigger] task_ids(wf)[t]) == StepStatus::Completed
}

/// The parent part of an agent key `parent/agent`: what precedes the first `/`.
pub open spec fn parent_spec(id: Seq<char>) -> Option<Seq<char>> {
    match first_index_of(id, '/') {
        Some(i) => Some(id.subrange(0, i)),
        None => None,
    }
}

/// The requirements listed in `requires` are met (see `requires_met_spec`).
pub fn requires_met(wf: &Workflow, state: &WorkflowState, reqs: &Vec<String>) -> (r: bool)
    ensures
        r == requires_met_spec(*wf, state@.steps, views(reqs@)),
{
    let mut i: usize = 0;
    while i < reqs.len()
        invariant
            i <= reqs.len(),
            forall|j: int| 0 <= j < i ==> status_of(state@.steps, #[trigger] views(reqs@)[j]) == StepStatus::Completed
                || !declares_task(*wf, views(reqs@)[j]),
        decreases reqs.len() - i,
    {
        let req = reqs[i].as_str();
        let ok = state.status_at(req) == StepStatus::Completed || wf.find_task(req).is_none();
        if !ok {
            assert(views(reqs@)[i as int] == reqs@[i as int]@);
            return false;
        }
        i += 1;
    }
    true
}

/// Returns the IDs of the tasks that can be handed out now, in workflow order.
pub fn executable_items(wf: &Workflow, state: &WorkflowState) -> (items: Vec<String>)
    ensures
        views(items@) == executable_ids(*wf, state@.steps),
{
    let mut items: Vec<String> = Vec::new();
    let mut t: usize = 0;
    while t < wf.tasks.len()
        invariant
            t <= wf.tasks.len(),
            views(items@) == executable_prefix(*wf, state@.steps, t as int),
        decreases wf.tasks.len() - t,
    {
        let task = &wf.tasks[t];
        let st = state.status_at(task.id.as_str());
        let open = st != StepStatus::Completed && st != StepStatus::Failed;
        let ready = open && requires_met(wf, state, &task.requires) && (task.agents.len() == 0
            || st == StepStatus::Pending);
        if ready {
            items.push(task.id.clone());
            proof {
                assert(views(items@) =~= executable_prefix(*wf, state@.steps, t as int).push(task.id@));
            }
        }
        t += 1;
    }
    items
}

/// Every task of the workflow is completed.
pub fn is_workflow_complete(wf: &Workflow, state: &WorkflowState) -> (r: bool)
    ensures
        r == workflow_complete(*wf, state@.steps),
{
    let mut t: usize = 0;
    while t < wf.tasks.len()
        invariant
            t <= wf.tasks.len(),
            forall|u: int| 0 <= u < t ==> status_of(state@.steps, #[trigger] task_ids(*wf)[u]) == StepStatus::Completed,
        decreases wf.tasks.len() - t,
    {
        if state.status_at(wf.tasks[t].id.as_str()) != StepStatus::Completed {
            assert(task_ids(*wf)[t as int] == wf.tasks@[t as int].id@);
            return false;
        }
        t += 1;
    }
    true
}

/// The parent task ID if `task_id` is an agent sub-task (`parent/agent`).
pub fn parent_of(task_id: &str) -> (r: Option<&str>)
    ensures
        r matches Some(p) ==> parent_spec(task_id@) == Some(p@),
        r is None <==> parent_spec(task_id@) is None,
{
    match find_char(task_id, '/') {
        Some(i) => Some(task_id.substring_char(0, i)),
        None => None,
    }
}

} // verus!

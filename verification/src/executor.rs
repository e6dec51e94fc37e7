//! What to hand out next: the executable tasks with their prompts resolved.
use crate::config::{
    copy_opt_string, copy_strings, declares_task, task_ids, task_index, Config, DenyRules, Task, Var,
    Workflow,
};
use crate::dag::{executable_ids, executable_items, executable_prefix, is_executable, is_workflow_complete, workflow_complete};
use crate::keys::{has_key, lemma_first_index_facts};
use crate::state::{opt_view, StateView, StepView, WorkflowState};
use crate::text::{own, replace_all, replace_all_exec};
use vstd::prelude::*;

verus! {

/// Overall status reported with the next set of tasks.
#[derive(Debug, Clone, Copy, PartialEq, Eq, Structural)]
pub enum FlowStatus {
    Started,
    InProgress,
    Completed,
    Blocked,
    /// Paused after an approval task; approve to go on, or reject to redo the task.
    AwaitingApproval,
}

/// A task as handed out for execution.
#[derive(Debug)]
pub struct TaskOutput {
    pub task_id: String,
    /// Concise task name (the instruction for a manual task).
    pub task: Option<String>,
    /// Prompt with `{{vars.<key>}}` resolved. None for agents and manual tasks.
    pub prompt: Option<String>,
    pub skills: Vec<String>,
    /// Custom agent names to spawn in parallel.
    pub agents: Vec<String>,
    /// File path patterns the task may write to.
    pub outputs: Vec<String>,
    /// Deny rules active while the task is in progress.
    pub deny: Option<DenyRules>,
    /// Whether approval is awaited once the task completes.
    pub approval: bool,
}

/// The next set of tasks of a run, with the run's overall status.
#[derive(Debug)]
pub struct WorkflowOutput {
    pub workflow_id: String,
    pub workflow: String,
    pub status: FlowStatus,
    /// Tasks to execute next; several may run concurrently.
    pub tasks: Vec<TaskOutput>,
}

/// The text `{{vars.<key>}}`.
pub open spec fn placeholder(key: Seq<char>) -> Seq<char> {
    "{{vars."@ + key + "}}"@
}

/// `s` with the placeholders of the first `n` variables replaced, one
/// variable after another, in order.
pub open spec fn resolve_upto(s: Seq<char>, vars: Seq<Var>, n: int) -> Seq<char>
    decreases n,
{
    if n <= 0 {
        s
    } else {
        replace_all(resolve_upto(s, vars, n - 1), placeholder(vars[n - 1].key@), vars[n - 1].value@)
    }
}

/// `s` with every `{{vars.<key>}}` of a defined key replaced by its value;
/// placeholders of undefined keys stay as they are.
pub open spec fn resolve_spec(s: Seq<char>, c: Config) -> Seq<char> {
    resolve_upto(s, c.vars@, c.vars@.len() as int)
}

/// The resolved prompt of a task, if it has one.
pub open spec fn resolved_prompt(t: Task, c: Config) -> Option<Seq<char>> {
    match t.prompt {
        Some(p) => Some(resolve_spec(p@, c)),
        None => None,
    }
}

/// Two optional deny rule sets hold the same patterns.
pub open spec fn same_deny(a: Option<DenyRules>, b: Option<DenyRules>) -> bool {
    match (a, b) {
        (Some(x), Some(y)) => x.files@ == y.files@ && x.commands@ == y.commands@,
        (None, None) => true,
        _ => false,
    }
}

/// `o` hands out task `t` under config `c`.
pub open spec fn output_for(o: TaskOutput, t: Task, c: Config) -> bool {
    &&& o.task_id@ == t.id@
    &&& opt_view(o.task) == opt_view(t.task)
    &&& opt_view(o.prompt) == resolved_prompt(t, c)
    &&& o.skills@ == t.skills@
    &&& o.agents@ == t.agents@
    &&& o.outputs@ == t.outputs@
    &&& same_deny(o.deny, t.deny)
    &&& o.approval == t.approval
}

/// The task of `wf` with id `id` (the first one declared).
pub open spec fn task_named(wf: Workflow, id: Seq<char>) -> Task {
    wf.tasks@[task_index(wf, id).unwrap()]
}

/// Replaces `{{vars.<key>}}` placeholders with values from `config.vars`.
/// Placeholders of keys that are not defined are left as-is.
pub fn resolve_template(s: &str, config: &Config) -> (r: String)
    ensures
        r@ == resolve_spec(s@, *config),
{
    let mut result = own(s);
    let mut i: usize = 0;
    while i < config.vars.len()
        invariant
            i <= config.vars.len(),
            result@ == resolve_upto(s@, config.vars@, i as int),
        decreases config.vars.len() - i,
    {
        let var = &config.vars[i];
        let mut pat = own("{{vars.");
        pat.append(var.key.as_str());
        pat.append("}}");
        proof {
            reveal_strlit("{{vars.");
            assert(pat@.len() > 0);
        }
        result = replace_all_exec(result.as_str(), pat.as_str(), var.value.as_str());
        i += 1;
    }
    result
}

/// A copy of optional deny rules.
pub fn copy_deny(d: &Option<DenyRules>) -> (r: Option<DenyRules>)
    ensures
        same_deny(r, *d),
{
    match d {
        Some(x) => Some(x.duplicate()),
        None => None,
    }
}

/// The output that hands out `task` under `config`.
pub fn task_output(task: &Task, config: &Config) -> (r: TaskOutput)
    ensures
        output_for(r, *task, *config),
{
    let prompt = match &task.prompt {
        Some(p) => Some(resolve_template(p.as_str(), config)),
        None => None,
    };
    TaskOutput {
        task_id: task.id.clone(),
        task: copy_opt_string(&task.task),
        prompt,
        skills: copy_strings(&task.skills),
        agents: copy_strings(&task.agents),
        outputs: copy_strings(&task.outputs),
        deny: copy_deny(&task.deny),
        approval: task.approval,
    }
}

/// The output for the task with id `task_id`, if the workflow declares one.
pub fn build_task_output(task_id: &str, wf: &Workflow, config: &Config) -> (r: Option<TaskOutput>)
    ensures
        r is Some <==> declares_task(*wf, task_id@),
        r matches Some(o) ==> output_for(o, task_named(*wf, task_id@), *config),
{
    match wf.find_task(task_id) {
        Some(t) => Some(task_output(&wf.tasks[t], config)),
        None => None,
    }
}

/// Every executable id is the id of a declared task.
pub proof fn lemma_executable_declared(wf: Workflow, steps: Map<Seq<char>, StepView>, n: int)
    requires
        0 <= n <= wf.tasks@.len(),
    ensures
        forall|j: int| 0 <= j < executable_prefix(wf, steps, n).len() ==> declares_task(wf, #[trigger] executable_prefix(wf, steps, n)[j]),
    decreases n,
{
    if n > 0 {
        lemma_executable_declared(wf, steps, n - 1);
        assert(task_ids(wf)[n - 1] == wf.tasks@[n - 1].id@);
        assert(declares_task(wf, wf.tasks@[n - 1].id@));
        let prev = executable_prefix(wf, steps, n - 1);
        assert forall|j: int| 0 <= j < executable_prefix(wf, steps, n).len() implies declares_task(wf, #[trigger] executable_prefix(wf, steps, n)[j]) by {
            if j < prev.len() {
                assert(executable_prefix(wf, steps, n)[j] == prev[j]);
            }
        }
    }
}

/// `ts` hands out, in order, the tasks of `wf` with the given ids.
pub open spec fn outputs_for(ts: Seq<TaskOutput>, wf: Workflow, ids: Seq<Seq<char>>, c: Config) -> bool {
    &&& ts.len() == ids.len()
    &&& forall|j: int| 0 <= j < ids.len() ==> output_for(#[trigger] ts[j], task_named(wf, ids[j]), c)
}

/// `r` is the next set of tasks of a run of `wf` in state `st`: `Completed`
/// once every task is completed; otherwise the executable tasks in workflow
/// order, `Blocked` when there are none.
pub open spec fn is_next_output(r: WorkflowOutput, wf: Workflow, st: StateView, c: Config) -> bool {
    &&& r.workflow_id@ == st.workflow_id
    &&& r.workflow@ == st.workflow
    &&& workflow_complete(wf, st.steps) ==> r.status == FlowStatus::Completed && r.tasks@.len() == 0
    &&& !workflow_complete(wf, st.steps) ==> {
        let ids = executable_ids(wf, st.steps);
        &&& outputs_for(r.tasks@, wf, ids, c)
        &&& r.status == (if ids.len() == 0 { FlowStatus::Blocked } else { FlowStatus::InProgress })
    }
}

/// The next set of tasks (see `is_next_output`).
pub fn build_next(wf: &Workflow, state: &WorkflowState, config: &Config) -> (r: WorkflowOutput)
    ensures
        is_next_output(r, *wf, state@, *config),
{
    if is_workflow_complete(wf, state) {
        return WorkflowOutput {
            workflow_id: state.workflow_id.clone(),
            workflow: state.workflow.clone(),
            status: FlowStatus::Completed,
            tasks: Vec::new(),
        };
    }
    let items = executable_items(wf, state);
    let ghost ids = executable_ids(*wf, state@.steps);
    proof {
        lemma_executable_declared(*wf, state@.steps, wf.tasks@.len() as int);
    }
    let mut tasks: Vec<TaskOutput> = Vec::new();
    let mut j: usize = 0;
    while j < items.len()
        invariant
            ids == executable_ids(*wf, state@.steps),
            items@.map_values(|s: String| s@) == ids,
            forall|k: int| 0 <= k < ids.len() ==> declares_task(*wf, #[trigger] ids[k]),
            j <= items.len(),
            tasks@.len() == j,
            forall|k: int| 0 <= k < j ==> output_for(#[trigger] tasks@[k], task_named(*wf, ids[k]), *config),
        decreases items.len() - j,
    {
        assert(ids[j as int] == items@[j as int]@);
        match build_task_output(items[j].as_str(), wf, config) {
            Some(o) => tasks.push(o),
            None => {
                assert(false);
            },
        }
        j += 1;
    }
    let status = if tasks.len() == 0 {
        FlowStatus::Blocked
    } else {
        FlowStatus::InProgress
    };
    WorkflowOutput {
        workflow_id: state.workflow_id.clone(),
        workflow: state.workflow.clone(),
        status,
        tasks,
    }
}

} // verus!

//! What the commands answer: status, validation and workflow listings, and
//! their plain-text renderings.
use crate::config::{agent_key, make_agent_key, var_keys, views, Config, Task, Var, Workflow, WorkflowEntry};
use crate::executor::{TaskOutput, WorkflowOutput};
use crate::sort::{lemma_map_multiset, sort_by_key, sorted_by_key, SortKey};
use crate::state::{status_of, StepStatus, StepView, WorkflowState};
use crate::text::{decimal, decimal_string, join, join_upto, own, trim_end, trim_end_spec};
use crate::validate::{config_errors, validate};
use vstd::prelude::*;

verus! {

/// Answer to completing a step.
#[derive(Debug)]
pub struct CompleteOutput {
    pub task_id: String,
    pub allowed: bool,
    pub reason: Option<String>,
    /// Next state when allowed.
    pub next: Option<WorkflowOutput>,
}

/// Answer to rejecting a step: the task to hand out again.
#[derive(Debug)]
pub struct RejectOutput {
    pub task_id: String,
    pub reason: Option<String>,
    pub task: Option<TaskOutput>,
}

/// The state of a run, task by task.
#[derive(Debug)]
pub struct StatusOutput {
    pub workflow_id: String,
    pub workflow: String,
    pub started_at: String,
    pub tasks: Vec<TaskStatusItem>,
}

/// One line of a status: a task or one of its agents.
#[derive(Debug)]
pub struct TaskStatusItem {
    pub id: String,
    /// The task text, or `agent: <name>` for an agent.
    pub task: String,
    pub status: String,
}

/// One workflow in a listing.
#[derive(Debug)]
pub struct WorkflowListItem {
    pub slug: String,
    pub name: String,
    pub description: Option<String>,
    pub task_count: usize,
}

/// An error, as reported to the caller.
#[derive(Debug)]
pub struct ErrorOutput {
    pub error: String,
}

/// Answer to starting a workflow on the daemon.
#[derive(Debug)]
pub struct RunOutput {
    pub workflow_id: String,
    pub workflow: String,
}

/// The result of validating a config.
#[derive(Debug)]
pub struct ValidateOutput {
    pub valid: bool,
    pub workflow_count: usize,
    pub vars: Vec<String>,
    pub errors: Vec<String>,
}

impl SortKey for WorkflowListItem {
    open spec fn sort_key(&self) -> Seq<char> {
        self.slug@
    }

    fn key_str(&self) -> (r: &str) {
        self.slug.as_str()
    }
}

/// The label a step status is shown with.
pub open spec fn status_label(s: StepStatus) -> Seq<char> {
    match s {
        StepStatus::Pending => "pending"@,
        StepStatus::InProgress => "inprogress"@,
        StepStatus::Completed => "completed"@,
        StepStatus::Failed => "failed"@,
    }
}

/// The view of a status line: id, text, status label.
pub open spec fn item_view(i: TaskStatusItem) -> (Seq<char>, Seq<char>, Seq<char>) {
    (i.id@, i.task@, i.status@)
}

/// The status lines of task `t`: the task itself, then each of its agents.
pub open spec fn task_lines(t: Task, steps: Map<Seq<char>, StepView>) -> Seq<(Seq<char>, Seq<char>, Seq<char>)> {
    let text = match t.task {
        Some(n) => n@,
        None => Seq::empty(),
    };
    seq![(t.id@, text, status_label(status_of(steps, t.id@)))] + t.agents@.map_values(
        |a: String| (agent_key(t.id@, a@), "agent: "@ + a@, status_label(status_of(steps, agent_key(t.id@, a@)))),
    )
}

/// The status lines of the first `n` tasks of `wf`.
pub open spec fn status_lines(wf: Workflow, steps: Map<Seq<char>, StepView>, n: int) -> Seq<(Seq<char>, Seq<char>, Seq<char>)>
    decreases n,
{
    if n <= 0 {
        Seq::empty()
    } else {
        status_lines(wf, steps, n - 1) + task_lines(wf.tasks@[n - 1], steps)
    }
}

/// The text of a valid result's summary line.
pub open spec fn valid_text(count: usize, vars: Seq<Seq<char>>) -> Seq<char> {
    "config.yml is valid ("@ + decimal(count as nat) + " workflow(s), vars: "@ + (if vars.len() == 0 {
        "(none)"@
    } else {
        join(vars, ", "@)
    }) + ")"@
}

/// The numbered error lines from the first `n` errors.
pub open spec fn error_lines(errors: Seq<Seq<char>>, n: int) -> Seq<char>
    decreases n,
{
    if n <= 0 {
        Seq::empty()
    } else {
        error_lines(errors, n - 1) + "  ["@ + decimal(n as nat) + "] "@ + errors[n - 1] + "\n"@
    }
}

/// The text of an invalid result: a count line, then one numbered line per
/// error, trailing whitespace removed.
pub open spec fn invalid_text(errors: Seq<Seq<char>>) -> Seq<char> {
    trim_end_spec(
        "config.yml has "@ + decimal(errors.len()) + " error(s):\n"@ + error_lines(errors, errors.len() as int),
    )
}

/// What comfy-table renders for the header and rows given.
pub uninterp spec fn table_text(header: Seq<Seq<char>>, rows: Seq<Seq<Seq<char>>>) -> Seq<char>;

/// The rows' views.
pub open spec fn rows_view(rows: Seq<Vec<String>>) -> Seq<Seq<Seq<char>>> {
    rows.map_values(|r: Vec<String>| views(r@))
}

/// Renders a table with `comfy_table::Table` in the `UTF8_BORDERS_ONLY`
/// preset, with `header` as its header and `rows` as its rows, and returns
/// its `Display` text. The contract ties the text to the header and rows
/// alone (`table_text`); the layout is not stated. comfy-table consults the
/// terminal only for styling and dynamic arrangement, and this table uses
/// neither.
#[verifier::external_body]
fn render_table(header: Vec<String>, rows: Vec<Vec<String>>) -> (r: String)
    ensures
        r@ == table_text(views(header@), rows_view(rows@)),
{
    let mut table = comfy_table::Table::new();
    table.load_preset(comfy_table::presets::UTF8_BORDERS_ONLY);
    table.set_header(header);
    table.add_rows(rows);
    table.to_string()
}

/// The text a status table is rendered with.
pub open spec fn status_table_text(o: StatusOutput) -> Seq<char> {
    "Session : "@ + o.workflow_id@ + "\nWorkflow: "@ + o.workflow@ + "\nStarted : "@ + o.started_at@ + "\n\n"@
        + table_text(
        seq!["TASK ID"@, "DESCRIPTION"@, "STATUS"@],
        o.tasks@.map_values(|i: TaskStatusItem| seq![i.id@, i.task@, i.status@]),
    )
}

/// The label a step status is shown with.
pub fn status_label_str(s: StepStatus) -> (r: &'static str)
    ensures
        r@ == status_label(s),
{
    match s {
        StepStatus::Pending => "pending",
        StepStatus::InProgress => "inprogress",
        StepStatus::Completed => "completed",
        StepStatus::Failed => "failed",
    }
}

/// The parts joined with `sep` between them.
pub fn join_strings(parts: &Vec<String>, sep: &str) -> (r: String)
    ensures
        r@ == join(views(parts@), sep@),
{
    let mut out = String::new();
    let mut i: usize = 0;
    proof {
        reveal_strlit("");
    }
    while i < parts.len()
        invariant
            i <= parts.len(),
            out@ == join_upto(views(parts@), sep@, i as int),
        decreases parts.len() - i,
    {
        if i > 0 {
            out.append(sep);
        }
        out.append(parts[i].as_str());
        proof {
            assert(views(parts@)[i as int] == parts@[i as int]@);
            if i == 0 {
                assert(out@ =~= join_upto(views(parts@), sep@, 1));
            }
        }
        i += 1;
    }
    out
}

/// Formats a validation result as human-readable text.
pub fn format_validate_text(output: &ValidateOutput) -> (r: String)
    ensures
        output.valid ==> r@ == valid_text(output.workflow_count, views(output.vars@)),
        !output.valid ==> r@ == invalid_text(views(output.errors@)),
{
    if output.valid {
        let mut m = own("config.yml is valid (");
        let n = decimal_string(output.workflow_count);
        m.append(n.as_str());
        m.append(" workflow(s), vars: ");
        if output.vars.len() == 0 {
            m.append("(none)");
        } else {
            let j = join_strings(&output.vars, ", ");
            m.append(j.as_str());
        }
        m.append(")");
        m
    } else {
        let mut lines = own("config.yml has ");
        let n = decimal_string(output.errors.len());
        lines.append(n.as_str());
        lines.append(" error(s):\n");
        let ghost head = lines@;
        let mut i: usize = 0;
        proof {
            assert(lines@ =~= head + error_lines(views(output.errors@), 0));
        }
        while i < output.errors.len()
            invariant
                i <= output.errors.len(),
                lines@ == head + error_lines(views(output.errors@), i as int),
            decreases output.errors.len() - i,
        {
            lines.append("  [");
            let k = decimal_string(i + 1);
            lines.append(k.as_str());
            lines.append("] ");
            lines.append(output.errors[i].as_str());
            lines.append("\n");
            proof {
                assert(views(output.errors@)[i as int] == output.errors@[i as int]@);
                assert(lines@ =~= head + error_lines(views(output.errors@), i + 1));
            }
            i += 1;
        }
        assert(views(output.errors@).len() == output.errors@.len());
        trim_end(lines.as_str())
    }
}

/// Appends the status lines of one task.
fn push_task_lines(items: &mut Vec<TaskStatusItem>, t: &Task, state: &WorkflowState)
    ensures
        final(items)@.map_values(|i: TaskStatusItem| item_view(i)) == old(items)@.map_values(|i: TaskStatusItem| item_view(i))
            + task_lines(*t, state@.steps),
{
    let ghost start = items@.map_values(|i: TaskStatusItem| item_view(i));
    let text = match &t.task {
        Some(n) => n.clone(),
        None => String::new(),
    };
    let status = own(status_label_str(state.status_at(t.id.as_str())));
    items.push(TaskStatusItem { id: t.id.clone(), task: text, status });
    let ghost agent_lines = t.agents@.map_values(
        |a: String| (agent_key(t.id@, a@), "agent: "@ + a@, status_label(status_of(state@.steps, agent_key(t.id@, a@)))),
    );
    proof {
        assert(items@.map_values(|i: TaskStatusItem| item_view(i)) =~= start + task_lines(*t, state@.steps).subrange(0, 1));
    }
    let mut a: usize = 0;
    while a < t.agents.len()
        invariant
            a <= t.agents.len(),
            agent_lines == t.agents@.map_values(
                |a: String| (agent_key(t.id@, a@), "agent: "@ + a@, status_label(status_of(state@.steps, agent_key(t.id@, a@)))),
            ),
            items@.map_values(|i: TaskStatusItem| item_view(i)) == start + task_lines(*t, state@.steps).subrange(0, a + 1),
        decreases t.agents.len() - a,
    {
        let name = t.agents[a].as_str();
        let key = make_agent_key(t.id.as_str(), name);
        let status = own(status_label_str(state.status_at(key.as_str())));
        let mut text = own("agent: ");
        text.append(name);
        let ghost before = items@.map_values(|i: TaskStatusItem| item_view(i));
        items.push(TaskStatusItem { id: key, task: text, status });
        proof {
            assert(task_lines(*t, state@.steps)[a + 1] == agent_lines[a as int]);
            assert(items@.map_values(|i: TaskStatusItem| item_view(i)) =~= before.push(agent_lines[a as int]));
            assert(items@.map_values(|i: TaskStatusItem| item_view(i)) =~= start + task_lines(*t, state@.steps).subrange(0, a + 2));
        }
        a += 1;
    }
    proof {
        assert(task_lines(*t, state@.steps).subrange(0, t.agents@.len() + 1 as int) =~= task_lines(*t, state@.steps));
    }
}

/// The status of a run: each task of the workflow in order, each followed by
/// its agents; a step without recorded state shows as pending.
pub fn build_status(state: &WorkflowState, wf: &Workflow) -> (r: StatusOutput)
    ensures
        r.workflow_id@ == state.workflow_id@,
        r.workflow@ == state.workflow@,
        r.started_at@ == state.started_at@,
        r.tasks@.map_values(|i: TaskStatusItem| item_view(i)) == status_lines(*wf, state@.steps, wf.tasks@.len() as int),
{
    let mut items: Vec<TaskStatusItem> = Vec::new();
    let mut t: usize = 0;
    proof {
        assert(items@.map_values(|i: TaskStatusItem| item_view(i)) =~= status_lines(*wf, state@.steps, 0));
    }
    while t < wf.tasks.len()
        invariant
            t <= wf.tasks.len(),
            items@.map_values(|i: TaskStatusItem| item_view(i)) == status_lines(*wf, state@.steps, t as int),
        decreases wf.tasks.len() - t,
    {
        push_task_lines(&mut items, &wf.tasks[t], state);
        t += 1;
    }
    StatusOutput {
        workflow_id: state.workflow_id.clone(),
        workflow: state.workflow.clone(),
        started_at: state.started_at.clone(),
        tasks: items,
    }
}

/// Formats a status as a table for the terminal, under three header lines.
pub fn format_status_table(output: &StatusOutput) -> (r: String)
    ensures
        r@ == status_table_text(*output),
{
    let header = vec![own("TASK ID"), own("DESCRIPTION"), own("STATUS")];
    let mut rows: Vec<Vec<String>> = Vec::new();
    let mut i: usize = 0;
    while i < output.tasks.len()
        invariant
            i <= output.tasks.len(),
            rows_view(rows@) == output.tasks@.subrange(0, i as int).map_values(|i: TaskStatusItem| seq![i.id@, i.task@, i.status@]),
        decreases output.tasks.len() - i,
    {
        let item = &output.tasks[i];
        let row = vec![item.id.clone(), item.task.clone(), item.status.clone()];
        let ghost before = rows@;
        rows.push(row);
        proof {
            assert(views(row@) =~= seq![item.id@, item.task@, item.status@]);
            assert(rows@ == before.push(row));
            assert(rows_view(rows@) =~= rows_view(before).push(views(row@)));
            assert(output.tasks@.subrange(0, i + 1) =~= output.tasks@.subrange(0, i as int).push(output.tasks@[i as int]));
            assert(rows_view(rows@) =~= output.tasks@.subrange(0, i + 1).map_values(|i: TaskStatusItem| seq![i.id@, i.task@, i.status@]));
        }
        i += 1;
    }
    proof {
        assert(output.tasks@.subrange(0, output.tasks@.len() as int) =~= output.tasks@);
        assert(views(header@) =~= seq!["TASK ID"@, "DESCRIPTION"@, "STATUS"@]);
    }
    let table = render_table(header, rows);
    let mut m = own("Session : ");
    m.append(output.workflow_id.as_str());
    m.append("\nWorkflow: ");
    m.append(output.workflow.as_str());
    m.append("\nStarted : ");
    m.append(output.started_at.as_str());
    m.append("\n\n");
    m.append(table.as_str());
    m
}

/// The keys of the config's variables, in config order.
pub fn var_names(config: &Config) -> (r: Vec<String>)
    ensures
        views(r@) == var_keys(*config),
{
    let mut r: Vec<String> = Vec::new();
    let mut i: usize = 0;
    while i < config.vars.len()
        invariant
            i <= config.vars.len(),
            views(r@) == var_keys(*config).subrange(0, i as int),
        decreases config.vars.len() - i,
    {
        let ghost before = r@;
        r.push(config.vars[i].key.clone());
        proof {
            assert(views(r@) =~= views(before).push(config.vars@[i as int].key@));
            assert(var_keys(*config).subrange(0, i + 1) =~= var_keys(*config).subrange(0, i as int).push(var_keys(*config)[i as int]));
            assert(views(r@) =~= var_keys(*config).subrange(0, i + 1));
        }
        i += 1;
    }
    proof {
        assert(var_keys(*config).subrange(0, config.vars@.len() as int) =~= var_keys(*config));
    }
    r
}

/// The validation result of a merged config: when valid, the variable keys
/// sorted; otherwise every error, with the keys in config order.
pub fn validate_output(config: &Config) -> (r: ValidateOutput)
    ensures
        r.valid <==> config_errors(*config).len() == 0,
        r.workflow_count == config.workflows@.len(),
        r.valid ==> r.errors@.len() == 0 && sorted_by_key(r.vars@)
            && views(r.vars@).to_multiset() == var_keys(*config).to_multiset(),
        !r.valid ==> views(r.errors@) == config_errors(*config) && views(r.vars@) == var_keys(*config),
{
    let names = var_names(config);
    match validate(config) {
        Err(e) => ValidateOutput {
            valid: false,
            workflow_count: config.workflows.len(),
            vars: names,
            errors: e.errors,
        },
        Ok(()) => {
            let sorted = sort_by_key(names);
            proof {
                lemma_views_multiset(sorted@, names@);
            }
            ValidateOutput {
                valid: true,
                workflow_count: config.workflows.len(),
                vars: sorted,
                errors: Vec::new(),
            }
        },
    }
}

/// The validation result when the config could not be loaded at all: not
/// valid, no workflows, no variables, and the one error.
pub fn unloadable_output(error: String) -> (r: ValidateOutput)
    ensures
        !r.valid,
        r.workflow_count == 0,
        r.vars@.len() == 0,
        r.errors@ == seq![error],
{
    let mut errors: Vec<String> = Vec::new();
    errors.push(error);
    ValidateOutput { valid: false, workflow_count: 0, vars: Vec::new(), errors }
}

/// The validation result of loading a config: the loading error, or the
/// result of validating what was loaded (see `validate_output`).
pub fn validate_report(loaded: Result<Config, String>) -> (r: ValidateOutput)
    ensures
        loaded matches Err(e) ==> !r.valid && r.workflow_count == 0 && r.vars@.len() == 0 && r.errors@ == seq![e],
        loaded matches Ok(c) ==> {
            &&& (r.valid <==> config_errors(c).len() == 0)
            &&& r.workflow_count == c.workflows@.len()
            &&& r.valid ==> r.errors@.len() == 0 && sorted_by_key(r.vars@) && views(r.vars@).to_multiset() == var_keys(c).to_multiset()
            &&& !r.valid ==> views(r.errors@) == config_errors(c) && views(r.vars@) == var_keys(c)
        },
{
    match loaded {
        Ok(c) => validate_output(&c),
        Err(e) => unloadable_output(e),
    }
}

/// Strings with the same multiset have views with the same multiset.
proof fn lemma_views_multiset(a: Seq<String>, b: Seq<String>)
    requires
        a.to_multiset() == b.to_multiset(),
    ensures
        views(a).to_multiset() == views(b).to_multiset(),
{
    lemma_map_multiset(a, b, |s: String| s@);
}

/// The listing line of a workflow.
pub open spec fn list_item_for(e: WorkflowEntry) -> WorkflowListItem {
    WorkflowListItem {
        slug: e.slug,
        name: e.workflow.name,
        description: e.workflow.description,
        task_count: e.workflow.tasks@.len() as usize,
    }
}

/// The workflows of a config, sorted by slug.
pub fn list_workflows(config: &Config) -> (r: Vec<WorkflowListItem>)
    ensures
        sorted_by_key(r@),
        r@.to_multiset() == config.workflows@.map_values(|e: WorkflowEntry| list_item_for(e)).to_multiset(),
{
    let mut items: Vec<WorkflowListItem> = Vec::new();
    let mut i: usize = 0;
    while i < config.workflows.len()
        invariant
            i <= config.workflows.len(),
            items@ == config.workflows@.subrange(0, i as int).map_values(|e: WorkflowEntry| list_item_for(e)),
        decreases config.workflows.len() - i,
    {
        let e = &config.workflows[i];
        let item = WorkflowListItem {
            slug: e.slug.clone(),
            name: e.workflow.name.clone(),
            description: crate::config::copy_opt_string(&e.workflow.description),
            task_count: e.workflow.tasks.len(),
        };
        let ghost before = items@;
        items.push(item);
        proof {
            assert(item == list_item_for(*e));
            assert(config.workflows@.subrange(0, i + 1) =~= config.workflows@.subrange(0, i as int).push(*e));
            assert(items@ =~= config.workflows@.subrange(0, i + 1).map_values(|e: WorkflowEntry| list_item_for(e)));
        }
        i += 1;
    }
    proof {
        assert(config.workflows@.subrange(0, config.workflows@.len() as int) =~= config.workflows@);
    }
    sort_by_key(items)
}

} // verus!

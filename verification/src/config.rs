//! The configuration model: workflows, their tasks, variables and imports.
use crate::keys::{first_index, has_key, lemma_first_index_absent, lemma_first_index_found};
use crate::text::{own, str_eq};
use vstd::prelude::*;

verus! {

/// Explicit deny rules for files and shell commands.
#[derive(Debug, Clone)]
pub struct DenyRules {
    /// File path patterns forbidden from editing (glob or /regex/).
    pub files: Vec<String>,
    /// Shell command patterns forbidden from running (substring or /regex/ match).
    pub commands: Vec<String>,
}

/// One task in a workflow.
///
/// Task modes (mutually exclusive; checked by `validate`):
/// - `prompt` and/or `skills`: automated task executed by an agent.
/// - `agents`: parallel custom-agent task; each element names a custom agent definition.
/// - Neither: manual task, which needs a `task` name.
#[derive(Debug, Clone)]
pub struct Task {
    /// Unique task identifier within the workflow. Pattern: `^[a-z][a-z0-9_-]*$`
    pub id: String,
    /// Concise task name shown in the task list. Required for manual tasks.
    pub task: Option<String>,
    /// Prompt sent to the agent. Supports `{{vars.<key>}}` interpolation.
    pub prompt: Option<String>,
    /// Names of the skills the task invokes.
    pub skills: Vec<String>,
    /// Names of custom agents to spawn in parallel.
    pub agents: Vec<String>,
    /// IDs of the tasks that must complete before the task starts.
    pub requires: Vec<String>,
    /// File path patterns the agent may create or modify while the task is in progress.
    pub outputs: Vec<String>,
    /// Explicit deny rules for files and shell commands.
    pub deny: Option<DenyRules>,
    /// If true, the workflow pauses once the task completes, awaiting approval.
    pub approval: bool,
}

/// A named workflow: an ordered list of tasks.
#[derive(Debug, Clone)]
pub struct Workflow {
    pub name: String,
    pub description: Option<String>,
    pub tasks: Vec<Task>,
}

/// One named variable, used as `{{vars.<key>}}` in prompts.
#[derive(Debug, Clone)]
pub struct Var {
    pub key: String,
    pub value: String,
}

/// A workflow under its slug.
#[derive(Debug, Clone)]
pub struct WorkflowEntry {
    pub slug: String,
    pub workflow: Workflow,
}

/// A config file, or the merge of a config file and its imports.
#[derive(Debug, Clone)]
pub struct Config {
    /// Additional files to merge, relative to `.workflow/`.
    pub imports: Vec<String>,
    /// Named variables; where a key occurs twice, the first entry counts.
    pub vars: Vec<Var>,
    /// Workflows by slug. Loading refuses a slug defined twice; where one
    /// occurs twice all the same, the first entry counts.
    pub workflows: Vec<WorkflowEntry>,
}

impl Default for DenyRules {
    fn default() -> (r: DenyRules)
        ensures
            r.files@.len() == 0,
            r.commands@.len() == 0,
    {
        DenyRules { files: Vec::new(), commands: Vec::new() }
    }
}

impl Default for Task {
    fn default() -> (r: Task)
        ensures
            r.id@.len() == 0,
            r.task is None,
            r.prompt is None,
            r.skills@.len() == 0,
            r.agents@.len() == 0,
            r.requires@.len() == 0,
            r.outputs@.len() == 0,
            r.deny is None,
            !r.approval,
    {
        Task {
            id: String::new(),
            task: None,
            prompt: None,
            skills: Vec::new(),
            agents: Vec::new(),
            requires: Vec::new(),
            outputs: Vec::new(),
            deny: None,
            approval: false,
        }
    }
}

/// The views of a sequence of strings.
pub open spec fn views(v: Seq<String>) -> Seq<Seq<char>> {
    v.map_values(|s: String| s@)
}

/// The ids of a workflow's tasks, in order.
pub open spec fn task_ids(wf: Workflow) -> Seq<Seq<char>> {
    wf.tasks@.map_values(|t: Task| t.id@)
}

/// The position of the task with the given id (first match).
pub open spec fn task_index(wf: Workflow, id: Seq<char>) -> Option<int> {
    first_index(task_ids(wf), id)
}

/// Whether the workflow declares a task with the given id.
pub open spec fn declares_task(wf: Workflow, id: Seq<char>) -> bool {
    has_key(task_ids(wf), id)
}

/// The slugs of a config's workflows, in order.
pub open spec fn slugs(c: Config) -> Seq<Seq<char>> {
    c.workflows@.map_values(|e: WorkflowEntry| e.slug@)
}

/// The workflow registered under `slug` (the first one), if any.
pub open spec fn workflow_named(c: Config, slug: Seq<char>) -> Option<Workflow> {
    match first_index(slugs(c), slug) {
        Some(i) => Some(c.workflows@[i].workflow),
        None => None,
    }
}

/// The keys of a config's variables, in order.
pub open spec fn var_keys(c: Config) -> Seq<Seq<char>> {
    c.vars@.map_values(|v: Var| v.key@)
}

/// The key under which an agent of a parent task keeps its state: `parent/agent`.
pub open spec fn agent_key(parent: Seq<char>, agent: Seq<char>) -> Seq<char> {
    parent + seq!['/'] + agent
}

/// Builds the state key `parent/agent`.
pub fn make_agent_key(parent: &str, agent: &str) -> (r: String)
    ensures
        r@ == agent_key(parent@, agent@),
{
    let mut k = own(parent);
    k.append("/");
    proof {
        reveal_strlit("/");
    }
    k.append(agent);
    k
}

/// A copy of a list of strings.
pub fn copy_strings(v: &Vec<String>) -> (r: Vec<String>)
    ensures
        r@ == v@,
{
    let mut r: Vec<String> = Vec::new();
    let mut i: usize = 0;
    while i < v.len()
        invariant
            i <= v.len(),
            r@ == v@.subrange(0, i as int),
        decreases v.len() - i,
    {
        r.push(v[i].clone());
        proof {
            assert(r@ =~= v@.subrange(0, i + 1));
        }
        i += 1;
    }
    proof {
        assert(r@ =~= v@);
    }
    r
}

/// A copy of an optional string.
pub fn copy_opt_string(s: &Option<String>) -> (r: Option<String>)
    ensures
        r == *s,
{
    match s {
        Some(x) => Some(x.clone()),
        None => None,
    }
}

impl DenyRules {
    /// A copy of these rules.
    pub fn duplicate(&self) -> (r: DenyRules)
        ensures
            r.files@ == self.files@,
            r.commands@ == self.commands@,
    {
        DenyRules { files: copy_strings(&self.files), commands: copy_strings(&self.commands) }
    }
}

impl Workflow {
    /// The position of the task with the given id, if it is declared.
    pub fn find_task(&self, id: &str) -> (r: Option<usize>)
        ensures
            r matches Some(i) ==> task_index(*self, id@) == Some(i as int),
            r matches Some(i) ==> i < self.tasks@.len() && self.tasks@[i as int].id@ == id@,
            r is None ==> task_index(*self, id@) is None,
            r is None <==> !declares_task(*self, id@),
    {
        let mut i: usize = 0;
        while i < self.tasks.len()
            invariant
                i <= self.tasks.len(),
                forall|j: int| 0 <= j < i ==> task_ids(*self)[j] != id@,
            decreases self.tasks.len() - i,
        {
            if str_eq(self.tasks[i].id.as_str(), id) {
                proof {
                    lemma_first_index_found(task_ids(*self), id@, i as int);
                }
                return Some(i);
            }
            i += 1;
        }
        proof {
            lemma_first_index_absent(task_ids(*self), id@);
        }
        None
    }
}

impl Config {
    /// The workflow registered under `slug`, if any.
    pub fn get_workflow(&self, slug: &str) -> (r: Option<&Workflow>)
        ensures
            r matches Some(w) ==> exists|i: int|
                first_index(slugs(*self), slug@) == Some(i) && self.workflows@[i].workflow == *w,
            r is None <==> !has_key(slugs(*self), slug@),
            r matches Some(w) ==> workflow_named(*self, slug@) == Some(*w),
            r is None ==> workflow_named(*self, slug@) is None,
    {
        let mut i: usize = 0;
        while i < self.workflows.len()
            invariant
                i <= self.workflows.len(),
                forall|j: int| 0 <= j < i ==> slugs(*self)[j] != slug@,
            decreases self.workflows.len() - i,
        {
            if str_eq(self.workflows[i].slug.as_str(), slug) {
                proof {
                    lemma_first_index_found(slugs(*self), slug@, i as int);
                }
                return Some(&self.workflows[i].workflow);
            }
            i += 1;
        }
        proof {
            lemma_first_index_absent(slugs(*self), slug@);
        }
        None
    }
}

} // verus!

//! The completion gate: a task may be marked completed only once what it
//! waits for is done.
use crate::config::{agent_key, make_agent_key, task_index, views, Workflow};
use crate::keys::{first_where, lemma_first_where_absent, lemma_first_where_found};
use crate::state::{status_of, StepStatus, StepView, WorkflowState};
use crate::text::{find_char, first_index_of, own};
use vstd::prelude::*;
use vstd::string::*;

verus! {

/// The outcome of a gate check.
pub struct GateResult {
    pub allowed: bool,
    pub reason: Option<String>,
}

/// Why a gate check refuses.
pub enum GateBlock {
    /// No task of the workflow has the (parent) id.
    UnknownTask,
    /// This required task is not completed yet.
    Require(Seq<char>),
    /// This agent of the task is not completed yet.
    Agent(Seq<char>),
}

/// The task id part of a step key, and whether the key names an agent
/// (`parent/agent`).
pub open spec fn split_step_key(id: Seq<char>) -> (Seq<char>, bool) {
    match first_index_of(id, '/') {
        Some(i) => (id.subrange(0, i), true),
        None => (id, false),
    }
}

/// The state keys of the agents of task `id`.
pub open spec fn agent_keys(id: Seq<char>, agents: Seq<Seq<char>>) -> Seq<Seq<char>> {
    agents.map_values(|a: Seq<char>| agent_key(id, a))
}

/// Not completed (a key without state counts as pending).
pub open spec fn not_completed(steps: Map<Seq<char>, StepView>) -> spec_fn(Seq<char>) -> bool {
    |k: Seq<char>| status_of(steps, k) != StepStatus::Completed
}

/// What stops step `id` from completing, if anything. An agent step passes
/// once its parent task exists; a task waits for every requirement and every
/// agent of its own to be completed.
pub open spec fn gate_block(wf: Workflow, steps: Map<Seq<char>, StepView>, id: Seq<char>) -> Option<GateBlock> {
    let (cfg_id, is_agent) = split_step_key(id);
    match task_index(wf, cfg_id) {
        None => Some(GateBlock::UnknownTask),
        Some(t) => {
            if is_agent {
                None
            } else {
                let reqs = views(wf.tasks@[t].requires@);
                match first_where(reqs, not_completed(steps)) {
                    Some(k) => Some(GateBlock::Require(reqs[k])),
                    None => {
                        let agents = views(wf.tasks@[t].agents@);
                        match first_where(agent_keys(id, agents), not_completed(steps)) {
                            Some(k) => Some(GateBlock::Agent(agents[k])),
                            None => None,
                        }
                    },
                }
            }
        },
    }
}

/// The message that explains a refusal for step `id`.
pub open spec fn block_reason(id: Seq<char>, b: GateBlock) -> Seq<char> {
    match b {
        GateBlock::UnknownTask => "task '"@ + id + "' not found in config.yml"@,
        GateBlock::Require(r) => "task '"@ + id + "' cannot complete until '"@ + r + "' is done"@,
        GateBlock::Agent(a) => "task '"@ + id + "' cannot complete until agent '"@ + a + "' is done"@,
    }
}

/// Builds `"task '<id>'" + rest_a + b + rest_b`.
fn task_message(id: &str, mid: &str, b: &str, tail: &str) -> (r: String)
    ensures
        r@ == "task '"@ + id@ + mid@ + b@ + tail@,
{
    let mut m = own("task '");
    m.append(id);
    m.append(mid);
    m.append(b);
    m.append(tail);
    m
}

proof fn lemma_gate_require(wf: Workflow, steps: Map<Seq<char>, StepView>, id: Seq<char>, t: int, k: int)
    requires
        split_step_key(id) == (id, false),
        task_index(wf, id) == Some(t),
        first_where(views(wf.tasks@[t].requires@), not_completed(steps)) == Some(k),
    ensures
        gate_block(wf, steps, id) == Some(GateBlock::Require(views(wf.tasks@[t].requires@)[k])),
{
}

proof fn lemma_gate_agent(wf: Workflow, steps: Map<Seq<char>, StepView>, id: Seq<char>, t: int, k: int)
    requires
        split_step_key(id) == (id, false),
        task_index(wf, id) == Some(t),
        first_where(views(wf.tasks@[t].requires@), not_completed(steps)) is None,
        first_where(agent_keys(id, views(wf.tasks@[t].agents@)), not_completed(steps)) == Some(k),
    ensures
        gate_block(wf, steps, id) == Some(GateBlock::Agent(views(wf.tasks@[t].agents@)[k])),
{
}

/// Checks whether the given step can transition to completed.
#[verifier::rlimit(40)]
pub fn check(wf: &Workflow, state: &WorkflowState, task_id: &str) -> (r: GateResult)
    ensures
        r.allowed == gate_block(*wf, state@.steps, task_id@) is None,
        match gate_block(*wf, state@.steps, task_id@) {
            None => r.reason is None,
            Some(b) => r.reason matches Some(m) && m@ == block_reason(task_id@, b),
        },
{
    let (cfg_id, is_agent) = match find_char(task_id, '/') {
        Some(i) => (task_id.substring_char(0, i), true),
        None => (task_id, false),
    };
    proof {
        assert(cfg_id@ == split_step_key(task_id@).0);
        assert(is_agent == split_step_key(task_id@).1);
    }
    let t = match wf.find_task(cfg_id) {
        Some(t) => t,
        None => {
            let m = task_message(task_id, "", "", "' not found in config.yml");
            proof {
                reveal_strlit("");
                assert(m@ =~= block_reason(task_id@, GateBlock::UnknownTask));
            }
            return GateResult { allowed: false, reason: Some(m) };
        },
    };
    if is_agent {
        return GateResult { allowed: true, reason: None };
    }
    let task = &wf.tasks[t];
    let ghost reqs = views(task.requires@);
    let mut i: usize = 0;
    while i < task.requires.len()
        invariant
            t < wf.tasks@.len(),
            task_index(*wf, task_id@) == Some(t as int),
            split_step_key(task_id@) == (task_id@, false),
            *task == wf.tasks@[t as int],
            reqs == views(task.requires@),
            i <= task.requires.len(),
            forall|j: int| 0 <= j < i ==> !not_completed(state@.steps)(reqs[j]),
        decreases task.requires.len() - i,
    {
        let req = task.requires[i].as_str();
        if state.status_at(req) != StepStatus::Completed {
            let m = task_message(task_id, "' cannot complete until '", req, "' is done");
            proof {
                assert(reqs[i as int] == req@);
                lemma_first_where_found(reqs, not_completed(state@.steps), i as int);
                lemma_gate_require(*wf, state@.steps, task_id@, t as int, i as int);
            }
            return GateResult { allowed: false, reason: Some(m) };
        }
        i += 1;
    }
    proof {
        lemma_first_where_absent(reqs, not_completed(state@.steps));
    }
    let ghost agents = views(task.agents@);
    let ghost akeys = agent_keys(task_id@, agents);
    let mut a: usize = 0;
    while a < task.agents.len()
        invariant
            t < wf.tasks@.len(),
            task_index(*wf, task_id@) == Some(t as int),
            split_step_key(task_id@) == (task_id@, false),
            first_where(views(wf.tasks@[t as int].requires@), not_completed(state@.steps)) is None,
            *task == wf.tasks@[t as int],
            agents == views(task.agents@),
            akeys == agent_keys(task_id@, agents),
            a <= task.agents.len(),
            forall|j: int| 0 <= j < a ==> !not_completed(state@.steps)(akeys[j]),
        decreases task.agents.len() - a,
    {
        let key = make_agent_key(task_id, task.agents[a].as_str());
        if state.status_at(key.as_str()) != StepStatus::Completed {
            let m = task_message(task_id, "' cannot complete until agent '", task.agents[a].as_str(), "' is done");
            proof {
                assert(akeys[a as int] == key@);
                lemma_first_where_found(akeys, not_completed(state@.steps), a as int);
                lemma_gate_agent(*wf, state@.steps, task_id@, t as int, a as int);
                assert(agents[a as int] == task.agents@[a as int]@);
            }
            return GateResult { allowed: false, reason: Some(m) };
        }
        a += 1;
    }
    proof {
        lemma_first_where_absent(akeys, not_completed(state@.steps));
    }
    GateResult { allowed: true, reason: None }
}

} // verus!

//! Execution state of a workflow run: one step state per task, and per agent of
//! an agents task under the key `parent/agent`.
use crate::config::{
    agent_key, copy_opt_string, make_agent_key, task_index, views, Task, Workflow,
};
use crate::keys::{
    distinct, first_index, has_key, lemma_first_index_absent, lemma_first_index_facts,
    lemma_first_index_found,
};
use crate::rows::rfc3339_utc;
use crate::text::{own, str_eq};
use vstd::prelude::*;

verus! {

/// Status of one step (a task, or one agent of an agents task).
#[derive(Debug, Clone, Copy, PartialEq, Eq, Structural)]
pub enum StepStatus {
    Pending,
    InProgress,
    Completed,
    /// Reserved: no transition leads here yet; treated like `Completed` by scheduling.
    Failed,
}

/// One recorded action on a step (a report, a completion note, a rejection, a pause).
#[derive(Debug, Clone)]
pub struct ActionReport {
    pub action_index: usize,
    pub action_type: String,
    pub exit_code: Option<i32>,
    pub stdout: Option<String>,
    /// RFC 3339 timestamp.
    pub recorded_at: String,
}

/// State of one step. Timestamps are RFC 3339 strings.
#[derive(Debug, Clone)]
pub struct StepState {
    pub status: StepStatus,
    pub started_at: Option<String>,
    pub completed_at: Option<String>,
    pub updated_at: Option<String>,
    pub action_reports: Vec<ActionReport>,
}

/// A step state under its key: a task id, or `parent/agent`.
#[derive(Debug, Clone)]
pub struct StepEntry {
    pub key: String,
    pub state: StepState,
}

/// The state of one workflow run.
#[derive(Debug, Clone)]
pub struct WorkflowState {
    pub workflow_id: String,
    pub workflow: String,
    /// RFC 3339 timestamp.
    pub started_at: String,
    /// Step states; no key occurs twice (see `state_wf`).
    pub tasks: Vec<StepEntry>,
}

/// The mathematical value of an action report.
pub struct ReportView {
    pub action_index: usize,
    pub action_type: Seq<char>,
    pub exit_code: Option<i32>,
    pub stdout: Option<Seq<char>>,
    pub recorded_at: Seq<char>,
}

/// The mathematical value of a step state.
pub struct StepView {
    pub status: StepStatus,
    pub started_at: Option<Seq<char>>,
    pub completed_at: Option<Seq<char>>,
    pub updated_at: Option<Seq<char>>,
    pub reports: Seq<ReportView>,
}

/// The mathematical value of a workflow run: its identity and a map from step
/// keys to step states.
pub struct StateView {
    pub workflow_id: Seq<char>,
    pub workflow: Seq<char>,
    pub started_at: Seq<char>,
    pub steps: Map<Seq<char>, StepView>,
}

/// The view of an optional string.
pub open spec fn opt_view(o: Option<String>) -> Option<Seq<char>> {
    match o {
        Some(s) => Some(s@),
        None => None,
    }
}

impl View for ActionReport {
    type V = ReportView;

    open spec fn view(&self) -> ReportView {
        ReportView {
            action_index: self.action_index,
            action_type: self.action_type@,
            exit_code: self.exit_code,
            stdout: opt_view(self.stdout),
            recorded_at: self.recorded_at@,
        }
    }
}

/// The views of a sequence of action reports.
pub open spec fn reports_view(r: Seq<ActionReport>) -> Seq<ReportView> {
    r.map_values(|a: ActionReport| a@)
}

impl View for StepState {
    type V = StepView;

    open spec fn view(&self) -> StepView {
        StepView {
            status: self.status,
            started_at: opt_view(self.started_at),
            completed_at: opt_view(self.completed_at),
            updated_at: opt_view(self.updated_at),
            reports: reports_view(self.action_reports@),
        }
    }
}

/// The keys of a sequence of step entries, in order.
pub open spec fn entry_keys(entries: Seq<StepEntry>) -> Seq<Seq<char>> {
    entries.map_values(|e: StepEntry| e.key@)
}

/// The map from key to step state that a sequence of entries describes
/// (the first entry under a key wins).
pub open spec fn entries_map(entries: Seq<StepEntry>) -> Map<Seq<char>, StepView> {
    Map::new(
        |k: Seq<char>| has_key(entry_keys(entries), k),
        |k: Seq<char>| entries[first_index(entry_keys(entries), k).unwrap()].state@,
    )
}

impl View for WorkflowState {
    type V = StateView;

    open spec fn view(&self) -> StateView {
        StateView {
            workflow_id: self.workflow_id@,
            workflow: self.workflow@,
            started_at: self.started_at@,
            steps: entries_map(self.tasks@),
        }
    }
}

/// A state holds each step key once.
pub open spec fn state_wf(st: WorkflowState) -> bool {
    distinct(entry_keys(st.tasks@))
}

/// The initial (default) step value: pending, no timestamps, no reports.
pub open spec fn initial_step() -> StepView {
    StepView {
        status: StepStatus::Pending,
        started_at: None,
        completed_at: None,
        updated_at: None,
        reports: Seq::empty(),
    }
}

/// The step value under `key`, or the initial value where none is recorded.
pub open spec fn step_or_initial(steps: Map<Seq<char>, StepView>, key: Seq<char>) -> StepView {
    if steps.contains_key(key) {
        steps[key]
    } else {
        initial_step()
    }
}

/// The status under `key`; a key without a recorded state counts as pending.
pub open spec fn status_of(steps: Map<Seq<char>, StepView>, key: Seq<char>) -> StepStatus {
    step_or_initial(steps, key).status
}

/// `key` names a step of task `t`: the task itself or one of its agents.
pub open spec fn key_of_task(t: Task, key: Seq<char>) -> bool {
    key == t.id@ || exists|a: int| 0 <= a < t.agents@.len() && key == agent_key(t.id@, t.agents@[a]@)
}

/// `key` names a step of one of the first `n` tasks of `wf`.
pub open spec fn key_of_tasks(wf: Workflow, n: int, key: Seq<char>) -> bool {
    exists|t: int| 0 <= t < n && key_of_task(#[trigger] wf.tasks@[t], key)
}

/// The step keys a run of `wf` starts with.
pub open spec fn key_of_workflow(wf: Workflow, key: Seq<char>) -> bool {
    key_of_tasks(wf, wf.tasks@.len() as int, key)
}

pub proof fn lemma_push_entry(entries: Seq<StepEntry>, e: StepEntry)
    requires
        distinct(entry_keys(entries)),
        !has_key(entry_keys(entries), e.key@),
    ensures
        distinct(entry_keys(entries.push(e))),
        entries_map(entries.push(e)) == entries_map(entries).insert(e.key@, e.state@),
{
    let ks = entry_keys(entries);
    let ks2 = entry_keys(entries.push(e));
    assert(ks2 =~= ks.push(e.key@));
    assert forall|k: Seq<char>| #[trigger] has_key(ks2, k) <==> has_key(ks, k) || k == e.key@ by {
        if has_key(ks2, k) {
            let i = choose|i: int| 0 <= i < ks2.len() && ks2[i] == k;
            if i < ks.len() {
                assert(ks[i] == k);
            }
        }
        if has_key(ks, k) {
            let i = choose|i: int| 0 <= i < ks.len() && ks[i] == k;
            assert(ks2[i] == k);
        }
        if k == e.key@ {
            assert(ks2[ks.len() as int] == k);
        }
    }
    assert forall|k: Seq<char>| has_key(ks, k) implies first_index(ks2, k) == first_index(ks, k) by {
        lemma_first_index_facts(ks, k);
        let i = first_index(ks, k).unwrap();
        lemma_first_index_found(ks2, k, i);
    }
    assert(first_index(ks2, e.key@) == Some(ks.len() as int)) by {
        lemma_first_index_found(ks2, e.key@, ks.len() as int);
    }
    assert(entries_map(entries.push(e)) =~= entries_map(entries).insert(e.key@, e.state@)) by {
        assert forall|k: Seq<char>| has_key(ks, k) implies #[trigger] entries.push(e)[first_index(ks2, k).unwrap()]
            == entries[first_index(ks, k).unwrap()] by {
            lemma_first_index_facts(ks, k);
        }
    }
}

pub proof fn lemma_update_entry(entries: Seq<StepEntry>, i: int, e: StepEntry)
    requires
        distinct(entry_keys(entries)),
        0 <= i < entries.len(),
        e.key@ == entries[i].key@,
    ensures
        distinct(entry_keys(entries.update(i, e))),
        entries_map(entries.update(i, e)) == entries_map(entries).insert(e.key@, e.state@),
{
    let ks = entry_keys(entries);
    let ks2 = entry_keys(entries.update(i, e));
    assert(ks2 =~= ks);
    assert(first_index(ks, e.key@) == Some(i)) by {
        lemma_first_index_found(ks, e.key@, i);
    }
    assert forall|k: Seq<char>| has_key(ks, k) && k != e.key@ implies first_index(ks, k).unwrap()
        != i by {
        lemma_first_index_facts(ks, k);
    }
    assert(entries_map(entries.update(i, e)) =~= entries_map(entries).insert(e.key@, e.state@));
}

impl Default for StepState {
    fn default() -> (r: StepState)
        ensures
            r@ == initial_step(),
    {
        let r = StepState {
            status: StepStatus::Pending,
            started_at: None,
            completed_at: None,
            updated_at: None,
            action_reports: Vec::new(),
        };
        assert(reports_view(r.action_reports@) =~= Seq::<ReportView>::empty());
        r
    }
}

/// Swaps `e` into position `i` and hands back what stood there.
pub fn swap_entry(tasks: &mut Vec<StepEntry>, i: usize, e: StepEntry) -> (prev: StepEntry)
    requires
        i < old(tasks)@.len(),
    ensures
        prev == old(tasks)@[i as int],
        final(tasks)@ == old(tasks)@.update(i as int, e),
{
    let prev = tasks.remove(i);
    tasks.insert(i, e);
    proof {
        assert(final(tasks)@ =~= old(tasks)@.update(i as int, e));
    }
    prev
}

impl WorkflowState {
    /// The position of the entry under `key`, if one is recorded.
    pub fn find(&self, key: &str) -> (r: Option<usize>)
        ensures
            r matches Some(i) ==> first_index(entry_keys(self.tasks@), key@) == Some(i as int),
            r matches Some(i) ==> i < self.tasks@.len() && self.tasks@[i as int].key@ == key@
                && self@.steps[key@] == self.tasks@[i as int].state@,
            r is None <==> !self@.steps.contains_key(key@),
    {
        let mut i: usize = 0;
        while i < self.tasks.len()
            invariant
                i <= self.tasks.len(),
                forall|j: int| 0 <= j < i ==> entry_keys(self.tasks@)[j] != key@,
            decreases self.tasks.len() - i,
        {
            if str_eq(self.tasks[i].key.as_str(), key) {
                proof {
                    lemma_first_index_found(entry_keys(self.tasks@), key@, i as int);
                    assert(entry_keys(self.tasks@)[i as int] == key@);
                }
                proof {
                    assert(self@.steps.contains_key(key@));
                }
                return Some(i);
            }
            i += 1;
        }
        proof {
            lemma_first_index_absent(entry_keys(self.tasks@), key@);
        }
        None
    }

    /// The status recorded under `key`, pending where none is recorded.
    pub fn status_at(&self, key: &str) -> (r: StepStatus)
        ensures
            r == status_of(self@.steps, key@),
    {
        match self.find(key) {
            Some(i) => {
                proof {
                    lemma_first_index_facts(entry_keys(self.tasks@), key@);
                }
                self.tasks[i].state.status
            },
            None => StepStatus::Pending,
        }
    }

    /// The position of the entry under `key`, adding an initial entry there
    /// first when none is recorded.
    pub fn entry(&mut self, key: &str) -> (r: usize)
        requires
            state_wf(*old(self)),
        ensures
            state_wf(*final(self)),
            r < final(self).tasks@.len(),
            final(self).tasks@[r as int].key@ == key@,
            final(self).tasks@[r as int].state@ == step_or_initial(old(self)@.steps, key@),
            final(self)@.steps == old(self)@.steps.insert(key@, step_or_initial(old(self)@.steps, key@)),
            final(self).workflow_id == old(self).workflow_id,
            final(self).workflow == old(self).workflow,
            final(self).started_at == old(self).started_at,
            old(self)@.steps.contains_key(key@) ==> final(self).tasks@ == old(self).tasks@,
            !old(self)@.steps.contains_key(key@) ==> final(self).tasks@.len() == old(self).tasks@.len() + 1,
    {
        match self.find(key) {
            Some(i) => {
                proof {
                    lemma_first_index_facts(entry_keys(self.tasks@), key@);
                    assert(self@.steps =~= self@.steps.insert(key@, step_or_initial(self@.steps, key@)));
                }
                i
            },
            None => {
                let e = StepEntry { key: own(key), state: StepState::default() };
                proof {
                    lemma_push_entry(self.tasks@, e);
                }
                self.tasks.push(e);
                self.tasks.len() - 1
            },
        }
    }

    /// Replaces the step state at position `i`, keeping its key.
    pub fn set_state(&mut self, i: usize, s: StepState)
        requires
            state_wf(*old(self)),
            i < old(self).tasks@.len(),
        ensures
            state_wf(*final(self)),
            final(self).tasks@.len() == old(self).tasks@.len(),
            final(self).tasks@[i as int].key@ == old(self).tasks@[i as int].key@,
            final(self)@.steps == old(self)@.steps.insert(old(self).tasks@[i as int].key@, s@),
            final(self).workflow_id == old(self).workflow_id,
            final(self).workflow == old(self).workflow,
            final(self).started_at == old(self).started_at,
    {
        let placeholder = StepEntry { key: String::new(), state: StepState::default() };
        let prev = swap_entry(&mut self.tasks, i, placeholder);
        let e = StepEntry { key: prev.key, state: s };
        proof {
            let ghost orig = old(self).tasks@;
            assert(self.tasks@.update(i as int, e) =~= orig.update(i as int, e));
            lemma_update_entry(orig, i as int, e);
        }
        swap_entry(&mut self.tasks, i, e);
    }

    /// Takes the step state at position `i` out, leaving an initial state there.
    pub fn take_state(&mut self, i: usize) -> (r: StepState)
        requires
            state_wf(*old(self)),
            i < old(self).tasks@.len(),
        ensures
            r == old(self).tasks@[i as int].state,
            state_wf(*final(self)),
            final(self).tasks@.len() == old(self).tasks@.len(),
            final(self).tasks@[i as int].key@ == old(self).tasks@[i as int].key@,
            final(self)@.steps == old(self)@.steps.insert(old(self).tasks@[i as int].key@, initial_step()),
            final(self).workflow_id == old(self).workflow_id,
            final(self).workflow == old(self).workflow,
            final(self).started_at == old(self).started_at,
    {
        let placeholder = StepEntry { key: String::new(), state: StepState::default() };
        let prev = swap_entry(&mut self.tasks, i, placeholder);
        let e = StepEntry { key: prev.key, state: StepState::default() };
        proof {
            let ghost orig = old(self).tasks@;
            assert(self.tasks@.update(i as int, e) =~= orig.update(i as int, e));
            lemma_update_entry(orig, i as int, e);
        }
        swap_entry(&mut self.tasks, i, e);
        prev.state
    }

    /// Records an initial state under `key` unless one is already recorded.
    pub fn add_initial(&mut self, key: &str)
        requires
            state_wf(*old(self)),
        ensures
            state_wf(*final(self)),
            final(self)@.steps == old(self)@.steps.insert(key@, step_or_initial(old(self)@.steps, key@)),
            final(self).workflow_id == old(self).workflow_id,
            final(self).workflow == old(self).workflow,
            final(self).started_at == old(self).started_at,
    {
        let _ = self.entry(key);
    }

    /// A run of `wf` under the given identity: every task, and every agent of
    /// every agents task (as `parent/agent`), starts pending.
    pub fn with_identity(workflow_id: String, started_at: String, workflow_name: &str, wf: &Workflow) -> (r: WorkflowState)
        ensures
            r.workflow_id == workflow_id,
            r.started_at == started_at,
            r.workflow@ == workflow_name@,
            state_wf(r),
            forall|k: Seq<char>| #[trigger] r@.steps.contains_key(k) <==> key_of_workflow(*wf, k),
            forall|k: Seq<char>| #[trigger] r@.steps.contains_key(k) ==> r@.steps[k] == initial_step(),
    {
        let mut st = WorkflowState {
            workflow_id,
            workflow: own(workflow_name),
            started_at,
            tasks: Vec::new(),
        };
        proof {
            assert(st@.steps =~= Map::<Seq<char>, StepView>::empty());
        }
        let mut t: usize = 0;
        while t < wf.tasks.len()
            invariant
                t <= wf.tasks.len(),
                st.workflow_id == workflow_id,
                st.started_at == started_at,
                st.workflow@ == workflow_name@,
                state_wf(st),
                forall|k: Seq<char>| #[trigger] st@.steps.contains_key(k) <==> key_of_tasks(*wf, t as int, k),
                forall|k: Seq<char>| #[trigger] st@.steps.contains_key(k) ==> st@.steps[k] == initial_step(),
            decreases wf.tasks.len() - t,
        {
            let task = &wf.tasks[t];
            st.add_initial(task.id.as_str());
            let mut a: usize = 0;
            while a < task.agents.len()
                invariant
                    t < wf.tasks.len(),
                    *task == wf.tasks@[t as int],
                    a <= task.agents.len(),
                    st.workflow_id == workflow_id,
                    st.started_at == started_at,
                    st.workflow@ == workflow_name@,
                    state_wf(st),
                    forall|k: Seq<char>| #[trigger] st@.steps.contains_key(k) <==> (key_of_tasks(*wf, t as int, k)
                        || k == task.id@
                        || exists|b: int| 0 <= b < a && k == agent_key(task.id@, task.agents@[b]@)),
                    forall|k: Seq<char>| #[trigger] st@.steps.contains_key(k) ==> st@.steps[k] == initial_step(),
                decreases task.agents.len() - a,
            {
                let key = make_agent_key(task.id.as_str(), task.agents[a].as_str());
                st.add_initial(key.as_str());
                proof {
                    assert forall|k: Seq<char>| #[trigger] st@.steps.contains_key(k) <==> (key_of_tasks(*wf, t as int, k)
                        || k == task.id@
                        || exists|b: int| 0 <= b < a + 1 && k == agent_key(task.id@, task.agents@[b]@)) by {
                        if k == key@ {
                            assert(k == agent_key(task.id@, task.agents@[a as int]@));
                        }
                        if exists|b: int| 0 <= b < a + 1 && k == agent_key(task.id@, task.agents@[b]@) {
                            let b = choose|b: int| 0 <= b < a + 1 && k == agent_key(task.id@, task.agents@[b]@);
                            if b < a {
                            } else {
                                assert(k == key@);
                            }
                        }
                    }
                }
                a += 1;
            }
            proof {
                assert forall|k: Seq<char>| #[trigger] st@.steps.contains_key(k) <==> key_of_tasks(*wf, t + 1, k) by {
                    if key_of_tasks(*wf, t + 1, k) {
                        let u = choose|u: int| 0 <= u < t + 1 && key_of_task(#[trigger] wf.tasks@[u], k);
                        if u < t {
                            assert(key_of_tasks(*wf, t as int, k));
                        } else {
                            assert(key_of_task(wf.tasks@[t as int], k));
                            if k != task.id@ {
                                let b = choose|b: int| 0 <= b < task.agents@.len() && k == agent_key(task.id@, task.agents@[b]@);
                                assert(exists|b: int| 0 <= b < a && k == agent_key(task.id@, task.agents@[b]@));
                            }
                        }
                    }
                    if st@.steps.contains_key(k) {
                        if key_of_tasks(*wf, t as int, k) {
                            let u = choose|u: int| 0 <= u < t && key_of_task(#[trigger] wf.tasks@[u], k);
                            assert(key_of_task(wf.tasks@[u], k));
                        } else if k == task.id@ {
                            assert(key_of_task(wf.tasks@[t as int], k));
                        } else {
                            let b = choose|b: int| 0 <= b < a && k == agent_key(task.id@, task.agents@[b]@);
                            assert(key_of_task(wf.tasks@[t as int], k));
                        }
                    }
                }
            }
            t += 1;
        }
        st
    }

    /// A new run of `wf`: a fresh random id, the current time, and every step pending.
    pub fn new(workflow_name: &str, wf: &Workflow) -> (r: WorkflowState)
        ensures
            hyphenated_uuid(r.workflow_id@),
            r.workflow@ == workflow_name@,
            rfc3339_utc(r.started_at@) == Some(r.started_at@),
            state_wf(r),
            forall|k: Seq<char>| #[trigger] r@.steps.contains_key(k) <==> key_of_workflow(*wf, k),
            forall|k: Seq<char>| #[trigger] r@.steps.contains_key(k) ==> r@.steps[k] == initial_step(),
    {
        let id = new_workflow_id();
        let now = now_timestamp();
        WorkflowState::with_identity(id, now, workflow_name, wf)
    }
}

/// Some agent of `parent` (among `agents`) has left the pending state.
pub open spec fn any_agent_started(steps: Map<Seq<char>, StepView>, parent: Seq<char>, agents: Seq<Seq<char>>) -> bool {
    exists|a: int| 0 <= a < agents.len() && status_of(steps, agent_key(parent, agents[a])) != StepStatus::Pending
}

/// Syncing `parent` changes the state: it is an agents task of `wf`, one of
/// its agents has started, and the parent itself is still pending.
pub open spec fn sync_applies(wf: Workflow, steps: Map<Seq<char>, StepView>, parent: Seq<char>) -> bool {
    match task_index(wf, parent) {
        Some(t) => {
            &&& wf.tasks@[t].agents@.len() > 0
            &&& any_agent_started(steps, parent, views(wf.tasks@[t].agents@))
            &&& status_of(steps, parent) == StepStatus::Pending
        },
        None => false,
    }
}

/// `s` moved to in progress at time `now`.
pub open spec fn started_step(s: StepView, now: Seq<char>) -> StepView {
    StepView { status: StepStatus::InProgress, started_at: Some(now), ..s }
}

impl WorkflowState {
    /// Moves an agents task to in progress once any of its agents has left the
    /// pending state, stamping the start with `now`. It never completes the
    /// parent: that takes an explicit completion of the parent.
    pub fn sync_agents_parent_at(&mut self, parent_id: &str, wf: &Workflow, now: &str)
        requires
            state_wf(*old(self)),
        ensures
            state_wf(*final(self)),
            final(self).workflow_id == old(self).workflow_id,
            final(self).workflow == old(self).workflow,
            final(self).started_at == old(self).started_at,
            sync_applies(*wf, old(self)@.steps, parent_id@) ==> final(self)@.steps == old(self)@.steps.insert(
                parent_id@,
                started_step(step_or_initial(old(self)@.steps, parent_id@), now@),
            ),
            !sync_applies(*wf, old(self)@.steps, parent_id@) ==> final(self)@ == old(self)@,
    {
        let t = match wf.find_task(parent_id) {
            Some(t) => t,
            None => return ,
        };
        let task = &wf.tasks[t];
        if task.agents.len() == 0 {
            return ;
        }
        let mut any_started = false;
        let mut a: usize = 0;
        while a < task.agents.len()
            invariant
                *task == wf.tasks@[t as int],
                a <= task.agents.len(),
                any_started <==> exists|b: int| 0 <= b < a && status_of(self@.steps, agent_key(parent_id@, views(task.agents@)[b])) != StepStatus::Pending,
            decreases task.agents.len() - a,
        {
            let key = make_agent_key(parent_id, task.agents[a].as_str());
            if self.status_at(key.as_str()) != StepStatus::Pending {
                any_started = true;
            }
            proof {
                assert(views(task.agents@)[a as int] == task.agents@[a as int]@);
                if any_started {
                    if status_of(self@.steps, key@) != StepStatus::Pending {
                        assert(exists|b: int| 0 <= b < a + 1 && status_of(self@.steps, agent_key(parent_id@, views(task.agents@)[b])) != StepStatus::Pending);
                    }
                }
                if exists|b: int| 0 <= b < a + 1 && status_of(self@.steps, agent_key(parent_id@, views(task.agents@)[b])) != StepStatus::Pending {
                    let b = choose|b: int| 0 <= b < a + 1 && status_of(self@.steps, agent_key(parent_id@, views(task.agents@)[b])) != StepStatus::Pending;
                    if b == a {
                        assert(any_started);
                    }
                }
            }
            a += 1;
        }
        proof {
            assert(views(task.agents@).len() == task.agents@.len());
        }
        if !any_started {
            return ;
        }
        let ghost before = self@.steps;
        if self.status_at(parent_id) != StepStatus::Pending {
            return ;
        }
        let i = self.entry(parent_id);
        let mut s = self.take_state(i);
        s.status = StepStatus::InProgress;
        s.started_at = Some(own(now));
        self.set_state(i, s);
        proof {
            assert(self@.steps =~= before.insert(parent_id@, started_step(step_or_initial(before, parent_id@), now@)));
        }
    }

    /// `sync_agents_parent_at`, stamped with the current time.
    pub fn sync_agents_parent(&mut self, parent_id: &str, wf: &Workflow)
        requires
            state_wf(*old(self)),
        ensures
            state_wf(*final(self)),
            final(self).workflow_id == old(self).workflow_id,
            final(self).workflow == old(self).workflow,
            final(self).started_at == old(self).started_at,
            sync_applies(*wf, old(self)@.steps, parent_id@) ==> exists|now: Seq<char>| rfc3339_utc(now) == Some(now) && final(self)@.steps == old(self)@.steps.insert(
                parent_id@,
                started_step(step_or_initial(old(self)@.steps, parent_id@), now),
            ),
            !sync_applies(*wf, old(self)@.steps, parent_id@) ==> final(self)@ == old(self)@,
    {
        let now = now_timestamp();
        self.sync_agents_parent_at(parent_id, wf, now.as_str());
    }
}

/// The hyphenated form of a version-4 UUID: 36 characters, hyphens at
/// positions 8, 13, 18 and 23, the version digit `4` at 14, and lower-case
/// hexadecimal digits elsewhere.
pub open spec fn hyphenated_uuid(s: Seq<char>) -> bool {
    &&& s.len() == 36
    &&& s[14] == '4'
    &&& forall|i: int| 0 <= i < 36 ==> if i == 8 || i == 13 || i == 18 || i == 23 {
        #[trigger] s[i] == '-'
    } else {
        ('0' <= s[i] <= '9') || ('a' <= s[i] <= 'f')
    }
}

/// A fresh random version-4 UUID in its hyphenated form (`uuid::Uuid::new_v4`,
/// written by its `Display` impl, which formats it hyphenated in lower-case
/// hexadecimal). Which UUID it is, is not promised.
#[verifier::external_body]
pub(crate) fn new_workflow_id() -> (r: String)
    ensures
        hyphenated_uuid(r@),
{
    uuid::Uuid::new_v4().to_string()
}

/// The current UTC time as an RFC 3339 string (`chrono::Utc::now`,
/// `to_rfc3339`). Nothing is promised of which time it is; the text is in
/// the form that reading it back as RFC 3339 in UTC (`rfc3339_utc`) gives
/// unchanged, since chrono writes a UTC time as it reads it back.
#[verifier::external_body]
pub(crate) fn now_timestamp() -> (r: String)
    ensures
        rfc3339_utc(r@) == Some(r@),
{
    chrono::Utc::now().to_rfc3339()
}

} // verus!

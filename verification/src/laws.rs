//! Properties the library keeps across its operations, each proved over the
//! specifications the operations' contracts use.
use crate::config::{workflow_named, declares_task, task_index, views, Config, Task, Var, Workflow};
use crate::daemon::{tracks_known, event_effect, no_effects, unsent_ids, DaemonAction, DaemonEvent, Notice, RunView, StoredRun};
use crate::hooks::{command_answer_from, command_matcher, deny_commands, deny_files, edit_answer_from, path_matcher, task_command_answer, task_edit_answer, Decision};
use crate::loader::{first_clash, first_repeat, twice_msg, imports_result, node_result, slugs_of, var_map, workflow_map, ConfigFile, Merged};
use crate::patterns::{command_pattern_matches, pattern_matches};
use crate::settings::{
    built_vals, merged_vals, preserved_vals, target_commands, uncovered, foreign_command, own_prefix, EntryVal,
    command_of_handle, entry_val, entry_vals, handles_ok, resolved, resolved_entry, resolved_hook,
    built_entries, command_hooks, entry_covered, foreign_hooks, kept_entries, merged_entries, own_hook, preserved, HookEntry,
    HookItem, HookRefView, MergedView, TargetEntry,
};
use crate::dag::{executable_ids, executable_prefix, is_executable, parent_spec, workflow_complete};
use crate::executor::{is_next_output, placeholder, resolve_spec, resolve_upto, FlowStatus, WorkflowOutput};
use crate::gate::{agent_keys, gate_block, not_completed, split_step_key};
use crate::keys::{first_where, lemma_first_index_facts};
use crate::validate::config_errors;
use crate::state::{initial_step, status_of, step_or_initial, ReportView, StateView, StepStatus, StepView};
use crate::text::{contains_seq, has_prefix, occurs_at, replace_all};
use crate::transitions::{after_sync, completed_step, completed_steps, next_report, noted_step, rejected_step, reported_step, with_steps};
use crate::rows::{state_normal, step_normal, time_normal};
use vstd::prelude::*;

verus! {

/// A predicate that holds of some element holds of a first one.
proof fn lemma_first_where_some(s: Seq<Seq<char>>, p: spec_fn(Seq<char>) -> bool, j: int)
    requires
        0 <= j < s.len(),
        p(s[j]),
    ensures
        first_where(s, p) is Some,
{
}

/// The completion check holds a task back while one of its requirements is not
/// completed: completing it is refused.
pub proof fn law_gate_waits_for_requirements(wf: Workflow, steps: Map<Seq<char>, StepView>, id: Seq<char>, j: int)
    requires
        parent_spec(id) is None,
        declares_task(wf, id),
        0 <= j < wf.tasks@[task_index(wf, id).unwrap()].requires@.len(),
        status_of(steps, wf.tasks@[task_index(wf, id).unwrap()].requires@[j]@) != StepStatus::Completed,
    ensures
        gate_block(wf, steps, id) is Some,
{
    lemma_first_index_facts(crate::config::task_ids(wf), id);
    let t = task_index(wf, id).unwrap();
    assert(split_step_key(id) == (id, false));
    let reqs = views(wf.tasks@[t].requires@);
    assert(reqs[j] == wf.tasks@[t].requires@[j]@);
    lemma_first_where_some(reqs, not_completed(steps), j);
}

/// The completion check holds an agents task back while one of its agents is not
/// completed.
pub proof fn law_gate_waits_for_agents(wf: Workflow, steps: Map<Seq<char>, StepView>, id: Seq<char>, j: int)
    requires
        parent_spec(id) is None,
        declares_task(wf, id),
        0 <= j < wf.tasks@[task_index(wf, id).unwrap()].agents@.len(),
        status_of(steps, crate::config::agent_key(id, wf.tasks@[task_index(wf, id).unwrap()].agents@[j]@)) != StepStatus::Completed,
    ensures
        gate_block(wf, steps, id) is Some,
{
    lemma_first_index_facts(crate::config::task_ids(wf), id);
    let t = task_index(wf, id).unwrap();
    assert(split_step_key(id) == (id, false));
    let reqs = views(wf.tasks@[t].requires@);
    let keys = agent_keys(id, views(wf.tasks@[t].agents@));
    assert(keys[j] == crate::config::agent_key(id, wf.tasks@[t].agents@[j]@));
    lemma_first_where_some(keys, not_completed(steps), j);
}

/// Some task among the first `n` of `wf` has id `x` and is ready to run.
pub open spec fn ready_task(wf: Workflow, steps: Map<Seq<char>, StepView>, x: Seq<char>, n: int) -> bool {
    exists|i: int| 0 <= i < n && #[trigger] wf.tasks@[i].id@ == x && is_executable(wf, steps, wf.tasks@[i])
}

/// Every executable id is the id of a task that is ready: not completed,
/// not failed, its requirements met, and, for an agents task, not started.
pub proof fn law_executable_tasks_are_ready(wf: Workflow, steps: Map<Seq<char>, StepView>, j: int)
    requires
        0 <= j < executable_ids(wf, steps).len(),
    ensures
        ready_task(wf, steps, executable_ids(wf, steps)[j], wf.tasks@.len() as int),
{
    lemma_executable_prefix_ready(wf, steps, wf.tasks@.len() as int);
}

proof fn lemma_executable_prefix_ready(wf: Workflow, steps: Map<Seq<char>, StepView>, n: int)
    requires
        0 <= n <= wf.tasks@.len(),
    ensures
        forall|j: int| 0 <= j < executable_prefix(wf, steps, n).len() ==> ready_task(wf, steps, #[trigger] executable_prefix(wf, steps, n)[j], n),
    decreases n,
{
    if n > 0 {
        lemma_executable_prefix_ready(wf, steps, n - 1);
        let prev = executable_prefix(wf, steps, n - 1);
        assert forall|j: int| 0 <= j < executable_prefix(wf, steps, n).len() implies ready_task(wf, steps, #[trigger] executable_prefix(wf, steps, n)[j], n) by {
            if j < prev.len() {
                assert(executable_prefix(wf, steps, n)[j] == prev[j]);
                assert(ready_task(wf, steps, prev[j], n - 1));
                let i = choose|i: int| 0 <= i < n - 1 && #[trigger] wf.tasks@[i].id@ == prev[j] && is_executable(wf, steps, wf.tasks@[i]);
                assert(wf.tasks@[i].id@ == executable_prefix(wf, steps, n)[j]);
            } else {
                assert(wf.tasks@[n - 1].id@ == executable_prefix(wf, steps, n)[j]);
            }
        }
    }
}

/// The next set of tasks reports `Completed` exactly when every task is
/// completed, and `Blocked` exactly when the run is not over yet nothing
/// can run.
pub proof fn law_next_status(o: WorkflowOutput, wf: Workflow, st: crate::state::StateView, c: Config)
    requires
        is_next_output(o, wf, st, c),
    ensures
        o.status == FlowStatus::Completed <==> workflow_complete(wf, st.steps),
        o.status == FlowStatus::Blocked <==> !workflow_complete(wf, st.steps) && executable_ids(wf, st.steps).len() == 0,
{
}

/// Syncing an agents task's parent never completes a step: whatever is
/// completed afterwards was completed before.
pub proof fn law_sync_never_completes(wf: Workflow, steps: Map<Seq<char>, StepView>, id: Seq<char>, now: Seq<char>, k: Seq<char>)
    requires
        status_of(after_sync(wf, steps, id, now), k) == StepStatus::Completed,
    ensures
        status_of(steps, k) == StepStatus::Completed,
{
}

/// A report leaves the status of every step as it was.
pub proof fn law_report_keeps_statuses(
    steps: Map<Seq<char>, StepView>,
    task: Seq<char>,
    summary: Option<Seq<char>>,
    now: Seq<char>,
    k: Seq<char>,
)
    requires
        steps.contains_key(task),
    ensures
        status_of(steps.insert(task, noted_step(steps[task], "report"@, summary, now)), k) == status_of(steps, k),
{
}

/// A rejection puts the task back in progress and clears its completion time.
pub proof fn law_reject_reopens(steps: Map<Seq<char>, StepView>, task: Seq<char>, reason: Option<Seq<char>>, now: Seq<char>)
    ensures
        ({
            let after = steps.insert(task, rejected_step(step_or_initial(steps, task), reason, now));
            &&& status_of(after, task) == StepStatus::InProgress
            &&& after[task].completed_at is None
        }),
{
}

/// `p` followed by anything occurs where it occurs, so `p` occurs there too.
proof fn lemma_occurs_prefix(s: Seq<char>, p: Seq<char>, q: Seq<char>, i: int)
    requires
        occurs_at(s, p + q, i),
    ensures
        occurs_at(s, p, i),
{
    assert(s.subrange(i, i + p.len()) =~= (p + q).subrange(0, p.len() as int));
    assert((p + q).subrange(0, p.len() as int) =~= p);
}

/// Replacing a text that does not occur changes nothing.
proof fn lemma_replace_absent(s: Seq<char>, from: Seq<char>, to: Seq<char>)
    requires
        !contains_seq(s, from),
    ensures
        replace_all(s, from, to) == s,
    decreases s.len(),
{
    if from.len() == 0 {
        assert(occurs_at(s, from, 0)) by {
            assert(s.subrange(0, 0) =~= from);
        }
    }
    if s.len() > 0 {
        assert(!occurs_at(s, from, 0));
        assert(!contains_seq(s.skip(1), from)) by {
            if contains_seq(s.skip(1), from) {
                let i = choose|i: int| occurs_at(s.skip(1), from, i);
                assert(s.subrange(i + 1, i + 1 + from.len()) =~= s.skip(1).subrange(i, i + from.len()));
                assert(occurs_at(s, from, i + 1));
            }
        }
        lemma_replace_absent(s.skip(1), from, to);
        assert(seq![s[0]] + s.skip(1) =~= s);
    }
}

/// Resolving variables leaves a text without `{{vars.` as it is.
pub proof fn law_template_keeps_plain_text(s: Seq<char>, c: Config)
    requires
        !contains_seq(s, "{{vars."@),
    ensures
        resolve_spec(s, c) == s,
{
    lemma_resolve_plain(s, c, c.vars@.len() as int);
}

proof fn lemma_resolve_plain(s: Seq<char>, c: Config, n: int)
    requires
        !contains_seq(s, "{{vars."@),
    ensures
        resolve_upto(s, c.vars@, n) == s,
    decreases n,
{
    if n > 0 {
        lemma_resolve_plain(s, c, n - 1);
        let key = c.vars@[n - 1].key@;
        assert(!contains_seq(s, placeholder(key))) by {
            if contains_seq(s, placeholder(key)) {
                let i = choose|i: int| occurs_at(s, placeholder(key), i);
                assert(placeholder(key) == "{{vars."@ + (key + "}}"@)) by {
                    assert(placeholder(key) =~= "{{vars."@ + (key + "}}"@));
                }
                lemma_occurs_prefix(s, "{{vars."@, key + "}}"@, i);
            }
        }
        lemma_replace_absent(s, placeholder(key), c.vars@[n - 1].value@);
    }
}

/// With no variables defined, resolving leaves every text as it is.
pub proof fn law_template_without_vars(s: Seq<char>, c: Config)
    requires
        c.vars@.len() == 0,
    ensures
        resolve_spec(s, c) == s,
{
}

/// Placeholders of keys that are not defined are left as they are: a text
/// holding no placeholder of a defined key resolves to itself.
pub proof fn law_template_keeps_undefined_placeholders(s: Seq<char>, c: Config)
    requires
        forall|i: int| 0 <= i < c.vars@.len() ==> !contains_seq(s, placeholder(#[trigger] c.vars@[i].key@)),
    ensures
        resolve_spec(s, c) == s,
{
    lemma_resolve_undefined(s, c, c.vars@.len() as int);
}

proof fn lemma_resolve_undefined(s: Seq<char>, c: Config, n: int)
    requires
        n <= c.vars@.len(),
        forall|i: int| 0 <= i < c.vars@.len() ==> !contains_seq(s, placeholder(#[trigger] c.vars@[i].key@)),
    ensures
        resolve_upto(s, c.vars@, n) == s,
    decreases n,
{
    if n > 0 {
        lemma_resolve_undefined(s, c, n - 1);
        assert(!contains_seq(s, placeholder(c.vars@[n - 1].key@)));
        lemma_replace_absent(s, placeholder(c.vars@[n - 1].key@), c.vars@[n - 1].value@);
    }
}

/// `x` holds no `{`.
pub open spec fn no_open_brace(x: Seq<char>) -> bool {
    forall|i: int| 0 <= i < x.len() ==> x[i] != '{'
}

/// `x` holds neither `{` nor `}`.
pub open spec fn no_brace(x: Seq<char>) -> bool {
    forall|i: int| 0 <= i < x.len() ==> x[i] != '{' && x[i] != '}'
}

/// The opening of every placeholder.
pub open spec fn opening() -> Seq<char> {
    "{{vars."@
}

/// No placeholder can start inside `t`, whatever follows it: `t` holds no
/// `{{vars.`, and does not end in a beginning of it.
pub open spec fn plain_text(t: Seq<char>) -> bool {
    &&& !contains_seq(t, opening())
    &&& forall|j: int| 0 < j < opening().len() && j <= t.len() ==>
        #[trigger] t.subrange(t.len() - j, t.len() as int) != opening().subrange(0, j)
}

/// No placeholder starts inside a plain text.
proof fn lemma_no_placeholder_in_plain(t: Seq<char>, rest: Seq<char>, k: Seq<char>, i: int)
    requires
        plain_text(t),
        0 <= i < t.len(),
    ensures
        !occurs_at(t + rest, placeholder(k), i),
{
    let s = t + rest;
    let p = placeholder(k);
    let o = opening();
    reveal_strlit("{{vars.");
    assert(p == o + (k + "}}"@)) by {
        assert(p =~= o + (k + "}}"@));
    }
    if occurs_at(s, p, i) {
        assert forall|q: int| 0 <= q < o.len() implies s[i + q] == o[q] by {
            assert(s.subrange(i, i + p.len())[q] == p[q]);
        }
        if t.len() - i >= o.len() {
            assert(t.subrange(i, i + o.len()) =~= o) by {
                assert forall|q: int| 0 <= q < o.len() implies t.subrange(i, i + o.len())[q] == o[q] by {
                    assert(s[i + q] == t[i + q]);
                }
            }
            assert(occurs_at(t, o, i));
        } else {
            let j = t.len() - i;
            assert(t.subrange(t.len() - j, t.len() as int) =~= o.subrange(0, j)) by {
                assert forall|q: int| 0 <= q < j implies t.subrange(t.len() - j, t.len() as int)[q] == o.subrange(0, j)[q] by {
                    assert(s[i + q] == t[i + q]);
                }
            }
        }
    }
}

/// A replacement leaves a leading text in front as it is, where the text
/// replaced starts nowhere inside it.
proof fn lemma_replace_after_text(pre: Seq<char>, rest: Seq<char>, from: Seq<char>, to: Seq<char>)
    requires
        from.len() > 0,
        forall|i: int| 0 <= i < pre.len() ==> !occurs_at(pre + rest, from, i),
    ensures
        replace_all(pre + rest, from, to) == pre + replace_all(rest, from, to),
    decreases pre.len(),
{
    if pre.len() > 0 {
        let s = pre + rest;
        assert(!occurs_at(s, from, 0));
        assert(s.skip(1) =~= pre.skip(1) + rest);
        assert forall|i: int| 0 <= i < pre.skip(1).len() implies !occurs_at(pre.skip(1) + rest, from, i) by {
            if occurs_at(pre.skip(1) + rest, from, i) {
                assert(s.subrange(i + 1, i + 1 + from.len()) =~= (pre.skip(1) + rest).subrange(i, i + from.len()));
                assert(occurs_at(s, from, i + 1));
            }
        }
        lemma_replace_after_text(pre.skip(1), rest, from, to);
        assert(seq![s[0]] + (pre.skip(1) + replace_all(rest, from, to)) =~= pre + replace_all(rest, from, to));
    }
}

/// The keys of the config's variables hold no braces, and its values are
/// plain text.
pub open spec fn vars_brace_free(c: Config) -> bool {
    forall|i: int| 0 <= i < c.vars@.len() ==> #[trigger] var_brace_free(c.vars@[i])
}

/// The variable's key holds no braces, and its value is plain text.
pub open spec fn var_brace_free(v: Var) -> bool {
    no_brace(v.key@) && plain_text(v.value@)
}

proof fn lemma_var_brace_free(c: Config, i: int)
    requires
        vars_brace_free(c),
        0 <= i < c.vars@.len(),
    ensures
        no_brace(c.vars@[i].key@),
        plain_text(c.vars@[i].value@),
{
    assert(var_brace_free(c.vars@[i]));
}

/// The value of the first of the first `n` variables with key `k`.
pub open spec fn value_upto(vars: Seq<Var>, k: Seq<char>, n: int) -> Option<Seq<char>>
    decreases n,
{
    if n <= 0 {
        None
    } else {
        match value_upto(vars, k, n - 1) {
            Some(v) => Some(v),
            None => if vars[n - 1].key@ == k { Some(vars[n - 1].value@) } else { None },
        }
    }
}

/// A replacement leaves a leading text without `{` in front as it is, where
/// the text replaced starts with `{`.
proof fn lemma_replace_after_plain(pre: Seq<char>, rest: Seq<char>, from: Seq<char>, to: Seq<char>)
    requires
        no_open_brace(pre),
        from.len() > 0,
        from[0] == '{',
    ensures
        replace_all(pre + rest, from, to) == pre + replace_all(rest, from, to),
    decreases pre.len(),
{
    if pre.len() > 0 {
        let s = pre + rest;
        assert(!occurs_at(s, from, 0)) by {
            if occurs_at(s, from, 0) {
                assert(s.subrange(0, from.len() as int)[0] == from[0]);
            }
        }
        assert(s.skip(1) =~= pre.skip(1) + rest);
        lemma_replace_after_plain(pre.skip(1), rest, from, to);
        assert(seq![s[0]] + (pre.skip(1) + replace_all(rest, from, to)) =~= pre + replace_all(rest, from, to));
    }
}

/// The placeholder of another key, braces in neither, does not start where a
/// placeholder starts.
proof fn lemma_placeholder_not_at_start(k: Seq<char>, j: Seq<char>, b: Seq<char>)
    requires
        no_brace(k),
        no_brace(j),
        k != j,
    ensures
        !occurs_at(placeholder(k) + b, placeholder(j), 0),
{
    let s = placeholder(k) + b;
    let p = placeholder(j);
    reveal_strlit("{{vars.");
    reveal_strlit("}}");
    if occurs_at(s, p, 0) {
        assert(s.subrange(0, p.len() as int) == p);
        if j.len() < k.len() {
            assert(p[(7 + j.len()) as int] == '}');
            assert(s[(7 + j.len()) as int] == k[j.len() as int]);
            assert(s.subrange(0, p.len() as int)[(7 + j.len()) as int] == s[(7 + j.len()) as int]);
        } else if j.len() > k.len() {
            assert(s[(7 + k.len()) as int] == '}');
            assert(p[(7 + k.len()) as int] == j[k.len() as int]);
            assert(s.subrange(0, p.len() as int)[(7 + k.len()) as int] == s[(7 + k.len()) as int]);
        } else {
            assert forall|q: int| 0 <= q < k.len() implies k[q] == j[q] by {
                assert(s[7 + q] == k[q]);
                assert(p[7 + q] == j[q]);
                assert(s.subrange(0, p.len() as int)[7 + q] == s[7 + q]);
            }
            assert(k =~= j);
        }
    }
}

proof fn lemma_value_upto_no_brace(c: Config, k: Seq<char>, n: int)
    requires
        0 <= n <= c.vars@.len(),
        value_upto(c.vars@, k, n) is Some,
        vars_brace_free(c),
    ensures
        plain_text(value_upto(c.vars@, k, n)->Some_0),
    decreases n,
{
    if n > 0 {
        if value_upto(c.vars@, k, n - 1) is Some {
            lemma_value_upto_no_brace(c, k, n - 1);
        } else {
            lemma_var_brace_free(c, n - 1);
        }
    }
}

/// An in-progress task whose deny rules match a path blocks its editing,
/// whatever its outputs say: deny rules are weighed before outputs.
pub proof fn law_deny_files_block_before_outputs(t: Task, path: Seq<char>, k: int)
    requires
        0 <= k < deny_files(t).len(),
        pattern_matches(deny_files(t)[k], path),
    ensures
        task_edit_answer(t, path) matches Some((d, _)) && d == Decision::Block,
{
    lemma_first_where_some(deny_files(t), path_matcher(path), k);
}

/// A task without outputs never asks about an edit (it may only block one).
pub proof fn law_no_outputs_never_ask(t: Task, path: Seq<char>)
    requires
        t.outputs@.len() == 0,
    ensures
        !(task_edit_answer(t, path) matches Some((d, _)) && d == Decision::Ask),
{
}

/// While no task of the run is in progress, edits and commands pass.
pub proof fn law_idle_run_constrains_nothing(wf: Workflow, steps: Map<Seq<char>, StepView>, path: Seq<char>, command: Seq<char>)
    requires
        forall|i: int| 0 <= i < wf.tasks@.len() ==> status_of(steps, #[trigger] wf.tasks@[i].id@) != StepStatus::InProgress,
    ensures
        edit_answer_from(wf, steps, path, 0) is None,
        command_answer_from(wf, steps, command, 0) is None,
{
    lemma_idle_from(wf, steps, path, command, 0);
}

proof fn lemma_idle_from(wf: Workflow, steps: Map<Seq<char>, StepView>, path: Seq<char>, command: Seq<char>, i: int)
    requires
        0 <= i,
        forall|j: int| 0 <= j < wf.tasks@.len() ==> status_of(steps, #[trigger] wf.tasks@[j].id@) != StepStatus::InProgress,
    ensures
        edit_answer_from(wf, steps, path, i) is None,
        command_answer_from(wf, steps, command, i) is None,
    decreases wf.tasks@.len() - i,
{
    if i < wf.tasks@.len() {
        lemma_idle_from(wf, steps, path, command, i + 1);
        assert(status_of(steps, wf.tasks@[i].id@) != StepStatus::InProgress);
    }
}

/// Loading keeps every variable of a file as that file defines it: an
/// imported file never overrides it.
#[verifier::spinoff_prover]
pub proof fn law_own_vars_win(files: Seq<ConfigFile>, t: int, stack: Seq<bool>, i: int, c: Config, k: Seq<char>)
    requires
        imports_result(files, t, stack, i, c) is Ok,
        var_map(c).dom().contains(k),
    ensures
        imports_result(files, t, stack, i, c)->Ok_0.vars.dom().contains(k),
        imports_result(files, t, stack, i, c)->Ok_0.vars[k] == var_map(c)[k],
    decreases i,
{
    if i > 0 {
        law_own_vars_win(files, t, stack, i - 1, c, k);
        let acc = imports_result(files, t, stack, i - 1, c)->Ok_0;
        let imp = files[t].imports@[i - 1];
        let u = imp.target.unwrap();
        let child = node_result(files, u as int, stack, imp.display@, None)->Ok_0;
        assert(imports_result(files, t, stack, i, c)->Ok_0.vars == child.vars.union_prefer_right(acc.vars));
    }
}

/// Where loading succeeds, it keeps every workflow of a file as that file
/// defines it: an import never replaces it (one that brings the same slug
/// makes loading fail).
#[verifier::spinoff_prover]
pub proof fn law_own_workflows_kept(files: Seq<ConfigFile>, t: int, stack: Seq<bool>, i: int, c: Config, k: Seq<char>)
    requires
        imports_result(files, t, stack, i, c) is Ok,
        workflow_map(c).dom().contains(k),
    ensures
        imports_result(files, t, stack, i, c)->Ok_0.workflows.dom().contains(k),
        imports_result(files, t, stack, i, c)->Ok_0.workflows[k] == workflow_map(c)[k],
    decreases i,
{
    if i > 0 {
        law_own_workflows_kept(files, t, stack, i - 1, c, k);
        let acc = imports_result(files, t, stack, i - 1, c)->Ok_0;
        let imp = files[t].imports@[i - 1];
        let u = imp.target.unwrap();
        let child = node_result(files, u as int, stack, imp.display@, None)->Ok_0;
        assert(imports_result(files, t, stack, i, c)->Ok_0.workflows == child.workflows.union_prefer_right(acc.workflows));
    }
}

/// Importing a file that is still being loaded (the file itself or one
/// that imports it, directly or not) is a cycle: once the imports before it
/// have loaded, loading fails there, naming the import.
pub proof fn law_import_of_a_loading_file_is_a_cycle(files: Seq<ConfigFile>, t: int, stack: Seq<bool>, i: int, c: Config, u: usize)
    requires
        0 <= t < files.len(),
        stack.len() == files.len(),
        1 <= i <= files[t].imports@.len(),
        imports_result(files, t, stack, i - 1, c) is Ok,
        files[t].imports@[i - 1].target == Some(u),
        u < files.len(),
        stack[u as int],
        !files[t].imports@[i - 1].escapes,
    ensures
        imports_result(files, t, stack, i, c) == Err::<Merged, Seq<char>>(
            "circular import detected: "@ + files[t].imports@[i - 1].display@,
        ),
{
    let imp = files[t].imports@[i - 1];
    assert(node_result(files, u as int, stack, imp.display@, None) == Err::<Merged, Seq<char>>(
        "circular import detected: "@ + imp.display@,
    ));
}

/// A clash found at position `j` means some first clash is found.
proof fn lemma_first_clash_found(acc: Merged, child: Merged, n: int, j: int)
    requires
        0 <= j < n,
        acc.origins.dom().contains(child.order[j]),
        acc.origins[child.order[j]] != child.origins[child.order[j]],
    ensures
        first_clash(acc, child, n) is Some,
    decreases n,
{
    if j < n - 1 {
        lemma_first_clash_found(acc, child, n - 1, j);
    }
}

/// A workflow slug may be defined only once: when an imported file brings a
/// workflow whose slug a different file already defines, loading fails,
/// naming a slug defined twice. A file reached along two paths does not
/// clash with itself.
pub proof fn law_slug_defined_in_two_files_is_an_error(files: Seq<ConfigFile>, t: int, stack: Seq<bool>, i: int, c: Config, j: int)
    requires
        0 <= t < files.len(),
        1 <= i <= files[t].imports@.len(),
        imports_result(files, t, stack, i - 1, c) is Ok,
        files[t].imports@[i - 1].target matches Some(u) && u < files.len(),
        !files[t].imports@[i - 1].escapes,
        node_result(files, files[t].imports@[i - 1].target.unwrap() as int, stack, files[t].imports@[i - 1].display@, None) is Ok,
        ({
            let acc = imports_result(files, t, stack, i - 1, c)->Ok_0;
            let child = node_result(files, files[t].imports@[i - 1].target.unwrap() as int, stack, files[t].imports@[i - 1].display@, None)->Ok_0;
            &&& 0 <= j < child.order.len()
            &&& acc.origins.dom().contains(child.order[j])
            &&& acc.origins[child.order[j]] != child.origins[child.order[j]]
        }),
    ensures
        imports_result(files, t, stack, i, c) matches Err(e) && exists|k: Seq<char>| e == twice_msg(k),
{
    let acc = imports_result(files, t, stack, i - 1, c)->Ok_0;
    let imp = files[t].imports@[i - 1];
    let child = node_result(files, imp.target.unwrap() as int, stack, imp.display@, None)->Ok_0;
    lemma_first_clash_found(acc, child, child.order.len() as int, j);
    let f = first_clash(acc, child, child.order.len() as int).unwrap();
    assert(imports_result(files, t, stack, i, c) == Err::<Merged, Seq<char>>(twice_msg(child.order[f])));
}

/// A file that imports itself is a cycle: loading it fails, as soon as the
/// import is reached.
pub proof fn law_self_import_is_a_cycle(files: Seq<ConfigFile>, t: usize, stack: Seq<bool>, display: Seq<char>, c: Config)
    requires
        t < files.len(),
        stack.len() == files.len(),
        !stack[t as int],
        files[t as int].parsed == Ok::<Config, String>(c),
        first_repeat(slugs_of(c.workflows@), c.workflows@.len() as int) is None,
        files[t as int].imports@.len() == 1,
        files[t as int].imports@[0].target == Some(t),
        !files[t as int].imports@[0].escapes,
    ensures
        node_result(files, t as int, stack, display, None) == Err::<Merged, Seq<char>>(
            "circular import detected: "@ + files[t as int].imports@[0].display@,
        ),
{
    let s1 = stack.update(t as int, true);
    let imp = files[t as int].imports@[0];
    let msg = "circular import detected: "@ + imp.display@;
    assert(imports_result(files, t as int, s1, 0, c) is Ok);
    assert(node_result(files, t as int, s1, imp.display@, None) == Err::<Merged, Seq<char>>(msg));
    assert(imports_result(files, t as int, s1, 1, c) == Err::<Merged, Seq<char>>(msg));
    assert(node_result(files, t as int, stack, display, None) == imports_result(files, t as int, s1, 1, c));
}

/// The daemon stops only when asked to: no other event ends it, not even
/// the end of every run it tracks.
pub proof fn law_daemon_stops_only_on_request(
    d0: Map<Seq<char>, RunView>,
    d1: Map<Seq<char>, RunView>,
    e: DaemonEvent,
    stored: Option<StoredRun>,
    c: Config,
    now: Seq<char>,
    a: DaemonAction,
)
    requires
        event_effect(d0, d1, e, stored, c, now, a),
    ensures
        a.stop <==> e is Stop,
{
}

/// An event about a run the daemon does not track changes nothing and does
/// nothing but report it.
pub proof fn law_unknown_runs_ignored(
    d0: Map<Seq<char>, RunView>,
    d1: Map<Seq<char>, RunView>,
    e: DaemonEvent,
    stored: Option<StoredRun>,
    c: Config,
    now: Seq<char>,
    a: DaemonAction,
)
    requires
        event_effect(d0, d1, e, stored, c, now, a),
        event_run(e) matches Some(id) && !d0.dom().contains(id),
    ensures
        d1 == d0,
        no_effects(a),
        a.notices@ == seq![Notice::UnknownRun],
{
    match e {
        DaemonEvent::Complete { workflow_id, task_id, summary } => {
            assert(crate::daemon::complete_effect(d0, d1, workflow_id@, task_id@, crate::state::opt_view(summary), stored, c, now, a));
        },
        DaemonEvent::Report { workflow_id, task_id, summary } => {
            assert(crate::daemon::report_effect(d0, d1, workflow_id@, task_id@, crate::state::opt_view(summary), stored, now, a));
        },
        DaemonEvent::Approve { workflow_id } => {
            assert(crate::daemon::approve_effect(d0, d1, workflow_id@, stored, c, a));
        },
        DaemonEvent::Resume { workflow_id } => {
            assert(crate::daemon::resume_effect(d0, d1, workflow_id@, stored, c, a));
        },
        DaemonEvent::Reject { workflow_id, task_id, reason } => {
            assert(crate::daemon::reject_effect(d0, d1, workflow_id@, task_id@, crate::state::opt_view(reason), stored, c, now, a));
        },
        DaemonEvent::Pause { workflow_id, task_id, reason } => {
            assert(crate::daemon::pause_effect(d0, d1, workflow_id@, task_id@, crate::state::opt_view(reason), stored, now, a));
        },
        _ => {},
    }
}

/// Runs are independent: an event about one run leaves what the daemon
/// knows of every other run as it was, and starting a run leaves every run
/// already tracked as it was.
pub proof fn law_events_leave_other_runs_alone(
    d0: Map<Seq<char>, RunView>,
    d1: Map<Seq<char>, RunView>,
    e: DaemonEvent,
    stored: Option<StoredRun>,
    c: Config,
    now: Seq<char>,
    a: DaemonAction,
    x: Seq<char>,
)
    requires
        event_effect(d0, d1, e, stored, c, now, a),
        d0.dom().contains(x),
        event_run(e) != Some(x),
        e is Run ==> (a.save matches Some(st) ==> st.workflow_id@ != x),
    ensures
        d1.dom().contains(x),
        d1[x] == d0[x],
{
    match e {
        DaemonEvent::Complete { workflow_id, task_id, summary } => {
            assert(crate::daemon::complete_effect(d0, d1, workflow_id@, task_id@, crate::state::opt_view(summary), stored, c, now, a));
        },
        DaemonEvent::Report { workflow_id, task_id, summary } => {
            assert(crate::daemon::report_effect(d0, d1, workflow_id@, task_id@, crate::state::opt_view(summary), stored, now, a));
        },
        DaemonEvent::Approve { workflow_id } => {
            assert(crate::daemon::approve_effect(d0, d1, workflow_id@, stored, c, a));
        },
        DaemonEvent::Resume { workflow_id } => {
            assert(crate::daemon::resume_effect(d0, d1, workflow_id@, stored, c, a));
        },
        DaemonEvent::Reject { workflow_id, task_id, reason } => {
            assert(crate::daemon::reject_effect(d0, d1, workflow_id@, task_id@, crate::state::opt_view(reason), stored, c, now, a));
        },
        DaemonEvent::Pause { workflow_id, task_id, reason } => {
            assert(crate::daemon::pause_effect(d0, d1, workflow_id@, task_id@, crate::state::opt_view(reason), stored, now, a));
        },
        DaemonEvent::Run { workflow_name } => {
            assert(crate::daemon::run_effect(d0, d1, workflow_name@, c, now, a));
        },
        DaemonEvent::Stop => {},
    }
}

/// Approving or rejecting a run that does not await approval, or resuming
/// one that is not paused, does nothing but report it: the daemon hands
/// nothing out and changes nothing in the store. (`tracks_known` holds of
/// every well-formed daemon and the config it serves: see `daemon_wf`.)
pub proof fn law_wrong_status_is_ignored(
    d0: Map<Seq<char>, RunView>,
    d1: Map<Seq<char>, RunView>,
    e: DaemonEvent,
    s: StoredRun,
    c: Config,
    now: Seq<char>,
    a: DaemonAction,
)
    requires
        event_effect(d0, d1, e, Some(s), c, now, a),
        tracks_known(d0, c),
        event_run(e) matches Some(id) && d0.dom().contains(id),
        e is Approve || e is Reject ==> s.status@ != "awaiting_approval"@,
        e is Resume ==> s.status@ != "paused"@,
        e is Approve || e is Reject || e is Resume,
    ensures
        d1 == d0,
        no_effects(a),
        a.notices@.len() == 1,
{
    let id = event_run(e).unwrap();
    assert(workflow_named(c, d0[id].workflow) is Some);
    match e {
        DaemonEvent::Approve { workflow_id } => {
            assert(crate::daemon::approve_effect(d0, d1, workflow_id@, Some(s), c, a));
        },
        DaemonEvent::Resume { workflow_id } => {
            assert(crate::daemon::resume_effect(d0, d1, workflow_id@, Some(s), c, a));
        },
        DaemonEvent::Reject { workflow_id, task_id, reason } => {
            assert(crate::daemon::reject_effect(d0, d1, workflow_id@, task_id@, crate::state::opt_view(reason), Some(s), c, now, a));
        },
        _ => {},
    }
}

/// A paused run hands nothing out until it is resumed: whatever event other
/// than a resumption arrives for it while the store holds it as paused, the
/// daemon dispatches no task.
pub proof fn law_paused_run_hands_out_nothing(
    d0: Map<Seq<char>, RunView>,
    d1: Map<Seq<char>, RunView>,
    e: DaemonEvent,
    s: StoredRun,
    c: Config,
    now: Seq<char>,
    a: DaemonAction,
)
    requires
        event_effect(d0, d1, e, Some(s), c, now, a),
        tracks_known(d0, c),
        event_run(e) is Some,
        s.status@ == "paused"@,
        !(e is Resume),
    ensures
        a.dispatch@.len() == 0,
{
    assert(s.status@ != "awaiting_approval"@) by {
        reveal_strlit("paused");
        reveal_strlit("awaiting_approval");
        assert("paused"@.len() != "awaiting_approval"@.len());
    }
    match e {
        DaemonEvent::Complete { workflow_id, task_id, summary } => {
            lemma_paused_complete(d0, d1, workflow_id@, task_id@, crate::state::opt_view(summary), s, c, now, a);
        },
        DaemonEvent::Approve { workflow_id } => {
            assert(crate::daemon::approve_effect(d0, d1, workflow_id@, Some(s), c, a));
        },
        DaemonEvent::Reject { workflow_id, task_id, reason } => {
            assert(crate::daemon::reject_effect(d0, d1, workflow_id@, task_id@, crate::state::opt_view(reason), Some(s), c, now, a));
        },
        DaemonEvent::Report { workflow_id, task_id, summary } => {
            assert(crate::daemon::report_effect(d0, d1, workflow_id@, task_id@, crate::state::opt_view(summary), Some(s), now, a));
        },
        DaemonEvent::Pause { workflow_id, task_id, reason } => {
            assert(crate::daemon::pause_effect(d0, d1, workflow_id@, task_id@, crate::state::opt_view(reason), Some(s), now, a));
        },
        _ => {},
    }
}

proof fn lemma_paused_complete(
    d0: Map<Seq<char>, RunView>,
    d1: Map<Seq<char>, RunView>,
    id: Seq<char>,
    task: Seq<char>,
    summary: Option<Seq<char>>,
    s: StoredRun,
    c: Config,
    now: Seq<char>,
    a: DaemonAction,
)
    requires
        crate::daemon::complete_effect(d0, d1, id, task, summary, Some(s), c, now, a),
        tracks_known(d0, c),
        s.status@ == "paused"@,
    ensures
        a.dispatch@.len() == 0,
{
    reveal_strlit("paused");
    reveal_strlit("awaiting_approval");
    if d0.dom().contains(id) {
        assert(workflow_named(c, d0[id].workflow) is Some);
        let wf = workflow_named(c, d0[id].workflow).unwrap();
        assert(crate::daemon::loadable(s.status@));
        if gate_block(wf, s.state@.steps, task) is None {
            let steps = crate::transitions::completed_steps(wf, s.state@.steps, task, summary, now);
            if !crate::transitions::awaits_approval(wf, task) && !workflow_complete(wf, steps) {
                assert(s.status@ == "paused"@);
            }
        }
    }
}

/// The run an event names, if it names one.
pub open spec fn event_run(e: DaemonEvent) -> Option<Seq<char>> {
    match e {
        DaemonEvent::Complete { workflow_id, .. } => Some(workflow_id@),
        DaemonEvent::Report { workflow_id, .. } => Some(workflow_id@),
        DaemonEvent::Approve { workflow_id } => Some(workflow_id@),
        DaemonEvent::Resume { workflow_id } => Some(workflow_id@),
        DaemonEvent::Reject { workflow_id, .. } => Some(workflow_id@),
        DaemonEvent::Pause { workflow_id, .. } => Some(workflow_id@),
        _ => None,
    }
}

/// What the daemon hands out was not handed out already, and holds each
/// task once.
pub proof fn law_no_double_dispatch(sent: Set<Seq<char>>, ids: Seq<Seq<char>>)
    ensures
        forall|j: int| 0 <= j < unsent_ids(sent, ids).len() ==> !sent.contains(#[trigger] unsent_ids(sent, ids)[j]),
        forall|j: int| 0 <= j < unsent_ids(sent, ids).len() ==> ids.contains(#[trigger] unsent_ids(sent, ids)[j]),
        forall|i: int, j: int| 0 <= i < j < unsent_ids(sent, ids).len() ==> unsent_ids(sent, ids)[i] != unsent_ids(sent, ids)[j],
    decreases ids.len(),
{
    if ids.len() > 0 {
        let prev = ids.drop_last();
        law_no_double_dispatch(sent, prev);
        let u = unsent_ids(sent, prev);
        assert forall|j: int| 0 <= j < u.len() implies ids.contains(#[trigger] u[j]) by {
            let k = choose|k: int| 0 <= k < prev.len() && prev[k] == u[j];
            assert(ids[k] == u[j]);
        }
        assert(ids[ids.len() - 1] == ids.last());
        if !(sent.contains(ids.last()) || prev.contains(ids.last())) {
            let v = u.push(ids.last());
            assert forall|j: int| 0 <= j < v.len() implies !sent.contains(#[trigger] v[j]) by {
                if j < u.len() {
                    assert(v[j] == u[j]);
                }
            }
            assert forall|j: int| 0 <= j < v.len() implies ids.contains(#[trigger] v[j]) by {
                if j < u.len() {
                    assert(v[j] == u[j]);
                }
            }
            assert forall|i: int, j: int| 0 <= i < j < v.len() implies v[i] != v[j] by {
                if j == u.len() {
                    assert(v[i] == u[i]);
                    assert(prev.contains(u[i]));
                } else {
                    assert(v[i] == u[i]);
                    assert(v[j] == u[j]);
                }
            }
        }
    }
}

/// Merging hook settings keeps every hook that is not this tool's: an
/// entry of a matcher the tool does not cover is kept whole, and a hook of
/// a covered matcher moves into the entry the tool installs for it.
pub proof fn law_merge_keeps_foreign_hooks(existing: Seq<HookEntry>, targets: Seq<TargetEntry>, i: int, h: int)
    requires
        0 <= i < existing.len(),
        0 <= h < existing[i].hooks@.len(),
        !own_hook(existing[i].hooks@[h]),
    ensures
        !entry_covered(targets, existing[i]) ==> merged_entries(existing, targets).contains(MergedView::Kept(existing[i].handle)),
        entry_covered(targets, existing[i]) ==> exists|j: int| 0 <= j < merged_entries(existing, targets).len()
            && (#[trigger] merged_entries(existing, targets)[j] matches MergedView::Built(m, hooks)
            && existing[i].matcher matches Some(x) && m == x@
            && hooks.contains(HookRefView::Existing(existing[i].hooks@[h].handle))),
{
    let all = merged_entries(existing, targets);
    let kept = kept_entries(existing, targets, existing.len() as int);
    let built = built_entries(existing, targets, targets.len() as int);
    if !entry_covered(targets, existing[i]) {
        lemma_kept_contains(existing, targets, existing.len() as int, i);
        let q = choose|q: int| 0 <= q < kept.len() && kept[q] == MergedView::Kept(existing[i].handle);
        assert(all[q] == kept[q]);
    } else {
        let m = existing[i].matcher->Some_0@;
        let ms = targets.map_values(|t: TargetEntry| t.matcher@);
        assert(crate::keys::has_key(ms, m)) by {
            let j = choose|j: int| 0 <= j < targets.len() && #[trigger] targets[j].matcher@ == m;
            assert(ms[j] == m);
        }
        lemma_first_index_facts(ms, m);
        let j = crate::keys::first_index(ms, m).unwrap();
        assert(targets[j].matcher@ == m) by {
            assert(ms[j] == targets[j].matcher@);
        }
        assert forall|q: int| 0 <= q < j implies #[trigger] targets[q].matcher@ != m by {
            assert(ms[q] == targets[q].matcher@);
        }
        lemma_foreign_contains(existing[i].hooks@, existing[i].hooks@.len() as int, h);
        lemma_preserved_contains(existing, m, existing.len() as int, i, h);
        lemma_built_at(existing, targets, targets.len() as int, j);
        let hooks = command_hooks(targets[j].commands@) + preserved(existing, m, existing.len() as int);
        let k = choose|k: int| 0 <= k < preserved(existing, m, existing.len() as int).len()
            && preserved(existing, m, existing.len() as int)[k] == HookRefView::Existing(existing[i].hooks@[h].handle);
        assert(hooks[command_hooks(targets[j].commands@).len() + k] == HookRefView::Existing(existing[i].hooks@[h].handle));
        assert(all[kept.len() + j] == built[j]);
    }
}

/// The existing hook with handle `x` is one that is not this tool's, of an
/// existing entry with matcher `m`.
pub open spec fn foreign_hook_of(existing: Seq<HookEntry>, m: Seq<char>, x: usize) -> bool {
    exists|i: int, h: int|
        0 <= i < existing.len() && 0 <= h < existing[i].hooks@.len()
        && (existing[i].matcher matches Some(y) && y@ == m)
        && !own_hook(#[trigger] existing[i].hooks@[h])
        && existing[i].hooks@[h].handle == x
}

/// Merging hook settings replaces this tool's own hooks: every existing hook
/// in an entry the tool installs is one that is not the tool's, taken from an
/// existing entry of the same matcher; every other entry is an existing entry
/// kept whole, of a matcher the tool does not cover.
pub proof fn law_merge_replaces_own_hooks(existing: Seq<HookEntry>, targets: Seq<TargetEntry>, j: int)
    requires
        0 <= j < merged_entries(existing, targets).len(),
    ensures
        merged_entries(existing, targets)[j] matches MergedView::Built(m, hooks) ==> forall|q: int|
            0 <= q < hooks.len() ==> (#[trigger] hooks[q] matches HookRefView::Existing(x) ==> foreign_hook_of(existing, m, x)),
        merged_entries(existing, targets)[j] matches MergedView::Kept(x) ==> exists|i: int|
            0 <= i < existing.len() && #[trigger] existing[i].handle == x && !entry_covered(targets, existing[i]),
{
    let kept = kept_entries(existing, targets, existing.len() as int);
    let built = built_entries(existing, targets, targets.len() as int);
    let all = merged_entries(existing, targets);
    lemma_kept_only(existing, targets, existing.len() as int);
    lemma_built_len(existing, targets, targets.len() as int);
    if j < kept.len() {
        assert(all[j] == kept[j]);
    } else {
        let b = j - kept.len();
        assert(all[j] == built[b]);
        lemma_built_foreign(existing, targets, targets.len() as int, b);
    }
}

proof fn lemma_kept_only(existing: Seq<HookEntry>, targets: Seq<TargetEntry>, n: int)
    requires
        0 <= n <= existing.len(),
    ensures
        forall|q: int| 0 <= q < kept_entries(existing, targets, n).len() ==> (#[trigger] kept_entries(existing, targets, n)[q]
            matches MergedView::Kept(x) && exists|i: int| 0 <= i < n && #[trigger] existing[i].handle == x && !entry_covered(targets, existing[i])),
    decreases n,
{
    if n > 0 {
        lemma_kept_only(existing, targets, n - 1);
        let p = kept_entries(existing, targets, n - 1);
        if !entry_covered(targets, existing[n - 1]) {
            let k = p.push(MergedView::Kept(existing[n - 1].handle));
            assert forall|q: int| 0 <= q < k.len() implies (#[trigger] k[q] matches MergedView::Kept(x) && exists|i: int|
                0 <= i < n && #[trigger] existing[i].handle == x && !entry_covered(targets, existing[i])) by {
                if q < p.len() {
                    assert(k[q] == p[q]);
                } else {
                    assert(existing[n - 1].handle == existing[n - 1].handle);
                }
            }
        }
    }
}

proof fn lemma_built_foreign(existing: Seq<HookEntry>, targets: Seq<TargetEntry>, n: int, b: int)
    requires
        0 <= b < n <= targets.len(),
    ensures
        built_entries(existing, targets, n)[b] matches MergedView::Built(m, hooks) && m == targets[b].matcher@
            && forall|q: int| 0 <= q < hooks.len() ==> (#[trigger] hooks[q] matches HookRefView::Existing(x) ==> foreign_hook_of(existing, m, x)),
    decreases n,
{
    lemma_built_len(existing, targets, n - 1);
    if b < n - 1 {
        lemma_built_foreign(existing, targets, n - 1, b);
    } else {
        let t = targets[b];
        let m = t.matcher@;
        let first = forall|j: int| 0 <= j < b ==> #[trigger] targets[j].matcher@ != t.matcher@;
        let pres = preserved(existing, m, existing.len() as int);
        let extra = if first { pres } else { Seq::empty() };
        let cmds = command_hooks(t.commands@);
        let hooks = cmds + extra;
        assert(built_entries(existing, targets, n)[b] == MergedView::Built(m, hooks));
        lemma_preserved_foreign(existing, m, existing.len() as int);
        assert forall|q: int| 0 <= q < hooks.len() implies (#[trigger] hooks[q] matches HookRefView::Existing(x) ==> foreign_hook_of(existing, m, x)) by {
            if q < cmds.len() {
                assert(hooks[q] == cmds[q]);
            } else {
                assert(hooks[q] == extra[q - cmds.len()]);
                if first {
                    assert(pres[q - cmds.len()] matches HookRefView::Existing(x) ==> foreign_hook_of(existing, m, x));
                }
            }
        }
    }
}

proof fn lemma_preserved_foreign(existing: Seq<HookEntry>, m: Seq<char>, n: int)
    requires
        0 <= n <= existing.len(),
    ensures
        forall|q: int| 0 <= q < preserved(existing, m, n).len() ==> (#[trigger] preserved(existing, m, n)[q]
            matches HookRefView::Existing(x) ==> foreign_hook_of(existing, m, x)),
    decreases n,
{
    if n > 0 {
        lemma_preserved_foreign(existing, m, n - 1);
        let p = preserved(existing, m, n - 1);
        let e = existing[n - 1];
        if e.matcher matches Some(y) && y@ == m {
            let f = foreign_hooks(e.hooks@, e.hooks@.len() as int);
            lemma_foreign_from(e.hooks@, e.hooks@.len() as int);
            assert forall|q: int| 0 <= q < (p + f).len() implies (#[trigger] (p + f)[q]
                matches HookRefView::Existing(x) ==> foreign_hook_of(existing, m, x)) by {
                if q < p.len() {
                    assert((p + f)[q] == p[q]);
                } else {
                    assert((p + f)[q] == f[q - p.len()]);
                    let h = choose|h: int| 0 <= h < e.hooks@.len() && !own_hook(e.hooks@[h])
                        && f[q - p.len()] == HookRefView::Existing(e.hooks@[h].handle);
                    assert(!own_hook(existing[n - 1].hooks@[h]));
                }
            }
        }
    }
}

proof fn lemma_foreign_from(hooks: Seq<HookItem>, n: int)
    requires
        0 <= n <= hooks.len(),
    ensures
        forall|q: int| 0 <= q < foreign_hooks(hooks, n).len() ==> exists|h: int| 0 <= h < n && !own_hook(hooks[h])
            && #[trigger] foreign_hooks(hooks, n)[q] == HookRefView::Existing(hooks[h].handle),
    decreases n,
{
    if n > 0 {
        lemma_foreign_from(hooks, n - 1);
        let p = foreign_hooks(hooks, n - 1);
        if !own_hook(hooks[n - 1]) {
            let k = p.push(HookRefView::Existing(hooks[n - 1].handle));
            assert forall|q: int| 0 <= q < k.len() implies exists|h: int| 0 <= h < n && !own_hook(hooks[h])
                && #[trigger] k[q] == HookRefView::Existing(hooks[h].handle) by {
                if q < p.len() {
                    assert(k[q] == p[q]);
                } else {
                    assert(k[q] == HookRefView::Existing(hooks[n - 1].handle));
                }
            }
        }
    }
}

proof fn lemma_kept_contains(existing: Seq<HookEntry>, targets: Seq<TargetEntry>, n: int, i: int)
    requires
        0 <= i < n <= existing.len(),
        !entry_covered(targets, existing[i]),
    ensures
        kept_entries(existing, targets, n).contains(MergedView::Kept(existing[i].handle)),
    decreases n,
{
    let p = kept_entries(existing, targets, n - 1);
    if i < n - 1 {
        lemma_kept_contains(existing, targets, n - 1, i);
        let q = choose|q: int| 0 <= q < p.len() && p[q] == MergedView::Kept(existing[i].handle);
        if !entry_covered(targets, existing[n - 1]) {
            assert(p.push(MergedView::Kept(existing[n - 1].handle))[q] == p[q]);
        }
    } else {
        assert(p.push(MergedView::Kept(existing[i].handle))[p.len() as int] == MergedView::Kept(existing[i].handle));
    }
}

proof fn lemma_foreign_contains(hooks: Seq<HookItem>, n: int, h: int)
    requires
        0 <= h < n <= hooks.len(),
        !own_hook(hooks[h]),
    ensures
        foreign_hooks(hooks, n).contains(HookRefView::Existing(hooks[h].handle)),
    decreases n,
{
    let p = foreign_hooks(hooks, n - 1);
    if h < n - 1 {
        lemma_foreign_contains(hooks, n - 1, h);
        let q = choose|q: int| 0 <= q < p.len() && p[q] == HookRefView::Existing(hooks[h].handle);
        if !own_hook(hooks[n - 1]) {
            assert(p.push(HookRefView::Existing(hooks[n - 1].handle))[q] == p[q]);
        }
    } else {
        assert(p.push(HookRefView::Existing(hooks[h].handle))[p.len() as int] == HookRefView::Existing(hooks[h].handle));
    }
}

proof fn lemma_preserved_contains(existing: Seq<HookEntry>, m: Seq<char>, n: int, i: int, h: int)
    requires
        0 <= i < n <= existing.len(),
        0 <= h < existing[i].hooks@.len(),
        existing[i].matcher matches Some(x) && x@ == m,
        foreign_hooks(existing[i].hooks@, existing[i].hooks@.len() as int).contains(HookRefView::Existing(existing[i].hooks@[h].handle)),
    ensures
        preserved(existing, m, n).contains(HookRefView::Existing(existing[i].hooks@[h].handle)),
    decreases n,
{
    let target = HookRefView::Existing(existing[i].hooks@[h].handle);
    let p = preserved(existing, m, n - 1);
    let e = existing[n - 1];
    let f = foreign_hooks(e.hooks@, e.hooks@.len() as int);
    if i < n - 1 {
        lemma_preserved_contains(existing, m, n - 1, i, h);
        let q = choose|q: int| 0 <= q < p.len() && p[q] == target;
        assert((p + f)[q] == p[q]);
    } else {
        let q = choose|q: int| 0 <= q < f.len() && f[q] == target;
        assert((p + f)[p.len() + q] == f[q]);
    }
}

proof fn lemma_built_at(existing: Seq<HookEntry>, targets: Seq<TargetEntry>, n: int, j: int)
    requires
        0 <= j < n <= targets.len(),
        forall|q: int| 0 <= q < j ==> #[trigger] targets[q].matcher@ != targets[j].matcher@,
    ensures
        built_entries(existing, targets, n).len() == n,
        built_entries(existing, targets, n)[j] == MergedView::Built(
            targets[j].matcher@,
            command_hooks(targets[j].commands@) + preserved(existing, targets[j].matcher@, existing.len() as int),
        ),
    decreases n,
{
    lemma_built_len(existing, targets, n);
    if j < n - 1 {
        lemma_built_at(existing, targets, n - 1, j);
        lemma_built_len(existing, targets, n - 1);
    }
}

proof fn lemma_built_len(existing: Seq<HookEntry>, targets: Seq<TargetEntry>, n: int)
    requires
        0 <= n <= targets.len(),
    ensures
        built_entries(existing, targets, n).len() == n,
    decreases n,
{
    if n > 0 {
        lemma_built_len(existing, targets, n - 1);
    }
}


/// The target entries' matchers are distinct, and every command they install
/// is one of this tool's.
pub open spec fn targets_ok(targets: Seq<TargetEntry>) -> bool {
    &&& forall|i: int, j: int| 0 <= i < j < targets.len() ==> #[trigger] targets[i].matcher@ != #[trigger] targets[j].matcher@
    &&& forall|j: int, q: int| 0 <= j < targets.len() && 0 <= q < targets[j].commands@.len()
        ==> has_prefix(#[trigger] targets[j].commands@[q]@, own_prefix())
}

/// Merging again what a merge wrote changes nothing: the merge is
/// idempotent on the values it reads, where the target entries have distinct
/// matchers and install only this tool's hooks.
pub proof fn law_merge_is_idempotent(v: Seq<EntryVal>, targets: Seq<TargetEntry>)
    requires
        targets_ok(targets),
    ensures
        merged_vals(merged_vals(v, targets), targets) == merged_vals(v, targets),
{
    let unc = uncovered(targets);
    let k = v.filter(unc);
    let b = built_vals(v, targets, targets.len() as int);
    let m = k + b;
    lemma_built_vals_len(v, targets, targets.len() as int);
    // The kept entries are kept again; the built ones are covered.
    Seq::filter_distributes_over_add(k, b, unc);
    assert forall|i: int| 0 <= i < k.len() implies unc(#[trigger] k[i]) by {
        v.lemma_filter_pred(unc, i);
    }
    lemma_filter_all(k, unc);
    assert forall|i: int| 0 <= i < b.len() implies !unc(#[trigger] b[i]) by {
        lemma_built_vals_at(v, targets, targets.len() as int, i);
        assert(targets[i].matcher@ == targets[i].matcher@);
    }
    lemma_filter_none(b, unc);
    assert(m.filter(unc) =~= k);
    // The built entries are built again alike.
    lemma_built_again(v, targets, targets.len() as int);
    assert(merged_vals(m, targets) =~= m);
}

proof fn lemma_filter_all<A>(s: Seq<A>, p: spec_fn(A) -> bool)
    requires
        forall|i: int| 0 <= i < s.len() ==> p(#[trigger] s[i]),
    ensures
        s.filter(p) == s,
    decreases s.len(),
{
    reveal(Seq::filter);
    if s.len() > 0 {
        assert forall|i: int| 0 <= i < s.drop_last().len() implies p(#[trigger] s.drop_last()[i]) by {
            assert(s.drop_last()[i] == s[i]);
        }
        lemma_filter_all(s.drop_last(), p);
        assert(p(s[s.len() - 1]));
        assert(s.drop_last().push(s.last()) =~= s);
    }
}

proof fn lemma_filter_none<A>(s: Seq<A>, p: spec_fn(A) -> bool)
    requires
        forall|i: int| 0 <= i < s.len() ==> !p(#[trigger] s[i]),
    ensures
        s.filter(p) == Seq::<A>::empty(),
    decreases s.len(),
{
    reveal(Seq::filter);
    if s.len() > 0 {
        assert forall|i: int| 0 <= i < s.drop_last().len() implies !p(#[trigger] s.drop_last()[i]) by {
            assert(s.drop_last()[i] == s[i]);
        }
        lemma_filter_none(s.drop_last(), p);
        assert(!p(s[s.len() - 1]));
    }
}

proof fn lemma_built_vals_len(v: Seq<EntryVal>, targets: Seq<TargetEntry>, n: int)
    requires
        0 <= n <= targets.len(),
    ensures
        built_vals(v, targets, n).len() == n,
    decreases n,
{
    if n > 0 {
        lemma_built_vals_len(v, targets, n - 1);
    }
}

proof fn lemma_built_vals_at(v: Seq<EntryVal>, targets: Seq<TargetEntry>, n: int, j: int)
    requires
        targets_ok(targets),
        0 <= j < n <= targets.len(),
    ensures
        built_vals(v, targets, n)[j] == (EntryVal {
            matcher: Some(targets[j].matcher@),
            commands: target_commands(targets[j]) + preserved_vals(v, targets[j].matcher@, v.len() as int),
        }),
    decreases n,
{
    lemma_built_vals_len(v, targets, n - 1);
    if j < n - 1 {
        lemma_built_vals_at(v, targets, n - 1, j);
    } else {
        assert forall|q: int| 0 <= q < n - 1 implies #[trigger] targets[q].matcher@ != targets[j].matcher@ by {
            assert(targets[q].matcher@ != targets[j].matcher@);
        }
    }
}

proof fn lemma_preserved_vals_none(x: Seq<EntryVal>, m: Seq<char>, n: int)
    requires
        0 <= n <= x.len(),
        forall|i: int| 0 <= i < n ==> (#[trigger] x[i]).matcher != Some(m),
    ensures
        preserved_vals(x, m, n) == Seq::<Option<Seq<char>>>::empty(),
    decreases n,
{
    if n > 0 {
        lemma_preserved_vals_none(x, m, n - 1);
    }
}

proof fn lemma_preserved_vals_prefix(x: Seq<EntryVal>, y: Seq<EntryVal>, m: Seq<char>, n: int)
    requires
        0 <= n <= x.len(),
        n <= y.len(),
        forall|i: int| 0 <= i < n ==> #[trigger] x[i] == y[i],
    ensures
        preserved_vals(x, m, n) == preserved_vals(y, m, n),
    decreases n,
{
    if n > 0 {
        lemma_preserved_vals_prefix(x, y, m, n - 1);
        assert(x[n - 1] == y[n - 1]);
    }
}

proof fn lemma_preserved_vals_foreign(x: Seq<EntryVal>, m: Seq<char>, n: int)
    requires
        0 <= n <= x.len(),
    ensures
        forall|q: int| 0 <= q < preserved_vals(x, m, n).len() ==> foreign_command()(#[trigger] preserved_vals(x, m, n)[q]),
    decreases n,
{
    if n > 0 {
        lemma_preserved_vals_foreign(x, m, n - 1);
        let p = preserved_vals(x, m, n - 1);
        if x[n - 1].matcher == Some(m) {
            let f = x[n - 1].commands.filter(foreign_command());
            assert forall|q: int| 0 <= q < (p + f).len() implies foreign_command()(#[trigger] (p + f)[q]) by {
                if q < p.len() {
                    assert((p + f)[q] == p[q]);
                } else {
                    assert((p + f)[q] == f[q - p.len()]);
                    x[n - 1].commands.lemma_filter_pred(foreign_command(), q - p.len());
                }
            }
        }
    }
}

/// In a merge's result, the commands preserved for the `j`-th target's
/// matcher, over the kept entries and the first `i` built ones.
proof fn lemma_preserved_in_result(v: Seq<EntryVal>, targets: Seq<TargetEntry>, j: int, i: int)
    requires
        targets_ok(targets),
        0 <= j < targets.len(),
        0 <= i <= targets.len(),
    ensures
        preserved_vals(merged_vals(v, targets), targets[j].matcher@, v.filter(uncovered(targets)).len() + i) == if j < i {
            built_vals(v, targets, targets.len() as int)[j].commands.filter(foreign_command())
        } else {
            Seq::<Option<Seq<char>>>::empty()
        },
    decreases i,
{
    let unc = uncovered(targets);
    let k = v.filter(unc);
    let b = built_vals(v, targets, targets.len() as int);
    let res = merged_vals(v, targets);
    let mj = targets[j].matcher@;
    lemma_built_vals_len(v, targets, targets.len() as int);
    if i == 0 {
        assert forall|q: int| 0 <= q < k.len() implies #[trigger] res[q] == k[q] by {}
        lemma_preserved_vals_prefix(res, k, mj, k.len() as int);
        assert forall|q: int| 0 <= q < k.len() implies (#[trigger] k[q]).matcher != Some(mj) by {
            v.lemma_filter_pred(unc, q);
            if k[q].matcher == Some(mj) {
                assert(targets[j].matcher@ == mj);
            }
        }
        lemma_preserved_vals_none(k, mj, k.len() as int);
    } else {
        lemma_preserved_in_result(v, targets, j, i - 1);
        assert(res[k.len() + i - 1] == b[i - 1]);
        lemma_built_vals_at(v, targets, targets.len() as int, i - 1);
        if i - 1 == j {
            assert(preserved_vals(res, mj, k.len() + i) =~= Seq::<Option<Seq<char>>>::empty() + b[j].commands.filter(foreign_command()));
        } else {
            if i - 1 < j {
                assert(targets[i - 1].matcher@ != targets[j].matcher@);
            } else {
                assert(targets[j].matcher@ != targets[i - 1].matcher@);
            }
            assert(res[k.len() + i - 1].matcher != Some(mj));
        }
    }
}

/// The target entries are built alike over a merge's result.
proof fn lemma_built_again(v: Seq<EntryVal>, targets: Seq<TargetEntry>, n: int)
    requires
        targets_ok(targets),
        0 <= n <= targets.len(),
    ensures
        built_vals(merged_vals(v, targets), targets, n) == built_vals(v, targets, n),
    decreases n,
{
    if n > 0 {
        lemma_built_again(v, targets, n - 1);
        let j = n - 1;
        let res = merged_vals(v, targets);
        let k = v.filter(uncovered(targets));
        let b = built_vals(v, targets, targets.len() as int);
        let mj = targets[j].matcher@;
        let pres = preserved_vals(v, mj, v.len() as int);
        lemma_built_vals_len(v, targets, targets.len() as int);
        lemma_preserved_in_result(v, targets, j, targets.len() as int);
        lemma_built_vals_at(v, targets, targets.len() as int, j);
        assert(res.len() == k.len() + targets.len());
        let tc = target_commands(targets[j]);
        Seq::filter_distributes_over_add(tc, pres, foreign_command());
        assert forall|q: int| 0 <= q < tc.len() implies !foreign_command()(#[trigger] tc[q]) by {
            assert(has_prefix(targets[j].commands@[q]@, own_prefix()));
        }
        lemma_filter_none(tc, foreign_command());
        lemma_preserved_vals_foreign(v, mj, v.len() as int);
        lemma_filter_all(pres, foreign_command());
        assert(preserved_vals(res, mj, res.len() as int) =~= pres);
    }
}


/// What a merge writes, read back by value, is the merge on values of what
/// it read: the entries kept stand for themselves, and the entries built
/// for their matcher and the commands of their hooks. Entry handles are
/// positions and hook handles distinct, as the caller hands them over.
pub proof fn law_merge_reads_back(existing: Seq<HookEntry>, targets: Seq<TargetEntry>)
    requires
        handles_ok(existing),
    ensures
        resolved(existing, merged_entries(existing, targets)) == merged_vals(entry_vals(existing), targets),
{
    let n = existing.len() as int;
    let kept = kept_entries(existing, targets, n);
    let built = built_entries(existing, targets, targets.len() as int);
    lemma_kept_reads_back(existing, targets, n);
    lemma_built_reads_back(existing, targets, targets.len() as int);
    assert(entry_vals(existing).take(n) =~= entry_vals(existing));
    assert(resolved(existing, kept + built) =~= resolved(existing, kept) + resolved(existing, built));
}

/// Merging what a merge wrote, read back as entries, gives it back: for any
/// entries `again` that hold the values the first merge wrote (as the caller
/// reads the written file back, with its own handles), merging them gives
/// those same values.
pub proof fn law_merge_twice_changes_nothing(existing: Seq<HookEntry>, again: Seq<HookEntry>, targets: Seq<TargetEntry>)
    requires
        handles_ok(existing),
        handles_ok(again),
        targets_ok(targets),
        entry_vals(again) == resolved(existing, merged_entries(existing, targets)),
    ensures
        resolved(again, merged_entries(again, targets)) == entry_vals(again),
{
    law_merge_reads_back(existing, targets);
    law_merge_reads_back(again, targets);
    law_merge_is_idempotent(entry_vals(existing), targets);
}

proof fn lemma_kept_reads_back(existing: Seq<HookEntry>, targets: Seq<TargetEntry>, n: int)
    requires
        handles_ok(existing),
        0 <= n <= existing.len(),
    ensures
        resolved(existing, kept_entries(existing, targets, n)) == entry_vals(existing).take(n).filter(uncovered(targets)),
    decreases n,
{
    let vals = entry_vals(existing);
    if n == 0 {
        reveal(Seq::filter);
        assert(vals.take(0) =~= Seq::<EntryVal>::empty());
        assert(resolved(existing, kept_entries(existing, targets, 0)) =~= Seq::<EntryVal>::empty());
    } else {
        lemma_kept_reads_back(existing, targets, n - 1);
        let p = kept_entries(existing, targets, n - 1);
        let e = existing[n - 1];
        assert(vals.take(n) =~= vals.take(n - 1).push(vals[n - 1]));
        vals.take(n - 1).lemma_filter_push(vals[n - 1], uncovered(targets));
        assert(vals[n - 1] == entry_val(e));
        assert(uncovered(targets)(entry_val(e)) == !entry_covered(targets, e));
        if !entry_covered(targets, e) {
            assert(e.handle == n - 1);
            assert(resolved(existing, p.push(MergedView::Kept(e.handle))) =~= resolved(existing, p).push(entry_val(e)));
        }
    }
}

proof fn lemma_hook_reads_back(existing: Seq<HookEntry>, i: int, h: int)
    requires
        handles_ok(existing),
        0 <= i < existing.len(),
        0 <= h < existing[i].hooks@.len(),
    ensures
        command_of_handle(existing, existing[i].hooks@[h].handle) == crate::state::opt_view(existing[i].hooks@[h].command),
{
    let x = existing[i].hooks@[h].handle;
    assert(existing[i].hooks@[h].handle == x);
    let (i2, h2) = choose|i2: int, h2: int|
        0 <= i2 < existing.len() && 0 <= h2 < existing[i2].hooks@.len() && #[trigger] existing[i2].hooks@[h2].handle == x;
    assert(existing[i2].hooks@[h2].handle == existing[i].hooks@[h].handle);
}

proof fn lemma_foreign_reads_back(existing: Seq<HookEntry>, i: int, n: int)
    requires
        handles_ok(existing),
        0 <= i < existing.len(),
        0 <= n <= existing[i].hooks@.len(),
    ensures
        foreign_hooks(existing[i].hooks@, n).map_values(|r: HookRefView| resolved_hook(existing, r))
            == entry_val(existing[i]).commands.take(n).filter(foreign_command()),
    decreases n,
{
    let hs = existing[i].hooks@;
    let cs = entry_val(existing[i]).commands;
    let f = |r: HookRefView| resolved_hook(existing, r);
    if n == 0 {
        reveal(Seq::filter);
        assert(cs.take(0) =~= Seq::<Option<Seq<char>>>::empty());
        assert(foreign_hooks(hs, 0).map_values(f) =~= Seq::<Option<Seq<char>>>::empty());
    } else {
        lemma_foreign_reads_back(existing, i, n - 1);
        let p = foreign_hooks(hs, n - 1);
        assert(cs.take(n) =~= cs.take(n - 1).push(cs[n - 1]));
        cs.take(n - 1).lemma_filter_push(cs[n - 1], foreign_command());
        assert(cs[n - 1] == crate::state::opt_view(hs[n - 1].command));
        assert(foreign_command()(cs[n - 1]) == !own_hook(hs[n - 1]));
        if !own_hook(hs[n - 1]) {
            lemma_hook_reads_back(existing, i, n - 1);
            assert(p.push(HookRefView::Existing(hs[n - 1].handle)).map_values(f) =~= p.map_values(f).push(cs[n - 1]));
        }
    }
}

proof fn lemma_preserved_reads_back(existing: Seq<HookEntry>, m: Seq<char>, n: int)
    requires
        handles_ok(existing),
        0 <= n <= existing.len(),
    ensures
        preserved(existing, m, n).map_values(|r: HookRefView| resolved_hook(existing, r))
            == preserved_vals(entry_vals(existing), m, n),
    decreases n,
{
    let f = |r: HookRefView| resolved_hook(existing, r);
    if n == 0 {
        assert(preserved(existing, m, 0).map_values(f) =~= Seq::<Option<Seq<char>>>::empty());
    } else {
        lemma_preserved_reads_back(existing, m, n - 1);
        let p = preserved(existing, m, n - 1);
        let e = existing[n - 1];
        let vals = entry_vals(existing);
        assert(vals[n - 1] == entry_val(e));
        match e.matcher {
            Some(x) => {
                if x@ == m {
                    let fh = foreign_hooks(e.hooks@, e.hooks@.len() as int);
                    lemma_foreign_reads_back(existing, n - 1, e.hooks@.len() as int);
                    assert(entry_val(e).commands.take(e.hooks@.len() as int) =~= entry_val(e).commands);
                    assert((p + fh).map_values(f) =~= p.map_values(f) + fh.map_values(f));
                } else {
                    assert(vals[n - 1].matcher != Some(m));
                }
            },
            None => {},
        }
    }
}

proof fn lemma_built_reads_back(existing: Seq<HookEntry>, targets: Seq<TargetEntry>, n: int)
    requires
        handles_ok(existing),
        0 <= n <= targets.len(),
    ensures
        resolved(existing, built_entries(existing, targets, n)) == built_vals(entry_vals(existing), targets, n),
    decreases n,
{
    if n == 0 {
        assert(resolved(existing, built_entries(existing, targets, 0)) =~= Seq::<EntryVal>::empty());
    } else {
        lemma_built_reads_back(existing, targets, n - 1);
        let f = |r: HookRefView| resolved_hook(existing, r);
        let t = targets[n - 1];
        let first = forall|j: int| 0 <= j < n - 1 ==> #[trigger] targets[j].matcher@ != t.matcher@;
        let extra = if first { preserved(existing, t.matcher@, existing.len() as int) } else { Seq::empty() };
        let ch = command_hooks(t.commands@);
        let p = built_entries(existing, targets, n - 1);
        let entry = MergedView::Built(t.matcher@, ch + extra);
        lemma_preserved_reads_back(existing, t.matcher@, existing.len() as int);
        assert(ch.map_values(f) =~= target_commands(t));
        assert((ch + extra).map_values(f) =~= ch.map_values(f) + extra.map_values(f));
        if !first {
            assert(extra.map_values(f) =~= Seq::<Option<Seq<char>>>::empty());
        }
        assert(entry_vals(existing).len() == existing.len());
        assert(resolved(existing, p.push(entry)) =~= resolved(existing, p).push(resolved_entry(existing, entry)));
    }
}


/// A piece of a template: plain text, or the placeholder of a key.
pub enum Piece {
    Text(Seq<char>),
    Var(Seq<char>),
}

/// The text a piece stands for.
pub open spec fn piece_text(p: Piece) -> Seq<char> {
    match p {
        Piece::Text(t) => t,
        Piece::Var(k) => placeholder(k),
    }
}

/// The text of a sequence of pieces.
pub open spec fn render(ps: Seq<Piece>) -> Seq<char>
    decreases ps.len(),
{
    if ps.len() == 0 {
        Seq::empty()
    } else {
        piece_text(ps[0]) + render(ps.skip(1))
    }
}

/// Placeholders are not nested: every `{{vars.` of the template opens a
/// placeholder, whose key holds no braces; no placeholder starts in plain text.
pub open spec fn pieces_ok(ps: Seq<Piece>) -> bool {
    forall|i: int| 0 <= i < ps.len() ==> match #[trigger] ps[i] {
        Piece::Text(t) => plain_text(t),
        Piece::Var(k) => no_brace(k),
    }
}

/// A piece once the first `m` variables are resolved: a placeholder of a key
/// they define becomes the value of the first of them with that key.
pub open spec fn resolve_piece(p: Piece, vars: Seq<Var>, m: int) -> Piece {
    match p {
        Piece::Text(t) => Piece::Text(t),
        Piece::Var(k) => match value_upto(vars, k, m) {
            Some(v) => Piece::Text(v),
            None => Piece::Var(k),
        },
    }
}

/// The pieces once the first `m` variables are resolved.
pub open spec fn resolve_pieces(ps: Seq<Piece>, vars: Seq<Var>, m: int) -> Seq<Piece> {
    ps.map_values(|p: Piece| resolve_piece(p, vars, m))
}

/// Resolving a template replaces each placeholder of a defined key by the
/// value of the first variable with that key, and keeps the plain text and
/// the placeholders of keys that are not defined: each placeholder is filled
/// on its own, whatever the other variables are. This holds where
/// placeholders are not nested (every `{{vars.` opens a placeholder whose
/// key holds no braces; the text between placeholders, braces and unknown
/// `{{...}}` forms included, is kept as plain text) and no value holds or
/// ends in the beginning of a placeholder.
pub proof fn law_template_fills_placeholders(ps: Seq<Piece>, c: Config)
    requires
        pieces_ok(ps),
        vars_brace_free(c),
    ensures
        resolve_spec(render(ps), c) == render(resolve_pieces(ps, c.vars@, c.vars@.len() as int)),
{
    lemma_resolve_pieces(ps, c, c.vars@.len() as int);
}

/// Resolving is idempotent on such templates: resolving the result again
/// changes nothing.
pub proof fn law_template_resolves_once(ps: Seq<Piece>, c: Config)
    requires
        pieces_ok(ps),
        vars_brace_free(c),
    ensures
        resolve_spec(resolve_spec(render(ps), c), c) == resolve_spec(render(ps), c),
{
    let n = c.vars@.len() as int;
    let qs = resolve_pieces(ps, c.vars@, n);
    lemma_resolve_pieces(ps, c, n);
    lemma_resolved_pieces_ok(ps, c, n);
    lemma_resolve_pieces(qs, c, n);
    assert(resolve_pieces(qs, c.vars@, n) =~= qs);
}

proof fn lemma_resolved_pieces_ok(ps: Seq<Piece>, c: Config, m: int)
    requires
        pieces_ok(ps),
        vars_brace_free(c),
        0 <= m <= c.vars@.len(),
    ensures
        pieces_ok(resolve_pieces(ps, c.vars@, m)),
{
    let qs = resolve_pieces(ps, c.vars@, m);
    assert forall|i: int| 0 <= i < qs.len() implies match #[trigger] qs[i] {
        Piece::Text(t) => plain_text(t),
        Piece::Var(k) => no_brace(k),
    } by {
        assert(qs[i] == resolve_piece(ps[i], c.vars@, m));
        if let Piece::Var(k) = ps[i] {
            if value_upto(c.vars@, k, m) is Some {
                lemma_value_upto_no_brace(c, k, m);
            }
        }
    }
}

proof fn lemma_resolve_pieces(ps: Seq<Piece>, c: Config, m: int)
    requires
        pieces_ok(ps),
        vars_brace_free(c),
        0 <= m <= c.vars@.len(),
    ensures
        resolve_upto(render(ps), c.vars@, m) == render(resolve_pieces(ps, c.vars@, m)),
    decreases m,
{
    if m == 0 {
        assert(resolve_pieces(ps, c.vars@, 0) =~= ps);
    } else {
        lemma_resolve_pieces(ps, c, m - 1);
        let prev = resolve_pieces(ps, c.vars@, m - 1);
        let var = c.vars@[m - 1];
        lemma_var_brace_free(c, m - 1);
        lemma_resolved_pieces_ok(ps, c, m - 1);
        lemma_replace_pieces(prev, var.key@, var.value@);
        assert(replace_pieces(prev, var.key@, var.value@) =~= resolve_pieces(ps, c.vars@, m));
    }
}

/// The pieces with the placeholders of key `k` replaced by `v`.
pub open spec fn replace_pieces(ps: Seq<Piece>, k: Seq<char>, v: Seq<char>) -> Seq<Piece> {
    ps.map_values(|p: Piece| if p == Piece::Var(k) { Piece::Text(v) } else { p })
}

proof fn lemma_replace_pieces(ps: Seq<Piece>, k: Seq<char>, v: Seq<char>)
    requires
        pieces_ok(ps),
        no_brace(k),
        plain_text(v),
    ensures
        replace_all(render(ps), placeholder(k), v) == render(replace_pieces(ps, k, v)),
    decreases ps.len(),
{
    let p = placeholder(k);
    assert(p[0] == '{' && p.len() > 0) by {
        reveal_strlit("{{vars.");
    }
    if ps.len() == 0 {
        assert(replace_pieces(ps, k, v) =~= Seq::<Piece>::empty());
    } else {
        let rest = ps.skip(1);
        assert(pieces_ok(rest)) by {
            assert forall|i: int| 0 <= i < rest.len() implies match #[trigger] rest[i] {
                Piece::Text(t) => plain_text(t),
                Piece::Var(k) => no_brace(k),
            } by {
                assert(rest[i] == ps[i + 1]);
            }
        }
        lemma_replace_pieces(rest, k, v);
        let out = replace_pieces(ps, k, v);
        assert(out.skip(1) =~= replace_pieces(rest, k, v));
        let head = ps[0];
        assert(match head {
            Piece::Text(t) => plain_text(t),
            Piece::Var(k) => no_brace(k),
        });
        match head {
            Piece::Text(t) => {
                assert forall|i: int| 0 <= i < t.len() implies !occurs_at(t + render(rest), p, i) by {
                    lemma_no_placeholder_in_plain(t, render(rest), k, i);
                }
                lemma_replace_after_text(t, render(rest), p, v);
                assert(out[0] == head);
            },
            Piece::Var(j) => {
                if j == k {
                    let s = p + render(rest);
                    assert(occurs_at(s, p, 0)) by {
                        assert(s.subrange(0, p.len() as int) =~= p);
                    }
                    assert(s.skip(p.len() as int) =~= render(rest));
                    assert(out[0] == Piece::Text(v));
                } else {
                    lemma_replace_skips_placeholder(j, k, render(rest), v);
                    assert(out[0] == head);
                }
            },
        }
    }
}

/// Replacing the placeholder of another key skips a placeholder.
proof fn lemma_replace_skips_placeholder(j: Seq<char>, k: Seq<char>, rest: Seq<char>, v: Seq<char>)
    requires
        no_brace(j),
        no_brace(k),
        j != k,
    ensures
        replace_all(placeholder(j) + rest, placeholder(k), v) == placeholder(j) + replace_all(rest, placeholder(k), v),
{
    let s = placeholder(j) + rest;
    let p = placeholder(k);
    reveal_strlit("{{vars.");
    reveal_strlit("}}");
    lemma_placeholder_not_at_start(j, k, rest);
    assert(p.len() > 2 && p[0] == '{' && p[1] == '{');
    let s1 = s.skip(1);
    assert(!occurs_at(s1, p, 0)) by {
        if occurs_at(s1, p, 0) {
            assert(s1.subrange(0, p.len() as int)[1] == p[1]);
            assert(s1[1] == 'v');
        }
    }
    let mid = placeholder(j).skip(2);
    assert(no_open_brace(mid)) by {
        assert forall|i: int| 0 <= i < mid.len() implies mid[i] != '{' by {
            assert(mid[i] == placeholder(j)[i + 2]);
        }
    }
    lemma_replace_after_plain(mid, rest, p, v);
    assert(s.skip(2) =~= mid + rest);
    assert(s1.skip(1) =~= s.skip(2));
    assert(replace_all(s1, p, v) == seq![s1[0]] + replace_all(s1.skip(1), p, v));
    assert(replace_all(s, p, v) == seq![s[0]] + replace_all(s.skip(1), p, v));
    assert(seq![s[0]] + (seq![s1[0]] + (mid + replace_all(rest, p, v))) =~= placeholder(j) + replace_all(rest, p, v));
}


/// Every change the library makes to a step stamps it with the time given:
/// a run whose timestamps are in the form the store reads back stays so
/// when the time given is too (as the clock's always is). So the round trip
/// through rows (`law_rows_round_trip`) covers every run the library builds
/// from a new run by completing, reporting on, rejecting and pausing steps.
pub proof fn law_changes_keep_stored_form(
    st: StateView,
    wf: Workflow,
    id: Seq<char>,
    text: Option<Seq<char>>,
    action_type: Seq<char>,
    action_index: usize,
    exit_code: Option<i32>,
    now: Seq<char>,
)
    requires
        state_normal(st),
        time_normal(now),
    ensures
        state_normal(with_steps(st, completed_steps(wf, st.steps, id, text, now))),
        state_normal(with_steps(st, after_sync(wf, st.steps.insert(id, reported_step(
            step_or_initial(st.steps, id), action_index, action_type, exit_code, text, now)), id, now))),
        state_normal(with_steps(st, st.steps.insert(id, noted_step(step_or_initial(st.steps, id), action_type, text, now)))),
        state_normal(with_steps(st, st.steps.insert(id, rejected_step(step_or_initial(st.steps, id), text, now)))),
{
    let s = step_or_initial(st.steps, id);
    assert(step_normal(s)) by {
        if st.steps.contains_key(id) {
            assert(step_normal(st.steps[id]));
        } else {
            assert(step_normal(initial_step()));
        }
    }
    let done = completed_step(s, text, now);
    let rep = reported_step(s, action_index, action_type, exit_code, text, now);
    let noted = noted_step(s, action_type, text, now);
    let rej = rejected_step(s, text, now);
    lemma_pushed_report_normal(s, next_report(s, "complete"@, text, now));
    lemma_pushed_report_normal(s, next_report(s, action_type, text, now));
    lemma_pushed_report_normal(s, next_report(s, "reject"@, text, now));
    lemma_pushed_report_normal(s, ReportView { action_index, action_type, exit_code, stdout: text, recorded_at: now });
    assert(step_normal(done));
    assert(step_normal(noted));
    assert(step_normal(rej));
    assert(step_normal(rep));
    lemma_insert_normal(st, id, done);
    lemma_insert_normal(st, id, rep);
    lemma_insert_normal(st, id, noted);
    lemma_insert_normal(st, id, rej);
    lemma_sync_normal(with_steps(st, st.steps.insert(id, done)), wf, id, now);
    lemma_sync_normal(with_steps(st, st.steps.insert(id, rep)), wf, id, now);
}

proof fn lemma_pushed_report_normal(s: StepView, r: ReportView)
    requires
        step_normal(s),
        time_normal(r.recorded_at),
    ensures
        forall|j: int| 0 <= j < s.reports.push(r).len() ==> time_normal(#[trigger] s.reports.push(r)[j].recorded_at),
{
    assert forall|j: int| 0 <= j < s.reports.push(r).len() implies time_normal(#[trigger] s.reports.push(r)[j].recorded_at) by {
        if j < s.reports.len() {
            assert(s.reports.push(r)[j] == s.reports[j]);
        }
    }
}

proof fn lemma_insert_normal(st: StateView, k: Seq<char>, s: StepView)
    requires
        state_normal(st),
        step_normal(s),
    ensures
        state_normal(with_steps(st, st.steps.insert(k, s))),
{
    let m = st.steps.insert(k, s);
    assert forall|q: Seq<char>| m.contains_key(q) implies step_normal(#[trigger] m[q]) by {
        if q != k {
            assert(step_normal(st.steps[q]));
        }
    }
}

proof fn lemma_sync_normal(st: StateView, wf: Workflow, id: Seq<char>, now: Seq<char>)
    requires
        state_normal(st),
        time_normal(now),
    ensures
        state_normal(with_steps(st, after_sync(wf, st.steps, id, now))),
{
    match parent_spec(id) {
        Some(p) => {
            if crate::state::sync_applies(wf, st.steps, p) {
                let s = step_or_initial(st.steps, p);
                assert(step_normal(s)) by {
                    if st.steps.contains_key(p) {
                        assert(step_normal(st.steps[p]));
                    }
                }
                lemma_insert_normal(st, p, crate::state::started_step(s, now));
                assert(with_steps(st, st.steps) == st);
            } else {
                assert(with_steps(st, st.steps) =~~= st);
            }
        },
        None => {
            assert(with_steps(st, st.steps) =~~= st);
        },
    }
}


/// Validation reports every repeated task id: where a workflow holds the
/// same id at two positions, validation fails and names the repeat, however
/// far apart the two are.
pub proof fn law_repeated_task_ids_are_reported(c: Config, w: int, i: int, j: int)
    requires
        0 <= w < c.workflows@.len(),
        0 <= i < j < c.workflows@[w].workflow.tasks@.len(),
        c.workflows@[w].workflow.tasks@[i].id@ == c.workflows@[w].workflow.tasks@[j].id@,
    ensures
        config_errors(c).len() > 0,
        config_errors(c).contains(
            "workflow '"@ + c.workflows@[w].slug@ + "': duplicate task id '"@ + c.workflows@[w].workflow.tasks@[j].id@ + "'"@,
        ),
{
    let slug = c.workflows@[w].slug@;
    let wf = c.workflows@[w].workflow;
    let ids = crate::config::task_ids(wf);
    let n = wf.tasks@.len() as int;
    let m = "workflow '"@ + slug + "': duplicate task id '"@ + wf.tasks@[j].id@ + "'"@;
    assert(ids[i] == wf.tasks@[i].id@ && ids[j] == wf.tasks@[j].id@);
    assert(crate::keys::has_key(ids.subrange(0, j), ids[j])) by {
        assert(ids.subrange(0, j)[i] == ids[i]);
    }
    lemma_dup_errors_hold(slug, ids, j, n);
    let d = crate::validate::dup_errors(slug, ids, n);
    let q = choose|q: int| 0 <= q < d.len() && d[q] == m;
    let head = crate::validate::opt_msg(n == 0, crate::validate::no_tasks_msg(slug));
    let we = crate::validate::workflow_errors(slug, wf);
    assert(we[head.len() + q] == m);
    lemma_config_errors_hold(c, w, c.workflows@.len() as int, head.len() + q);
}

proof fn lemma_dup_errors_hold(slug: Seq<char>, ids: Seq<Seq<char>>, j: int, n: int)
    requires
        0 <= j < n <= ids.len(),
        crate::keys::has_key(ids.subrange(0, j), ids[j]),
    ensures
        crate::validate::dup_errors(slug, ids, n).contains("workflow '"@ + slug + "': duplicate task id '"@ + ids[j] + "'"@),
    decreases n,
{
    let m = "workflow '"@ + slug + "': duplicate task id '"@ + ids[j] + "'"@;
    let prev = crate::validate::dup_errors(slug, ids, n - 1);
    let last = crate::validate::opt_msg(crate::keys::has_key(ids.subrange(0, n - 1), ids[n - 1]), crate::validate::dup_msg(slug, ids[n - 1]));
    assert(crate::validate::dup_errors(slug, ids, n) == prev + last);
    if j < n - 1 {
        lemma_dup_errors_hold(slug, ids, j, n - 1);
        let q = choose|q: int| 0 <= q < prev.len() && prev[q] == m;
        assert((prev + last)[q] == m);
    } else {
        assert(last == seq![m]);
        assert((prev + last)[prev.len() as int] == m);
    }
}

proof fn lemma_config_errors_hold(c: Config, w: int, n: int, q: int)
    requires
        0 <= w < n <= c.workflows@.len(),
        0 <= q < crate::validate::workflow_errors(c.workflows@[w].slug@, c.workflows@[w].workflow).len(),
    ensures
        crate::validate::config_errors_upto(c, n).contains(
            crate::validate::workflow_errors(c.workflows@[w].slug@, c.workflows@[w].workflow)[q]),
    decreases n,
{
    let m = crate::validate::workflow_errors(c.workflows@[w].slug@, c.workflows@[w].workflow)[q];
    let prev = crate::validate::config_errors_upto(c, n - 1);
    let last = crate::validate::workflow_errors(c.workflows@[n - 1].slug@, c.workflows@[n - 1].workflow);
    if w < n - 1 {
        lemma_config_errors_hold(c, w, n - 1, q);
        let k = choose|k: int| 0 <= k < prev.len() && prev[k] == m;
        assert((prev + last)[k] == m);
    } else {
        assert((prev + last)[prev.len() + q] == m);
    }
}

/// A task is handed out only once every requirement naming a task of the
/// workflow is completed: each executable id is that of a task that is
/// neither completed nor failed, all of whose declared requirements are
/// completed, and which, where it has agents, has not started.
pub proof fn law_handed_out_tasks_have_their_requirements_done(wf: Workflow, steps: Map<Seq<char>, StepView>, j: int)
    requires
        0 <= j < executable_ids(wf, steps).len(),
    ensures
        exists|i: int| 0 <= i < wf.tasks@.len() && #[trigger] wf.tasks@[i].id@ == executable_ids(wf, steps)[j] && {
            let t = wf.tasks@[i];
            &&& status_of(steps, t.id@) != StepStatus::Completed
            &&& status_of(steps, t.id@) != StepStatus::Failed
            &&& t.agents@.len() > 0 ==> status_of(steps, t.id@) == StepStatus::Pending
            &&& forall|r: int| 0 <= r < t.requires@.len() && declares_task(wf, #[trigger] t.requires@[r]@)
                ==> status_of(steps, t.requires@[r]@) == StepStatus::Completed
        },
{
    law_executable_tasks_are_ready(wf, steps, j);
    let x = executable_ids(wf, steps)[j];
    let i = choose|i: int| 0 <= i < wf.tasks@.len() && #[trigger] wf.tasks@[i].id@ == x && is_executable(wf, steps, wf.tasks@[i]);
    let t = wf.tasks@[i];
    assert forall|r: int| 0 <= r < t.requires@.len() && declares_task(wf, #[trigger] t.requires@[r]@)
        implies status_of(steps, t.requires@[r]@) == StepStatus::Completed by {
        assert(views(t.requires@)[r] == t.requires@[r]@);
    }
}

/// A run is complete exactly when every one of its tasks is completed.
pub proof fn law_complete_means_every_task_done(wf: Workflow, steps: Map<Seq<char>, StepView>)
    ensures
        workflow_complete(wf, steps) <==> forall|t: int| 0 <= t < wf.tasks@.len() ==> status_of(steps, #[trigger] wf.tasks@[t].id@) == StepStatus::Completed,
{
    if workflow_complete(wf, steps) {
        assert forall|t: int| 0 <= t < wf.tasks@.len() implies status_of(steps, #[trigger] wf.tasks@[t].id@) == StepStatus::Completed by {
            assert(crate::config::task_ids(wf)[t] == wf.tasks@[t].id@);
        }
    }
    if forall|t: int| 0 <= t < wf.tasks@.len() ==> status_of(steps, #[trigger] wf.tasks@[t].id@) == StepStatus::Completed {
        assert forall|t: int| 0 <= t < wf.tasks@.len() implies status_of(steps, #[trigger] crate::config::task_ids(wf)[t]) == StepStatus::Completed by {
            assert(crate::config::task_ids(wf)[t] == wf.tasks@[t].id@);
        }
    }
}

/// A task refuses a command that any of its deny patterns matches, wherever
/// that pattern stands in the list.
pub proof fn law_any_denied_command_is_blocked(t: Task, command: Seq<char>, k: int)
    requires
        t.deny matches Some(d) && 0 <= k < d.commands@.len() && command_pattern_matches(d.commands@[k]@, command),
    ensures
        task_command_answer(t, command) matches Some((dec, _)) && dec == Decision::Block,
{
    let d = t.deny->Some_0;
    assert(deny_commands(t)[k] == d.commands@[k]@);
    lemma_first_where_some(deny_commands(t), command_matcher(command), k);
}

/// While a task whose deny patterns match a command is in progress, the
/// pre-bash hook blocks that command.
pub proof fn law_denied_command_of_a_running_task_is_blocked(
    wf: Workflow,
    steps: Map<Seq<char>, StepView>,
    command: Seq<char>,
    i: int,
    k: int,
)
    requires
        0 <= i < wf.tasks@.len(),
        status_of(steps, wf.tasks@[i].id@) == StepStatus::InProgress,
        wf.tasks@[i].deny matches Some(d) && 0 <= k < d.commands@.len() && command_pattern_matches(d.commands@[k]@, command),
    ensures
        command_answer_from(wf, steps, command, 0) matches Some((dec, _)) && dec == Decision::Block,
{
    law_any_denied_command_is_blocked(wf.tasks@[i], command, k);
    lemma_command_answer_blocks(wf, steps, command, 0, i);
}

proof fn lemma_command_answer_blocks(wf: Workflow, steps: Map<Seq<char>, StepView>, command: Seq<char>, from: int, i: int)
    requires
        0 <= from <= i < wf.tasks@.len(),
        status_of(steps, wf.tasks@[i].id@) == StepStatus::InProgress,
        task_command_answer(wf.tasks@[i], command) matches Some((dec, _)) && dec == Decision::Block,
    ensures
        command_answer_from(wf, steps, command, from) matches Some((dec, _)) && dec == Decision::Block,
    decreases i - from,
{
    let t = wf.tasks@[from];
    if status_of(steps, t.id@) == StepStatus::InProgress && task_command_answer(t, command) is Some {
        let ds = deny_commands(t);
        let k = first_where(ds, command_matcher(command)).unwrap();
        assert(task_command_answer(t, command) == Some((Decision::Block, crate::hooks::deny_command_reason(t, command, ds[k]))));
    } else if from < i {
        lemma_command_answer_blocks(wf, steps, command, from + 1, i);
    }
}

/// A task lets an edit go that one of its outputs allows and none of its
/// deny patterns refuses, whichever of its outputs matches.
pub proof fn law_edit_inside_outputs_goes_ahead(t: Task, path: Seq<char>, k: int)
    requires
        0 <= k < t.outputs@.len(),
        pattern_matches(t.outputs@[k]@, path),
        t.deny matches Some(d) ==> forall|q: int| 0 <= q < d.files@.len() ==> !pattern_matches(#[trigger] d.files@[q]@, path),
    ensures
        task_edit_answer(t, path) is None,
{
    assert(views(t.outputs@)[k] == t.outputs@[k]@);
    lemma_first_where_some(views(t.outputs@), path_matcher(path), k);
    assert forall|q: int| 0 <= q < deny_files(t).len() implies !path_matcher(path)(#[trigger] deny_files(t)[q]) by {
        let d = t.deny->Some_0;
        assert(deny_files(t)[q] == d.files@[q]@);
    }
    crate::keys::lemma_first_where_absent(deny_files(t), path_matcher(path));
}

/// An edit that every task in progress allows (an output matches, or the
/// task lists none, and no deny pattern matches) is let through.
pub proof fn law_edit_allowed_by_running_tasks_goes_ahead(wf: Workflow, steps: Map<Seq<char>, StepView>, path: Seq<char>)
    requires
        forall|i: int| 0 <= i < wf.tasks@.len() && status_of(steps, #[trigger] wf.tasks@[i].id@) == StepStatus::InProgress ==> {
            let t = wf.tasks@[i];
            &&& t.outputs@.len() == 0 || exists|k: int| 0 <= k < t.outputs@.len() && pattern_matches(#[trigger] t.outputs@[k]@, path)
            &&& t.deny matches Some(d) ==> forall|q: int| 0 <= q < d.files@.len() ==> !pattern_matches(#[trigger] d.files@[q]@, path)
        },
    ensures
        edit_answer_from(wf, steps, path, 0) is None,
{
    lemma_edit_allowed_from(wf, steps, path, 0);
}

proof fn lemma_edit_allowed_from(wf: Workflow, steps: Map<Seq<char>, StepView>, path: Seq<char>, from: int)
    requires
        0 <= from,
        forall|i: int| 0 <= i < wf.tasks@.len() && status_of(steps, #[trigger] wf.tasks@[i].id@) == StepStatus::InProgress ==> {
            let t = wf.tasks@[i];
            &&& t.outputs@.len() == 0 || exists|k: int| 0 <= k < t.outputs@.len() && pattern_matches(#[trigger] t.outputs@[k]@, path)
            &&& t.deny matches Some(d) ==> forall|q: int| 0 <= q < d.files@.len() ==> !pattern_matches(#[trigger] d.files@[q]@, path)
        },
    ensures
        edit_answer_from(wf, steps, path, from) is None,
    decreases wf.tasks@.len() - from,
{
    if from < wf.tasks@.len() {
        let t = wf.tasks@[from];
        if status_of(steps, t.id@) == StepStatus::InProgress {
            if t.outputs@.len() == 0 {
                assert forall|q: int| 0 <= q < deny_files(t).len() implies !path_matcher(path)(#[trigger] deny_files(t)[q]) by {
                    let d = t.deny->Some_0;
                    assert(deny_files(t)[q] == d.files@[q]@);
                }
                crate::keys::lemma_first_where_absent(deny_files(t), path_matcher(path));
            } else {
                let k = choose|k: int| 0 <= k < t.outputs@.len() && pattern_matches(#[trigger] t.outputs@[k]@, path);
                law_edit_inside_outputs_goes_ahead(t, path, k);
            }
        }
        lemma_edit_allowed_from(wf, steps, path, from + 1);
    }
}


/// Every task that is ready is handed out: a task neither completed nor
/// failed, all of whose declared requirements are completed, and which,
/// where it has agents, has not started, is among the executable ids.
pub proof fn law_ready_tasks_are_handed_out(wf: Workflow, steps: Map<Seq<char>, StepView>, i: int)
    requires
        0 <= i < wf.tasks@.len(),
        status_of(steps, wf.tasks@[i].id@) != StepStatus::Completed,
        status_of(steps, wf.tasks@[i].id@) != StepStatus::Failed,
        wf.tasks@[i].agents@.len() > 0 ==> status_of(steps, wf.tasks@[i].id@) == StepStatus::Pending,
        forall|r: int| 0 <= r < wf.tasks@[i].requires@.len() && declares_task(wf, #[trigger] wf.tasks@[i].requires@[r]@)
            ==> status_of(steps, wf.tasks@[i].requires@[r]@) == StepStatus::Completed,
    ensures
        executable_ids(wf, steps).contains(wf.tasks@[i].id@),
{
    let t = wf.tasks@[i];
    assert forall|r: int| 0 <= r < views(t.requires@).len() implies status_of(steps, #[trigger] views(t.requires@)[r]) == StepStatus::Completed
        || !declares_task(wf, views(t.requires@)[r]) by {
        assert(views(t.requires@)[r] == t.requires@[r]@);
    }
    assert(is_executable(wf, steps, t));
    lemma_prefix_holds_ready(wf, steps, i, wf.tasks@.len() as int);
}

proof fn lemma_prefix_holds_ready(wf: Workflow, steps: Map<Seq<char>, StepView>, i: int, n: int)
    requires
        0 <= i < n <= wf.tasks@.len(),
        is_executable(wf, steps, wf.tasks@[i]),
    ensures
        executable_prefix(wf, steps, n).contains(wf.tasks@[i].id@),
    decreases n,
{
    let prev = executable_prefix(wf, steps, n - 1);
    if i < n - 1 {
        lemma_prefix_holds_ready(wf, steps, i, n - 1);
        let q = choose|q: int| 0 <= q < prev.len() && prev[q] == wf.tasks@[i].id@;
        if is_executable(wf, steps, wf.tasks@[n - 1]) {
            assert(prev.push(wf.tasks@[n - 1].id@)[q] == prev[q]);
        }
    } else {
        assert(prev.push(wf.tasks@[i].id@)[prev.len() as int] == wf.tasks@[i].id@);
    }
}

/// A task blocks a command only under a deny pattern that matches it, and
/// never asks about one.
pub proof fn law_blocked_command_matches_a_deny_pattern(t: Task, command: Seq<char>)
    requires
        task_command_answer(t, command) is Some,
    ensures
        task_command_answer(t, command) matches Some((dec, _)) && dec == Decision::Block,
        t.deny matches Some(d) && exists|k: int| 0 <= k < d.commands@.len() && command_pattern_matches(#[trigger] d.commands@[k]@, command),
{
    let ds = deny_commands(t);
    let p = command_matcher(command);
    assert(exists|i: int| 0 <= i < ds.len() && p(ds[i]));
    let k = choose|i: int| 0 <= i < ds.len() && p(ds[i]);
    assert(t.deny is Some);
    let d = t.deny->Some_0;
    assert(ds[k] == d.commands@[k]@);
    assert(command_pattern_matches(d.commands@[k]@, command));
}

/// The pre-bash hook lets a command run that no deny pattern of a task in
/// progress matches.
pub proof fn law_command_denied_by_no_running_task_runs(wf: Workflow, steps: Map<Seq<char>, StepView>, command: Seq<char>)
    requires
        forall|i: int| 0 <= i < wf.tasks@.len() && status_of(steps, #[trigger] wf.tasks@[i].id@) == StepStatus::InProgress
            ==> (wf.tasks@[i].deny matches Some(d) ==> forall|k: int| 0 <= k < d.commands@.len() ==> !command_pattern_matches(#[trigger] d.commands@[k]@, command)),
    ensures
        command_answer_from(wf, steps, command, 0) is None,
{
    lemma_command_runs_from(wf, steps, command, 0);
}

proof fn lemma_command_runs_from(wf: Workflow, steps: Map<Seq<char>, StepView>, command: Seq<char>, from: int)
    requires
        0 <= from,
        forall|i: int| 0 <= i < wf.tasks@.len() && status_of(steps, #[trigger] wf.tasks@[i].id@) == StepStatus::InProgress
            ==> (wf.tasks@[i].deny matches Some(d) ==> forall|k: int| 0 <= k < d.commands@.len() ==> !command_pattern_matches(#[trigger] d.commands@[k]@, command)),
    ensures
        command_answer_from(wf, steps, command, from) is None,
    decreases wf.tasks@.len() - from,
{
    if from < wf.tasks@.len() {
        let t = wf.tasks@[from];
        if status_of(steps, t.id@) == StepStatus::InProgress && task_command_answer(t, command) is Some {
            law_blocked_command_matches_a_deny_pattern(t, command);
        }
        lemma_command_runs_from(wf, steps, command, from + 1);
    }
}

/// A task with outputs asks about an edit that none of its outputs allows
/// and none of its deny patterns refuses.
pub proof fn law_edit_outside_outputs_is_asked_about(t: Task, path: Seq<char>)
    requires
        t.outputs@.len() > 0,
        forall|k: int| 0 <= k < t.outputs@.len() ==> !pattern_matches(#[trigger] t.outputs@[k]@, path),
        t.deny matches Some(d) ==> forall|q: int| 0 <= q < d.files@.len() ==> !pattern_matches(#[trigger] d.files@[q]@, path),
    ensures
        task_edit_answer(t, path) == Some((Decision::Ask,
            "["@ + t.id@ + "] '"@ + path + "' is outside outputs for task '"@ + crate::hooks::display_name(t) + "'"@)),
{
    assert forall|k: int| 0 <= k < views(t.outputs@).len() implies !path_matcher(path)(#[trigger] views(t.outputs@)[k]) by {
        assert(views(t.outputs@)[k] == t.outputs@[k]@);
    }
    crate::keys::lemma_first_where_absent(views(t.outputs@), path_matcher(path));
    assert forall|q: int| 0 <= q < deny_files(t).len() implies !path_matcher(path)(#[trigger] deny_files(t)[q]) by {
        let d = t.deny->Some_0;
        assert(deny_files(t)[q] == d.files@[q]@);
    }
    crate::keys::lemma_first_where_absent(deny_files(t), path_matcher(path));
}


/// A workflow that validation accepts: it has tasks, no two tasks share an
/// id, every id has the required form, no task mixes a prompt or skills with
/// agents, every manual task has a name, and every requirement names a task
/// of the workflow.
pub open spec fn sound_workflow(wf: Workflow) -> bool {
    &&& wf.tasks@.len() > 0
    &&& forall|i: int, j: int| 0 <= i < j < wf.tasks@.len() ==> #[trigger] wf.tasks@[i].id@ != #[trigger] wf.tasks@[j].id@
    &&& forall|i: int| 0 <= i < wf.tasks@.len() ==> {
        let t = #[trigger] wf.tasks@[i];
        &&& crate::validate::id_ok(t.id@)
        &&& !((t.prompt is Some || t.skills@.len() > 0) && t.agents@.len() > 0)
        &&& (t.prompt is None && t.skills@.len() == 0 && t.agents@.len() == 0 ==> t.task is Some)
        &&& forall|r: int| 0 <= r < t.requires@.len() ==> declares_task(wf, #[trigger] t.requires@[r]@)
    }
}

/// Validation reports nothing of a config whose every workflow is sound: it
/// reports a duplicate id only where an id repeats.
pub proof fn law_sound_config_passes(c: Config)
    requires
        forall|w: int| 0 <= w < c.workflows@.len() ==> sound_workflow(#[trigger] c.workflows@[w].workflow),
    ensures
        config_errors(c).len() == 0,
{
    lemma_sound_upto(c, c.workflows@.len() as int);
}

proof fn lemma_sound_upto(c: Config, n: int)
    requires
        0 <= n <= c.workflows@.len(),
        forall|w: int| 0 <= w < c.workflows@.len() ==> sound_workflow(#[trigger] c.workflows@[w].workflow),
    ensures
        crate::validate::config_errors_upto(c, n).len() == 0,
    decreases n,
{
    if n > 0 {
        lemma_sound_upto(c, n - 1);
        let e = c.workflows@[n - 1];
        assert(sound_workflow(e.workflow));
        lemma_sound_workflow(e.slug@, e.workflow);
    }
}

proof fn lemma_sound_workflow(slug: Seq<char>, wf: Workflow)
    requires
        sound_workflow(wf),
    ensures
        crate::validate::workflow_errors(slug, wf).len() == 0,
{
    let n = wf.tasks@.len() as int;
    lemma_no_dups(slug, wf, n);
    lemma_sound_tasks(slug, wf, n);
}

proof fn lemma_no_dups(slug: Seq<char>, wf: Workflow, n: int)
    requires
        sound_workflow(wf),
        0 <= n <= wf.tasks@.len(),
    ensures
        crate::validate::dup_errors(slug, crate::config::task_ids(wf), n).len() == 0,
    decreases n,
{
    if n > 0 {
        lemma_no_dups(slug, wf, n - 1);
        let ids = crate::config::task_ids(wf);
        if crate::keys::has_key(ids.subrange(0, n - 1), ids[n - 1]) {
            let q = choose|q: int| 0 <= q < n - 1 && #[trigger] ids.subrange(0, n - 1)[q] == ids[n - 1];
            assert(ids[q] == wf.tasks@[q].id@ && ids[n - 1] == wf.tasks@[n - 1].id@);
            assert(wf.tasks@[q].id@ != wf.tasks@[n - 1].id@);
        }
    }
}

proof fn lemma_sound_tasks(slug: Seq<char>, wf: Workflow, n: int)
    requires
        sound_workflow(wf),
        0 <= n <= wf.tasks@.len(),
    ensures
        crate::validate::tasks_errors(slug, wf, n).len() == 0,
    decreases n,
{
    if n > 0 {
        lemma_sound_tasks(slug, wf, n - 1);
        let t = wf.tasks@[n - 1];
        assert(crate::validate::id_ok(t.id@));
        lemma_sound_reqs(slug, wf, t, t.requires@.len() as int);
    }
}

proof fn lemma_sound_reqs(slug: Seq<char>, wf: Workflow, t: Task, n: int)
    requires
        0 <= n <= t.requires@.len(),
        forall|r: int| 0 <= r < t.requires@.len() ==> declares_task(wf, #[trigger] t.requires@[r]@),
    ensures
        crate::validate::req_errors(slug, wf, t, n).len() == 0,
    decreases n,
{
    if n > 0 {
        lemma_sound_reqs(slug, wf, t, n - 1);
        assert(declares_task(wf, t.requires@[n - 1]@));
    }
}

} // verus!

//! Tool-use hooks: the events an AI tool reports, and what the run answers
//! while a task is in progress (ask before editing outside its outputs, block
//! what its deny rules name).
use crate::config::{views, Task, Workflow};
use crate::keys::{first_where, lemma_first_where_absent, lemma_first_where_found};
use crate::patterns::{command_pattern_matches, matches_command_pattern, matches_pattern, pattern_matches};
use crate::state::{status_of, StepStatus, StepView, WorkflowState};
use crate::text::{chars_of, ends_with, has_prefix, has_suffix, own};
use vstd::prelude::*;

verus! {

/// `tool_input` of a Bash event.
#[derive(Debug)]
pub struct BashInput {
    pub command: String,
}

/// `tool_response` of a Bash event.
#[derive(Debug)]
pub struct BashResponse {
    pub stdout: String,
}

/// `tool_input` of an Edit/Write event.
#[derive(Debug)]
pub struct EditInput {
    pub file_path: String,
}

/// A PostToolUse(Bash) event.
#[derive(Debug)]
pub struct PostBashEvent {
    pub cwd: Option<String>,
    pub tool_input: BashInput,
    pub tool_response: BashResponse,
}

/// A PostToolUse(Edit/Write) event.
#[derive(Debug)]
pub struct PostEditEvent {
    pub cwd: Option<String>,
    pub tool_input: EditInput,
}

/// A PreToolUse(Edit/Write) event has the same shape as a post-edit one.
pub type PreEditEvent = PostEditEvent;

/// A PreToolUse(Bash) event.
#[derive(Debug)]
pub struct PreBashEvent {
    pub cwd: Option<String>,
    pub tool_input: BashInput,
}

/// The answer a hook gives.
#[derive(Debug, Clone, Copy, PartialEq, Eq, Structural)]
pub enum Decision {
    /// Ask the developer before going on.
    Ask,
    /// Refuse.
    Block,
}

/// A hook's answer with its explanation.
#[derive(Debug)]
pub struct HookDecision {
    pub decision: Decision,
    pub reason: String,
}

/// The name a task is shown under: its `task` text, or else its id.
pub open spec fn display_name(t: Task) -> Seq<char> {
    match t.task {
        Some(n) => n@,
        None => t.id@,
    }
}

/// The pattern matches `subject` (a path).
pub open spec fn path_matcher(path: Seq<char>) -> spec_fn(Seq<char>) -> bool {
    |p: Seq<char>| pattern_matches(p, path)
}

/// The pattern matches `subject` (a command).
pub open spec fn command_matcher(command: Seq<char>) -> spec_fn(Seq<char>) -> bool {
    |p: Seq<char>| command_pattern_matches(p, command)
}

pub open spec fn deny_edit_reason(t: Task, path: Seq<char>, pattern: Seq<char>) -> Seq<char> {
    "["@ + t.id@ + "] editing '"@ + path + "' is denied by task '"@ + display_name(t) + "' (rule: '"@ + pattern + "')"@
}

pub open spec fn outside_outputs_reason(t: Task, path: Seq<char>) -> Seq<char> {
    "["@ + t.id@ + "] '"@ + path + "' is outside outputs for task '"@ + display_name(t) + "'"@
}

pub open spec fn deny_command_reason(t: Task, command: Seq<char>, pattern: Seq<char>) -> Seq<char> {
    "["@ + t.id@ + "] command '"@ + command + "' is denied by task '"@ + display_name(t) + "' (rule: '"@ + pattern + "')"@
}

/// The deny-file patterns of a task.
pub open spec fn deny_files(t: Task) -> Seq<Seq<char>> {
    match t.deny {
        Some(d) => views(d.files@),
        None => Seq::empty(),
    }
}

/// The deny-command patterns of a task.
pub open spec fn deny_commands(t: Task) -> Seq<Seq<char>> {
    match t.deny {
        Some(d) => views(d.commands@),
        None => Seq::empty(),
    }
}

/// The task's outputs let `path` be edited: it has none, or one matches.
pub open spec fn outputs_allow(t: Task, path: Seq<char>) -> bool {
    t.outputs@.len() == 0 || first_where(views(t.outputs@), path_matcher(path)) is Some
}

/// What an in-progress task answers to editing `path`: deny rules first
/// (block), then outputs (ask), else nothing.
pub open spec fn task_edit_answer(t: Task, path: Seq<char>) -> Option<(Decision, Seq<char>)> {
    match first_where(deny_files(t), path_matcher(path)) {
        Some(k) => Some((Decision::Block, deny_edit_reason(t, path, deny_files(t)[k]))),
        None => if outputs_allow(t, path) {
            None
        } else {
            Some((Decision::Ask, outside_outputs_reason(t, path)))
        },
    }
}

/// What an in-progress task answers to running `command`.
pub open spec fn task_command_answer(t: Task, command: Seq<char>) -> Option<(Decision, Seq<char>)> {
    match first_where(deny_commands(t), command_matcher(command)) {
        Some(k) => Some((Decision::Block, deny_command_reason(t, command, deny_commands(t)[k]))),
        None => None,
    }
}

/// The first answer, from task `i` on, of an in-progress task to editing `path`.
pub open spec fn edit_answer_from(wf: Workflow, steps: Map<Seq<char>, StepView>, path: Seq<char>, i: int) -> Option<(Decision, Seq<char>)>
    decreases wf.tasks@.len() - i,
{
    if i < 0 || i >= wf.tasks@.len() {
        None
    } else if status_of(steps, wf.tasks@[i].id@) == StepStatus::InProgress && task_edit_answer(wf.tasks@[i], path) is Some {
        task_edit_answer(wf.tasks@[i], path)
    } else {
        edit_answer_from(wf, steps, path, i + 1)
    }
}

/// The first answer, from task `i` on, of an in-progress task to running `command`.
pub open spec fn command_answer_from(wf: Workflow, steps: Map<Seq<char>, StepView>, command: Seq<char>, i: int) -> Option<(Decision, Seq<char>)>
    decreases wf.tasks@.len() - i,
{
    if i < 0 || i >= wf.tasks@.len() {
        None
    } else if status_of(steps, wf.tasks@[i].id@) == StepStatus::InProgress && task_command_answer(wf.tasks@[i], command) is Some {
        task_command_answer(wf.tasks@[i], command)
    } else {
        command_answer_from(wf, steps, command, i + 1)
    }
}

/// The view of an optional hook answer.
pub open spec fn answer_view(d: Option<HookDecision>) -> Option<(Decision, Seq<char>)> {
    match d {
        Some(x) => Some((x.decision, x.reason@)),
        None => None,
    }
}

/// The first pattern of `patterns` that matches `path`, if any.
fn first_matching_path(patterns: &Vec<String>, path: &str) -> (r: Option<usize>)
    ensures
        r matches Some(k) ==> first_where(views(patterns@), path_matcher(path@)) == Some(k as int) && k < patterns@.len(),
        r is None ==> first_where(views(patterns@), path_matcher(path@)) is None,
{
    let mut k: usize = 0;
    while k < patterns.len()
        invariant
            k <= patterns.len(),
            forall|j: int| 0 <= j < k ==> !path_matcher(path@)(views(patterns@)[j]),
        decreases patterns.len() - k,
    {
        if matches_pattern(patterns[k].as_str(), path) {
            proof {
                assert(views(patterns@)[k as int] == patterns@[k as int]@);
                lemma_first_where_found(views(patterns@), path_matcher(path@), k as int);
            }
            return Some(k);
        }
        assert(views(patterns@)[k as int] == patterns@[k as int]@);
        k += 1;
    }
    proof {
        lemma_first_where_absent(views(patterns@), path_matcher(path@));
    }
    None
}

/// The first pattern of `patterns` that matches `command`, if any.
fn first_matching_command(patterns: &Vec<String>, command: &str) -> (r: Option<usize>)
    ensures
        r matches Some(k) ==> first_where(views(patterns@), command_matcher(command@)) == Some(k as int) && k < patterns@.len(),
        r is None ==> first_where(views(patterns@), command_matcher(command@)) is None,
{
    let mut k: usize = 0;
    while k < patterns.len()
        invariant
            k <= patterns.len(),
            forall|j: int| 0 <= j < k ==> !command_matcher(command@)(views(patterns@)[j]),
        decreases patterns.len() - k,
    {
        if matches_command_pattern(patterns[k].as_str(), command) {
            proof {
                assert(views(patterns@)[k as int] == patterns@[k as int]@);
                lemma_first_where_found(views(patterns@), command_matcher(command@), k as int);
            }
            return Some(k);
        }
        assert(views(patterns@)[k as int] == patterns@[k as int]@);
        k += 1;
    }
    proof {
        lemma_first_where_absent(views(patterns@), command_matcher(command@));
    }
    None
}

/// The name the task is shown under.
fn task_display_name(t: &Task) -> (r: &str)
    ensures
        r@ == display_name(*t),
{
    match &t.task {
        Some(n) => n.as_str(),
        None => t.id.as_str(),
    }
}

/// What one in-progress task answers to editing `path`.
pub fn task_edit_decision(t: &Task, path: &str) -> (r: Option<HookDecision>)
    ensures
        answer_view(r) == task_edit_answer(*t, path@),
{
    let empty: Vec<String> = Vec::new();
    let files = match &t.deny {
        Some(d) => &d.files,
        None => &empty,
    };
    assert(views(files@) == deny_files(*t)) by {
        if t.deny is None {
            assert(views(files@) =~= Seq::<Seq<char>>::empty());
        }
    }
    match first_matching_path(files, path) {
        Some(k) => {
            let mut m = own("[");
            m.append(t.id.as_str());
            m.append("] editing '");
            m.append(path);
            m.append("' is denied by task '");
            m.append(task_display_name(t));
            m.append("' (rule: '");
            m.append(files[k].as_str());
            m.append("')");
            assert(views(files@)[k as int] == files@[k as int]@);
            return Some(HookDecision { decision: Decision::Block, reason: m });
        },
        None => {},
    }
    if t.outputs.len() > 0 && first_matching_path(&t.outputs, path).is_none() {
        let mut m = own("[");
        m.append(t.id.as_str());
        m.append("] '");
        m.append(path);
        m.append("' is outside outputs for task '");
        m.append(task_display_name(t));
        m.append("'");
        return Some(HookDecision { decision: Decision::Ask, reason: m });
    }
    None
}

/// What one in-progress task answers to running `command`.
pub fn task_command_decision(t: &Task, command: &str) -> (r: Option<HookDecision>)
    ensures
        answer_view(r) == task_command_answer(*t, command@),
{
    let empty: Vec<String> = Vec::new();
    let commands = match &t.deny {
        Some(d) => &d.commands,
        None => &empty,
    };
    assert(views(commands@) == deny_commands(*t)) by {
        if t.deny is None {
            assert(views(commands@) =~= Seq::<Seq<char>>::empty());
        }
    }
    match first_matching_command(commands, command) {
        Some(k) => {
            let mut m = own("[");
            m.append(t.id.as_str());
            m.append("] command '");
            m.append(command);
            m.append("' is denied by task '");
            m.append(task_display_name(t));
            m.append("' (rule: '");
            m.append(commands[k].as_str());
            m.append("')");
            assert(views(commands@)[k as int] == commands@[k as int]@);
            Some(HookDecision { decision: Decision::Block, reason: m })
        },
        None => None,
    }
}

/// The answer to editing `path` (relative to the project root): the first
/// in-progress task that objects decides; none objecting lets the edit go.
pub fn pre_edit_decision(wf: &Workflow, state: &WorkflowState, path: &str) -> (r: Option<HookDecision>)
    ensures
        answer_view(r) == edit_answer_from(*wf, state@.steps, path@, 0),
{
    let mut i: usize = 0;
    while i < wf.tasks.len()
        invariant
            i <= wf.tasks.len(),
            edit_answer_from(*wf, state@.steps, path@, 0) == edit_answer_from(*wf, state@.steps, path@, i as int),
        decreases wf.tasks.len() - i,
    {
        let task = &wf.tasks[i];
        if state.status_at(task.id.as_str()) == StepStatus::InProgress {
            let d = task_edit_decision(task, path);
            if d.is_some() {
                return d;
            }
        }
        i += 1;
    }
    None
}

/// The answer to running `command`: the first in-progress task whose deny
/// rules name it blocks it; otherwise it may run.
pub fn pre_bash_decision(wf: &Workflow, state: &WorkflowState, command: &str) -> (r: Option<HookDecision>)
    ensures
        answer_view(r) == command_answer_from(*wf, state@.steps, command@, 0),
{
    let mut i: usize = 0;
    while i < wf.tasks.len()
        invariant
            i <= wf.tasks.len(),
            command_answer_from(*wf, state@.steps, command@, 0) == command_answer_from(*wf, state@.steps, command@, i as int),
        decreases wf.tasks.len() - i,
    {
        let task = &wf.tasks[i];
        if state.status_at(task.id.as_str()) == StepStatus::InProgress {
            let d = task_command_decision(task, command);
            if d.is_some() {
                return d;
            }
        }
        i += 1;
    }
    None
}

/// The edited file is the workflow config.
pub fn edits_config(file_path: &str) -> (r: bool)
    ensures
        r == has_suffix(file_path@, ".workflow/config.yml"@),
{
    ends_with(file_path, ".workflow/config.yml")
}

/// The warning shown after an edit leaves the config invalid.
pub fn schema_warning(error: &str) -> (r: String)
    ensures
        r@ == "[SCHEMA WARNING] config.yml validation error: "@ + error@
            + "\n[SCHEMA WARNING] Please review and fix config.yml"@,
{
    let mut m = own("[SCHEMA WARNING] config.yml validation error: ");
    m.append(error);
    m.append("\n[SCHEMA WARNING] Please review and fix config.yml");
    m
}

/// PostToolUse(Bash) hook: nothing to do.
pub fn handle_post_bash(cwd: &str, hook_json: &str) -> (r: Result<(), String>)
    ensures
        r is Ok,
{
    Ok(())
}


/// `s` without its trailing slashes.
pub open spec fn trim_trailing_slashes(s: Seq<char>) -> Seq<char>
    decreases s.len(),
{
    if s.len() > 0 && s.last() == '/' {
        trim_trailing_slashes(s.drop_last())
    } else {
        s
    }
}

/// `s` without its leading slashes.
pub open spec fn trim_leading_slashes(s: Seq<char>) -> Seq<char>
    decreases s.len(),
{
    if s.len() > 0 && s[0] == '/' {
        trim_leading_slashes(s.skip(1))
    } else {
        s
    }
}

/// `path` relative to the directory `base`, as `Path::strip_prefix` makes it
/// for paths written without `.` parts: where `path` is `base` or lies under
/// it, what follows `base` and the separators after it; else `path` as it
/// is. Trailing separators of `base` do not count.
pub open spec fn relative_path(path: Seq<char>, base: Seq<char>) -> Seq<char> {
    let b = trim_trailing_slashes(base);
    if base.len() > 0 && path == b {
        Seq::empty()
    } else if base.len() > 0 && has_prefix(path, b + seq!['/']) {
        trim_leading_slashes(path.skip(b.len() + 1 as int))
    } else {
        path
    }
}

/// The edited path relative to the project root `base`, where it lies under
/// it; else the path as given.
pub fn relative_to(path: &str, base: &str) -> (r: String)
    ensures
        r@ == relative_path(path@, base@),
{
    let bv = chars_of(base);
    let pv = chars_of(path);
    if bv.len() == 0 {
        return own(path);
    }
    let mut end: usize = bv.len();
    assert(base@.subrange(0, end as int) =~= base@);
    while end > 0 && bv[end - 1] == '/'
        invariant
            bv@ == base@,
            end <= bv.len(),
            trim_trailing_slashes(base@) == trim_trailing_slashes(base@.subrange(0, end as int)),
        decreases end,
    {
        assert(base@.subrange(0, end as int).drop_last() =~= base@.subrange(0, end - 1));
        end -= 1;
    }
    let ghost b = base@.subrange(0, end as int);
    assert(trim_trailing_slashes(b) == b);
    if pv.len() < end {
        proof {
            assert(path@ != b);
        }
        return own(path);
    }
    let mut i: usize = 0;
    while i < end
        invariant
            bv@ == base@,
            pv@ == path@,
            end <= bv.len(),
            end <= pv.len(),
            i <= end,
            b == base@.subrange(0, end as int),
            trim_trailing_slashes(base@) == b,
            base@.len() > 0,
            forall|j: int| 0 <= j < i ==> pv@[j] == bv@[j],
        decreases end - i,
    {
        if pv[i] != bv[i] {
            proof {
                assert(path@[i as int] != b[i as int]);
                assert(path@ != b);
                assert(!has_prefix(path@, b + seq!['/'])) by {
                    if has_prefix(path@, b + seq!['/']) {
                        assert(path@.subrange(0, b.len() + 1 as int)[i as int] == (b + seq!['/'])[i as int]);
                    }
                }
            }
            return own(path);
        }
        i += 1;
    }
    assert(path@.subrange(0, end as int) =~= b);
    if pv.len() == end {
        assert(path@ =~= b);
        return String::new();
    }
    if pv[end] != '/' {
        proof {
            assert(path@ != b);
            assert(!has_prefix(path@, b + seq!['/'])) by {
                if has_prefix(path@, b + seq!['/']) {
                    assert(path@.subrange(0, b.len() + 1 as int)[end as int] == (b + seq!['/'])[end as int]);
                }
            }
        }
        return own(path);
    }
    proof {
        assert(path@ != b);
        assert(path@.subrange(0, b.len() + 1 as int) =~= b + seq!['/']);
    }
    let mut k: usize = end + 1;
    while k < pv.len() && pv[k] == '/'
        invariant
            pv@ == path@,
            end + 1 <= k <= pv.len(),
            trim_leading_slashes(path@.skip(end + 1)) == trim_leading_slashes(path@.skip(k as int)),
        decreases pv.len() - k,
    {
        assert(path@.skip(k as int).skip(1) =~= path@.skip(k + 1));
        k += 1;
    }
    proof {
        let rest = path@.skip(k as int);
        if rest.len() > 0 {
            assert(rest[0] == path@[k as int]);
        }
        assert(trim_leading_slashes(rest) == rest);
        assert(path@.subrange(k as int, path@.len() as int) =~= rest);
    }
    own(path.substring_char(k, pv.len()))
}

} // verus!

//! Validation of a merged config: every problem is collected, none stops the
//! check early.
use crate::config::{declares_task, task_ids, views, Config, Task, Workflow, WorkflowEntry};
use crate::keys::has_key;
use crate::patterns::{regex_accepts, regex_is_match};
use crate::text::{decimal, decimal_string, own, str_eq};
use vstd::prelude::*;

verus! {

/// All validation errors found in a config, in the order they were found.
#[derive(Debug)]
pub struct ValidationError {
    pub errors: Vec<String>,
}

/// The pattern every task id must match.
pub open spec fn id_pattern() -> Seq<char> {
    "^[a-z][a-z0-9_-]*$"@
}

/// A task id is well formed: the id pattern compiles and matches it.
pub open spec fn id_ok(id: Seq<char>) -> bool {
    regex_accepts(id_pattern(), id) == Some(true)
}

/// `[m]` when `b` holds, else nothing.
pub open spec fn opt_msg(b: bool, m: Seq<char>) -> Seq<Seq<char>> {
    if b {
        seq![m]
    } else {
        Seq::empty()
    }
}

pub open spec fn no_tasks_msg(slug: Seq<char>) -> Seq<char> {
    "workflow '"@ + slug + "' has no tasks"@
}

pub open spec fn dup_msg(slug: Seq<char>, id: Seq<char>) -> Seq<char> {
    "workflow '"@ + slug + "': duplicate task id '"@ + id + "'"@
}

pub open spec fn task_msg(id: Seq<char>, slug: Seq<char>, detail: Seq<char>) -> Seq<char> {
    "task '"@ + id + "' in workflow '"@ + slug + "': "@ + detail
}

pub open spec fn id_detail() -> Seq<char> {
    "id must match ^[a-z][a-z0-9_-]*$"@
}

pub open spec fn mutex_detail() -> Seq<char> {
    "'prompt'/'skills' and 'agents' are mutually exclusive"@
}

pub open spec fn manual_detail() -> Seq<char> {
    "manual task requires 'task'"@
}

pub open spec fn unknown_req_detail(r: Seq<char>) -> Seq<char> {
    "unknown requires '"@ + r + "'"@
}

/// A manual task: no prompt, no skills, no agents.
pub open spec fn is_manual(t: Task) -> bool {
    t.prompt is None && t.skills@.len() == 0 && t.agents@.len() == 0
}

/// Prompt or skills together with agents.
pub open spec fn mixes_modes(t: Task) -> bool {
    (t.prompt is Some || t.skills@.len() > 0) && t.agents@.len() > 0
}

/// Errors for the first `n` requirements of task `t` that name no task of `wf`.
pub open spec fn req_errors(slug: Seq<char>, wf: Workflow, t: Task, n: int) -> Seq<Seq<char>>
    decreases n,
{
    if n <= 0 {
        Seq::empty()
    } else {
        req_errors(slug, wf, t, n - 1) + opt_msg(
            !declares_task(wf, t.requires@[n - 1]@),
            task_msg(t.id@, slug, unknown_req_detail(t.requires@[n - 1]@)),
        )
    }
}

/// The errors of one task: its id, its modes, its name, its requirements.
pub open spec fn task_errors(slug: Seq<char>, wf: Workflow, t: Task) -> Seq<Seq<char>> {
    opt_msg(!id_ok(t.id@), task_msg(t.id@, slug, id_detail()))
        + opt_msg(mixes_modes(t), task_msg(t.id@, slug, mutex_detail()))
        + opt_msg(is_manual(t) && t.task is None, task_msg(t.id@, slug, manual_detail()))
        + req_errors(slug, wf, t, t.requires@.len() as int)
}

/// The errors of the first `n` tasks of `wf`.
pub open spec fn tasks_errors(slug: Seq<char>, wf: Workflow, n: int) -> Seq<Seq<char>>
    decreases n,
{
    if n <= 0 {
        Seq::empty()
    } else {
        tasks_errors(slug, wf, n - 1) + task_errors(slug, wf, wf.tasks@[n - 1])
    }
}

/// One error for each of the first `n` ids that repeats an earlier id.
pub open spec fn dup_errors(slug: Seq<char>, ids: Seq<Seq<char>>, n: int) -> Seq<Seq<char>>
    decreases n,
{
    if n <= 0 {
        Seq::empty()
    } else {
        dup_errors(slug, ids, n - 1) + opt_msg(has_key(ids.subrange(0, n - 1), ids[n - 1]), dup_msg(slug, ids[n - 1]))
    }
}

/// The errors of one workflow.
pub open spec fn workflow_errors(slug: Seq<char>, wf: Workflow) -> Seq<Seq<char>> {
    let n = wf.tasks@.len() as int;
    opt_msg(n == 0, no_tasks_msg(slug)) + dup_errors(slug, task_ids(wf), n) + tasks_errors(slug, wf, n)
}

/// The errors of the first `n` workflows of `c`.
pub open spec fn config_errors_upto(c: Config, n: int) -> Seq<Seq<char>>
    decreases n,
{
    if n <= 0 {
        Seq::empty()
    } else {
        config_errors_upto(c, n - 1) + workflow_errors(c.workflows@[n - 1].slug@, c.workflows@[n - 1].workflow)
    }
}

/// Every error of a config, workflow by workflow.
pub open spec fn config_errors(c: Config) -> Seq<Seq<char>> {
    config_errors_upto(c, c.workflows@.len() as int)
}

/// `[<k>] ` for the error at (0-based) position `i`.
pub open spec fn numbered(i: nat, e: Seq<char>) -> Seq<char> {
    "["@ + decimal(i + 1) + "] "@ + e
}

/// The numbered errors from position `n` on, one per line.
pub open spec fn display_upto(errors: Seq<Seq<char>>, n: int) -> Seq<char>
    decreases n,
{
    if n <= 0 {
        Seq::empty()
    } else if n == 1 {
        numbered(0, errors[0])
    } else {
        display_upto(errors, n - 1) + "\n"@ + numbered((n - 1) as nat, errors[n - 1])
    }
}

proof fn lemma_views_push(v: Seq<String>, s: String)
    ensures
        views(v.push(s)) == views(v).push(s@),
{
    assert(views(v.push(s)) =~= views(v).push(s@));
}

/// Appends `m` to the errors.
fn push_msg(errors: &mut Vec<String>, m: String)
    ensures
        views(final(errors)@) == views(old(errors)@) + seq![m@],
{
    proof {
        lemma_views_push(errors@, m);
    }
    errors.push(m);
    proof {
        assert(views(old(errors)@).push(m@) =~= views(old(errors)@) + seq![m@]);
    }
}

/// `task '<id>' in workflow '<slug>': <detail>`.
fn task_message(id: &str, slug: &str, detail: &str) -> (r: String)
    ensures
        r@ == task_msg(id@, slug@, detail@),
{
    let mut m = own("task '");
    m.append(id);
    m.append("' in workflow '");
    m.append(slug);
    m.append("': ");
    m.append(detail);
    m
}

/// Appends the errors of one task.
fn push_task_errors(errors: &mut Vec<String>, slug: &str, wf: &Workflow, t: &Task)
    ensures
        views(final(errors)@) == views(old(errors)@) + task_errors(slug@, *wf, *t),
{
    let ghost start = views(errors@);
    let id = t.id.as_str();
    let ok = match regex_is_match("^[a-z][a-z0-9_-]*$", id) {
        Some(b) => b,
        None => false,
    };
    if !ok {
        push_msg(errors, task_message(id, slug, "id must match ^[a-z][a-z0-9_-]*$"));
    }
    let ghost after_id = views(errors@);
    assert(after_id == start + opt_msg(!id_ok(t.id@), task_msg(t.id@, slug@, id_detail())));
    if (t.prompt.is_some() || t.skills.len() > 0) && t.agents.len() > 0 {
        push_msg(errors, task_message(id, slug, "'prompt'/'skills' and 'agents' are mutually exclusive"));
    }
    let ghost after_mix = views(errors@);
    assert(after_mix == after_id + opt_msg(mixes_modes(*t), task_msg(t.id@, slug@, mutex_detail())));
    if t.prompt.is_none() && t.skills.len() == 0 && t.agents.len() == 0 && t.task.is_none() {
        push_msg(errors, task_message(id, slug, "manual task requires 'task'"));
    }
    let ghost after_manual = views(errors@);
    assert(after_manual == after_mix + opt_msg(is_manual(*t) && t.task is None, task_msg(t.id@, slug@, manual_detail())));
    let mut i: usize = 0;
    while i < t.requires.len()
        invariant
            i <= t.requires.len(),
            id@ == t.id@,
            views(errors@) == after_manual + req_errors(slug@, *wf, *t, i as int),
        decreases t.requires.len() - i,
    {
        let req = t.requires[i].as_str();
        let ghost before = views(errors@);
        let ghost msg = task_msg(t.id@, slug@, unknown_req_detail(req@));
        let missing = wf.find_task(req).is_none();
        if missing {
            let mut detail = own("unknown requires '");
            detail.append(req);
            detail.append("'");
            assert(detail@ =~= unknown_req_detail(req@));
            let m = task_message(id, slug, detail.as_str());
            assert(m@ =~= msg);
            push_msg(errors, m);
        }
        proof {
            assert(req@ == t.requires@[i as int]@);
            assert(req_errors(slug@, *wf, *t, i + 1) == req_errors(slug@, *wf, *t, i as int) + opt_msg(
                !declares_task(*wf, t.requires@[i as int]@),
                msg,
            ));
            if missing {
                assert(views(errors@) == before + seq![msg]);
            } else {
                assert(views(errors@) == before);
            }
            assert(views(errors@) =~= after_manual + req_errors(slug@, *wf, *t, i + 1));
        }
        i += 1;
    }
    proof {
        assert(views(errors@) =~= start + task_errors(slug@, *wf, *t));
    }
}

/// Appends one error per task id that repeats an earlier one.
fn push_dup_errors(errors: &mut Vec<String>, slug: &str, wf: &Workflow)
    ensures
        views(final(errors)@) == views(old(errors)@) + dup_errors(slug@, task_ids(*wf), wf.tasks@.len() as int),
{
    let ghost start = views(errors@);
    let ghost ids = task_ids(*wf);
    let mut i: usize = 0;
    while i < wf.tasks.len()
        invariant
            ids == task_ids(*wf),
            i <= wf.tasks.len(),
            views(errors@) == start + dup_errors(slug@, ids, i as int),
        decreases wf.tasks.len() - i,
    {
        let id = wf.tasks[i].id.as_str();
        let mut seen = false;
        let mut j: usize = 0;
        while j < i
            invariant
                ids == task_ids(*wf),
                i < wf.tasks.len(),
                j <= i,
                id@ == ids[i as int],
                seen <==> has_key(ids.subrange(0, j as int), ids[i as int]),
            decreases i - j,
        {
            if str_eq(wf.tasks[j].id.as_str(), id) {
                seen = true;
            }
            proof {
                let sub = ids.subrange(0, j + 1);
                assert(sub[j as int] == ids[j as int]);
                if has_key(ids.subrange(0, j as int), ids[i as int]) {
                    let k = choose|k: int| 0 <= k < j && ids.subrange(0, j as int)[k] == ids[i as int];
                    assert(sub[k] == ids[i as int]);
                }
                if has_key(sub, ids[i as int]) {
                    let k = choose|k: int| 0 <= k < j + 1 && sub[k] == ids[i as int];
                    if k < j {
                        assert(ids.subrange(0, j as int)[k] == ids[i as int]);
                    }
                }
            }
            j += 1;
        }
        if seen {
            let mut m = own("workflow '");
            m.append(slug);
            m.append("': duplicate task id '");
            m.append(id);
            m.append("'");
            push_msg(errors, m);
        }
        proof {
            assert(views(errors@) =~= start + dup_errors(slug@, ids, i + 1));
        }
        i += 1;
    }
}

/// Appends the errors of one workflow.
fn push_workflow_errors(errors: &mut Vec<String>, slug: &str, wf: &Workflow)
    ensures
        views(final(errors)@) == views(old(errors)@) + workflow_errors(slug@, *wf),
{
    let ghost start = views(errors@);
    if wf.tasks.len() == 0 {
        let mut m = own("workflow '");
        m.append(slug);
        m.append("' has no tasks");
        push_msg(errors, m);
    }
    let ghost after_empty = views(errors@);
    assert(after_empty == start + opt_msg(wf.tasks@.len() == 0, no_tasks_msg(slug@)));
    push_dup_errors(errors, slug, wf);
    let ghost after_dup = views(errors@);
    let mut t: usize = 0;
    while t < wf.tasks.len()
        invariant
            t <= wf.tasks.len(),
            views(errors@) == after_dup + tasks_errors(slug@, *wf, t as int),
        decreases wf.tasks.len() - t,
    {
        push_task_errors(errors, slug, wf, &wf.tasks[t]);
        proof {
            assert(views(errors@) =~= after_dup + tasks_errors(slug@, *wf, t + 1));
        }
        t += 1;
    }
    proof {
        assert(views(errors@) =~= start + workflow_errors(slug@, *wf));
    }
}

/// Validates the merged config and collects all errors before returning.
/// `Ok` exactly when there is none.
pub fn validate(config: &Config) -> (r: Result<(), ValidationError>)
    ensures
        r is Ok <==> config_errors(*config).len() == 0,
        r matches Err(e) ==> views(e.errors@) == config_errors(*config),
{
    let mut errors: Vec<String> = Vec::new();
    let mut w: usize = 0;
    proof {
        assert(views(errors@) =~= Seq::<Seq<char>>::empty());
    }
    while w < config.workflows.len()
        invariant
            w <= config.workflows.len(),
            views(errors@) == config_errors_upto(*config, w as int),
        decreases config.workflows.len() - w,
    {
        let entry: &WorkflowEntry = &config.workflows[w];
        push_workflow_errors(&mut errors, entry.slug.as_str(), &entry.workflow);
        w += 1;
    }
    if errors.len() == 0 {
        Ok(())
    } else {
        Err(ValidationError { errors })
    }
}

impl ValidationError {
    /// The errors, numbered from 1, one per line: `[1] first` and so on.
    pub fn to_string(&self) -> (r: String)
        ensures
            r@ == display_upto(views(self.errors@), self.errors@.len() as int),
    {
        let mut out = String::new();
        let mut i: usize = 0;
        proof {
            reveal_strlit("");
        }
        while i < self.errors.len()
            invariant
                i <= self.errors.len(),
                out@ == display_upto(views(self.errors@), i as int),
            decreases self.errors.len() - i,
        {
            if i > 0 {
                out.append("\n");
            }
            out.append("[");
            let k = decimal_string(i + 1);
            out.append(k.as_str());
            out.append("] ");
            out.append(self.errors[i].as_str());
            proof {
                assert(views(self.errors@)[i as int] == self.errors@[i as int]@);
                assert(out@ =~= display_upto(views(self.errors@), i + 1));
            }
            i += 1;
        }
        out
    }
}

} // verus!

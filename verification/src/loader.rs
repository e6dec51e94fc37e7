//! Loading a config with its imports. Imports are merged depth first, in
//! the order listed; a variable or workflow already present wins over an
//! imported one, so a file's own entries win over those of its imports. A
//! file may be imported along several paths (a diamond), but an import that
//! leads back to a file still being loaded is a cycle. Finding, reading and
//! parsing the files is the caller's part: it hands over every file that
//! the root reaches, each once, with its imports resolved.
use crate::config::{copy_opt_string, copy_strings, slugs, task_ids, var_keys, Config, Task, Var, Workflow, WorkflowEntry};
use crate::executor::{copy_deny, same_deny};
use crate::keys::{distinct, first_index, has_key, lemma_distinct_index, lemma_first_index_facts, lemma_first_index_push};
use crate::text::{cat, own, str_eq};
use crate::validate::{config_errors, config_errors_upto, display_upto, dup_errors, req_errors, task_errors, tasks_errors, validate, workflow_errors};
use crate::config::views;
use crate::state::opt_view;
use vstd::prelude::*;

verus! {

/// One import of a config file, resolved.
pub struct ImportRef {
    /// The path as written in the file, relative to `.workflow/`.
    pub name: String,
    /// The path joined to `.workflow/`, as shown in messages.
    pub display: String,
    /// The position of the imported file among the files, or `None` where
    /// it was not found.
    pub target: Option<usize>,
    /// The import resolves outside `.workflow/`.
    pub escapes: bool,
}

/// One config file: its parsed content (or why it could not be read or
/// parsed), and its imports in the order listed.
pub struct ConfigFile {
    pub parsed: Result<Config, String>,
    pub imports: Vec<ImportRef>,
}

/// The keys of a list of variables, in order.
pub open spec fn keys_of_vars(vs: Seq<Var>) -> Seq<Seq<char>> {
    vs.map_values(|v: Var| v.key@)
}

/// The slugs of a list of workflow entries, in order.
pub open spec fn slugs_of(ws: Seq<WorkflowEntry>) -> Seq<Seq<char>> {
    ws.map_values(|e: WorkflowEntry| e.slug@)
}

/// A list of variables by key (the first entry under a key).
pub open spec fn vars_map(vs: Seq<Var>) -> Map<Seq<char>, Seq<char>> {
    Map::new(
        |k: Seq<char>| has_key(keys_of_vars(vs), k),
        |k: Seq<char>| vs[first_index(keys_of_vars(vs), k).unwrap()].value@,
    )
}

/// A list of workflow entries by slug (the first entry under a slug).
pub open spec fn entries_by_slug(ws: Seq<WorkflowEntry>) -> Map<Seq<char>, Workflow> {
    Map::new(
        |k: Seq<char>| has_key(slugs_of(ws), k),
        |k: Seq<char>| ws[first_index(slugs_of(ws), k).unwrap()].workflow,
    )
}

/// The variables of a config by key.
pub open spec fn var_map(c: Config) -> Map<Seq<char>, Seq<char>> {
    vars_map(c.vars@)
}

/// The workflows of a config by slug.
pub open spec fn workflow_map(c: Config) -> Map<Seq<char>, Workflow> {
    entries_by_slug(c.workflows@)
}

/// Two tasks hold the same values.
pub open spec fn same_task(a: Task, b: Task) -> bool {
    &&& a.id == b.id
    &&& a.task == b.task
    &&& a.prompt == b.prompt
    &&& a.skills@ == b.skills@
    &&& a.agents@ == b.agents@
    &&& a.requires@ == b.requires@
    &&& a.outputs@ == b.outputs@
    &&& same_deny(a.deny, b.deny)
    &&& a.approval == b.approval
}

/// Two workflows hold the same values.
pub open spec fn same_workflow(a: Workflow, b: Workflow) -> bool {
    &&& a.name == b.name
    &&& a.description == b.description
    &&& a.tasks@.len() == b.tasks@.len()
    &&& forall|i: int| 0 <= i < a.tasks@.len() ==> same_task(#[trigger] a.tasks@[i], b.tasks@[i])
}

/// Two maps of workflows hold the same slugs, with the same workflows.
pub open spec fn same_workflows(a: Map<Seq<char>, Workflow>, b: Map<Seq<char>, Workflow>) -> bool {
    &&& a.dom() == b.dom()
    &&& forall|k: Seq<char>| a.dom().contains(k) ==> same_workflow(#[trigger] a[k], b[k])
}

/// The variables and workflows of a merged config: the variables by key;
/// the workflows by slug, the slugs in order, and for each slug the file
/// that defines it.
pub struct Merged {
    pub vars: Map<Seq<char>, Seq<char>>,
    pub workflows: Map<Seq<char>, Workflow>,
    pub order: Seq<Seq<char>>,
    pub origins: Map<Seq<char>, int>,
}

/// Config `c` holds the merged variables and workflows `m`, its workflows in
/// the order of `m`.
pub open spec fn holds(c: Config, m: Merged) -> bool {
    &&& var_map(c) == m.vars
    &&& same_workflows(workflow_map(c), m.workflows)
    &&& slugs_of(c.workflows@) == m.order
}

/// The first position among the first `n` of `s` that repeats an earlier one.
pub open spec fn first_repeat(s: Seq<Seq<char>>, n: int) -> Option<int>
    decreases n,
{
    if n <= 0 {
        None
    } else {
        match first_repeat(s, n - 1) {
            Some(j) => Some(j),
            None => if has_key(s.subrange(0, n - 1), s[n - 1]) {
                Some(n - 1)
            } else {
                None
            },
        }
    }
}

/// The message for a workflow slug defined twice.
pub open spec fn twice_msg(slug: Seq<char>) -> Seq<char> {
    "workflow '"@ + slug + "' is defined more than once"@
}

/// What file `t` with config `c` defines itself.
pub open spec fn own_merged(c: Config, t: int) -> Merged {
    Merged {
        vars: var_map(c),
        workflows: workflow_map(c),
        order: slugs_of(c.workflows@),
        origins: Map::new(|k: Seq<char>| workflow_map(c).dom().contains(k), |k: Seq<char>| t),
    }
}

/// The first of the first `n` slugs of `child` that `acc` already holds from
/// another file.
pub open spec fn first_clash(acc: Merged, child: Merged, n: int) -> Option<int>
    decreases n,
{
    if n <= 0 {
        None
    } else {
        match first_clash(acc, child, n - 1) {
            Some(j) => Some(j),
            None => {
                let k = child.order[n - 1];
                if acc.origins.dom().contains(k) && acc.origins[k] != child.origins[k] {
                    Some(n - 1)
                } else {
                    None
                }
            },
        }
    }
}

/// The first `n` slugs of `order` that `present` does not hold, in order.
pub open spec fn added(order: Seq<Seq<char>>, present: Set<Seq<char>>, n: int) -> Seq<Seq<char>>
    decreases n,
{
    if n <= 0 {
        Seq::empty()
    } else if present.contains(order[n - 1]) {
        added(order, present, n - 1)
    } else {
        added(order, present, n - 1).push(order[n - 1])
    }
}

/// `child` merged into `acc`: what `acc` holds wins, and the workflows that
/// `acc` lacks follow its own, in the child's order.
pub open spec fn merge_spec(acc: Merged, child: Merged) -> Merged {
    Merged {
        vars: child.vars.union_prefer_right(acc.vars),
        workflows: child.workflows.union_prefer_right(acc.workflows),
        order: acc.order + added(child.order, acc.workflows.dom(), child.order.len() as int),
        origins: child.origins.union_prefer_right(acc.origins),
    }
}

/// The number of files not on the stack of files being loaded.
pub open spec fn count_free(stack: Seq<bool>) -> nat
    decreases stack.len(),
{
    if stack.len() == 0 {
        0
    } else {
        count_free(stack.drop_last()) + (if stack.last() { 0nat } else { 1nat })
    }
}

pub proof fn lemma_count_free_push(stack: Seq<bool>, t: int)
    requires
        0 <= t < stack.len(),
        !stack[t],
    ensures
        count_free(stack.update(t, true)) + 1 == count_free(stack),
    decreases stack.len(),
{
    let s2 = stack.update(t, true);
    if t < stack.len() - 1 {
        assert(s2.drop_last() =~= stack.drop_last().update(t, true));
        lemma_count_free_push(stack.drop_last(), t);
    } else {
        assert(s2.drop_last() =~= stack.drop_last());
    }
}

/// Loading file `t`, reached through the path shown as `display`, while the
/// files marked in `stack` are being loaded.
pub open spec fn node_result(
    files: Seq<ConfigFile>,
    t: int,
    stack: Seq<bool>,
    display: Seq<char>,
    dir_error: Option<Seq<char>>,
) -> Result<Merged, Seq<char>>
    decreases count_free(stack), 0int,
{
    if !(0 <= t < files.len() && stack.len() == files.len()) {
        Err("config file not found: "@ + display)
    } else if stack[t] {
        Err("circular import detected: "@ + display)
    } else {
        match files[t].parsed {
            Err(m) => Err(m@),
            Ok(c) => match dir_error {
                Some(m) => Err(m),
                None => match first_repeat(slugs_of(c.workflows@), c.workflows@.len() as int) {
                    Some(j) => Err(twice_msg(slugs_of(c.workflows@)[j])),
                    None => {
                        proof {
                            lemma_count_free_push(stack, t);
                        }
                        imports_result(files, t, stack.update(t, true), files[t].imports@.len() as int, c)
                    },
                },
            },
        }
    }
}

/// The merge of config `c` of file `t` with its first `i` imports, while the
/// files marked in `stack` are being loaded.
pub open spec fn imports_result(files: Seq<ConfigFile>, t: int, stack: Seq<bool>, i: int, c: Config) -> Result<Merged, Seq<char>>
    decreases count_free(stack), if i <= 0 { 0int } else { i + 1 },
{
    if i <= 0 {
        Ok(own_merged(c, t))
    } else {
        match imports_result(files, t, stack, i - 1, c) {
            Err(m) => Err(m),
            Ok(acc) => {
                let imp = files[t].imports@[i - 1];
                match imp.target {
                    Some(u) if u < files.len() => if imp.escapes {
                        Err("import '"@ + imp.name@ + "' escapes .workflow/ directory"@)
                    } else {
                        match node_result(files, u as int, stack, imp.display@, None) {
                            Err(m) => Err(m),
                            Ok(child) => match first_clash(acc, child, child.order.len() as int) {
                                Some(j) => Err(twice_msg(child.order[j])),
                                None => Ok(merge_spec(acc, child)),
                            },
                        }
                    },
                    _ => Err("import not found: "@ + imp.name@),
                }
            },
        }
    }
}

proof fn lemma_vars_push(vs: Seq<Var>, v: Var)
    ensures
        has_key(keys_of_vars(vs), v.key@) ==> vars_map(vs.push(v)) == vars_map(vs),
        !has_key(keys_of_vars(vs), v.key@) ==> vars_map(vs.push(v)) == vars_map(vs).insert(v.key@, v.value@),
{
    let ks = keys_of_vars(vs);
    assert(keys_of_vars(vs.push(v)) =~= ks.push(v.key@));
    assert forall|k: Seq<char>| #![trigger vars_map(vs.push(v))[k]] #![trigger vars_map(vs.push(v)).dom().contains(k)]
        vars_map(vs.push(v)).dom().contains(k) ==> (has_key(ks, k) ==> vars_map(vs.push(v))[k] == vars_map(vs)[k]) by {
        lemma_first_index_push(ks, v.key@, k);
        if has_key(ks, k) {
            lemma_first_index_facts(ks, k);
        }
    }
    lemma_first_index_push(ks, v.key@, v.key@);
    if has_key(ks, v.key@) {
        assert forall|k: Seq<char>| #[trigger] vars_map(vs.push(v)).dom().contains(k) <==> vars_map(vs).dom().contains(k) by {
            lemma_first_index_push(ks, v.key@, k);
        }
        assert(vars_map(vs.push(v)) =~= vars_map(vs));
    } else {
        assert forall|k: Seq<char>| #[trigger] vars_map(vs.push(v)).dom().contains(k) <==> vars_map(vs).insert(v.key@, v.value@).dom().contains(k) by {
            lemma_first_index_push(ks, v.key@, k);
        }
        assert(vars_map(vs.push(v)) =~= vars_map(vs).insert(v.key@, v.value@));
    }
}

proof fn lemma_entries_push(ws: Seq<WorkflowEntry>, e: WorkflowEntry)
    ensures
        has_key(slugs_of(ws), e.slug@) ==> entries_by_slug(ws.push(e)) == entries_by_slug(ws),
        !has_key(slugs_of(ws), e.slug@) ==> entries_by_slug(ws.push(e)) == entries_by_slug(ws).insert(e.slug@, e.workflow),
{
    let ks = slugs_of(ws);
    assert(slugs_of(ws.push(e)) =~= ks.push(e.slug@));
    assert forall|k: Seq<char>| #![trigger entries_by_slug(ws.push(e))[k]] #![trigger entries_by_slug(ws.push(e)).dom().contains(k)]
        entries_by_slug(ws.push(e)).dom().contains(k) ==> (has_key(ks, k) ==> entries_by_slug(ws.push(e))[k] == entries_by_slug(ws)[k]) by {
        lemma_first_index_push(ks, e.slug@, k);
        if has_key(ks, k) {
            lemma_first_index_facts(ks, k);
        }
    }
    lemma_first_index_push(ks, e.slug@, e.slug@);
    if has_key(ks, e.slug@) {
        assert forall|k: Seq<char>| #[trigger] entries_by_slug(ws.push(e)).dom().contains(k) <==> entries_by_slug(ws).dom().contains(k) by {
            lemma_first_index_push(ks, e.slug@, k);
        }
        assert(entries_by_slug(ws.push(e)) =~= entries_by_slug(ws));
    } else {
        assert forall|k: Seq<char>| #[trigger] entries_by_slug(ws.push(e)).dom().contains(k) <==> entries_by_slug(ws).insert(e.slug@, e.workflow).dom().contains(k) by {
            lemma_first_index_push(ks, e.slug@, k);
        }
        assert(entries_by_slug(ws.push(e)) =~= entries_by_slug(ws).insert(e.slug@, e.workflow));
    }
}

/// The position of the variable under `key`, if any.
fn find_var(vs: &Vec<Var>, key: &str) -> (r: bool)
    ensures
        r == has_key(keys_of_vars(vs@), key@),
{
    let mut i: usize = 0;
    while i < vs.len()
        invariant
            i <= vs.len(),
            forall|j: int| 0 <= j < i ==> keys_of_vars(vs@)[j] != key@,
        decreases vs.len() - i,
    {
        if str_eq(vs[i].key.as_str(), key) {
            assert(keys_of_vars(vs@)[i as int] == key@);
            return true;
        }
        i += 1;
    }
    false
}

/// Whether a workflow is registered under `slug`.
fn find_slug(ws: &Vec<WorkflowEntry>, slug: &str) -> (r: bool)
    ensures
        r == has_key(slugs_of(ws@), slug@),
{
    let mut i: usize = 0;
    while i < ws.len()
        invariant
            i <= ws.len(),
            forall|j: int| 0 <= j < i ==> slugs_of(ws@)[j] != slug@,
        decreases ws.len() - i,
    {
        if str_eq(ws[i].slug.as_str(), slug) {
            assert(slugs_of(ws@)[i as int] == slug@);
            return true;
        }
        i += 1;
    }
    false
}

proof fn lemma_vars_step(cv: Seq<Var>, k: int, cur: Seq<Var>, b0: Seq<Var>)
    requires
        0 <= k < cv.len(),
        vars_map(cur) == vars_map(cv.subrange(0, k)).union_prefer_right(vars_map(b0)),
    ensures
        has_key(keys_of_vars(cur), cv[k].key@) ==> vars_map(cur) == vars_map(cv.subrange(0, k + 1)).union_prefer_right(vars_map(b0)),
        !has_key(keys_of_vars(cur), cv[k].key@) ==> vars_map(cur.push(cv[k])) == vars_map(cv.subrange(0, k + 1)).union_prefer_right(vars_map(b0)),
{
    let v = cv[k];
    let pre = cv.subrange(0, k);
    assert(cv.subrange(0, k + 1) =~= pre.push(v));
    lemma_vars_push(pre, v);
    lemma_vars_push(cur, v);
    let u = vars_map(pre).union_prefer_right(vars_map(b0));
    assert(has_key(keys_of_vars(cur), v.key@) == u.dom().contains(v.key@));
    if has_key(keys_of_vars(pre), v.key@) {
        assert(vars_map(pre).dom().contains(v.key@));
    }
    if has_key(keys_of_vars(cur), v.key@) {
        assert(vars_map(pre.push(v)).union_prefer_right(vars_map(b0)) =~= u);
    } else {
        assert(!vars_map(b0).dom().contains(v.key@));
        assert(!vars_map(pre).dom().contains(v.key@));
        assert(vars_map(pre.push(v)).union_prefer_right(vars_map(b0)) =~= u.insert(v.key@, v.value@));
    }
}

proof fn lemma_entries_step(cw: Seq<WorkflowEntry>, k: int, cur: Seq<WorkflowEntry>, b0: Seq<WorkflowEntry>)
    requires
        0 <= k < cw.len(),
        entries_by_slug(cur) == entries_by_slug(cw.subrange(0, k)).union_prefer_right(entries_by_slug(b0)),
    ensures
        has_key(slugs_of(cur), cw[k].slug@) ==> entries_by_slug(cur) == entries_by_slug(cw.subrange(0, k + 1)).union_prefer_right(entries_by_slug(b0)),
        !has_key(slugs_of(cur), cw[k].slug@) ==> entries_by_slug(cur.push(cw[k])) == entries_by_slug(cw.subrange(0, k + 1)).union_prefer_right(entries_by_slug(b0)),
{
    let e = cw[k];
    let pre = cw.subrange(0, k);
    assert(cw.subrange(0, k + 1) =~= pre.push(e));
    lemma_entries_push(pre, e);
    lemma_entries_push(cur, e);
    let u = entries_by_slug(pre).union_prefer_right(entries_by_slug(b0));
    assert(has_key(slugs_of(cur), e.slug@) == u.dom().contains(e.slug@));
    if has_key(slugs_of(pre), e.slug@) {
        assert(entries_by_slug(pre).dom().contains(e.slug@));
    }
    if has_key(slugs_of(cur), e.slug@) {
        assert(entries_by_slug(pre.push(e)).union_prefer_right(entries_by_slug(b0)) =~= u);
    } else {
        assert(!entries_by_slug(b0).dom().contains(e.slug@));
        assert(!entries_by_slug(pre).dom().contains(e.slug@));
        assert(entries_by_slug(pre.push(e)).union_prefer_right(entries_by_slug(b0)) =~= u.insert(e.slug@, e.workflow));
    }
}

/// Adds each variable of `child` whose key `base` does not hold yet.
fn merge_vars(base: &mut Vec<Var>, child: Vec<Var>)
    ensures
        vars_map(final(base)@) == vars_map(child@).union_prefer_right(vars_map(old(base)@)),
{
    let ghost b0 = base@;
    let ghost cv = child@;
    let mut rest = child;
    let mut k: usize = 0;
    proof {
        assert(vars_map(cv.subrange(0, 0)) =~= Map::<Seq<char>, Seq<char>>::empty());
        assert(vars_map(b0) =~= vars_map(cv.subrange(0, 0)).union_prefer_right(vars_map(b0)));
        assert(rest@ =~= cv.subrange(0, cv.len() as int));
        assert(cv.len() == rest.len());
    }
    while rest.len() > 0
        invariant
            k <= cv.len(),
            cv.len() <= usize::MAX,
            rest@ == cv.subrange(k as int, cv.len() as int),
            vars_map(base@) == vars_map(cv.subrange(0, k as int)).union_prefer_right(vars_map(b0)),
        decreases rest.len(),
    {
        assert(k < cv.len());
        let v = rest.remove(0);
        proof {
            assert(v == cv[k as int]);
            lemma_vars_step(cv, k as int, base@, b0);
        }
        if !find_var(base, v.key.as_str()) {
            base.push(v);
        }
        k += 1;
        proof {
            assert(rest@ =~= cv.subrange(k as int, cv.len() as int));
        }
    }
    proof {
        assert(cv.subrange(0, cv.len() as int) =~= cv);
    }
}

/// The file origins `os` match the slugs of `ws` position by position, as
/// `origins` records them.
pub open spec fn origins_match(ws: Seq<WorkflowEntry>, os: Seq<usize>, origins: Map<Seq<char>, int>) -> bool {
    &&& os.len() == ws.len()
    &&& forall|i: int| 0 <= i < ws.len() ==> origins.dom().contains(#[trigger] slugs_of(ws)[i]) && origins[slugs_of(ws)[i]] == os[i] as int
}

/// A repeated slug among the first `n` means a repeat is found there.
proof fn lemma_first_repeat(s: Seq<Seq<char>>, n: int)
    requires
        0 <= n <= s.len(),
    ensures
        first_repeat(s, n) is None <==> distinct(s.subrange(0, n)),
        first_repeat(s, n) matches Some(j) ==> 0 <= j < n,
    decreases n,
{
    if n > 0 {
        lemma_first_repeat(s, n - 1);
        let pre = s.subrange(0, n - 1);
        let cur = s.subrange(0, n);
        assert(cur =~= pre.push(s[n - 1]));
        if first_repeat(s, n - 1) is None {
            if has_key(pre, s[n - 1]) {
                let i = choose|i: int| 0 <= i < pre.len() && pre[i] == s[n - 1];
                assert(cur[i] == cur[n - 1]);
            } else {
                assert forall|i: int, j: int| 0 <= i < cur.len() && 0 <= j < cur.len() && i != j implies cur[i] != cur[j] by {
                    if i == n - 1 {
                        assert(pre[j] == cur[j]);
                    } else if j == n - 1 {
                        assert(pre[i] == cur[i]);
                    } else {
                        assert(pre[i] == cur[i] && pre[j] == cur[j]);
                    }
                }
            }
        } else {
            assert forall|i: int, j: int| 0 <= i < pre.len() && 0 <= j < pre.len() && i != j && distinct(cur) implies pre[i] != pre[j] by {
                assert(cur[i] == pre[i] && cur[j] == pre[j]);
            }
        }
    }
}

/// The first slug of `ws` that repeats an earlier one, if any.
fn find_repeat(ws: &Vec<WorkflowEntry>) -> (r: Option<usize>)
    ensures
        r matches Some(j) ==> j < ws@.len() && first_repeat(slugs_of(ws@), ws@.len() as int) == Some(j as int),
        r is None ==> first_repeat(slugs_of(ws@), ws@.len() as int) is None && distinct(slugs_of(ws@)),
{
    let ghost ks = slugs_of(ws@);
    let mut j: usize = 0;
    while j < ws.len()
        invariant
            j <= ws.len(),
            ks == slugs_of(ws@),
            first_repeat(ks, j as int) is None,
        decreases ws.len() - j,
    {
        let mut i: usize = 0;
        let mut found = false;
        while i < j
            invariant
                i <= j < ws.len(),
                ks == slugs_of(ws@),
                found ==> has_key(ks.subrange(0, j as int), ks[j as int]),
                !found ==> forall|m: int| 0 <= m < i ==> ks[m] != ks[j as int],
            decreases j - i,
        {
            if str_eq(ws[i].slug.as_str(), ws[j].slug.as_str()) {
                assert(ks.subrange(0, j as int)[i as int] == ks[j as int]);
                found = true;
            }
            i += 1;
        }
        if found {
            proof {
                assert(first_repeat(ks, j + 1) == Some(j as int));
                lemma_first_repeat_persists(ks, j + 1, ks.len() as int);
            }
            return Some(j);
        }
        proof {
            assert(!has_key(ks.subrange(0, j as int), ks[j as int])) by {
                if has_key(ks.subrange(0, j as int), ks[j as int]) {
                    let m = choose|m: int| 0 <= m < j && ks.subrange(0, j as int)[m] == ks[j as int];
                    assert(ks[m] == ks[j as int]);
                }
            }
        }
        j += 1;
    }
    proof {
        lemma_first_repeat(ks, ks.len() as int);
        assert(ks.subrange(0, ks.len() as int) =~= ks);
    }
    None
}

/// The position of the workflow with `slug`, if any.
fn slug_position(ws: &Vec<WorkflowEntry>, slug: &str) -> (r: Option<usize>)
    ensures
        r matches Some(p) ==> p < ws@.len() && slugs_of(ws@)[p as int] == slug@,
        r is None ==> !has_key(slugs_of(ws@), slug@),
{
    let mut i: usize = 0;
    while i < ws.len()
        invariant
            i <= ws.len(),
            forall|j: int| 0 <= j < i ==> slugs_of(ws@)[j] != slug@,
        decreases ws.len() - i,
    {
        if str_eq(ws[i].slug.as_str(), slug) {
            return Some(i);
        }
        i += 1;
    }
    None
}

/// Once a repeat is found, it stays the first one.
proof fn lemma_first_repeat_persists(s: Seq<Seq<char>>, a: int, b: int)
    requires
        a <= b,
        first_repeat(s, a) is Some,
    ensures
        first_repeat(s, b) == first_repeat(s, a),
    decreases b - a,
{
    if a < b {
        lemma_first_repeat_persists(s, a, b - 1);
    }
}

/// Once a clash is found, it stays the first one.
proof fn lemma_first_clash_persists(acc: Merged, child: Merged, a: int, b: int)
    requires
        a <= b,
        first_clash(acc, child, a) is Some,
    ensures
        first_clash(acc, child, b) == first_clash(acc, child, a),
    decreases b - a,
{
    if a < b {
        lemma_first_clash_persists(acc, child, a, b - 1);
    }
}

/// Whether clashes depend only on origins and order.
proof fn lemma_first_clash_ext(a1: Merged, a2: Merged, c1: Merged, c2: Merged, n: int)
    requires
        a1.origins == a2.origins,
        c1.origins == c2.origins,
        c1.order == c2.order,
    ensures
        first_clash(a1, c1, n) == first_clash(a2, c2, n),
    decreases n,
{
    if n > 0 {
        lemma_first_clash_ext(a1, a2, c1, c2, n - 1);
    }
}

/// The first workflow of `cw` that `aw` holds under the same slug from
/// another file (see `first_clash`).
fn find_clash(aw: &Vec<WorkflowEntry>, ao: &Vec<usize>, cw: &Vec<WorkflowEntry>, co: &Vec<usize>, Ghost(acc): Ghost<Merged>, Ghost(child): Ghost<Merged>) -> (r: Option<usize>)
    requires
        acc.origins.dom() == acc.workflows.dom(),
        acc.workflows.dom() == entries_by_slug(aw@).dom(),
        origins_match(aw@, ao@, acc.origins),
        origins_match(cw@, co@, child.origins),
        child.order == slugs_of(cw@),
        distinct(slugs_of(cw@)),
    ensures
        r matches Some(j) ==> j < cw@.len() && first_clash(acc, child, child.order.len() as int) == Some(j as int),
        r is None ==> first_clash(acc, child, child.order.len() as int) is None,
{
    let mut j: usize = 0;
    while j < cw.len()
        invariant
            j <= cw.len(),
            acc.origins.dom() == acc.workflows.dom(),
            acc.workflows.dom() == entries_by_slug(aw@).dom(),
            origins_match(aw@, ao@, acc.origins),
            origins_match(cw@, co@, child.origins),
            child.order == slugs_of(cw@),
            first_clash(acc, child, j as int) is None,
        decreases cw.len() - j,
    {
        let k = cw[j].slug.as_str();
        let ghost kk = child.order[j as int];
        assert(kk == k@);
        match slug_position(aw, k) {
            Some(p) => {
                assert(slugs_of(aw@)[p as int] == kk);
                assert(has_key(slugs_of(aw@), kk));
                if ao[p] != co[j] {
                    proof {
                        assert(first_clash(acc, child, j + 1) == Some(j as int));
                        lemma_first_clash_persists(acc, child, j + 1, child.order.len() as int);
                    }
                    return Some(j);
                }
            },
            None => {
                assert(!entries_by_slug(aw@).dom().contains(kk));
            },
        }
        j += 1;
    }
    None
}

/// `added` holds only slugs of the first `n` of `order`, none of `present`.
proof fn lemma_added_from(order: Seq<Seq<char>>, present: Set<Seq<char>>, n: int, x: Seq<char>)
    requires
        0 <= n <= order.len(),
    ensures
        has_key(added(order, present, n), x) ==> has_key(order.subrange(0, n), x) && !present.contains(x),
    decreases n,
{
    if n > 0 {
        lemma_added_from(order, present, n - 1, x);
        let prev = added(order, present, n - 1);
        if has_key(added(order, present, n), x) {
            let i = choose|i: int| 0 <= i < added(order, present, n).len() && added(order, present, n)[i] == x;
            if !present.contains(order[n - 1]) && i == prev.len() {
                assert(order.subrange(0, n)[n - 1] == x);
            } else {
                assert(prev[i] == x);
                let m = choose|m: int| 0 <= m < n - 1 && #[trigger] order.subrange(0, n - 1)[m] == x;
                assert(order.subrange(0, n)[m] == x);
            }
        }
    }
}

/// Adds each workflow of `child` whose slug `base` does not hold yet, with
/// its origin, keeping the origins beside the workflows.
fn merge_tagged(base: &mut Vec<WorkflowEntry>, borig: &mut Vec<usize>, child: Vec<WorkflowEntry>, corig: Vec<usize>)
    requires
        old(borig)@.len() == old(base)@.len(),
        corig@.len() == child@.len(),
        distinct(slugs_of(old(base)@)),
        distinct(slugs_of(child@)),
    ensures
        entries_by_slug(final(base)@) == entries_by_slug(child@).union_prefer_right(entries_by_slug(old(base)@)),
        slugs_of(final(base)@) == slugs_of(old(base)@) + added(slugs_of(child@), entries_by_slug(old(base)@).dom(), child@.len() as int),
        distinct(slugs_of(final(base)@)),
        final(borig)@.len() == final(base)@.len(),
        forall|i: int| 0 <= i < old(base)@.len() ==> final(borig)@[i] == old(borig)@[i],
        forall|i: int, j: int| old(base)@.len() <= i < final(base)@.len() && 0 <= j < child@.len()
            && #[trigger] slugs_of(final(base)@)[i] == #[trigger] slugs_of(child@)[j] ==> final(borig)@[i] == corig@[j],
{
    let ghost b0 = base@;
    let ghost bo0 = borig@;
    let ghost cw = child@;
    let ghost cs = slugs_of(cw);
    let ghost present = entries_by_slug(b0).dom();
    let mut rest = child;
    let mut rest_o = corig;
    let mut k: usize = 0;
    proof {
        assert(entries_by_slug(cw.subrange(0, 0)) =~= Map::<Seq<char>, Workflow>::empty());
        assert(entries_by_slug(b0) =~= entries_by_slug(cw.subrange(0, 0)).union_prefer_right(entries_by_slug(b0)));
        assert(rest@ =~= cw.subrange(0, cw.len() as int));
        assert(slugs_of(base@) =~= slugs_of(b0) + added(cs, present, 0));
        assert(cw.len() == rest.len());
    }
    while rest.len() > 0
        invariant
            k <= cw.len(),
            cw.len() <= usize::MAX,
            cs == slugs_of(cw),
            present == entries_by_slug(b0).dom(),
            distinct(slugs_of(b0)),
            distinct(cs),
            rest@ == cw.subrange(k as int, cw.len() as int),
            rest_o@.len() == rest@.len(),
            forall|m: int| 0 <= m < rest_o@.len() ==> rest_o@[m] == corig@[k + m],
            corig@.len() == cw.len(),
            entries_by_slug(base@) == entries_by_slug(cw.subrange(0, k as int)).union_prefer_right(entries_by_slug(b0)),
            slugs_of(base@) == slugs_of(b0) + added(cs, present, k as int),
            distinct(slugs_of(base@)),
            borig@.len() == base@.len(),
            base@.len() >= b0.len(),
            forall|i: int| 0 <= i < b0.len() ==> borig@[i] == bo0[i],
            forall|i: int, j: int| b0.len() <= i < base@.len() && 0 <= j < cw.len()
                && #[trigger] slugs_of(base@)[i] == #[trigger] cs[j] ==> borig@[i] == corig@[j],
        decreases rest.len(),
    {
        assert(k < cw.len());
        let e = rest.remove(0);
        let o = rest_o.remove(0);
        let ghost cur = base@;
        proof {
            assert(e == cw[k as int]);
            assert(o == corig@[k as int]);
            lemma_entries_step(cw, k as int, base@, b0);
            lemma_added_from(cs, present, k as int, cs[k as int]);
            assert(cs[k as int] == e.slug@);
            if has_key(added(cs, present, k as int), e.slug@) {
                let m = choose|m: int| 0 <= m < k && cs.subrange(0, k as int)[m] == e.slug@;
                assert(cs[m] == cs[k as int]);
            }
            // in the current base exactly when in the first base
            if has_key(slugs_of(cur), e.slug@) {
                let i = choose|i: int| 0 <= i < slugs_of(cur).len() && slugs_of(cur)[i] == e.slug@;
                if i >= b0.len() {
                    assert(added(cs, present, k as int)[i - b0.len()] == e.slug@);
                }
                else {
                    assert(slugs_of(b0)[i] == e.slug@);
                }
            }
            if has_key(slugs_of(b0), e.slug@) {
                let i = choose|i: int| 0 <= i < slugs_of(b0).len() && slugs_of(b0)[i] == e.slug@;
                assert(slugs_of(cur)[i] == e.slug@);
            }
            lemma_entries_push(b0, e);
            assert(has_key(slugs_of(b0), e.slug@) == present.contains(e.slug@)) by {
                if has_key(slugs_of(b0), e.slug@) {
                    lemma_first_index_facts(slugs_of(b0), e.slug@);
                }
            }
        }
        if !find_slug(base, e.slug.as_str()) {
            base.push(e);
            borig.push(o);
            proof {
                assert(slugs_of(base@) =~= slugs_of(cur).push(e.slug@));
                assert(slugs_of(base@) =~= slugs_of(b0) + added(cs, present, k + 1));
                assert forall|i: int, j: int| 0 <= i < slugs_of(base@).len() && 0 <= j < slugs_of(base@).len() && i != j
                    implies slugs_of(base@)[i] != slugs_of(base@)[j] by {
                    if i == cur.len() {
                        assert(slugs_of(cur)[j] == slugs_of(base@)[j]);
                    } else if j == cur.len() {
                        assert(slugs_of(cur)[i] == slugs_of(base@)[i]);
                    } else {
                        assert(slugs_of(cur)[i] == slugs_of(base@)[i]);
                        assert(slugs_of(cur)[j] == slugs_of(base@)[j]);
                    }
                }
                assert forall|i: int, j: int| b0.len() <= i < base@.len() && 0 <= j < cw.len()
                    && #[trigger] slugs_of(base@)[i] == #[trigger] cs[j] implies borig@[i] == corig@[j] by {
                    if i == cur.len() {
                        assert(slugs_of(base@)[i] == cs[k as int]);
                        if j != k {
                            assert(cs[j] != cs[k as int]);
                        }
                    } else {
                        assert(slugs_of(base@)[i] == slugs_of(cur)[i]);
                    }
                }
            }
        } else {
            proof {
                assert(slugs_of(base@) =~= slugs_of(b0) + added(cs, present, k + 1));
            }
        }
        k += 1;
        proof {
            assert(rest@ =~= cw.subrange(k as int, cw.len() as int));
            assert forall|m: int| 0 <= m < rest_o@.len() implies rest_o@[m] == corig@[k + m] by {
            }
        }
    }
    proof {
        assert(cw.subrange(0, cw.len() as int) =~= cw);
        assert forall|i: int, j: int| b0.len() <= i < base@.len() && 0 <= j < cw.len()
            && #[trigger] slugs_of(base@)[i] == #[trigger] slugs_of(cw)[j] implies borig@[i] == corig@[j] by {
            assert(slugs_of(cw)[j] == cs[j]);
        }
    }
}

/// A copy of a task.
fn copy_task(t: &Task) -> (r: Task)
    ensures
        same_task(r, *t),
{
    Task {
        id: t.id.clone(),
        task: copy_opt_string(&t.task),
        prompt: copy_opt_string(&t.prompt),
        skills: copy_strings(&t.skills),
        agents: copy_strings(&t.agents),
        requires: copy_strings(&t.requires),
        outputs: copy_strings(&t.outputs),
        deny: copy_deny(&t.deny),
        approval: t.approval,
    }
}

/// A copy of a workflow.
fn copy_workflow(w: &Workflow) -> (r: Workflow)
    ensures
        same_workflow(r, *w),
{
    let mut tasks: Vec<Task> = Vec::new();
    let mut i: usize = 0;
    while i < w.tasks.len()
        invariant
            i <= w.tasks.len(),
            tasks@.len() == i,
            forall|j: int| 0 <= j < i ==> same_task(#[trigger] tasks@[j], w.tasks@[j]),
        decreases w.tasks.len() - i,
    {
        tasks.push(copy_task(&w.tasks[i]));
        i += 1;
    }
    Workflow { name: w.name.clone(), description: copy_opt_string(&w.description), tasks }
}

/// A copy of a config's variables and workflows, without its imports.
fn copy_config(c: &Config) -> (r: Config)
    ensures
        var_map(r) == var_map(*c),
        same_workflows(workflow_map(r), workflow_map(*c)),
        slugs_of(r.workflows@) == slugs_of(c.workflows@),
        r.imports@.len() == 0,
{
    let mut vars: Vec<Var> = Vec::new();
    let mut i: usize = 0;
    while i < c.vars.len()
        invariant
            i <= c.vars.len(),
            vars@ == c.vars@.subrange(0, i as int),
        decreases c.vars.len() - i,
    {
        vars.push(Var { key: c.vars[i].key.clone(), value: c.vars[i].value.clone() });
        proof {
            assert(vars@ =~= c.vars@.subrange(0, i + 1));
        }
        i += 1;
    }
    proof {
        assert(vars@ =~= c.vars@);
    }
    let mut wfs: Vec<WorkflowEntry> = Vec::new();
    let mut j: usize = 0;
    while j < c.workflows.len()
        invariant
            j <= c.workflows.len(),
            wfs@.len() == j,
            forall|m: int| 0 <= m < j ==> (#[trigger] wfs@[m]).slug == c.workflows@[m].slug,
            forall|m: int| 0 <= m < j ==> same_workflow(#[trigger] wfs@[m].workflow, c.workflows@[m].workflow),
        decreases c.workflows.len() - j,
    {
        wfs.push(WorkflowEntry { slug: c.workflows[j].slug.clone(), workflow: copy_workflow(&c.workflows[j].workflow) });
        j += 1;
    }
    let r = Config { imports: Vec::new(), vars, workflows: wfs };
    proof {
        assert(slugs_of(r.workflows@) =~= slugs_of(c.workflows@));
        assert(workflow_map(r).dom() =~= workflow_map(*c).dom());
        assert forall|k: Seq<char>| workflow_map(r).dom().contains(k) implies same_workflow(#[trigger] workflow_map(r)[k], workflow_map(*c)[k]) by {
            lemma_first_index_facts(slugs_of(r.workflows@), k);
        }
    }
    r
}

/// Merging workflow maps keeps them the same.
proof fn lemma_same_union(a1: Map<Seq<char>, Workflow>, b1: Map<Seq<char>, Workflow>, a2: Map<Seq<char>, Workflow>, b2: Map<Seq<char>, Workflow>)
    requires
        same_workflows(a1, b1),
        same_workflows(a2, b2),
    ensures
        same_workflows(a2.union_prefer_right(a1), b2.union_prefer_right(b1)),
{
    assert(a2.union_prefer_right(a1).dom() =~= b2.union_prefer_right(b1).dom());
    assert forall|k: Seq<char>| a2.union_prefer_right(a1).dom().contains(k) implies same_workflow(
        #[trigger] a2.union_prefer_right(a1)[k],
        b2.union_prefer_right(b1)[k],
    ) by {
        if a1.dom().contains(k) {
            assert(same_workflow(a1[k], b1[k]));
        } else {
            assert(same_workflow(a2[k], b2[k]));
        }
    }
}

/// Once merging the imports has failed, it stays failed with the same error.
proof fn lemma_error_persists(files: Seq<ConfigFile>, t: int, stack: Seq<bool>, i: int, j: int, c: Config)
    requires
        0 <= i <= j,
        imports_result(files, t, stack, i, c) is Err,
    ensures
        imports_result(files, t, stack, j, c) == imports_result(files, t, stack, i, c),
    decreases j - i,
{
    if i < j {
        lemma_error_persists(files, t, stack, i, j - 1, c);
    }
}

/// What a loaded file and its imports give, as a config with the file that
/// defines each of its workflows, stands for the merge `m`.
pub open spec fn loaded_as(c: Config, os: Seq<usize>, m: Merged) -> bool {
    &&& holds(c, m)
    &&& distinct(slugs_of(c.workflows@))
    &&& m.origins.dom() == m.workflows.dom()
    &&& origins_match(c.workflows@, os, m.origins)
}

/// Loads file `t` with its imports, while the files marked in `stack` are
/// being loaded (see `node_result`); beside the config, the file that
/// defines each of its workflows.
#[verifier::rlimit(60)]
fn load_node(files: &Vec<ConfigFile>, t: usize, stack: &mut Vec<bool>, display: &str) -> (r: Result<(Config, Vec<usize>), String>)
    requires
        old(stack)@.len() == files@.len(),
        t < files@.len(),
    ensures
        final(stack)@ == old(stack)@,
        match node_result(files@, t as int, old(stack)@, display@, None) {
            Ok(m) => r matches Ok(p) && loaded_as(p.0, p.1@, m),
            Err(e) => r matches Err(x) && x@ == e,
        },
    decreases count_free(old(stack)@),
{
    if stack[t] {
        return Err(cat("circular import detected: ", display));
    }
    let c0 = match &files[t].parsed {
        Ok(c) => c,
        Err(m) => return Err(m.clone()),
    };
    match find_repeat(&c0.workflows) {
        Some(j) => {
            let mut m = own("workflow '");
            m.append(c0.workflows[j].slug.as_str());
            m.append("' is defined more than once");
            return Err(m);
        },
        None => {},
    }
    let ghost s0 = stack@;
    let ghost s1 = s0.update(t as int, true);
    let mut acc = copy_config(c0);
    let mut origs: Vec<usize> = Vec::new();
    let mut q: usize = 0;
    while q < acc.workflows.len()
        invariant
            q <= acc.workflows.len(),
            origs@.len() == q,
            forall|m: int| 0 <= m < q ==> origs@[m] == t,
        decreases acc.workflows.len() - q,
    {
        origs.push(t);
        q += 1;
    }
    stack.set(t, true);
    proof {
        lemma_count_free_push(s0, t as int);
        let m0 = own_merged(*c0, t as int);
        assert(imports_result(files@, t as int, s1, 0, *c0) == Ok::<Merged, Seq<char>>(m0));
        assert(m0.origins.dom() =~= m0.workflows.dom());
        assert forall|i: int| 0 <= i < acc.workflows@.len() implies m0.origins.dom().contains(#[trigger] slugs_of(acc.workflows@)[i])
            && m0.origins[slugs_of(acc.workflows@)[i]] == origs@[i] as int by {
            assert(slugs_of(acc.workflows@)[i] == slugs_of(c0.workflows@)[i]);
            assert(has_key(slugs_of(c0.workflows@), slugs_of(c0.workflows@)[i]));
        }
    }
    let imports = &files[t].imports;
    let mut i: usize = 0;
    while i < imports.len()
        invariant
            i <= imports.len(),
            t < files@.len(),
            *imports == files@[t as int].imports,
            files@[t as int].parsed == Ok::<Config, String>(*c0),
            stack@ == s1,
            s0 == old(stack)@,
            !s0[t as int],
            s1 == s0.update(t as int, true),
            s0.len() == files@.len(),
            count_free(s1) + 1 == count_free(s0),
            first_repeat(slugs_of(c0.workflows@), c0.workflows@.len() as int) is None,
            imports_result(files@, t as int, s1, i as int, *c0) matches Ok(m) && loaded_as(acc, origs@, m),
        decreases imports.len() - i,
    {
        let imp = &imports[i];
        let ghost before = imports_result(files@, t as int, s1, i as int, *c0);
        match imp.target {
            Some(u) => {
                if u < files.len() {
                    if imp.escapes {
                        stack.set(t, false);
                        proof {
                            assert(stack@ =~= s0);
                        }
                        let mut m = own("import '");
                        m.append(imp.name.as_str());
                        m.append("' escapes .workflow/ directory");
                        proof {
                            assert(imports_result(files@, t as int, s1, i + 1, *c0) == Err::<Merged, Seq<char>>(m@));
                            lemma_error_persists(files@, t as int, s1, i + 1, imports.len() as int, *c0);
                        }
                        return Err(m);
                    }
                    match load_node(files, u, stack, imp.display.as_str()) {
                        Ok(loaded) => {
                            let (child, corig) = loaded;
                            let ghost m0 = before->Ok_0;
                            let ghost cm = node_result(files@, u as int, s1, imp.display@, None)->Ok_0;
                            proof {
                                assert(m0.workflows.dom() =~= entries_by_slug(acc.workflows@).dom());
                            }
                            match find_clash(&acc.workflows, &origs, &child.workflows, &corig, Ghost(m0), Ghost(cm)) {
                                Some(j) => {
                                    stack.set(t, false);
                                    let mut m = own("workflow '");
                                    m.append(child.workflows[j].slug.as_str());
                                    m.append("' is defined more than once");
                                    proof {
                                        assert(stack@ =~= s0);
                                        assert(cm.order[j as int] == child.workflows@[j as int].slug@);
                                        assert(imports_result(files@, t as int, s1, i + 1, *c0) == Err::<Merged, Seq<char>>(m@));
                                        lemma_error_persists(files@, t as int, s1, i + 1, imports.len() as int, *c0);
                                    }
                                    return Err(m);
                                },
                                None => {},
                            }
                            let ghost acc0 = acc;
                            let ghost os0 = origs@;
                            let ghost child_c = child;
                            let Config { imports: _ci, vars: cvars, workflows: cwfs } = child;
                            assert(cwfs@ == child_c.workflows@);
                            merge_vars(&mut acc.vars, cvars);
                            merge_tagged(&mut acc.workflows, &mut origs, cwfs, corig);
                            proof {
                                let m1 = merge_spec(m0, cm);
                                assert(imports_result(files@, t as int, s1, i + 1, *c0) == Ok::<Merged, Seq<char>>(m1));
                                lemma_same_union(workflow_map(acc0), m0.workflows, workflow_map(child_c), cm.workflows);
                                assert(entries_by_slug(acc0.workflows@).dom() == m0.workflows.dom());
                                assert(m1.origins.dom() =~= m1.workflows.dom());
                                assert(cm.order == slugs_of(child_c.workflows@));
                                assert(slugs_of(acc.workflows@) == slugs_of(acc0.workflows@) + added(cm.order, m0.workflows.dom(), cm.order.len() as int));
                                assert forall|q: int| 0 <= q < acc.workflows@.len() implies m1.origins.dom().contains(#[trigger] slugs_of(acc.workflows@)[q])
                                    && m1.origins[slugs_of(acc.workflows@)[q]] == origs@[q] as int by {
                                    let k = slugs_of(acc.workflows@)[q];
                                    if q < acc0.workflows@.len() {
                                        assert(slugs_of(acc0.workflows@)[q] == k);
                                        assert(m0.origins.dom().contains(k));
                                        assert(m0.origins[k] == os0[q] as int);
                                    } else {
                                        lemma_added_from(cm.order, m0.workflows.dom(), cm.order.len() as int, k);
                                        assert(added(cm.order, m0.workflows.dom(), cm.order.len() as int)[q - acc0.workflows@.len()] == k);
                                        assert(!m0.origins.dom().contains(k));
                                        let j = choose|j: int| 0 <= j < cm.order.len() && #[trigger] cm.order.subrange(0, cm.order.len() as int)[j] == k;
                                        assert(cm.order[j] == k);
                                        assert(slugs_of(child_c.workflows@)[j] == k);
                                        assert(origs@[q] == corig@[j]);
                                        assert(cm.origins.dom().contains(slugs_of(child_c.workflows@)[j]));
                                        assert(cm.origins[k] == corig@[j] as int);
                                    }
                                }
                            }
                        },
                        Err(e) => {
                            stack.set(t, false);
                            proof {
                                assert(stack@ =~= s0);
                                assert(imports_result(files@, t as int, s1, i + 1, *c0) == Err::<Merged, Seq<char>>(e@));
                                lemma_error_persists(files@, t as int, s1, i + 1, imports.len() as int, *c0);
                            }
                            return Err(e);
                        },
                    }
                } else {
                    stack.set(t, false);
                    let m = cat("import not found: ", imp.name.as_str());
                    proof {
                        assert(stack@ =~= s0);
                        assert(imports_result(files@, t as int, s1, i + 1, *c0) == Err::<Merged, Seq<char>>(m@));
                        lemma_error_persists(files@, t as int, s1, i + 1, imports.len() as int, *c0);
                    }
                    return Err(m);
                }
            },
            None => {
                stack.set(t, false);
                let m = cat("import not found: ", imp.name.as_str());
                proof {
                    assert(stack@ =~= s0);
                    assert(imports_result(files@, t as int, s1, i + 1, *c0) == Err::<Merged, Seq<char>>(m@));
                    lemma_error_persists(files@, t as int, s1, i + 1, imports.len() as int, *c0);
                }
                return Err(m);
            },
        }
        i += 1;
    }
    stack.set(t, false);
    proof {
        assert(stack@ =~= s0);
    }
    Ok((acc, origs))
}

/// No file is being loaded yet.
pub open spec fn none_loading(n: int) -> Seq<bool> {
    Seq::new(n as nat, |i: int| false)
}

/// The result of loading the root (the first file) with its imports: the
/// merged config, or the first error met. `files` is empty where the root
/// was not found; `dir_error` says why `.workflow/` could not be resolved,
/// if it could not.
pub open spec fn load_result(files: Seq<ConfigFile>, root_display: Seq<char>, dir_error: Option<Seq<char>>) -> Result<Merged, Seq<char>> {
    node_result(files, 0, none_loading(files.len() as int), root_display, dir_error)
}

/// `r` is what loading and merging the files gives: the merged config,
/// listing no imports, or the loading error.
pub open spec fn merge_outcome(files: Seq<ConfigFile>, root_display: Seq<char>, dir_error: Option<Seq<char>>, r: Result<Config, String>) -> bool {
    match load_result(files, root_display, dir_error) {
        Ok(m) => r matches Ok(c) && holds(c, m) && distinct(slugs_of(c.workflows@)) && c.imports@.len() == 0,
        Err(e) => r matches Err(x) && x@ == e,
    }
}

/// Loads and merges the root config and its imports, without validating
/// the result. The merged config lists no imports.
pub fn load_and_merge_config(files: &Vec<ConfigFile>, root_display: &str, dir_error: Option<String>) -> (r: Result<Config, String>)
    ensures
        merge_outcome(files@, root_display@, opt_view(dir_error), r),
{
    if files.len() == 0 {
        return Err(cat("config file not found: ", root_display));
    }
    match &files[0].parsed {
        Err(m) => return Err(m.clone()),
        Ok(_) => {},
    }
    match dir_error {
        Some(m) => return Err(m),
        None => {},
    }
    let mut stack: Vec<bool> = Vec::new();
    let mut i: usize = 0;
    while i < files.len()
        invariant
            i <= files.len(),
            stack@ == none_loading(i as int),
        decreases files.len() - i,
    {
        stack.push(false);
        proof {
            assert(stack@ =~= none_loading(i + 1));
        }
        i += 1;
    }
    match load_node(files, 0, &mut stack, root_display) {
        Ok(loaded) => {
            let (c, _origins) = loaded;
            let mut c = c;
            c.imports = Vec::new();
            proof {
                assert(var_map(c) == vars_map(c.vars@));
            }
            Ok(c)
        },
        Err(e) => Err(e),
    }
}

/// Requirement errors look only at what the two tasks and workflows share.
proof fn lemma_req_errors_same(slug: Seq<char>, a: Workflow, b: Workflow, ta: Task, tb: Task, n: int)
    requires
        same_task(ta, tb),
        task_ids(a) == task_ids(b),
    ensures
        req_errors(slug, a, ta, n) == req_errors(slug, b, tb, n),
    decreases n,
{
    if n > 0 {
        lemma_req_errors_same(slug, a, b, ta, tb, n - 1);
    }
}

proof fn lemma_tasks_errors_same(slug: Seq<char>, a: Workflow, b: Workflow, n: int)
    requires
        same_workflow(a, b),
        task_ids(a) == task_ids(b),
        0 <= n <= a.tasks@.len(),
    ensures
        tasks_errors(slug, a, n) == tasks_errors(slug, b, n),
    decreases n,
{
    if n > 0 {
        lemma_tasks_errors_same(slug, a, b, n - 1);
        let ta = a.tasks@[n - 1];
        let tb = b.tasks@[n - 1];
        assert(same_task(ta, tb));
        lemma_req_errors_same(slug, a, b, ta, tb, ta.requires@.len() as int);
        assert(task_errors(slug, a, ta) == task_errors(slug, b, tb));
    }
}

/// Workflows holding the same values have the same errors.
proof fn lemma_workflow_errors_same(slug: Seq<char>, a: Workflow, b: Workflow)
    requires
        same_workflow(a, b),
    ensures
        workflow_errors(slug, a) == workflow_errors(slug, b),
{
    assert forall|i: int| 0 <= i < a.tasks@.len() implies task_ids(a)[i] == task_ids(b)[i] by {
        assert(same_task(a.tasks@[i], b.tasks@[i]));
    }
    assert(task_ids(a) =~= task_ids(b));
    lemma_tasks_errors_same(slug, a, b, a.tasks@.len() as int);
}

/// Two configs that hold one merge, whose slugs do not repeat, have the same
/// errors.
proof fn lemma_config_errors_same(c1: Config, c2: Config, m: Merged, n: int)
    requires
        holds(c1, m),
        holds(c2, m),
        distinct(m.order),
        0 <= n <= c1.workflows@.len(),
    ensures
        config_errors_upto(c1, n) == config_errors_upto(c2, n),
    decreases n,
{
    if n > 0 {
        lemma_config_errors_same(c1, c2, m, n - 1);
        let k = m.order[n - 1];
        assert(slugs_of(c1.workflows@)[n - 1] == k);
        assert(slugs_of(c2.workflows@)[n - 1] == k);
        lemma_distinct_index(m.order, k, n - 1);
        assert(has_key(slugs_of(c1.workflows@), k));
        assert(workflow_map(c1)[k] == c1.workflows@[n - 1].workflow);
        assert(workflow_map(c2)[k] == c2.workflows@[n - 1].workflow);
        lemma_workflow_errors_same(k, c1.workflows@[n - 1].workflow, m.workflows[k]);
        lemma_workflow_errors_same(k, c2.workflows@[n - 1].workflow, m.workflows[k]);
    }
}

/// Loads, merges and validates the root config and its imports. A config
/// that fails validation is an error listing every problem; a config that
/// merges and validates is loaded. This is merging, then validating what
/// merging gave: a merge error comes back as it is; a merged config without
/// problems is the result; else the result is the error listing its
/// problems, the text of the validation error.
pub fn load_config(files: &Vec<ConfigFile>, root_display: &str, dir_error: Option<String>) -> (r: Result<Config, String>)
    ensures
        exists|mr: Result<Config, String>| #[trigger] merge_outcome(files@, root_display@, opt_view(dir_error), mr) && match mr {
            Err(e) => r matches Err(x) && x@ == e@,
            Ok(c) => if config_errors(c).len() == 0 {
                r == Ok::<Config, String>(c)
            } else {
                r matches Err(x) && x@ == display_upto(config_errors(c), config_errors(c).len() as int)
            },
        },
        match load_result(files@, root_display@, opt_view(dir_error)) {
            Ok(m) => {
                &&& r matches Ok(c) ==> holds(c, m) && distinct(slugs_of(c.workflows@)) && c.imports@.len() == 0
                    && config_errors(c).len() == 0
                &&& r matches Err(x) ==> forall|c: Config| holds(c, m) ==> #[trigger] config_errors(c).len() > 0
                    && x@ == display_upto(config_errors(c), config_errors(c).len() as int)
                &&& (exists|c: Config| holds(c, m) && #[trigger] config_errors(c).len() == 0) ==> r is Ok
            },
            Err(e) => r matches Err(x) && x@ == e,
        },
{
    let ghost de = opt_view(dir_error);
    let merged = load_and_merge_config(files, root_display, dir_error);
    let ghost mr = merged;
    assert(merge_outcome(files@, root_display@, de, mr));
    let c = match merged {
        Ok(c) => c,
        Err(e) => return Err(e),
    };
    match validate(&c) {
        Ok(()) => Ok(c),
        Err(ve) => {
            let m = ve.to_string();
            proof {
                assert(views(ve.errors@).len() == ve.errors@.len());
                let mm = load_result(files@, root_display@, opt_view(dir_error))->Ok_0;
                assert forall|c2: Config| holds(c2, mm) implies #[trigger] config_errors(c2).len() > 0
                    && m@ == display_upto(config_errors(c2), config_errors(c2).len() as int) by {
                    assert(slugs_of(c2.workflows@).len() == c2.workflows@.len());
                    assert(slugs_of(c.workflows@).len() == c.workflows@.len());
                    assert(c2.workflows@.len() == c.workflows@.len());
                    lemma_config_errors_same(c, c2, mm, c.workflows@.len() as int);
                    assert(config_errors(c2) == config_errors(c));
                }
            }
            Err(m)
        },
    }
}

} // verus!

//! The hook entries this tool installs in the agent's settings file, and how
//! they are merged into the entries already there: for each matcher the
//! tool covers, its own hooks are replaced and every other hook is kept;
//! entries of other matchers are kept as they are. Reading and writing the
//! JSON is the caller's part: the caller holds the existing JSON values and
//! hands over, for each, what the merge reads of it and a handle to it.
use crate::text::{own, starts_with, has_prefix, str_eq};
use vstd::prelude::*;

verus! {

/// The prefix of the commands of this tool's hooks.
pub open spec fn own_prefix() -> Seq<char> {
    "workflow-runner hook"@
}

/// A hook of an existing entry: its `command` where that is a string, and
/// the caller's handle to the hook.
pub struct HookItem {
    pub command: Option<String>,
    pub handle: usize,
}

/// An existing entry of a hook-type array: its `matcher` where that is a
/// string, the hooks of its `hooks` array (none where it is not an array),
/// and the caller's handle to the entry.
pub struct HookEntry {
    pub matcher: Option<String>,
    pub hooks: Vec<HookItem>,
    pub handle: usize,
}

/// An entry this tool installs: a matcher and the commands of its hooks.
pub struct TargetEntry {
    pub matcher: String,
    pub commands: Vec<String>,
}

/// A hook of a merged entry: a command hook of this tool, or an existing
/// hook (by handle).
pub enum HookRef {
    Command(String),
    Existing(usize),
}

/// An entry of the merged array: an existing entry kept as it is (by
/// handle), or an entry built from a matcher and hooks.
pub enum MergedEntry {
    Kept(usize),
    Built { matcher: String, hooks: Vec<HookRef> },
}

/// The mathematical value of a merged hook.
pub enum HookRefView {
    Command(Seq<char>),
    Existing(usize),
}

/// The mathematical value of a merged entry.
pub enum MergedView {
    Kept(usize),
    Built(Seq<char>, Seq<HookRefView>),
}

impl View for HookRef {
    type V = HookRefView;

    open spec fn view(&self) -> HookRefView {
        match self {
            HookRef::Command(c) => HookRefView::Command(c@),
            HookRef::Existing(h) => HookRefView::Existing(*h),
        }
    }
}

/// The views of a sequence of merged hooks.
pub open spec fn hook_refs_view(s: Seq<HookRef>) -> Seq<HookRefView> {
    s.map_values(|h: HookRef| h@)
}

impl View for MergedEntry {
    type V = MergedView;

    open spec fn view(&self) -> MergedView {
        match self {
            MergedEntry::Kept(h) => MergedView::Kept(*h),
            MergedEntry::Built { matcher, hooks } => MergedView::Built(matcher@, hook_refs_view(hooks@)),
        }
    }
}

/// The views of a sequence of merged entries.
pub open spec fn merged_view(s: Seq<MergedEntry>) -> Seq<MergedView> {
    s.map_values(|e: MergedEntry| e@)
}

/// The hook is one of this tool's: its command starts with the tool's prefix.
pub open spec fn own_hook(h: HookItem) -> bool {
    match h.command {
        Some(c) => has_prefix(c@, own_prefix()),
        None => false,
    }
}

/// Some target entry has matcher `m`.
pub open spec fn covered(targets: Seq<TargetEntry>, m: Seq<char>) -> bool {
    exists|j: int| 0 <= j < targets.len() && #[trigger] targets[j].matcher@ == m
}

/// The existing entry's matcher is one the targets cover.
pub open spec fn entry_covered(targets: Seq<TargetEntry>, e: HookEntry) -> bool {
    match e.matcher {
        Some(m) => covered(targets, m@),
        None => false,
    }
}

/// The first `n` existing entries whose matcher the targets do not cover, kept.
pub open spec fn kept_entries(existing: Seq<HookEntry>, targets: Seq<TargetEntry>, n: int) -> Seq<MergedView>
    decreases n,
{
    if n <= 0 {
        Seq::empty()
    } else {
        let p = kept_entries(existing, targets, n - 1);
        if entry_covered(targets, existing[n - 1]) {
            p
        } else {
            p.push(MergedView::Kept(existing[n - 1].handle))
        }
    }
}

/// The first `n` hooks that are not this tool's, by handle.
pub open spec fn foreign_hooks(hooks: Seq<HookItem>, n: int) -> Seq<HookRefView>
    decreases n,
{
    if n <= 0 {
        Seq::empty()
    } else {
        let p = foreign_hooks(hooks, n - 1);
        if own_hook(hooks[n - 1]) {
            p
        } else {
            p.push(HookRefView::Existing(hooks[n - 1].handle))
        }
    }
}

/// The hooks that are not this tool's, of the first `n` existing entries
/// with matcher `m`, in order.
pub open spec fn preserved(existing: Seq<HookEntry>, m: Seq<char>, n: int) -> Seq<HookRefView>
    decreases n,
{
    if n <= 0 {
        Seq::empty()
    } else {
        let p = preserved(existing, m, n - 1);
        let e = existing[n - 1];
        match e.matcher {
            Some(x) => if x@ == m {
                p + foreign_hooks(e.hooks@, e.hooks@.len() as int)
            } else {
                p
            },
            None => p,
        }
    }
}

/// The command hooks of a target entry.
pub open spec fn command_hooks(commands: Seq<String>) -> Seq<HookRefView> {
    commands.map_values(|c: String| HookRefView::Command(c@))
}

/// The first `n` target entries, built: each with its command hooks, the
/// first one under a matcher followed by the preserved hooks of that matcher.
pub open spec fn built_entries(existing: Seq<HookEntry>, targets: Seq<TargetEntry>, n: int) -> Seq<MergedView>
    decreases n,
{
    if n <= 0 {
        Seq::empty()
    } else {
        let t = targets[n - 1];
        let first = forall|j: int| 0 <= j < n - 1 ==> #[trigger] targets[j].matcher@ != t.matcher@;
        let extra = if first {
            preserved(existing, t.matcher@, existing.len() as int)
        } else {
            Seq::empty()
        };
        built_entries(existing, targets, n - 1).push(MergedView::Built(t.matcher@, command_hooks(t.commands@) + extra))
    }
}

/// The merge of the targets into the existing entries of one hook type.
pub open spec fn merged_entries(existing: Seq<HookEntry>, targets: Seq<TargetEntry>) -> Seq<MergedView> {
    kept_entries(existing, targets, existing.len() as int) + built_entries(existing, targets, targets.len() as int)
}

/// What the merge reads of an entry, as values: its matcher and the commands
/// of its hooks.
pub struct EntryVal {
    pub matcher: Option<Seq<char>>,
    pub commands: Seq<Option<Seq<char>>>,
}

/// A hook with this command is one of this tool's.
pub open spec fn own_command(c: Option<Seq<char>>) -> bool {
    match c {
        Some(x) => has_prefix(x, own_prefix()),
        None => false,
    }
}

/// Holds of the commands of hooks that are not this tool's.
pub open spec fn foreign_command() -> spec_fn(Option<Seq<char>>) -> bool {
    |c: Option<Seq<char>>| !own_command(c)
}

/// Holds of the entries whose matcher the targets do not cover.
pub open spec fn uncovered(targets: Seq<TargetEntry>) -> spec_fn(EntryVal) -> bool {
    |e: EntryVal| !(e.matcher matches Some(m) && covered(targets, m))
}

/// The values of an existing entry.
pub open spec fn entry_val(e: HookEntry) -> EntryVal {
    EntryVal {
        matcher: crate::state::opt_view(e.matcher),
        commands: e.hooks@.map_values(|h: HookItem| crate::state::opt_view(h.command)),
    }
}

/// The values of the existing entries.
pub open spec fn entry_vals(existing: Seq<HookEntry>) -> Seq<EntryVal> {
    existing.map_values(|e: HookEntry| entry_val(e))
}

/// The commands of the hooks that are not this tool's, of the first `n`
/// entries with matcher `m`, in order.
pub open spec fn preserved_vals(v: Seq<EntryVal>, m: Seq<char>, n: int) -> Seq<Option<Seq<char>>>
    decreases n,
{
    if n <= 0 {
        Seq::empty()
    } else {
        let p = preserved_vals(v, m, n - 1);
        if v[n - 1].matcher == Some(m) {
            p + v[n - 1].commands.filter(foreign_command())
        } else {
            p
        }
    }
}

/// The commands of a target entry's hooks.
pub open spec fn target_commands(t: TargetEntry) -> Seq<Option<Seq<char>>> {
    t.commands@.map_values(|c: String| Some(c@))
}

/// The first `n` target entries, as values: each with its commands, the
/// first one under a matcher followed by the commands preserved for it.
pub open spec fn built_vals(v: Seq<EntryVal>, targets: Seq<TargetEntry>, n: int) -> Seq<EntryVal>
    decreases n,
{
    if n <= 0 {
        Seq::empty()
    } else {
        let t = targets[n - 1];
        let first = forall|j: int| 0 <= j < n - 1 ==> #[trigger] targets[j].matcher@ != t.matcher@;
        let extra = if first { preserved_vals(v, t.matcher@, v.len() as int) } else { Seq::empty() };
        built_vals(v, targets, n - 1).push(EntryVal { matcher: Some(t.matcher@), commands: target_commands(t) + extra })
    }
}

/// The merge on values: the entries of matchers the targets do not cover,
/// then the target entries built.
pub open spec fn merged_vals(v: Seq<EntryVal>, targets: Seq<TargetEntry>) -> Seq<EntryVal> {
    v.filter(uncovered(targets)) + built_vals(v, targets, targets.len() as int)
}

/// The command of the existing hook with handle `x`.
pub open spec fn command_of_handle(existing: Seq<HookEntry>, x: usize) -> Option<Seq<char>> {
    if exists|i: int, h: int| 0 <= i < existing.len() && 0 <= h < existing[i].hooks@.len() && #[trigger] existing[i].hooks@[h].handle == x {
        let (i, h) = choose|i: int, h: int|
            0 <= i < existing.len() && 0 <= h < existing[i].hooks@.len() && #[trigger] existing[i].hooks@[h].handle == x;
        crate::state::opt_view(existing[i].hooks@[h].command)
    } else {
        None
    }
}

/// The command a merged hook stands for.
pub open spec fn resolved_hook(existing: Seq<HookEntry>, r: HookRefView) -> Option<Seq<char>> {
    match r {
        HookRefView::Command(c) => Some(c),
        HookRefView::Existing(x) => command_of_handle(existing, x),
    }
}

/// The values a merged entry stands for.
pub open spec fn resolved_entry(existing: Seq<HookEntry>, e: MergedView) -> EntryVal {
    match e {
        MergedView::Kept(h) => entry_val(existing[h as int]),
        MergedView::Built(m, hooks) => EntryVal {
            matcher: Some(m),
            commands: hooks.map_values(|r: HookRefView| resolved_hook(existing, r)),
        },
    }
}

/// The values merged entries stand for.
pub open spec fn resolved(existing: Seq<HookEntry>, ms: Seq<MergedView>) -> Seq<EntryVal> {
    ms.map_values(|e: MergedView| resolved_entry(existing, e))
}

/// Each entry's handle is its position, and no two hooks share a handle, as
/// the caller hands them over.
pub open spec fn handles_ok(existing: Seq<HookEntry>) -> bool {
    &&& forall|i: int| 0 <= i < existing.len() ==> #[trigger] existing[i].handle == i
    &&& forall|i1: int, h1: int, i2: int, h2: int|
        0 <= i1 < existing.len() && 0 <= h1 < existing[i1].hooks@.len()
        && 0 <= i2 < existing.len() && 0 <= h2 < existing[i2].hooks@.len()
        && #[trigger] existing[i1].hooks@[h1].handle == #[trigger] existing[i2].hooks@[h2].handle
        ==> i1 == i2 && h1 == h2
}

/// The hook is one of this tool's.
pub fn is_wf_runner_hook(h: &HookItem) -> (r: bool)
    ensures
        r == own_hook(*h),
{
    match &h.command {
        Some(c) => starts_with(c.as_str(), "workflow-runner hook"),
        None => false,
    }
}

/// Some target entry has matcher `m`.
fn is_covered(targets: &Vec<TargetEntry>, m: &str) -> (r: bool)
    ensures
        r == covered(targets@, m@),
{
    let mut j: usize = 0;
    while j < targets.len()
        invariant
            j <= targets.len(),
            forall|k: int| 0 <= k < j ==> targets@[k].matcher@ != m@,
        decreases targets.len() - j,
    {
        if str_eq(targets[j].matcher.as_str(), m) {
            assert(targets@[j as int].matcher@ == m@);
            return true;
        }
        j += 1;
    }
    false
}

/// Appends the hooks of `hooks` that are not this tool's to `out`.
fn push_foreign(hooks: &Vec<HookItem>, out: &mut Vec<HookRef>)
    ensures
        hook_refs_view(final(out)@) == hook_refs_view(old(out)@) + foreign_hooks(hooks@, hooks@.len() as int),
{
    let ghost o0 = hook_refs_view(out@);
    let mut i: usize = 0;
    proof {
        assert(o0 + foreign_hooks(hooks@, 0) =~= o0);
    }
    while i < hooks.len()
        invariant
            i <= hooks.len(),
            hook_refs_view(out@) == o0 + foreign_hooks(hooks@, i as int),
        decreases hooks.len() - i,
    {
        let ghost before = hook_refs_view(out@);
        if !is_wf_runner_hook(&hooks[i]) {
            out.push(HookRef::Existing(hooks[i].handle));
            proof {
                assert(hook_refs_view(out@) =~= before.push(HookRefView::Existing(hooks@[i as int].handle)));
                assert(o0 + foreign_hooks(hooks@, i + 1) =~= (o0 + foreign_hooks(hooks@, i as int)).push(HookRefView::Existing(hooks@[i as int].handle)));
            }
        }
        i += 1;
    }
}

/// The hooks that are not this tool's, of the existing entries with matcher `m`.
fn preserved_hooks(existing: &Vec<HookEntry>, m: &str) -> (r: Vec<HookRef>)
    ensures
        hook_refs_view(r@) == preserved(existing@, m@, existing@.len() as int),
{
    let mut r: Vec<HookRef> = Vec::new();
    let mut i: usize = 0;
    proof {
        assert(hook_refs_view(r@) =~= Seq::<HookRefView>::empty());
    }
    while i < existing.len()
        invariant
            i <= existing.len(),
            hook_refs_view(r@) == preserved(existing@, m@, i as int),
        decreases existing.len() - i,
    {
        let e = &existing[i];
        match &e.matcher {
            Some(x) => {
                if str_eq(x.as_str(), m) {
                    push_foreign(&e.hooks, &mut r);
                }
            },
            None => {},
        }
        i += 1;
    }
    r
}

/// The command hooks of a target entry.
fn commands_of(commands: &Vec<String>) -> (r: Vec<HookRef>)
    ensures
        hook_refs_view(r@) == command_hooks(commands@),
{
    let mut r: Vec<HookRef> = Vec::new();
    let mut i: usize = 0;
    while i < commands.len()
        invariant
            i <= commands.len(),
            hook_refs_view(r@) == command_hooks(commands@.subrange(0, i as int)),
        decreases commands.len() - i,
    {
        r.push(HookRef::Command(commands[i].clone()));
        proof {
            assert(command_hooks(commands@.subrange(0, i + 1)) =~= command_hooks(commands@.subrange(0, i as int)).push(HookRefView::Command(commands@[i as int]@)));
            assert(hook_refs_view(r@) =~= command_hooks(commands@.subrange(0, i + 1)));
        }
        i += 1;
    }
    proof {
        assert(commands@.subrange(0, commands@.len() as int) =~= commands@);
    }
    r
}

/// Merges one hook-type array: existing entries of matchers the targets do
/// not cover are kept as they are, in order; then each target entry follows
/// with its command hooks, the first one under a matcher followed by the
/// hooks of that matcher's existing entries that are not this tool's.
pub fn merge_hook_type_array(existing: &Vec<HookEntry>, targets: &Vec<TargetEntry>) -> (r: Vec<MergedEntry>)
    ensures
        merged_view(r@) == merged_entries(existing@, targets@),
        handles_ok(existing@) ==> resolved(existing@, merged_view(r@)) == merged_vals(entry_vals(existing@), targets@),
{
    let mut r: Vec<MergedEntry> = Vec::new();
    let mut i: usize = 0;
    proof {
        assert(merged_view(r@) =~= kept_entries(existing@, targets@, 0));
    }
    while i < existing.len()
        invariant
            i <= existing.len(),
            merged_view(r@) == kept_entries(existing@, targets@, i as int),
        decreases existing.len() - i,
    {
        let e = &existing[i];
        let cov = match &e.matcher {
            Some(m) => is_covered(targets, m.as_str()),
            None => false,
        };
        if !cov {
            r.push(MergedEntry::Kept(e.handle));
            proof {
                assert(merged_view(r@) =~= kept_entries(existing@, targets@, i as int).push(MergedView::Kept(existing@[i as int].handle)));
            }
        }
        i += 1;
    }
    let ghost kept = merged_view(r@);
    let mut j: usize = 0;
    proof {
        assert(merged_view(r@) =~= kept + built_entries(existing@, targets@, 0));
    }
    while j < targets.len()
        invariant
            j <= targets.len(),
            kept == kept_entries(existing@, targets@, existing@.len() as int),
            merged_view(r@) == kept + built_entries(existing@, targets@, j as int),
        decreases targets.len() - j,
    {
        let t = &targets[j];
        let mut first = true;
        let mut k: usize = 0;
        while k < j
            invariant
                k <= j,
                j < targets.len(),
                *t == targets@[j as int],
                first <==> forall|q: int| 0 <= q < k ==> #[trigger] targets@[q].matcher@ != t.matcher@,
            decreases j - k,
        {
            if str_eq(targets[k].matcher.as_str(), t.matcher.as_str()) {
                first = false;
            }
            k += 1;
        }
        let mut hooks = commands_of(&t.commands);
        if first {
            let extra = preserved_hooks(existing, t.matcher.as_str());
            let ghost h0 = hook_refs_view(hooks@);
            let mut extra = extra;
            hooks.append(&mut extra);
            proof {
                assert(hook_refs_view(hooks@) =~= h0 + preserved(existing@, t.matcher@, existing@.len() as int));
            }
        } else {
            proof {
                assert(hook_refs_view(hooks@) =~= command_hooks(t.commands@) + Seq::<HookRefView>::empty());
            }
        }
        let ghost before = merged_view(r@);
        r.push(MergedEntry::Built { matcher: t.matcher.clone(), hooks });
        proof {
            assert(merged_view(r@) =~= before.push(r@[r@.len() - 1]@));
            assert(built_entries(existing@, targets@, j + 1) == built_entries(existing@, targets@, j as int).push(r@[r@.len() - 1]@));
            assert(merged_view(r@) =~= kept + built_entries(existing@, targets@, j + 1));
        }
        j += 1;
    }
    proof {
        if handles_ok(existing@) {
            crate::laws::law_merge_reads_back(existing@, targets@);
        }
    }
    r
}

/// The entries this tool installs, for `PostToolUse` and for `PreToolUse`:
/// after edits and writes the post-edit hook (followed by `rust_checks`, the
/// command of the project's Rust checks script, where it has one); before
/// edits and writes the pre-edit hook, and before shell commands the
/// pre-bash hook.
pub fn build_settings(rust_checks: Option<&str>) -> (r: (Vec<TargetEntry>, Vec<TargetEntry>))
    ensures
        r.0@.len() == 2,
        r.0@[0].matcher@ == "Edit"@,
        r.0@[1].matcher@ == "Write"@,
        forall|i: int| 0 <= i < 2 ==> views_of(#[trigger] r.0@[i].commands@) == post_edit_commands(opt_view(rust_checks)),
        r.1@.len() == 3,
        r.1@[0].matcher@ == "Edit"@,
        r.1@[1].matcher@ == "Write"@,
        r.1@[2].matcher@ == "Bash"@,
        views_of(r.1@[0].commands@) == seq!["workflow-runner hook pre-edit"@],
        views_of(r.1@[1].commands@) == seq!["workflow-runner hook pre-edit"@],
        views_of(r.1@[2].commands@) == seq!["workflow-runner hook pre-bash"@],
{
    let mut post: Vec<TargetEntry> = Vec::new();
    post.push(TargetEntry { matcher: own("Edit"), commands: post_edit_list(rust_checks) });
    post.push(TargetEntry { matcher: own("Write"), commands: post_edit_list(rust_checks) });
    let mut pre: Vec<TargetEntry> = Vec::new();
    pre.push(TargetEntry { matcher: own("Edit"), commands: one_command("workflow-runner hook pre-edit") });
    pre.push(TargetEntry { matcher: own("Write"), commands: one_command("workflow-runner hook pre-edit") });
    pre.push(TargetEntry { matcher: own("Bash"), commands: one_command("workflow-runner hook pre-bash") });
    (post, pre)
}

/// The views of a sequence of strings.
pub open spec fn views_of(s: Seq<String>) -> Seq<Seq<char>> {
    s.map_values(|c: String| c@)
}

/// The view of an optional string.
pub open spec fn opt_view(s: Option<&str>) -> Option<Seq<char>> {
    match s {
        Some(c) => Some(c@),
        None => None,
    }
}

/// The commands run after an edit or a write: the post-edit hook, then the
/// Rust checks command where there is one.
pub open spec fn post_edit_commands(rust_checks: Option<Seq<char>>) -> Seq<Seq<char>> {
    match rust_checks {
        Some(c) => seq!["workflow-runner hook post-edit"@, c],
        None => seq!["workflow-runner hook post-edit"@],
    }
}

fn one_command(c: &str) -> (r: Vec<String>)
    ensures
        views_of(r@) == seq![c@],
{
    let mut r: Vec<String> = Vec::new();
    r.push(own(c));
    proof {
        assert(views_of(r@) =~= seq![c@]);
    }
    r
}

fn post_edit_list(rust_checks: Option<&str>) -> (r: Vec<String>)
    ensures
        views_of(r@) == post_edit_commands(opt_view(rust_checks)),
{
    let mut r: Vec<String> = Vec::new();
    r.push(own("workflow-runner hook post-edit"));
    match rust_checks {
        Some(c) => r.push(own(c)),
        None => {},
    }
    proof {
        assert(views_of(r@) =~= post_edit_commands(opt_view(rust_checks)));
    }
    r
}


/// An existing entry as the caller reads it: its matcher where that is a
/// string, and the commands of its hooks (where each is a string).
pub struct RawEntry {
    pub matcher: Option<String>,
    pub commands: Vec<Option<String>>,
}

/// The values of a raw entry.
pub open spec fn raw_val(e: RawEntry) -> EntryVal {
    EntryVal {
        matcher: crate::state::opt_view(e.matcher),
        commands: e.commands@.map_values(|c: Option<String>| crate::state::opt_view(c)),
    }
}

/// The number of hooks of the first `i` raw entries: the handle of the
/// first hook of entry `i`.
pub open spec fn hook_offset(raw: Seq<RawEntry>, i: int) -> int
    decreases i,
{
    if i <= 0 {
        0
    } else {
        hook_offset(raw, i - 1) + raw[i - 1].commands@.len()
    }
}

proof fn lemma_offset_grows(raw: Seq<RawEntry>, a: int, b: int)
    requires
        0 <= a <= b <= raw.len(),
    ensures
        hook_offset(raw, a) <= hook_offset(raw, b),
        a < b ==> hook_offset(raw, a) + raw[a].commands@.len() <= hook_offset(raw, b),
    decreases b - a,
{
    if a < b {
        lemma_offset_grows(raw, a, b - 1);
        if a < b - 1 {
            lemma_offset_grows(raw, a + 1, b);
        }
    }
}

/// The entries to merge, from the raw entries the caller read: each entry's
/// handle is its position, and each hook's handle its position among all
/// the hooks, entry after entry.
pub fn number_entries(raw: Vec<RawEntry>) -> (r: Vec<HookEntry>)
    requires
        hook_offset(raw@, raw@.len() as int) <= usize::MAX,
    ensures
        handles_ok(r@),
        entry_vals(r@) == raw@.map_values(|e: RawEntry| raw_val(e)),
        forall|i: int, h: int| 0 <= i < r@.len() && 0 <= h < r@[i].hooks@.len() ==>
            #[trigger] r@[i].hooks@[h].handle == hook_offset(raw@, i) + h,
{
    let ghost orig = raw@;
    let n = raw.len();
    let mut raw = raw;
    let mut out: Vec<HookEntry> = Vec::new();
    let mut next: usize = 0;
    let mut i: usize = 0;
    while i < n
        invariant
            n == orig.len(),
            i <= n,
            raw@ == orig.skip(i as int),
            out@.len() == i,
            next == hook_offset(orig, i as int),
            hook_offset(orig, orig.len() as int) <= usize::MAX,
            forall|j: int| 0 <= j < i ==> #[trigger] out@[j].handle == j,
            forall|j: int| 0 <= j < i ==> entry_val(#[trigger] out@[j]) == raw_val(orig[j]),
            forall|j: int, h: int| 0 <= j < i && 0 <= h < out@[j].hooks@.len() ==>
                #[trigger] out@[j].hooks@[h].handle == hook_offset(orig, j) + h,
        decreases n - i,
    {
        assert(raw@[0] == orig[i as int]);
        let e = raw.remove(0);
        assert(raw@ =~= orig.skip(i + 1));
        proof {
            lemma_offset_grows(orig, i + 1, orig.len() as int);
        }
        let RawEntry { matcher, commands } = e;
        let ghost cs0 = commands@;
        let mut cs = commands;
        let mut hooks: Vec<HookItem> = Vec::new();
        let m = cs.len();
        let mut h: usize = 0;
        while h < m
            invariant
                m == cs0.len(),
                cs0 == orig[i as int].commands@,
                h <= m,
                cs@ == cs0.skip(h as int),
                hooks@.len() == h,
                next + m <= usize::MAX,
                forall|q: int| 0 <= q < h ==> #[trigger] hooks@[q].handle == next + q,
                forall|q: int| 0 <= q < h ==> crate::state::opt_view(#[trigger] hooks@[q].command) == crate::state::opt_view(cs0[q]),
            decreases m - h,
        {
            assert(cs@[0] == cs0[h as int]);
            let c = cs.remove(0);
            assert(cs@ =~= cs0.skip(h + 1));
            hooks.push(HookItem { command: c, handle: next + h });
            h += 1;
        }
        let ghost item = HookEntry { matcher, hooks, handle: i };
        proof {
            assert(item.hooks@.map_values(|x: HookItem| crate::state::opt_view(x.command))
                =~= cs0.map_values(|c: Option<String>| crate::state::opt_view(c)));
            assert(entry_val(item) == raw_val(orig[i as int]));
        }
        out.push(HookEntry { matcher, hooks, handle: i });
        next = next + m;
        i += 1;
    }
    proof {
        let r = out@;
        assert(entry_vals(r) =~= orig.map_values(|e: RawEntry| raw_val(e)));
        assert forall|i1: int, h1: int, i2: int, h2: int|
            0 <= i1 < r.len() && 0 <= h1 < r[i1].hooks@.len()
            && 0 <= i2 < r.len() && 0 <= h2 < r[i2].hooks@.len()
            && #[trigger] r[i1].hooks@[h1].handle == #[trigger] r[i2].hooks@[h2].handle
            implies i1 == i2 && h1 == h2 by {
            assert(r[i1].hooks@.len() == orig[i1].commands@.len()) by {
                assert(entry_val(r[i1]) == raw_val(orig[i1]));
                assert(entry_val(r[i1]).commands.len() == r[i1].hooks@.len());
            }
            assert(r[i2].hooks@.len() == orig[i2].commands@.len()) by {
                assert(entry_val(r[i2]) == raw_val(orig[i2]));
                assert(entry_val(r[i2]).commands.len() == r[i2].hooks@.len());
            }
            if i1 < i2 {
                lemma_offset_grows(orig, i1, i2);
            } else if i2 < i1 {
                lemma_offset_grows(orig, i2, i1);
            }
        }
    }
    out
}

} // verus!

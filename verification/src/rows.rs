//! The rows in which a run's state is stored, and the state read back from
//! them. Writing and reading the rows is the caller's part; timestamps are
//! stored and read back as RFC 3339 text in UTC.
use crate::state::{
    entry_keys, initial_step, opt_view, reports_view, state_wf, step_or_initial, ActionReport, ReportView, StateView,
    StepEntry, StepState, StepStatus, StepView, WorkflowState,
};
use crate::keys::{first_index, has_key, lemma_distinct_index};
use crate::store::{law_status_name_round_trip, parse_status, status_name, status_to_str, str_to_status};
use crate::text::own;
use vstd::prelude::*;

verus! {

/// The stored row of a run.
pub struct RunRow {
    pub workflow: String,
    pub started_at: String,
}

/// The stored row of one step.
pub struct StepRow {
    pub step_id: String,
    pub status: String,
    pub started_at: Option<String>,
    pub completed_at: Option<String>,
    pub updated_at: Option<String>,
}

/// The stored row of one action report, under the key of its step.
pub struct ReportRow {
    pub step_id: String,
    pub action_index: usize,
    pub action_type: String,
    pub exit_code: Option<i32>,
    pub stdout: Option<String>,
    pub recorded_at: String,
}

/// The UTC RFC 3339 text of the instant that RFC 3339 text `s` denotes, or
/// `None` where `s` is not RFC 3339 text.
pub uninterp spec fn rfc3339_utc(s: Seq<char>) -> Option<Seq<char>>;

/// Reads RFC 3339 text and writes the instant back in UTC
/// (`chrono::DateTime::parse_from_rfc3339`, then `with_timezone(&Utc)` and
/// `to_rfc3339`). The result is named by `rfc3339_utc`: a function of the
/// text alone. Nothing more is stated of chrono's grammar.
#[verifier::external_body]
fn normalize_timestamp(s: &str) -> (r: Option<String>)
    ensures
        opt_view(r) == rfc3339_utc(s@),
{
    match chrono::DateTime::parse_from_rfc3339(s) {
        Ok(dt) => Some(dt.with_timezone(&chrono::Utc).to_rfc3339()),
        Err(_) => None,
    }
}

/// An optional stored timestamp as read back: text that is not RFC 3339
/// reads as no timestamp.
pub open spec fn read_time(t: Option<String>) -> Option<Seq<char>> {
    match t {
        Some(s) => rfc3339_utc(s@),
        None => None,
    }
}

/// The step a step row describes, before its reports are added.
pub open spec fn step_of_row(r: StepRow) -> StepView {
    StepView {
        status: parse_status(r.status@),
        started_at: read_time(r.started_at),
        completed_at: read_time(r.completed_at),
        updated_at: read_time(r.updated_at),
        reports: Seq::empty(),
    }
}

/// The steps the first `n` step rows describe; a later row under the same
/// key replaces an earlier one.
pub open spec fn steps_of_rows(rows: Seq<StepRow>, n: int) -> Map<Seq<char>, StepView>
    decreases n,
{
    if n <= 0 {
        Map::empty()
    } else {
        steps_of_rows(rows, n - 1).insert(rows[n - 1].step_id@, step_of_row(rows[n - 1]))
    }
}

/// The report a report row describes.
pub open spec fn report_of_row(r: ReportRow) -> ReportView {
    ReportView {
        action_index: r.action_index,
        action_type: r.action_type@,
        exit_code: r.exit_code,
        stdout: opt_view(r.stdout),
        recorded_at: rfc3339_utc(r.recorded_at@).unwrap(),
    }
}

/// `steps` with the reports of the first `n` report rows appended, in
/// order, each to the step under its key (an initial step where none is
/// recorded).
pub open spec fn add_reports(steps: Map<Seq<char>, StepView>, rows: Seq<ReportRow>, n: int) -> Map<Seq<char>, StepView>
    decreases n,
{
    if n <= 0 {
        steps
    } else {
        let prev = add_reports(steps, rows, n - 1);
        let r = rows[n - 1];
        let s = step_or_initial(prev, r.step_id@);
        prev.insert(r.step_id@, StepView { reports: s.reports.push(report_of_row(r)), ..s })
    }
}

/// Every report row carries an RFC 3339 time.
pub open spec fn report_times_valid(rows: Seq<ReportRow>) -> bool {
    forall|j: int| 0 <= j < rows.len() ==> (#[trigger] rfc3339_utc(rows[j].recorded_at@)) is Some
}

/// The state that stored rows describe, or `None` where the run's start
/// time or a report's time is not RFC 3339 text.
pub open spec fn state_of_rows(id: Seq<char>, run: RunRow, steps: Seq<StepRow>, reports: Seq<ReportRow>) -> Option<StateView> {
    match rfc3339_utc(run.started_at@) {
        Some(t) => if report_times_valid(reports) {
            Some(
                StateView {
                    workflow_id: id,
                    workflow: run.workflow@,
                    started_at: t,
                    steps: add_reports(steps_of_rows(steps, steps.len() as int), reports, reports.len() as int),
                },
            )
        } else {
            None
        },
        None => None,
    }
}

/// The state of a run read back from its stored rows; an invalid start time
/// or report time is an error.
pub fn state_from_rows(workflow_id: &str, run: RunRow, steps: Vec<StepRow>, reports: Vec<ReportRow>) -> (r: Result<WorkflowState, String>)
    ensures
        r is Ok <==> state_of_rows(workflow_id@, run, steps@, reports@) is Some,
        r matches Ok(st) ==> state_wf(st) && Some(st@) == state_of_rows(workflow_id@, run, steps@, reports@),
        r matches Err(m) ==> m@ == (if rfc3339_utc(run.started_at@) is None {
            "invalid started_at timestamp"@
        } else {
            "invalid recorded_at timestamp"@
        }),
{
    let started_at = match normalize_timestamp(run.started_at.as_str()) {
        Some(t) => t,
        None => return Err(own("invalid started_at timestamp")),
    };
    let mut st = WorkflowState { workflow_id: own(workflow_id), workflow: run.workflow, started_at, tasks: Vec::new() };
    proof {
        assert(st@.steps =~= steps_of_rows(steps@, 0));
    }
    let mut i: usize = 0;
    while i < steps.len()
        invariant
            i <= steps.len(),
            state_wf(st),
            st@.steps == steps_of_rows(steps@, i as int),
            st.workflow_id@ == workflow_id@,
            st.workflow@ == run.workflow@,
            Some(st.started_at@) == rfc3339_utc(run.started_at@),
        decreases steps.len() - i,
    {
        let row = &steps[i];
        let s = StepState {
            status: str_to_status(row.status.as_str()),
            started_at: read_opt(&row.started_at),
            completed_at: read_opt(&row.completed_at),
            updated_at: read_opt(&row.updated_at),
            action_reports: Vec::new(),
        };
        proof {
            assert(reports_view(s.action_reports@) =~= Seq::<ReportView>::empty());
        }
        let k = st.entry(row.step_id.as_str());
        st.set_state(k, s);
        proof {
            assert(st@.steps =~= steps_of_rows(steps@, i + 1));
        }
        i += 1;
    }
    let ghost base = st@.steps;
    let mut j: usize = 0;
    while j < reports.len()
        invariant
            j <= reports.len(),
            state_wf(st),
            base == steps_of_rows(steps@, steps@.len() as int),
            st@.steps == add_reports(base, reports@, j as int),
            forall|m: int| 0 <= m < j ==> (#[trigger] rfc3339_utc(reports@[m].recorded_at@)) is Some,
            st.workflow_id@ == workflow_id@,
            st.workflow@ == run.workflow@,
            Some(st.started_at@) == rfc3339_utc(run.started_at@),
        decreases reports.len() - j,
    {
        let row = &reports[j];
        let at = match normalize_timestamp(row.recorded_at.as_str()) {
            Some(t) => t,
            None => {
                proof {
                    assert(!report_times_valid(reports@)) by {
                        assert(rfc3339_utc(reports@[j as int].recorded_at@) is None);
                    }
                }
                return Err(own("invalid recorded_at timestamp"));
            },
        };
        let ghost before = st@.steps;
        let k = st.entry(row.step_id.as_str());
        let mut s = st.take_state(k);
        let ghost sv = s@;
        let n = s.action_reports.len();
        s.action_reports.push(
            ActionReport {
                action_index: row.action_index,
                action_type: row.action_type.clone(),
                exit_code: row.exit_code,
                stdout: copy_opt(&row.stdout),
                recorded_at: at,
            },
        );
        proof {
            assert(reports_view(s.action_reports@) =~= sv.reports.push(report_of_row(reports@[j as int])));
        }
        st.set_state(k, s);
        proof {
            assert(sv == step_or_initial(before, reports@[j as int].step_id@));
            assert(st@.steps =~= add_reports(base, reports@, j + 1));
        }
        j += 1;
    }
    Ok(st)
}

/// The reports of the first `n` entries, each under its step's key, in
/// order: entry by entry, and within an entry in the order recorded.
pub open spec fn report_entries(entries: Seq<StepEntry>, n: int) -> Seq<(Seq<char>, ReportView)>
    decreases n,
{
    if n <= 0 {
        Seq::empty()
    } else {
        report_entries(entries, n - 1) + entries[n - 1].state@.reports.map_values(|r: ReportView| (entries[n - 1].key@, r))
    }
}

/// `row` stores the run's name and start time.
pub open spec fn writes_run(st: WorkflowState, row: RunRow) -> bool {
    row.workflow@ == st.workflow@ && row.started_at@ == st.started_at@
}

/// `row` stores step entry `e` (without its reports).
pub open spec fn writes_step(row: StepRow, e: StepEntry) -> bool {
    &&& row.step_id@ == e.key@
    &&& row.status@ == status_name(e.state.status)
    &&& opt_view(row.started_at) == opt_view(e.state.started_at)
    &&& opt_view(row.completed_at) == opt_view(e.state.completed_at)
    &&& opt_view(row.updated_at) == opt_view(e.state.updated_at)
}

/// `rows` store the steps of `st`, one row per entry, in order.
pub open spec fn writes_steps(st: WorkflowState, rows: Seq<StepRow>) -> bool {
    &&& rows.len() == st.tasks@.len()
    &&& forall|i: int| 0 <= i < rows.len() ==> writes_step(#[trigger] rows[i], st.tasks@[i])
}

/// `row` stores report `r` under step key `key`.
pub open spec fn writes_report(row: ReportRow, key: Seq<char>, r: ReportView) -> bool {
    &&& row.step_id@ == key
    &&& row.action_index == r.action_index
    &&& row.action_type@ == r.action_type
    &&& row.exit_code == r.exit_code
    &&& opt_view(row.stdout) == r.stdout
    &&& row.recorded_at@ == r.recorded_at
}

/// `rows` store every report of `st`, in the order of `report_entries`.
pub open spec fn writes_reports(st: WorkflowState, rows: Seq<ReportRow>) -> bool {
    let es = report_entries(st.tasks@, st.tasks@.len() as int);
    &&& rows.len() == es.len()
    &&& forall|i: int| 0 <= i < rows.len() ==> writes_report(#[trigger] rows[i], es[i].0, es[i].1)
}

/// The stored row of a run.
pub fn run_row(st: &WorkflowState) -> (r: RunRow)
    ensures
        writes_run(*st, r),
{
    RunRow { workflow: st.workflow.clone(), started_at: st.started_at.clone() }
}

/// The stored rows of a run's steps, one per entry, in order.
pub fn step_rows(st: &WorkflowState) -> (r: Vec<StepRow>)
    ensures
        writes_steps(*st, r@),
{
    let mut r: Vec<StepRow> = Vec::new();
    let mut i: usize = 0;
    while i < st.tasks.len()
        invariant
            i <= st.tasks.len(),
            r@.len() == i,
            forall|k: int| 0 <= k < i ==> writes_step(#[trigger] r@[k], st.tasks@[k]),
        decreases st.tasks.len() - i,
    {
        let e = &st.tasks[i];
        r.push(
            StepRow {
                step_id: e.key.clone(),
                status: own(status_to_str(e.state.status)),
                started_at: copy_opt(&e.state.started_at),
                completed_at: copy_opt(&e.state.completed_at),
                updated_at: copy_opt(&e.state.updated_at),
            },
        );
        i += 1;
    }
    r
}

/// The stored rows of every report of a run (see `report_entries`).
pub fn report_rows(st: &WorkflowState) -> (r: Vec<ReportRow>)
    ensures
        writes_reports(*st, r@),
{
    let mut r: Vec<ReportRow> = Vec::new();
    let mut i: usize = 0;
    while i < st.tasks.len()
        invariant
            i <= st.tasks.len(),
            r@.len() == report_entries(st.tasks@, i as int).len(),
            forall|k: int| 0 <= k < r@.len() ==> writes_report(#[trigger] r@[k], report_entries(st.tasks@, i as int)[k].0, report_entries(st.tasks@, i as int)[k].1),
        decreases st.tasks.len() - i,
    {
        let e = &st.tasks[i];
        let ghost prev = report_entries(st.tasks@, i as int);
        let ghost add = e.state@.reports.map_values(|rv: ReportView| (e.key@, rv));
        proof {
            assert(report_entries(st.tasks@, i + 1) == prev + add);
        }
        let mut j: usize = 0;
        while j < e.state.action_reports.len()
            invariant
                j <= e.state.action_reports.len(),
                add == e.state@.reports.map_values(|rv: ReportView| (e.key@, rv)),
                r@.len() == prev.len() + j,
                forall|k: int| 0 <= k < r@.len() ==> writes_report(#[trigger] r@[k], (prev + add)[k].0, (prev + add)[k].1),
            decreases e.state.action_reports.len() - j,
        {
            let a = &e.state.action_reports[j];
            let ghost r0 = r@;
            r.push(
                ReportRow {
                    step_id: e.key.clone(),
                    action_index: a.action_index,
                    action_type: a.action_type.clone(),
                    exit_code: a.exit_code,
                    stdout: copy_opt(&a.stdout),
                    recorded_at: a.recorded_at.clone(),
                },
            );
            proof {
                assert(e.state@.reports[j as int] == a@);
                assert((prev + add)[prev.len() + j] == add[j as int]);
                assert forall|k: int| 0 <= k < r@.len() implies writes_report(#[trigger] r@[k], (prev + add)[k].0, (prev + add)[k].1) by {
                    if k < r0.len() {
                        assert(r@[k] == r0[k]);
                    }
                }
            }
            j += 1;
        }
        i += 1;
    }
    r
}

/// A timestamp already in the form in which the store reads it back.
pub open spec fn time_normal(t: Seq<char>) -> bool {
    rfc3339_utc(t) == Some(t)
}

/// An optional timestamp already in the form in which the store reads it back.
pub open spec fn opt_time_normal(t: Option<Seq<char>>) -> bool {
    match t {
        Some(x) => time_normal(x),
        None => true,
    }
}

/// Every timestamp of a step is in the form in which the store reads it back.
pub open spec fn step_normal(s: StepView) -> bool {
    &&& opt_time_normal(s.started_at)
    &&& opt_time_normal(s.completed_at)
    &&& opt_time_normal(s.updated_at)
    &&& forall|j: int| 0 <= j < s.reports.len() ==> time_normal(#[trigger] s.reports[j].recorded_at)
}

/// Every timestamp of a run is in the form in which the store reads it back
/// (as every timestamp the library takes from the clock is).
pub open spec fn state_normal(st: StateView) -> bool {
    &&& time_normal(st.started_at)
    &&& forall|k: Seq<char>| st.steps.contains_key(k) ==> step_normal(#[trigger] st.steps[k])
}

/// A step without its reports.
spec fn stripped(s: StepView) -> StepView {
    StepView { reports: Seq::empty(), ..s }
}

/// The steps of `entries` with the reports of the first `n` entries only.
spec fn mixed(entries: Seq<StepEntry>, n: int) -> Map<Seq<char>, StepView> {
    Map::new(
        |k: Seq<char>| has_key(entry_keys(entries), k),
        |k: Seq<char>| {
            let j = first_index(entry_keys(entries), k).unwrap();
            if j < n {
                entries[j].state@
            } else {
                stripped(entries[j].state@)
            }
        },
    )
}

/// The first `n` steps of `entries`, without reports.
spec fn stripped_upto(entries: Seq<StepEntry>, n: int) -> Map<Seq<char>, StepView> {
    Map::new(
        |k: Seq<char>| exists|j: int| 0 <= j < n && #[trigger] entries[j].key@ == k,
        |k: Seq<char>| stripped(entries[first_index(entry_keys(entries), k).unwrap()].state@),
    )
}

/// In a well-formed state, entry `j` is the state's step under its key.
proof fn lemma_entry_view(st: WorkflowState, j: int)
    requires
        state_wf(st),
        0 <= j < st.tasks@.len(),
    ensures
        st@.steps.contains_key(st.tasks@[j].key@),
        st@.steps[st.tasks@[j].key@] == st.tasks@[j].state@,
        first_index(entry_keys(st.tasks@), st.tasks@[j].key@) == Some(j),
{
    assert(entry_keys(st.tasks@)[j] == st.tasks@[j].key@);
    lemma_distinct_index(entry_keys(st.tasks@), st.tasks@[j].key@, j);
}

proof fn lemma_steps_of_rows(st: WorkflowState, rows: Seq<StepRow>, n: int)
    requires
        state_wf(st),
        state_normal(st@),
        writes_steps(st, rows),
        0 <= n <= rows.len(),
    ensures
        steps_of_rows(rows, n) == stripped_upto(st.tasks@, n),
    decreases n,
{
    let es = st.tasks@;
    if n == 0 {
        assert(steps_of_rows(rows, n) =~= stripped_upto(es, n));
    } else {
        lemma_steps_of_rows(st, rows, n - 1);
        let e = es[n - 1];
        let row = rows[n - 1];
        assert(writes_step(row, e));
        lemma_entry_view(st, n - 1);
        assert(step_normal(e.state@));
        law_status_name_round_trip(e.state.status);
        assert(step_of_row(row) == stripped(e.state@));
        let m = stripped_upto(es, n);
        let p = stripped_upto(es, n - 1);
        assert forall|k: Seq<char>| #[trigger] m.dom().contains(k) <==> p.insert(e.key@, stripped(e.state@)).dom().contains(k) by {
            if m.dom().contains(k) {
                let j = choose|j: int| 0 <= j < n && #[trigger] es[j].key@ == k;
                if j < n - 1 {
                    assert(p.dom().contains(k));
                }
            }
            if p.dom().contains(k) {
                let j = choose|j: int| 0 <= j < n - 1 && #[trigger] es[j].key@ == k;
                assert(m.dom().contains(k));
            }
        }
        assert(m =~= p.insert(e.key@, stripped(e.state@)));
    }
}

/// The reports of the first `n` entries are no more than those of the first `m`.
proof fn lemma_report_entries_grow(entries: Seq<StepEntry>, n: int, m: int)
    requires
        0 <= n <= m,
    ensures
        report_entries(entries, n).len() <= report_entries(entries, m).len(),
    decreases m - n,
{
    if n < m {
        lemma_report_entries_grow(entries, n, m - 1);
    }
}

/// Every report time listed by `report_entries` is normal.
proof fn lemma_report_entries_normal(st: WorkflowState, n: int)
    requires
        state_wf(st),
        state_normal(st@),
        0 <= n <= st.tasks@.len(),
    ensures
        forall|i: int| 0 <= i < report_entries(st.tasks@, n).len() ==> time_normal(#[trigger] report_entries(st.tasks@, n)[i].1.recorded_at),
    decreases n,
{
    if n > 0 {
        lemma_report_entries_normal(st, n - 1);
        let es = st.tasks@;
        lemma_entry_view(st, n - 1);
        let prev = report_entries(es, n - 1);
        let add = es[n - 1].state@.reports.map_values(|r: ReportView| (es[n - 1].key@, r));
        assert forall|i: int| 0 <= i < report_entries(es, n).len() implies time_normal(#[trigger] report_entries(es, n)[i].1.recorded_at) by {
            if i < prev.len() {
                assert(report_entries(es, n)[i] == prev[i]);
            } else {
                assert(report_entries(es, n)[i] == add[i - prev.len()]);
                assert(step_normal(es[n - 1].state@));
            }
        }
    }
}

/// Adding the report rows of entry `n`, one by one, to the steps with the
/// reports of the entries before it.
proof fn lemma_add_entry_reports(st: WorkflowState, rows: Seq<ReportRow>, n: int, m: int)
    requires
        state_wf(st),
        state_normal(st@),
        writes_reports(st, rows),
        0 <= n < st.tasks@.len(),
        0 <= m <= st.tasks@[n].state@.reports.len(),
        add_reports(mixed(st.tasks@, 0), rows, report_entries(st.tasks@, n).len() as int) == mixed(st.tasks@, n),
    ensures
        add_reports(mixed(st.tasks@, 0), rows, report_entries(st.tasks@, n).len() + m) == mixed(st.tasks@, n).insert(
            st.tasks@[n].key@,
            StepView { reports: st.tasks@[n].state@.reports.take(m), ..st.tasks@[n].state@ },
        ),
    decreases m,
{
    let es = st.tasks@;
    let e = es[n];
    let f = report_entries(es, n).len() as int;
    lemma_entry_view(st, n);
    if m == 0 {
        assert(e.state@.reports.take(0) =~= Seq::<ReportView>::empty());
        assert(mixed(es, n).insert(e.key@, StepView { reports: e.state@.reports.take(0), ..e.state@ }) =~= mixed(es, n));
    } else {
        lemma_add_entry_reports(st, rows, n, m - 1);
        let all = report_entries(es, es.len() as int);
        let cur = report_entries(es, n + 1);
        let add = e.state@.reports.map_values(|r: ReportView| (e.key@, r));
        assert(cur == report_entries(es, n) + add);
        lemma_report_entries_grow(es, n + 1, es.len() as int);
        lemma_report_entries_prefix(es, n + 1, es.len() as int);
        let i = f + m - 1;
        assert(cur[i] == add[m - 1]);
        assert(all[i] == cur[i]);
        assert(writes_report(rows[i], all[i].0, all[i].1));
        lemma_report_entries_normal(st, es.len() as int);
        assert(time_normal(all[i].1.recorded_at));
        assert(report_of_row(rows[i]) == e.state@.reports[m - 1]);
        assert(e.state@.reports.take(m - 1).push(e.state@.reports[m - 1]) =~= e.state@.reports.take(m));
        let prev = add_reports(mixed(es, 0), rows, f + m - 1);
        assert(step_or_initial(prev, e.key@) == StepView { reports: e.state@.reports.take(m - 1), ..e.state@ });
        assert(add_reports(mixed(es, 0), rows, f + m) =~= mixed(es, n).insert(
            e.key@,
            StepView { reports: e.state@.reports.take(m), ..e.state@ },
        ));
    }
}

/// The reports of the first `n` entries are a prefix of those of the first `m`.
proof fn lemma_report_entries_prefix(entries: Seq<StepEntry>, n: int, m: int)
    requires
        0 <= n <= m,
    ensures
        forall|i: int| 0 <= i < report_entries(entries, n).len() ==> #[trigger] report_entries(entries, m)[i] == report_entries(entries, n)[i],
    decreases m - n,
{
    if n < m {
        lemma_report_entries_prefix(entries, n, m - 1);
        lemma_report_entries_grow(entries, n, m - 1);
        assert forall|i: int| 0 <= i < report_entries(entries, n).len() implies #[trigger] report_entries(entries, m)[i] == report_entries(entries, n)[i] by {
            assert(report_entries(entries, m)[i] == report_entries(entries, m - 1)[i]);
        }
    }
}

/// Adding the report rows of the first `n` entries.
proof fn lemma_add_reports_upto(st: WorkflowState, rows: Seq<ReportRow>, n: int)
    requires
        state_wf(st),
        state_normal(st@),
        writes_reports(st, rows),
        0 <= n <= st.tasks@.len(),
    ensures
        add_reports(mixed(st.tasks@, 0), rows, report_entries(st.tasks@, n).len() as int) == mixed(st.tasks@, n),
    decreases n,
{
    let es = st.tasks@;
    if n > 0 {
        lemma_add_reports_upto(st, rows, n - 1);
        let e = es[n - 1];
        lemma_add_entry_reports(st, rows, n - 1, e.state@.reports.len() as int);
        lemma_entry_view(st, n - 1);
        assert(e.state@.reports.take(e.state@.reports.len() as int) =~= e.state@.reports);
        assert(report_entries(es, n).len() == report_entries(es, n - 1).len() + e.state@.reports.len());
        let target = mixed(es, n);
        let got = mixed(es, n - 1).insert(e.key@, e.state@);
        assert forall|k: Seq<char>| #[trigger] target.dom().contains(k) implies target[k] == got[k] by {
            if k != e.key@ {
                let j = first_index(entry_keys(es), k).unwrap();
                crate::keys::lemma_first_index_facts(entry_keys(es), k);
                assert(j != n - 1);
            }
        }
        assert(target =~= got);
    }
}

/// A run as it starts, every step initial and its start time as the clock
/// writes it, has every timestamp in the form the store reads back, so the
/// round trip through rows gives it back (see `law_rows_round_trip`).
pub proof fn law_new_runs_are_normal(st: StateView)
    requires
        rfc3339_utc(st.started_at) == Some(st.started_at),
        forall|k: Seq<char>| #[trigger] st.steps.contains_key(k) ==> st.steps[k] == initial_step(),
    ensures
        state_normal(st),
{
    assert forall|k: Seq<char>| st.steps.contains_key(k) implies step_normal(#[trigger] st.steps[k]) by {
        assert(st.steps[k] == initial_step());
    }
}

/// What a read gives back of a write: the state read back from the rows
/// that store a run is that run, provided its timestamps are in the form in
/// which the store reads them back.
pub proof fn law_rows_round_trip(st: WorkflowState, run: RunRow, steps: Seq<StepRow>, reports: Seq<ReportRow>)
    requires
        state_wf(st),
        state_normal(st@),
        writes_run(st, run),
        writes_steps(st, steps),
        writes_reports(st, reports),
    ensures
        state_of_rows(st.workflow_id@, run, steps, reports) == Some(st@),
{
    let es = st.tasks@;
    let n = es.len() as int;
    lemma_steps_of_rows(st, steps, n);
    assert forall|k: Seq<char>| #[trigger] stripped_upto(es, n).dom().contains(k) <==> mixed(es, 0).dom().contains(k) by {
        if stripped_upto(es, n).dom().contains(k) {
            let j = choose|j: int| 0 <= j < n && #[trigger] es[j].key@ == k;
            assert(entry_keys(es)[j] == k);
        }
        if mixed(es, 0).dom().contains(k) {
            let j = choose|j: int| 0 <= j < entry_keys(es).len() && entry_keys(es)[j] == k;
            assert(es[j].key@ == k);
        }
    }
    assert(stripped_upto(es, n) =~= mixed(es, 0));
    lemma_add_reports_upto(st, reports, n);
    lemma_report_entries_normal(st, n);
    assert forall|j: int| 0 <= j < reports.len() implies (#[trigger] rfc3339_utc(reports[j].recorded_at@)) is Some by {
        let all = report_entries(es, n);
        assert(writes_report(reports[j], all[j].0, all[j].1));
        assert(time_normal(all[j].1.recorded_at));
    }
    assert(mixed(es, n) =~= st@.steps);
}

/// A copy of an optional string.
fn copy_opt(s: &Option<String>) -> (r: Option<String>)
    ensures
        opt_view(r) == opt_view(*s),
{
    match s {
        Some(t) => Some(t.clone()),
        None => None,
    }
}

/// An optional stored timestamp as read back (see `read_time`).
fn read_opt(t: &Option<String>) -> (r: Option<String>)
    ensures
        opt_view(r) == read_time(*t),
{
    match t {
        Some(s) => normalize_timestamp(s.as_str()),
        None => None,
    }
}

} // verus!

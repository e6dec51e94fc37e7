//! How runs are written to rows and read back, and how one run is picked.
use workflow_runner::config::{Task, Workflow};
use workflow_runner::daemon::is_loadable;
use workflow_runner::rows::{report_rows, run_row, state_from_rows, step_rows, RunRow};
use workflow_runner::state::{ActionReport, StepStatus, WorkflowState};
use workflow_runner::store::{parse_run_status, run_status_to_str, select_active, select_by_status, status_to_str, str_to_status, RunStatus};

fn minimal_workflow() -> Workflow {
    Workflow {
        name: "test".to_string(),
        description: None,
        tasks: vec![Task { id: "task1".to_string(), task: Some("Task 1".to_string()), ..Task::default() }],
    }
}

fn fixed_state(wf: &Workflow) -> WorkflowState {
    WorkflowState::with_identity("run-1".to_string(), "2024-05-06T07:08:09+00:00".to_string(), "test", wf)
}

fn round_trip(st: &WorkflowState) -> Result<WorkflowState, String> {
    state_from_rows(&st.workflow_id, run_row(st), step_rows(st), report_rows(st))
}

#[test]
fn store_roundtrip_state() {
    let wf = minimal_workflow();
    let state = WorkflowState::new("test", &wf);
    let workflow_id = state.workflow_id.clone();
    let loaded = round_trip(&state).unwrap();
    assert_eq!(loaded.workflow_id, workflow_id);
    assert_eq!(loaded.workflow, "test");
}

#[test]
fn store_load_state_returns_none_when_missing() {
    assert_eq!(select_active(vec![]), Ok(None));
}

#[test]
fn multiple_active_workflows_error() {
    let wf = minimal_workflow();
    let s1 = WorkflowState::new("test", &wf);
    let s2 = WorkflowState::new("test", &wf);
    let r = select_active(vec![s1.workflow_id.clone(), s2.workflow_id.clone()]);
    let m = r.unwrap_err();
    assert_eq!(
        m,
        format!(
            "multiple active workflows found; use --workflow-id to specify one\n  {}\n  {}",
            s1.workflow_id, s2.workflow_id
        )
    );
}

#[test]
fn action_reports_roundtrip() {
    let wf = minimal_workflow();
    let mut state = fixed_state(&wf);
    let i = state.entry("task1");
    let mut s = state.take_state(i);
    s.status = StepStatus::InProgress;
    s.action_reports.push(ActionReport {
        action_index: 0,
        action_type: "agent".to_string(),
        exit_code: Some(0),
        stdout: Some("ok".to_string()),
        recorded_at: "2024-05-06T07:08:10+00:00".to_string(),
    });
    state.set_state(i, s);
    let loaded = round_trip(&state).unwrap();
    let j = loaded.find("task1").unwrap();
    let reports = &loaded.tasks[j].state.action_reports;
    assert_eq!(reports.len(), 1);
    assert_eq!(reports[0].action_type, "agent");
    assert_eq!(reports[0].stdout.as_deref(), Some("ok"));
    assert_eq!(reports[0].exit_code, Some(0));
    assert_eq!(loaded.tasks[j].state.status, StepStatus::InProgress);
}

#[test]
fn awaiting_approval_state_is_loadable() {
    assert!(is_loadable("awaiting_approval"));
    assert!(is_loadable("active"));
    assert!(is_loadable("paused"));
    assert!(!is_loadable("completed"));
    assert_eq!(run_status_to_str(RunStatus::AwaitingApproval), "awaiting_approval");
}

#[test]
fn find_workflow_id_by_status_returns_none_when_no_match() {
    assert_eq!(select_by_status("paused", vec![]), Ok(None));
}

#[test]
fn find_workflow_id_by_status_returns_single_match() {
    assert_eq!(select_by_status("paused", vec!["id-1".to_string()]), Ok(Some("id-1".to_string())));
}

#[test]
fn find_workflow_id_by_status_errors_on_multiple_matches() {
    let err = select_by_status("paused", vec!["id-1".to_string(), "id-2".to_string()]).unwrap_err();
    assert!(err.contains("id-1"));
    assert!(err.contains("id-2"));
    assert_eq!(err, "multiple workflows with status 'paused' found; use --workflow-id to specify one\n  id-1\n  id-2");
}

#[test]
fn rows_keep_every_step_and_its_times() {
    let wf = Workflow {
        name: "t".to_string(),
        description: None,
        tasks: vec![Task { id: "p".to_string(), agents: vec!["a".to_string(), "b".to_string()], ..Task::default() }],
    };
    let mut state = fixed_state(&wf);
    let i = state.entry("p/a");
    let mut s = state.take_state(i);
    s.status = StepStatus::Completed;
    s.started_at = Some("2024-01-01T00:00:00Z".to_string());
    s.completed_at = Some("2024-01-01T00:01:00Z".to_string());
    state.set_state(i, s);
    let rows = step_rows(&state);
    assert_eq!(rows.len(), 3);
    let loaded = round_trip(&state).unwrap();
    assert_eq!(loaded.tasks.len(), 3);
    assert_eq!(loaded.status_at("p/a"), StepStatus::Completed);
    assert_eq!(loaded.status_at("p/b"), StepStatus::Pending);
    let j = loaded.find("p/a").unwrap();
    assert_eq!(loaded.tasks[j].state.completed_at.as_deref(), Some("2024-01-01T00:01:00+00:00"));
    assert_eq!(loaded.started_at, "2024-05-06T07:08:09+00:00");
}

#[test]
fn timestamps_are_read_back_in_utc() {
    let run = RunRow { workflow: "w".to_string(), started_at: "2024-05-06T09:08:09+02:00".to_string() };
    let st = state_from_rows("x", run, vec![], vec![]).unwrap();
    assert_eq!(st.started_at, "2024-05-06T07:08:09+00:00");
    assert_eq!(st.workflow, "w");
    assert_eq!(st.workflow_id, "x");
}

#[test]
fn an_invalid_start_time_is_an_error() {
    let r = state_from_rows("x", RunRow { workflow: "w".to_string(), started_at: "yesterday".to_string() }, vec![], vec![]);
    assert_eq!(r.unwrap_err(), "invalid started_at timestamp");
}

#[test]
fn an_invalid_report_time_is_an_error() {
    let wf = minimal_workflow();
    let state = fixed_state(&wf);
    let mut reports = report_rows(&state);
    assert!(reports.is_empty());
    reports.push(workflow_runner::rows::ReportRow {
        step_id: "task1".to_string(),
        action_index: 0,
        action_type: "report".to_string(),
        exit_code: None,
        stdout: None,
        recorded_at: "soon".to_string(),
    });
    let r = state_from_rows("run-1", run_row(&state), step_rows(&state), reports);
    assert_eq!(r.unwrap_err(), "invalid recorded_at timestamp");
}

#[test]
fn status_names_read_back() {
    for s in [StepStatus::Pending, StepStatus::InProgress, StepStatus::Completed, StepStatus::Failed] {
        assert_eq!(str_to_status(status_to_str(s)), s);
    }
    assert_eq!(str_to_status("garbage"), StepStatus::Pending);
    for s in [RunStatus::Active, RunStatus::AwaitingApproval, RunStatus::Paused, RunStatus::Completed] {
        assert_eq!(parse_run_status(run_status_to_str(s)), Some(s));
    }
    assert_eq!(parse_run_status("done"), None);
}

#[test]
fn a_new_run_gets_a_hyphenated_random_id_and_an_rfc3339_start() {
    let wf = minimal_workflow();
    let a = WorkflowState::new("test", &wf);
    let b = WorkflowState::new("test", &wf);
    assert_eq!(a.workflow_id.len(), 36);
    for i in [8, 13, 18, 23] {
        assert_eq!(a.workflow_id.as_bytes()[i], b'-');
    }
    assert_ne!(a.workflow_id, b.workflow_id);
    assert!(round_trip(&a).is_ok(), "the start time reads back as RFC 3339: {}", a.started_at);
}

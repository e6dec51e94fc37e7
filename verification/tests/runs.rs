//! Completing and reporting on the steps of a run.
use workflow_runner::config::{Config, Task, Workflow, WorkflowEntry};
use workflow_runner::state::{StepStatus, WorkflowState};
use workflow_runner::store::select_active;
use workflow_runner::transitions::{apply_action_report, apply_complete, apply_report, CompleteStep};

fn linear_workflow() -> Workflow {
    Workflow {
        name: "test".to_string(),
        description: None,
        tasks: vec![
            Task {
                id: "step-a".to_string(),
                task: Some("Step A".to_string()),
                prompt: Some("Do step A".to_string()),
                ..Task::default()
            },
            Task {
                id: "step-b".to_string(),
                task: Some("Step B".to_string()),
                prompt: Some("Do step B".to_string()),
                requires: vec!["step-a".to_string()],
                ..Task::default()
            },
        ],
    }
}

fn approval_workflow() -> Workflow {
    Workflow {
        name: "test".to_string(),
        description: None,
        tasks: vec![Task {
            id: "review".to_string(),
            task: Some("Review".to_string()),
            prompt: Some("Review this".to_string()),
            approval: true,
            ..Task::default()
        }],
    }
}

fn empty_config(wf: Workflow) -> Config {
    Config { imports: vec![], vars: vec![], workflows: vec![WorkflowEntry { slug: "test".to_string(), workflow: wf }] }
}

fn set_status(state: &mut WorkflowState, key: &str, status: StepStatus) {
    let i = state.entry(key);
    let mut s = state.take_state(i);
    s.status = status;
    state.set_state(i, s);
}

#[test]
fn complete_task_advances_to_next() {
    let wf = linear_workflow();
    let config = empty_config(linear_workflow());
    let mut state = WorkflowState::new("test", &wf);
    match apply_complete(&mut state, &wf, "step-a", None, "2024-01-01T00:00:00+00:00", &config) {
        CompleteStep::Next(next) => {
            assert_eq!(next.tasks.len(), 1);
            assert_eq!(next.tasks[0].task_id, "step-b");
        },
        _ => panic!("the next task must follow"),
    }
}

#[test]
fn complete_task_returns_none_when_all_done() {
    let wf = linear_workflow();
    let config = empty_config(linear_workflow());
    let mut state = WorkflowState::new("test", &wf);
    set_status(&mut state, "step-a", StepStatus::Completed);
    let r = apply_complete(&mut state, &wf, "step-b", None, "2024-01-01T00:00:00+00:00", &config);
    assert!(matches!(r, CompleteStep::Finished), "the run is over once every task is completed");
}

#[test]
fn complete_task_sets_awaiting_approval() {
    let wf = approval_workflow();
    let config = empty_config(approval_workflow());
    let mut state = WorkflowState::new("test", &wf);
    let r = apply_complete(&mut state, &wf, "review", None, "2024-01-01T00:00:00+00:00", &config);
    assert!(matches!(r, CompleteStep::AwaitingApproval));
    assert_eq!(state.status_at("review"), StepStatus::Completed);
}

#[test]
fn record_report_appends_action_report() {
    let wf = linear_workflow();
    let mut state = WorkflowState::new("test", &wf);
    apply_report(&mut state, "step-a", Some("done".to_string()), "2024-01-01T00:00:00+00:00").unwrap();
    assert_eq!(state.status_at("step-a"), StepStatus::Pending);
    let i = state.find("step-a").unwrap();
    assert_eq!(state.tasks[i].state.action_reports.len(), 1);
}

#[test]
fn record_report_unknown_task_returns_error() {
    let wf = linear_workflow();
    let mut state = WorkflowState::new("test", &wf);
    let r = apply_report(&mut state, "no-such-task", None, "2024-01-01T00:00:00+00:00");
    assert_eq!(r.unwrap_err(), "unknown task_id 'no-such-task' in workflow");
}

#[test]
fn report_unknown_task_id_exits_with_error() {
    let wf = linear_workflow();
    let mut state = WorkflowState::new("test", &wf);
    let before = state.tasks.len();
    let err = apply_action_report(&mut state, &wf, "phantom-task", 0, "run".to_string(), Some(0), None, "2024-01-01T00:00:00+00:00")
        .unwrap_err();
    assert!(err.contains("phantom-task"), "error must mention the unknown task_id: got '{err}'");
    assert_eq!(err, "unknown task_id 'phantom-task' in workflow");
    assert_eq!(state.tasks.len(), before);
    assert!(state.find("phantom-task").is_none());
}

#[test]
fn next_without_active_workflow_exits_with_error() {
    assert_eq!(select_active(vec![]), Ok(None), "no run is active, so there is nothing to continue");
}

#[test]
fn a_refused_completion_leaves_the_state_unchanged() {
    let wf = linear_workflow();
    let config = empty_config(linear_workflow());
    let mut state = WorkflowState::new("test", &wf);
    match apply_complete(&mut state, &wf, "step-b", None, "2024-01-01T00:00:00+00:00", &config) {
        CompleteStep::Gated(m) => assert_eq!(m, "task 'step-b' cannot complete until 'step-a' is done"),
        _ => panic!("step-b must wait for step-a"),
    }
    assert_eq!(state.status_at("step-b"), StepStatus::Pending);
    let i = state.find("step-b").unwrap();
    assert!(state.tasks[i].state.action_reports.is_empty());
}

use workflow_runner::executor::FlowStatus;
use workflow_runner::transitions::{complete_output, reject_step};

#[test]
fn complete_output_of_each_outcome() {
    let wf = linear_workflow();
    let config = empty_config(linear_workflow());
    let mut state = WorkflowState::new("test", &wf);
    let step = apply_complete(&mut state, &wf, "step-b", None, "2024-01-01T00:00:00+00:00", &config);
    let out = complete_output("step-b", "id-1", "test", step);
    assert!(!out.allowed);
    assert_eq!(out.reason.as_deref(), Some("task 'step-b' cannot complete until 'step-a' is done"));
    let step = apply_complete(&mut state, &wf, "step-a", None, "2024-01-01T00:00:00+00:00", &config);
    let out = complete_output("step-a", "id-1", "test", step);
    assert!(out.allowed && out.reason.is_none());
    let next = out.next.unwrap();
    assert!(matches!(next.status, FlowStatus::InProgress));
    assert_eq!(next.tasks[0].task_id, "step-b");
    let step = apply_complete(&mut state, &wf, "step-b", None, "2024-01-01T00:00:00+00:00", &config);
    let out = complete_output("step-b", "id-1", "test", step);
    let next = out.next.unwrap();
    assert!(matches!(next.status, FlowStatus::Completed));
    assert!(next.tasks.is_empty());
    assert_eq!(next.workflow_id, "id-1");

    let wf = approval_workflow();
    let config = empty_config(approval_workflow());
    let mut state = WorkflowState::new("test", &wf);
    let step = apply_complete(&mut state, &wf, "review", None, "2024-01-01T00:00:00+00:00", &config);
    let out = complete_output("review", "id-2", "test", step);
    assert!(out.allowed);
    assert!(matches!(out.next.unwrap().status, FlowStatus::AwaitingApproval));
}

#[test]
fn reject_needs_a_run_awaiting_approval() {
    let wf = approval_workflow();
    let config = empty_config(approval_workflow());
    let mut state = WorkflowState::new("test", &wf);
    let err = reject_step("active", &mut state, &wf, "review", None, "T", &config).unwrap_err();
    assert_eq!(err, "workflow is not awaiting approval (current status: active); nothing to reject");
    assert_eq!(state.status_at("review"), StepStatus::Pending);
}

#[test]
fn reject_sends_the_task_back_with_the_reason() {
    let wf = approval_workflow();
    let config = empty_config(approval_workflow());
    let mut state = WorkflowState::new("test", &wf);
    let _ = apply_complete(&mut state, &wf, "review", None, "T0", &config);
    let out = reject_step("awaiting_approval", &mut state, &wf, "review", Some("needs work".to_string()), "T1", &config).unwrap();
    assert_eq!(out.task_id, "review");
    assert_eq!(out.reason.as_deref(), Some("needs work"));
    let t = out.task.unwrap();
    assert_eq!(t.task_id, "review");
    assert_eq!(t.prompt.as_deref(), Some("Review this"));
    assert_eq!(state.status_at("review"), StepStatus::InProgress);
    let i = state.find("review").unwrap();
    let s = &state.tasks[i].state;
    assert!(s.completed_at.is_none());
    let last = s.action_reports.last().unwrap();
    assert_eq!(last.action_type, "reject");
    assert_eq!(last.stdout.as_deref(), Some("needs work"));
    assert_eq!(last.recorded_at, "T1");
    let out = reject_step("awaiting_approval", &mut state, &wf, "nope", None, "T2", &config).unwrap();
    assert!(out.task.is_none());
}

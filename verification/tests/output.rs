use workflow_runner::config::{Config, Task, Var, Workflow, WorkflowEntry};
use workflow_runner::output::{
    build_status, format_status_table, format_validate_text, list_workflows, status_label_str, validate_output,
    validate_report, ValidateOutput,
};
use workflow_runner::state::{StepStatus, WorkflowState};

fn set_status(state: &mut WorkflowState, key: &str, status: StepStatus) {
    let i = state.entry(key);
    let mut s = state.take_state(i);
    s.status = status;
    state.set_state(i, s);
}

fn minimal_workflow() -> Workflow {
    Workflow {
        name: "test".to_string(),
        description: None,
        tasks: vec![Task { id: "s1".to_string(), task: Some("Step 1".to_string()), ..Task::default() }],
    }
}

#[test]
fn build_status_reflects_task_status() {
    let wf = minimal_workflow();
    let mut state = WorkflowState::new("test", &wf);
    set_status(&mut state, "s1", StepStatus::Completed);

    let out = build_status(&state, &wf);
    assert_eq!(out.tasks[0].status, "completed");
}

#[test]
fn build_status_defaults_to_pending() {
    let wf = minimal_workflow();
    let state = WorkflowState::new("test", &wf);

    let out = build_status(&state, &wf);
    assert_eq!(out.tasks[0].status, "pending");
}

#[test]
fn build_status_uses_description_as_display() {
    let wf = minimal_workflow();
    let state = WorkflowState::new("test", &wf);
    let out = build_status(&state, &wf);
    assert_eq!(out.tasks[0].task, "Step 1");
}

#[test]
fn build_status_includes_agent_sub_tasks() {
    let wf = Workflow {
        name: "test".to_string(),
        description: None,
        tasks: vec![Task {
            id: "p".to_string(),
            task: Some("Parallel".to_string()),
            agents: vec!["run-test".to_string(), "run-lint".to_string()],
            ..Task::default()
        }],
    };
    let state = WorkflowState::new("test", &wf);
    let out = build_status(&state, &wf);
    assert_eq!(out.tasks.len(), 3);
    assert_eq!(out.tasks[1].id, "p/run-test");
    assert_eq!(out.tasks[1].task, "agent: run-test");
    assert_eq!(out.tasks[2].id, "p/run-lint");
    assert_eq!(out.tasks[2].task, "agent: run-lint");
}

#[test]
fn build_status_labels_and_identity() {
    let wf = minimal_workflow();
    let mut state = WorkflowState::with_identity("wid".to_string(), "2024-01-02T03:04:05+00:00".to_string(), "bug-fix", &wf);
    set_status(&mut state, "s1", StepStatus::InProgress);
    let out = build_status(&state, &wf);
    assert_eq!(out.workflow_id, "wid");
    assert_eq!(out.workflow, "bug-fix");
    assert_eq!(out.started_at, "2024-01-02T03:04:05+00:00");
    assert_eq!(out.tasks[0].status, "inprogress");
    assert_eq!(status_label_str(StepStatus::Failed), "failed");
}

#[test]
fn format_validate_text_valid() {
    let out = ValidateOutput {
        valid: true,
        workflow_count: 2,
        vars: vec!["lint".to_string(), "test".to_string()],
        errors: vec![],
    };
    let text = format_validate_text(&out);
    assert!(text.contains("valid"));
    assert!(text.contains("2 workflow(s)"));
    assert!(text.contains("lint"));
}

#[test]
fn format_validate_text_invalid_shows_all_errors() {
    let out = ValidateOutput {
        valid: false,
        workflow_count: 1,
        vars: vec![],
        errors: vec!["first error".to_string(), "second error".to_string()],
    };
    let text = format_validate_text(&out);
    assert!(text.contains("2 error(s)"));
    assert!(text.contains("[1] first error"));
    assert!(text.contains("[2] second error"));
}

#[test]
fn format_validate_text_exact_forms() {
    let valid = ValidateOutput { valid: true, workflow_count: 12, vars: vec![], errors: vec![] };
    assert_eq!(format_validate_text(&valid), "config.yml is valid (12 workflow(s), vars: (none))");
    let valid = ValidateOutput {
        valid: true,
        workflow_count: 2,
        vars: vec!["lint".to_string(), "test".to_string()],
        errors: vec![],
    };
    assert_eq!(format_validate_text(&valid), "config.yml is valid (2 workflow(s), vars: lint, test)");
    let invalid = ValidateOutput {
        valid: false,
        workflow_count: 0,
        vars: vec![],
        errors: vec!["bad one".to_string()],
    };
    assert_eq!(format_validate_text(&invalid), "config.yml has 1 error(s):\n  [1] bad one");
}

#[test]
fn format_status_table_contains_header_and_rows() {
    let wf = minimal_workflow();
    let state = WorkflowState::new("test", &wf);
    let status = build_status(&state, &wf);
    let table = format_status_table(&status);
    assert!(table.contains("TASK ID"));
    assert!(table.contains("DESCRIPTION"));
    assert!(table.contains("STATUS"));
    assert!(table.contains("s1"));
    assert!(table.contains("pending"));
    assert!(table.contains("Session"));
    assert!(table.contains("Workflow"));
}

#[test]
fn format_status_table_starts_with_the_run_identity() {
    let wf = minimal_workflow();
    let state = WorkflowState::with_identity("wid".to_string(), "T0".to_string(), "bug-fix", &wf);
    let table = format_status_table(&build_status(&state, &wf));
    assert!(table.starts_with("Session : wid\nWorkflow: bug-fix\nStarted : T0\n\n"));
    assert!(table.contains("Step 1"));
}

fn config_with(vars: &[(&str, &str)], slugs: &[&str]) -> Config {
    Config {
        imports: vec![],
        vars: vars.iter().map(|(k, v)| Var { key: k.to_string(), value: v.to_string() }).collect(),
        workflows: slugs
            .iter()
            .map(|s| WorkflowEntry {
                slug: s.to_string(),
                workflow: Workflow {
                    name: format!("Name {}", s),
                    description: None,
                    tasks: vec![Task { id: "t".to_string(), task: Some("T".to_string()), ..Task::default() }],
                },
            })
            .collect(),
    }
}

#[test]
fn list_sorts_by_slug_whatever_the_config_order() {
    let config = config_with(&[], &["release", "bug-fix", "feature"]);
    let items = list_workflows(&config);
    let slugs: Vec<&str> = items.iter().map(|i| i.slug.as_str()).collect();
    assert_eq!(slugs, vec!["bug-fix", "feature", "release"]);
    assert_eq!(items[0].name, "Name bug-fix");
    assert_eq!(items[0].task_count, 1);
}

#[test]
fn validate_output_sorts_vars_when_valid() {
    let config = config_with(&[("test", "make test"), ("lint", "make lint")], &["wf"]);
    let out = validate_output(&config);
    assert!(out.valid);
    assert_eq!(out.workflow_count, 1);
    assert_eq!(out.vars, vec!["lint", "test"]);
    assert!(out.errors.is_empty());
}

#[test]
fn validate_output_lists_errors_with_vars_in_config_order() {
    let mut config = config_with(&[], &["wf"]);
    config.workflows[0].workflow.tasks[0].requires = vec!["ghost".to_string()];
    let out = validate_output(&config);
    assert!(!out.valid);
    assert!(out.errors.iter().any(|e| e.contains("ghost")));
}

#[test]
fn validate_report_of_unloadable_config() {
    let out = validate_report(Err(".workflow/config.yml not found: /p/.workflow/config.yml".to_string()));
    assert!(!out.valid);
    assert_eq!(out.workflow_count, 0);
    assert!(out.vars.is_empty());
    assert_eq!(out.errors, vec![".workflow/config.yml not found: /p/.workflow/config.yml"]);
}

#[test]
fn validate_report_text_of_valid_config() {
    let config = config_with(&[], &["a", "b"]);
    let text = format_validate_text(&validate_report(Ok(config)));
    assert_eq!(text, "config.yml is valid (2 workflow(s), vars: (none))");
}

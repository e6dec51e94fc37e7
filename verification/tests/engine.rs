use workflow_runner::config::{Config, DenyRules, Task, Var, Workflow};
use workflow_runner::dag::{executable_items, is_workflow_complete, parent_of};
use workflow_runner::executor::{build_next, build_task_output, resolve_template, FlowStatus};
use workflow_runner::gate::check;
use workflow_runner::state::{StepStatus, WorkflowState};
use workflow_runner::transitions::{apply_action_report, apply_complete, apply_pause, apply_reject, apply_report, CompleteStep};

fn set_status(state: &mut WorkflowState, key: &str, status: StepStatus) {
    let i = state.entry(key);
    let mut s = state.take_state(i);
    s.status = status;
    state.set_state(i, s);
}

fn status(state: &WorkflowState, key: &str) -> StepStatus {
    state.status_at(key)
}

fn has_key(state: &WorkflowState, key: &str) -> bool {
    state.find(key).is_some()
}

fn task(id: &str) -> Task {
    Task { id: id.to_string(), ..Task::default() }
}

fn workflow(tasks: Vec<Task>) -> Workflow {
    Workflow { name: "test".to_string(), description: None, tasks }
}

fn config_with_vars(pairs: &[(&str, &str)]) -> Config {
    Config {
        imports: vec![],
        vars: pairs.iter().map(|(k, v)| Var { key: k.to_string(), value: v.to_string() }).collect(),
        workflows: vec![],
    }
}

fn make_linear_workflow() -> Workflow {
    workflow(vec![
        Task { task: Some("A".to_string()), ..task("a") },
        Task { task: Some("B".to_string()), requires: vec!["a".to_string()], ..task("b") },
    ])
}

fn make_workflow_with_agents() -> Workflow {
    workflow(vec![Task {
        agents: vec!["run-test".to_string(), "run-lint".to_string()],
        ..task("parent")
    }])
}

// ── dag ──────────────────────────────────────────────────────────────────────

#[test]
fn first_task_is_executable_with_no_requires() {
    let wf = make_linear_workflow();
    let state = WorkflowState::new("test", &wf);
    let items = executable_items(&wf, &state);
    assert_eq!(items, vec!["a"]);
}

#[test]
fn second_task_blocked_until_first_complete() {
    let wf = make_linear_workflow();
    let mut state = WorkflowState::new("test", &wf);
    set_status(&mut state, "a", StepStatus::Completed);
    let items = executable_items(&wf, &state);
    assert_eq!(items, vec!["b"]);
}

#[test]
fn completed_task_not_in_executable_items() {
    let wf = make_linear_workflow();
    let mut state = WorkflowState::new("test", &wf);
    set_status(&mut state, "a", StepStatus::Completed);
    set_status(&mut state, "b", StepStatus::Completed);
    assert!(executable_items(&wf, &state).is_empty());
}

#[test]
fn is_workflow_complete_requires_all_tasks() {
    let wf = make_linear_workflow();
    let mut state = WorkflowState::new("test", &wf);
    assert!(!is_workflow_complete(&wf, &state));
    set_status(&mut state, "a", StepStatus::Completed);
    assert!(!is_workflow_complete(&wf, &state));
    set_status(&mut state, "b", StepStatus::Completed);
    assert!(is_workflow_complete(&wf, &state));
}

#[test]
fn parent_of_returns_parent_for_agent_sub_task() {
    assert_eq!(parent_of("parent/sub"), Some("parent"));
}

#[test]
fn parent_of_returns_none_for_normal_task() {
    assert_eq!(parent_of("task1"), None);
}

#[test]
fn parent_of_splits_at_first_slash() {
    assert_eq!(parent_of("a/b/c"), Some("a"));
    assert_eq!(parent_of("/x"), Some(""));
}

#[test]
fn in_progress_task_stays_executable_but_started_agents_task_does_not() {
    let wf = workflow(vec![
        Task { prompt: Some("go".to_string()), ..task("plain") },
        Task { agents: vec!["x".to_string()], ..task("team") },
    ]);
    let mut state = WorkflowState::new("test", &wf);
    set_status(&mut state, "plain", StepStatus::InProgress);
    set_status(&mut state, "team", StepStatus::InProgress);
    assert_eq!(executable_items(&wf, &state), vec!["plain"]);
}

#[test]
fn failed_task_is_not_executable() {
    let wf = make_linear_workflow();
    let mut state = WorkflowState::new("test", &wf);
    set_status(&mut state, "a", StepStatus::Failed);
    assert!(executable_items(&wf, &state).is_empty());
}

#[test]
fn unknown_requirement_does_not_hold_a_task_back() {
    let wf = workflow(vec![Task { requires: vec!["ghost".to_string()], ..task("a") }]);
    let state = WorkflowState::new("test", &wf);
    assert_eq!(executable_items(&wf, &state), vec!["a"]);
}

// ── executor ─────────────────────────────────────────────────────────────────

#[test]
fn resolve_template_substitutes_var() {
    let config = config_with_vars(&[("test", "make test")]);
    let result = resolve_template("{{vars.test}}", &config);
    assert_eq!(result, "make test");
}

#[test]
fn resolve_template_leaves_unknown_key() {
    let config = config_with_vars(&[("test", "make test")]);
    let result = resolve_template("{{vars.build}}", &config);
    assert_eq!(result, "{{vars.build}}");
}

#[test]
fn resolve_template_replaces_every_occurrence_in_order() {
    let config = config_with_vars(&[("a", "1"), ("b", "{{vars.a}}")]);
    assert_eq!(resolve_template("{{vars.a}}-{{vars.a}}", &config), "1-1");
    // Variables are replaced one after another, in the order they are listed.
    assert_eq!(resolve_template("{{vars.b}}", &config), "{{vars.a}}");
}

#[test]
fn resolve_template_keeps_plain_text() {
    let config = config_with_vars(&[("a", "1")]);
    assert_eq!(resolve_template("no placeholders {here}", &config), "no placeholders {here}");
}

#[test]
fn resolve_template_without_vars_keeps_everything() {
    let config = config_with_vars(&[]);
    assert_eq!(resolve_template("run {{vars.test}} now", &config), "run {{vars.test}} now");
}

#[test]
fn resolve_template_keeps_the_text_around_a_placeholder() {
    let config = config_with_vars(&[("other", "x"), ("k", "first"), ("k", "second")]);
    assert_eq!(resolve_template("before {{vars.k}} after", &config), "before first after");
    assert_eq!(resolve_template("before {{vars.none}} after", &config), "before {{vars.none}} after");
}

#[test]
fn resolving_again_changes_nothing() {
    let config = config_with_vars(&[("a", "1"), ("b", "two words")]);
    let s = "x {{vars.a}} y {{vars.none}}{{vars.b}} z}";
    let once = resolve_template(s, &config);
    assert_eq!(once, "x 1 y {{vars.none}}two words z}");
    assert_eq!(resolve_template(&once, &config), once);
}

#[test]
fn braces_outside_placeholders_are_kept_and_resolving_again_changes_nothing() {
    let config = config_with_vars(&[("a", "{1}")]);
    let s = "{{foo}} and {x} {{vars.a}}! {{vars.b}}";
    let once = resolve_template(s, &config);
    assert_eq!(once, "{{foo}} and {x} {1}! {{vars.b}}");
    assert_eq!(resolve_template(&once, &config), once);
}

#[test]
fn a_nested_placeholder_can_resolve_again() {
    let config = config_with_vars(&[("k", "rs.k")]);
    let once = resolve_template("{{va{{vars.k}}}}", &config);
    assert_eq!(once, "{{vars.k}}");
    assert_eq!(resolve_template(&once, &config), "rs.k");
}

#[test]
fn build_next_returns_task_with_resolved_prompt() {
    let wf = workflow(vec![Task { prompt: Some("run {{vars.test}}".to_string()), ..task("run") }]);
    let config = config_with_vars(&[("test", "make test")]);
    let state = WorkflowState::new("test", &wf);

    let output = build_next(&wf, &state, &config);
    assert_eq!(output.tasks.len(), 1);
    assert_eq!(output.tasks[0].prompt.as_deref(), Some("run make test"));
}

#[test]
fn build_next_returns_manual_task_with_task_name() {
    let wf = workflow(vec![Task { task: Some("Write the design doc".to_string()), ..task("design") }]);
    let config = config_with_vars(&[]);
    let state = WorkflowState::new("test", &wf);

    let output = build_next(&wf, &state, &config);
    assert_eq!(output.tasks.len(), 1);
    assert_eq!(output.tasks[0].task.as_deref(), Some("Write the design doc"));
    assert!(output.tasks[0].prompt.is_none());
    assert!(output.tasks[0].agents.is_empty());
}

#[test]
fn build_next_returns_agents_list() {
    let wf = workflow(vec![Task {
        agents: vec!["run-test".to_string(), "run-lint".to_string()],
        ..task("parallel")
    }]);
    let config = config_with_vars(&[]);
    let state = WorkflowState::new("test", &wf);

    let output = build_next(&wf, &state, &config);
    assert_eq!(output.tasks.len(), 1);
    assert_eq!(output.tasks[0].task_id, "parallel");
    assert_eq!(output.tasks[0].agents, vec!["run-test", "run-lint"]);
}

#[test]
fn build_next_returns_completed_when_all_done() {
    let wf = workflow(vec![Task { prompt: Some("do the thing".to_string()), ..task("run") }]);
    let config = config_with_vars(&[]);
    let mut state = WorkflowState::new("test", &wf);
    set_status(&mut state, "run", StepStatus::Completed);

    let output = build_next(&wf, &state, &config);
    assert!(matches!(output.status, FlowStatus::Completed));
    assert!(output.tasks.is_empty());
}

#[test]
fn build_next_includes_approval_flag() {
    let wf = workflow(vec![Task {
        prompt: Some("implement it".to_string()),
        approval: true,
        ..task("impl")
    }]);
    let config = config_with_vars(&[]);
    let state = WorkflowState::new("test", &wf);

    let output = build_next(&wf, &state, &config);
    assert!(output.tasks[0].approval);
}

#[test]
fn build_next_reports_blocked_when_nothing_can_run() {
    let wf = make_linear_workflow();
    let config = config_with_vars(&[]);
    let mut state = WorkflowState::new("test", &wf);
    set_status(&mut state, "a", StepStatus::Failed);
    let output = build_next(&wf, &state, &config);
    assert!(matches!(output.status, FlowStatus::Blocked));
    assert!(output.tasks.is_empty());
    assert_eq!(output.workflow, "test");
    assert_eq!(output.workflow_id, state.workflow_id);
}

#[test]
fn build_next_reports_in_progress_with_tasks() {
    let wf = make_linear_workflow();
    let config = config_with_vars(&[]);
    let state = WorkflowState::new("test", &wf);
    let output = build_next(&wf, &state, &config);
    assert!(matches!(output.status, FlowStatus::InProgress));
    assert_eq!(output.tasks.len(), 1);
    assert_eq!(output.tasks[0].task_id, "a");
}

#[test]
fn build_task_output_copies_every_field() {
    let wf = workflow(vec![Task {
        task: Some("Implement".to_string()),
        prompt: Some("Run {{vars.t}}".to_string()),
        skills: vec!["review".to_string()],
        outputs: vec!["src/**".to_string()],
        deny: Some(DenyRules { files: vec!["docs/**".to_string()], commands: vec!["git push".to_string()] }),
        approval: true,
        ..task("impl")
    }]);
    let config = config_with_vars(&[("t", "make test")]);
    let out = build_task_output("impl", &wf, &config).unwrap();
    assert_eq!(out.task_id, "impl");
    assert_eq!(out.task.as_deref(), Some("Implement"));
    assert_eq!(out.prompt.as_deref(), Some("Run make test"));
    assert_eq!(out.skills, vec!["review"]);
    assert_eq!(out.outputs, vec!["src/**"]);
    let deny = out.deny.unwrap();
    assert_eq!(deny.files, vec!["docs/**"]);
    assert_eq!(deny.commands, vec!["git push"]);
    assert!(out.approval);
    assert!(build_task_output("nope", &wf, &config).is_none());
}

// ── gate ─────────────────────────────────────────────────────────────────────

#[test]
fn gate_check_passes_without_unmet_requires() {
    let wf = make_linear_workflow();
    let mut state = WorkflowState::new("test", &wf);
    set_status(&mut state, "a", StepStatus::Completed);

    let result = check(&wf, &state, "b");
    assert!(result.allowed);
}

#[test]
fn requires_check_blocks_when_dep_not_complete() {
    let wf = make_linear_workflow();
    let state = WorkflowState::new("test", &wf);

    let result = check(&wf, &state, "b");
    assert!(!result.allowed);
}

#[test]
fn requires_check_passes_when_dep_complete() {
    let wf = make_linear_workflow();
    let mut state = WorkflowState::new("test", &wf);
    set_status(&mut state, "a", StepStatus::Completed);

    let result = check(&wf, &state, "b");
    assert!(result.allowed);
}

#[test]
fn gate_reasons_name_what_is_missing() {
    let wf = make_linear_workflow();
    let state = WorkflowState::new("test", &wf);
    assert_eq!(
        check(&wf, &state, "b").reason.as_deref(),
        Some("task 'b' cannot complete until 'a' is done")
    );
    assert_eq!(
        check(&wf, &state, "zzz").reason.as_deref(),
        Some("task 'zzz' not found in config.yml")
    );
    let wf = make_workflow_with_agents();
    let mut state = WorkflowState::new("test", &wf);
    assert_eq!(
        check(&wf, &state, "parent").reason.as_deref(),
        Some("task 'parent' cannot complete until agent 'run-test' is done")
    );
    set_status(&mut state, "parent/run-test", StepStatus::Completed);
    assert_eq!(
        check(&wf, &state, "parent").reason.as_deref(),
        Some("task 'parent' cannot complete until agent 'run-lint' is done")
    );
    set_status(&mut state, "parent/run-lint", StepStatus::Completed);
    assert!(check(&wf, &state, "parent").allowed);
    // An agent step passes once its parent task exists.
    assert!(check(&wf, &state, "parent/whatever").allowed);
    assert!(!check(&wf, &state, "other/whatever").allowed);
}

// ── state ────────────────────────────────────────────────────────────────────

#[test]
fn state_new_initializes_all_task_keys() {
    let wf = make_workflow_with_agents();
    let state = WorkflowState::new("test", &wf);
    assert!(!state.workflow_id.is_empty());
    assert!(has_key(&state, "parent"));
    assert!(has_key(&state, "parent/run-test"));
    assert!(has_key(&state, "parent/run-lint"));
}

#[test]
fn sync_agents_parent_transitions_to_in_progress_when_any_started() {
    let wf = make_workflow_with_agents();
    let mut state = WorkflowState::new("test", &wf);

    set_status(&mut state, "parent/run-test", StepStatus::InProgress);
    state.sync_agents_parent("parent", &wf);

    assert_eq!(status(&state, "parent"), StepStatus::InProgress);
}

#[test]
fn sync_agents_parent_does_not_auto_complete() {
    let wf = make_workflow_with_agents();
    let mut state = WorkflowState::new("test", &wf);

    set_status(&mut state, "parent/run-test", StepStatus::Completed);
    set_status(&mut state, "parent/run-lint", StepStatus::Completed);
    state.sync_agents_parent("parent", &wf);

    assert_eq!(status(&state, "parent"), StepStatus::InProgress);
}

#[test]
fn sync_agents_parent_noop_when_all_pending() {
    let wf = make_workflow_with_agents();
    let mut state = WorkflowState::new("test", &wf);
    state.sync_agents_parent("parent", &wf);
    assert_eq!(status(&state, "parent"), StepStatus::Pending);
}

#[test]
fn sync_agents_parent_in_progress_when_partial() {
    let wf = make_workflow_with_agents();
    let mut state = WorkflowState::new("test", &wf);

    set_status(&mut state, "parent/run-test", StepStatus::InProgress);
    state.sync_agents_parent("parent", &wf);

    assert_eq!(status(&state, "parent"), StepStatus::InProgress);
}

#[test]
fn sync_agents_parent_stamps_the_start_with_the_given_time() {
    let wf = make_workflow_with_agents();
    let mut state = WorkflowState::new("test", &wf);
    set_status(&mut state, "parent/run-lint", StepStatus::Completed);
    state.sync_agents_parent_at("parent", &wf, "2024-01-01T00:00:00+00:00");
    let i = state.find("parent").unwrap();
    assert_eq!(state.tasks[i].state.started_at.as_deref(), Some("2024-01-01T00:00:00+00:00"));
    // A parent already past pending is left alone.
    set_status(&mut state, "parent", StepStatus::Completed);
    state.sync_agents_parent_at("parent", &wf, "2025-01-01T00:00:00+00:00");
    assert_eq!(status(&state, "parent"), StepStatus::Completed);
}

#[test]
fn with_identity_keeps_the_given_identity() {
    let wf = make_workflow_with_agents();
    let state = WorkflowState::with_identity("id-1".to_string(), "2024-05-05T10:00:00+00:00".to_string(), "rel", &wf);
    assert_eq!(state.workflow_id, "id-1");
    assert_eq!(state.workflow, "rel");
    assert_eq!(state.started_at, "2024-05-05T10:00:00+00:00");
    assert_eq!(state.tasks.len(), 3);
    assert!(state.tasks.iter().all(|e| e.state.status == StepStatus::Pending && e.state.action_reports.is_empty()));
}

#[test]
fn new_state_ids_are_distinct_uuids() {
    let wf = make_linear_workflow();
    let a = WorkflowState::new("test", &wf);
    let b = WorkflowState::new("test", &wf);
    assert_eq!(a.workflow_id.len(), 36);
    assert_ne!(a.workflow_id, b.workflow_id);
}

// ── transitions ──────────────────────────────────────────────────────────────

#[test]
fn complete_records_summary_and_moves_on() {
    let wf = make_linear_workflow();
    let config = config_with_vars(&[]);
    let mut state = WorkflowState::new("test", &wf);
    let step = apply_complete(&mut state, &wf, "a", Some("done".to_string()), "T1", &config);
    match step {
        CompleteStep::Next(o) => {
            assert_eq!(o.tasks.len(), 1);
            assert_eq!(o.tasks[0].task_id, "b");
        }
        _ => panic!("expected the next tasks"),
    }
    let i = state.find("a").unwrap();
    let s = &state.tasks[i].state;
    assert_eq!(s.status, StepStatus::Completed);
    assert_eq!(s.completed_at.as_deref(), Some("T1"));
    assert_eq!(s.action_reports.len(), 1);
    assert_eq!(s.action_reports[0].action_type, "complete");
    assert_eq!(s.action_reports[0].action_index, 0);
    assert_eq!(s.action_reports[0].stdout.as_deref(), Some("done"));
    assert_eq!(s.action_reports[0].recorded_at, "T1");
}

#[test]
fn complete_refused_by_gate_leaves_state_unchanged() {
    let wf = make_linear_workflow();
    let config = config_with_vars(&[]);
    let mut state = WorkflowState::new("test", &wf);
    let step = apply_complete(&mut state, &wf, "b", None, "T1", &config);
    match step {
        CompleteStep::Gated(m) => assert_eq!(m, "task 'b' cannot complete until 'a' is done"),
        _ => panic!("expected a refusal"),
    }
    assert_eq!(status(&state, "b"), StepStatus::Pending);
    let i = state.find("b").unwrap();
    assert!(state.tasks[i].state.action_reports.is_empty());
}

#[test]
fn complete_of_approval_task_awaits_approval_and_last_task_finishes() {
    let wf = workflow(vec![Task { approval: true, task: Some("Review".to_string()), ..task("review") }]);
    let config = config_with_vars(&[]);
    let mut state = WorkflowState::new("test", &wf);
    assert!(matches!(apply_complete(&mut state, &wf, "review", None, "T", &config), CompleteStep::AwaitingApproval));
    let wf = make_linear_workflow();
    let mut state = WorkflowState::new("test", &wf);
    set_status(&mut state, "a", StepStatus::Completed);
    assert!(matches!(apply_complete(&mut state, &wf, "b", None, "T", &config), CompleteStep::Finished));
}

#[test]
fn complete_of_agent_starts_parent_but_never_completes_it() {
    let wf = make_workflow_with_agents();
    let config = config_with_vars(&[]);
    let mut state = WorkflowState::new("test", &wf);
    let _ = apply_complete(&mut state, &wf, "parent/run-test", None, "T", &config);
    let _ = apply_complete(&mut state, &wf, "parent/run-lint", None, "T", &config);
    assert_eq!(status(&state, "parent/run-test"), StepStatus::Completed);
    assert_eq!(status(&state, "parent/run-lint"), StepStatus::Completed);
    assert_eq!(status(&state, "parent"), StepStatus::InProgress);
}

#[test]
fn reject_reopens_the_task_with_the_reason() {
    let wf = make_linear_workflow();
    let config = config_with_vars(&[]);
    let mut state = WorkflowState::new("test", &wf);
    let _ = apply_complete(&mut state, &wf, "a", None, "T1", &config);
    apply_reject(&mut state, "a", Some("needs work".to_string()), "T2");
    let i = state.find("a").unwrap();
    let s = &state.tasks[i].state;
    assert_eq!(s.status, StepStatus::InProgress);
    assert!(s.completed_at.is_none());
    assert_eq!(s.action_reports.len(), 2);
    assert_eq!(s.action_reports[1].action_type, "reject");
    assert_eq!(s.action_reports[1].action_index, 1);
    assert_eq!(s.action_reports[1].stdout.as_deref(), Some("needs work"));
    // Without a reason nothing is recorded.
    apply_reject(&mut state, "a", None, "T3");
    let i = state.find("a").unwrap();
    assert_eq!(state.tasks[i].state.action_reports.len(), 2);
}

#[test]
fn report_keeps_status_and_unknown_task_is_an_error() {
    let wf = make_linear_workflow();
    let mut state = WorkflowState::new("test", &wf);
    assert!(apply_report(&mut state, "a", Some("halfway".to_string()), "T").is_ok());
    assert_eq!(status(&state, "a"), StepStatus::Pending);
    let i = state.find("a").unwrap();
    assert_eq!(state.tasks[i].state.action_reports[0].action_type, "report");
    assert_eq!(state.tasks[i].state.updated_at.as_deref(), Some("T"));
    let err = apply_report(&mut state, "no-such-task", None, "T").unwrap_err();
    assert_eq!(err, "unknown task_id 'no-such-task' in workflow");
}

#[test]
fn pause_records_the_reason() {
    let wf = make_linear_workflow();
    let mut state = WorkflowState::new("test", &wf);
    apply_pause(&mut state, "a", Some("need input".to_string()), "T");
    let i = state.find("a").unwrap();
    let s = &state.tasks[i].state;
    assert_eq!(s.status, StepStatus::Pending);
    assert_eq!(s.action_reports[0].action_type, "pause");
    assert_eq!(s.action_reports[0].stdout.as_deref(), Some("need input"));
}

#[test]
fn action_report_starts_a_pending_step_and_records_the_action() {
    let wf = make_linear_workflow();
    let mut state = WorkflowState::new("test", &wf);
    apply_action_report(&mut state, &wf, "a", 2, "command".to_string(), Some(1), Some("out".to_string()), "T1").unwrap();
    let i = state.find("a").unwrap();
    let s = &state.tasks[i].state;
    assert_eq!(s.status, StepStatus::InProgress);
    assert_eq!(s.started_at.as_deref(), Some("T1"));
    assert_eq!(s.action_reports.len(), 1);
    assert_eq!(s.action_reports[0].action_index, 2);
    assert_eq!(s.action_reports[0].action_type, "command");
    assert_eq!(s.action_reports[0].exit_code, Some(1));
    assert_eq!(s.action_reports[0].stdout.as_deref(), Some("out"));
    assert_eq!(s.action_reports[0].recorded_at, "T1");
    // A second report keeps the status and the start time.
    apply_action_report(&mut state, &wf, "a", 3, "check".to_string(), None, None, "T2").unwrap();
    let s = &state.tasks[i].state;
    assert_eq!(s.status, StepStatus::InProgress);
    assert_eq!(s.started_at.as_deref(), Some("T1"));
    assert_eq!(s.action_reports.len(), 2);
    assert_eq!(s.action_reports[1].action_index, 3);
    assert_eq!(s.action_reports[1].exit_code, None);
    assert_eq!(status(&state, "b"), StepStatus::Pending);
}

#[test]
fn action_report_on_an_agent_starts_its_parent() {
    let wf = make_workflow_with_agents();
    let mut state = WorkflowState::new("test", &wf);
    apply_action_report(&mut state, &wf, "parent/run-test", 0, "command".to_string(), Some(0), None, "T1").unwrap();
    assert_eq!(status(&state, "parent/run-test"), StepStatus::InProgress);
    assert_eq!(status(&state, "parent"), StepStatus::InProgress);
    assert_eq!(status(&state, "parent/run-lint"), StepStatus::Pending);
}

#[test]
fn new_state_ids_are_hyphenated_lower_case_v4_uuids() {
    let wf = make_linear_workflow();
    let id = WorkflowState::new("test", &wf).workflow_id;
    let chars: Vec<char> = id.chars().collect();
    assert_eq!(chars.len(), 36);
    for (i, c) in chars.iter().enumerate() {
        if [8, 13, 18, 23].contains(&i) {
            assert_eq!(*c, '-');
        } else {
            assert!(c.is_ascii_digit() || ('a'..='f').contains(c), "{id}");
        }
    }
    assert_eq!(chars[14], '4');
}

//! What the tool-use hooks answer while a task is in progress.
use workflow_runner::config::{DenyRules, Task, Workflow};
use workflow_runner::hooks::{handle_post_bash, relative_to, pre_bash_decision, pre_edit_decision, task_command_decision, task_edit_decision, Decision};
use workflow_runner::patterns::{matches_command_pattern, matches_pattern};
use workflow_runner::state::{StepStatus, WorkflowState};

fn set_status(state: &mut WorkflowState, key: &str, status: StepStatus) {
    let i = state.entry(key);
    let mut s = state.take_state(i);
    s.status = status;
    state.set_state(i, s);
}

fn workflow_with_task(task: Task) -> Workflow {
    Workflow { name: "test".to_string(), description: None, tasks: vec![task] }
}

fn active_state(task_id: &str, wf: &Workflow) -> WorkflowState {
    let mut state = WorkflowState::new("test", wf);
    set_status(&mut state, task_id, StepStatus::InProgress);
    state
}

fn implement(deny: Option<DenyRules>, outputs: &[&str]) -> Task {
    Task {
        id: "impl".to_string(),
        task: Some("Implement".to_string()),
        deny,
        outputs: outputs.iter().map(|s| s.to_string()).collect(),
        ..Task::default()
    }
}

#[test]
fn command_pattern_plain_partial_match() {
    assert!(matches_command_pattern("git push", "git push origin main"));
    assert!(matches_command_pattern("git push", "git push"));
    assert!(!matches_command_pattern("git push", "git pull"));
}

#[test]
fn command_pattern_regex() {
    assert!(matches_command_pattern("/^git push/", "git push origin"));
    assert!(!matches_command_pattern("/^git push/", "echo git push"));
}

#[test]
fn pre_edit_allows_when_no_workflow_active() {
    let wf = workflow_with_task(implement(Some(DenyRules { files: vec!["src/**".to_string()], commands: vec![] }), &[]));
    let state = WorkflowState::new("test", &wf);
    assert!(pre_edit_decision(&wf, &state, "src/main.rs").is_none());
}

#[test]
fn hook_handler_pre_edit_blocks_deny_file() {
    let wf = workflow_with_task(implement(Some(DenyRules { files: vec!["docs/specs/**".to_string()], commands: vec![] }), &[]));
    let state = active_state("impl", &wf);
    let d = pre_edit_decision(&wf, &state, "docs/specs/design.md").expect("the edit must be blocked");
    assert_eq!(d.decision, Decision::Block);
    assert_eq!(d.reason, "[impl] editing 'docs/specs/design.md' is denied by task 'Implement' (rule: 'docs/specs/**')");
}

#[test]
fn pre_edit_asks_when_outside_allow_files() {
    let wf = workflow_with_task(implement(None, &["src/**"]));
    let state = active_state("impl", &wf);
    let d = pre_edit_decision(&wf, &state, "docs/README.md").expect("the edit must be questioned");
    assert_eq!(d.decision, Decision::Ask);
    assert_eq!(d.reason, "[impl] 'docs/README.md' is outside outputs for task 'Implement'");
}

#[test]
fn pre_edit_allows_matching_allow_file() {
    let wf = workflow_with_task(implement(None, &["src/**"]));
    let state = active_state("impl", &wf);
    assert!(pre_edit_decision(&wf, &state, "src/main.rs").is_none());
}

#[test]
fn hook_handler_pre_bash_blocks_denied_command() {
    let wf = workflow_with_task(implement(Some(DenyRules { files: vec![], commands: vec!["git push".to_string()] }), &[]));
    let state = active_state("impl", &wf);
    let d = pre_bash_decision(&wf, &state, "git push origin main").expect("the command must be blocked");
    assert_eq!(d.decision, Decision::Block);
    assert_eq!(d.reason, "[impl] command 'git push origin main' is denied by task 'Implement' (rule: 'git push')");
}

#[test]
fn hook_handler_pre_bash_allows_non_denied_command() {
    let wf = workflow_with_task(implement(Some(DenyRules { files: vec![], commands: vec!["git push".to_string()] }), &[]));
    let state = active_state("impl", &wf);
    assert!(pre_bash_decision(&wf, &state, "cargo test").is_none());
}

#[test]
fn deny_wins_over_outputs_for_one_task() {
    let t = implement(Some(DenyRules { files: vec!["src/secret/**".to_string()], commands: vec![] }), &["src/**"]);
    let d = task_edit_decision(&t, "src/secret/key.rs").unwrap();
    assert_eq!(d.decision, Decision::Block);
    assert!(task_edit_decision(&t, "src/lib.rs").is_none());
}

#[test]
fn task_without_rules_objects_to_nothing() {
    let t = implement(None, &[]);
    assert!(task_edit_decision(&t, "anything/at/all.txt").is_none());
    assert!(task_command_decision(&t, "rm -rf target").is_none());
}

#[test]
fn a_task_named_by_id_only_is_shown_by_id() {
    let t = Task {
        id: "guard".to_string(),
        deny: Some(DenyRules { files: vec![], commands: vec!["/^curl /".to_string()] }),
        ..Task::default()
    };
    let d = task_command_decision(&t, "curl http://x").unwrap();
    assert_eq!(d.reason, "[guard] command 'curl http://x' is denied by task 'guard' (rule: '/^curl /')");
}

#[test]
fn path_patterns_match_globs_and_regexes() {
    assert!(matches_pattern("src/**", "src/a/b.rs"));
    assert!(!matches_pattern("src/**", "tests/a.rs"));
    assert!(matches_pattern("/\\.md$/", "docs/x.md"));
}

#[test]
fn post_bash_hook_does_nothing() {
    assert!(handle_post_bash("/tmp", "{}").is_ok());
}

#[test]
fn edited_paths_are_made_relative_to_the_project_root() {
    assert_eq!(relative_to("/p/src/main.rs", "/p"), "src/main.rs");
    assert_eq!(relative_to("/p/src/main.rs", "/p/"), "src/main.rs");
    assert_eq!(relative_to("/p//src", "/p"), "src");
    assert_eq!(relative_to("/p", "/p"), "");
    assert_eq!(relative_to("/project/x", "/p"), "/project/x");
    assert_eq!(relative_to("/a/b", "/"), "a/b");
    assert_eq!(relative_to("src/x", "/p"), "src/x");
}

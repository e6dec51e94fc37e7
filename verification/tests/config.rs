use workflow_runner::config::{Config, Task, Var, Workflow, WorkflowEntry};
use workflow_runner::loader::{load_and_merge_config, load_config, ConfigFile, ImportRef};
use workflow_runner::patterns::matches_pattern;
use workflow_runner::validate::{validate, ValidationError};

fn task(id: &str) -> Task {
    Task { id: id.to_string(), ..Task::default() }
}

fn entry(slug: &str, name: &str, tasks: Vec<Task>) -> WorkflowEntry {
    WorkflowEntry { slug: slug.to_string(), workflow: Workflow { name: name.to_string(), description: None, tasks } }
}

fn minimal_config() -> Config {
    Config {
        imports: vec![],
        vars: vec![],
        workflows: vec![entry("wf", "WF", vec![Task { task: Some("Do task 1".to_string()), ..task("task1") }])],
    }
}

fn first_task(config: &mut Config) -> &mut Task {
    &mut config.workflows[0].workflow.tasks[0]
}

fn var(key: &str, value: &str) -> Var {
    Var { key: key.to_string(), value: value.to_string() }
}

fn has_var(c: &Config, key: &str) -> bool {
    c.vars.iter().any(|v| v.key == key)
}

fn var_value<'a>(c: &'a Config, key: &str) -> Option<&'a str> {
    c.vars.iter().find(|v| v.key == key).map(|v| v.value.as_str())
}

fn has_workflow(c: &Config, slug: &str) -> bool {
    c.workflows.iter().any(|e| e.slug == slug)
}

fn import(name: &str, target: Option<usize>) -> ImportRef {
    ImportRef {
        name: name.to_string(),
        display: format!("/p/.workflow/{}", name),
        target,
        escapes: false,
    }
}

fn file(parsed: Config, imports: Vec<ImportRef>) -> ConfigFile {
    ConfigFile { parsed: Ok(parsed), imports }
}

fn config_of(vars: Vec<Var>, workflows: Vec<WorkflowEntry>, imports: &[&str]) -> Config {
    Config { imports: imports.iter().map(|s| s.to_string()).collect(), vars, workflows }
}

// ── validate ─────────────────────────────────────────────────────────────────

#[test]
fn validate_accepts_minimal_config() {
    assert!(validate(&minimal_config()).is_ok());
}

#[test]
fn validate_accepts_empty_vars() {
    let mut config = minimal_config();
    config.vars.clear();
    assert!(validate(&config).is_ok());
}

#[test]
fn validate_rejects_unknown_requires() {
    let mut config = minimal_config();
    first_task(&mut config).requires.push("nonexistent".to_string());
    let err = validate(&config).unwrap_err();
    assert!(err.to_string().contains("nonexistent"));
}

#[test]
fn validate_rejects_prompt_and_agents_together() {
    let mut config = minimal_config();
    first_task(&mut config).prompt = Some("do it".to_string());
    first_task(&mut config).agents = vec!["some-agent".to_string()];
    assert!(validate(&config).is_err());
}

#[test]
fn validate_rejects_skills_and_agents_together() {
    let mut config = minimal_config();
    first_task(&mut config).skills = vec!["security-review".to_string()];
    first_task(&mut config).agents = vec!["some-agent".to_string()];
    assert!(validate(&config).is_err());
}

#[test]
fn validate_rejects_manual_task_without_task_name() {
    let mut config = minimal_config();
    first_task(&mut config).task = None;
    let err = validate(&config).unwrap_err();
    assert!(err.to_string().contains("manual task requires 'task'"));
}

#[test]
fn validate_accepts_prompt_task_without_task_name() {
    let mut config = minimal_config();
    first_task(&mut config).task = None;
    first_task(&mut config).prompt = Some("Do something".to_string());
    assert!(validate(&config).is_ok());
}

#[test]
fn validate_accepts_agents_task_without_task_name() {
    let mut config = minimal_config();
    first_task(&mut config).task = None;
    first_task(&mut config).agents = vec!["run-test".to_string()];
    assert!(validate(&config).is_ok());
}

#[test]
fn validate_collects_multiple_errors() {
    let mut config = minimal_config();
    first_task(&mut config).requires.push("missing".to_string());
    first_task(&mut config).prompt = Some("do it".to_string());
    first_task(&mut config).agents = vec!["some-agent".to_string()];
    let err = validate(&config).unwrap_err();
    assert!(err.errors.len() >= 2, "expected at least 2 errors, got {}: {:?}", err.errors.len(), err.errors);
}

#[test]
fn validation_error_display_contains_all_messages() {
    let ve = ValidationError { errors: vec!["first problem".to_string(), "second problem".to_string()] };
    let s = ve.to_string();
    assert!(s.contains("first problem"));
    assert!(s.contains("second problem"));
    assert!(s.contains("[1]"));
    assert!(s.contains("[2]"));
}

#[test]
fn validation_error_display_is_numbered_lines() {
    let ve = ValidationError { errors: vec!["first problem".to_string(), "second problem".to_string()] };
    assert_eq!(ve.to_string(), "[1] first problem\n[2] second problem");
    assert_eq!(ValidationError { errors: vec![] }.to_string(), "");
}

#[test]
fn validate_rejects_duplicate_task_ids() {
    let mut config = minimal_config();
    config.workflows[0].workflow.tasks.push(Task { task: Some("Duplicate task".to_string()), ..task("task1") });
    let err = validate(&config).unwrap_err();
    assert!(err.to_string().contains("duplicate task id"), "expected duplicate task id error, got: {}", err.to_string());
}

#[test]
fn validate_rejects_invalid_task_id_with_slash() {
    let mut config = minimal_config();
    first_task(&mut config).id = "my/task".to_string();
    let err = validate(&config).unwrap_err();
    assert!(err.to_string().contains("id must match"), "expected pattern error, got: {}", err.to_string());
}

#[test]
fn validate_rejects_invalid_task_id_uppercase() {
    let mut config = minimal_config();
    first_task(&mut config).id = "MyTask".to_string();
    let err = validate(&config).unwrap_err();
    assert!(err.to_string().contains("id must match"));
}

#[test]
fn validate_messages_are_exact() {
    let mut config = minimal_config();
    config.workflows.push(entry("empty", "Empty", vec![]));
    first_task(&mut config).requires.push("ghost".to_string());
    let err = validate(&config).unwrap_err();
    assert_eq!(
        err.errors,
        vec![
            "task 'task1' in workflow 'wf': unknown requires 'ghost'".to_string(),
            "workflow 'empty' has no tasks".to_string(),
        ]
    );
    let mut config = minimal_config();
    config.workflows[0].workflow.tasks.push(Task { task: Some("again".to_string()), ..task("task1") });
    config.workflows[0].workflow.tasks.push(Task { task: Some("and again".to_string()), ..task("task1") });
    let err = validate(&config).unwrap_err();
    assert_eq!(
        err.errors,
        vec![
            "workflow 'wf': duplicate task id 'task1'".to_string(),
            "workflow 'wf': duplicate task id 'task1'".to_string(),
        ]
    );
}

// ── patterns ─────────────────────────────────────────────────────────────────

#[test]
fn matches_pattern_glob() {
    assert!(matches_pattern("src/**", "src/main.rs"));
    assert!(!matches_pattern("src/**", "tests/foo.rs"));
}

#[test]
fn matches_pattern_regex() {
    assert!(matches_pattern("/.*\\.md$/", "README.md"));
    assert!(!matches_pattern("/.*\\.md$/", "main.rs"));
}

#[test]
fn invalid_patterns_match_nothing() {
    assert!(!matches_pattern("/(unclosed/", "(unclosed"));
    assert!(!matches_pattern("[", "["));
}

// ── loading with imports ─────────────────────────────────────────────────────

#[test]
fn load_config_resolves_imports() {
    let extra = config_of(
        vec![var("lint", "make lint")],
        vec![entry("extra", "Extra", vec![Task { task: Some("Extra task 1".to_string()), ..task("e1") }])],
        &[],
    );
    let root = config_of(
        vec![],
        vec![entry("main", "Main", vec![Task { task: Some("Main task 1".to_string()), ..task("m1") }])],
        &["workflows/extra.yml"],
    );
    let files = vec![file(root, vec![import("workflows/extra.yml", Some(1))]), file(extra, vec![])];
    let config = load_config(&files, "/p/.workflow/config.yml", None).unwrap();
    assert!(has_workflow(&config, "extra"));
    assert!(has_workflow(&config, "main"));
    assert!(has_var(&config, "lint"));
    assert!(config.imports.is_empty());
}

#[test]
fn load_config_detects_circular_imports() {
    let a = config_of(vec![], vec![], &["config.yml"]);
    let root = config_of(
        vec![],
        vec![entry("wf", "WF", vec![Task { task: Some("Step 1".to_string()), ..task("s1") }])],
        &["a.yml"],
    );
    let files = vec![file(root, vec![import("a.yml", Some(1))]), file(a, vec![import("config.yml", Some(0))])];
    let result = load_config(&files, "/p/.workflow/config.yml", None);
    assert!(result.is_err());
    let message = result.unwrap_err();
    assert!(message.contains("circular"));
    assert_eq!(message, "circular import detected: /p/.workflow/config.yml");
}

#[test]
fn load_config_resolves_diamond_imports() {
    let shared = config_of(vec![var("shared_var", "shared_value")], vec![], &[]);
    let a = config_of(vec![], vec![], &["shared.yml"]);
    let b = config_of(vec![], vec![], &["shared.yml"]);
    let root = config_of(
        vec![],
        vec![entry("wf", "WF", vec![Task { task: Some("Step 1".to_string()), ..task("s1") }])],
        &["a.yml", "b.yml"],
    );
    let files = vec![
        file(root, vec![import("a.yml", Some(1)), import("b.yml", Some(2))]),
        file(a, vec![import("shared.yml", Some(3))]),
        file(b, vec![import("shared.yml", Some(3))]),
        file(shared, vec![]),
    ];
    let config = load_config(&files, "/p/.workflow/config.yml", None).unwrap();
    assert!(has_var(&config, "shared_var"));
    assert!(has_workflow(&config, "wf"));
}

#[test]
fn load_config_rejects_path_traversal_import() {
    let outside = config_of(vec![], vec![], &[]);
    let root = config_of(
        vec![],
        vec![entry("wf", "WF", vec![Task { task: Some("Step 1".to_string()), ..task("s1") }])],
        &["../outside.yml"],
    );
    let mut escape = import("../outside.yml", Some(1));
    escape.escapes = true;
    let files = vec![file(root, vec![escape]), file(outside, vec![])];
    let result = load_config(&files, "/p/.workflow/config.yml", None);
    assert!(result.is_err());
    let message = result.unwrap_err();
    assert!(message.contains("escapes"), "expected path traversal error");
    assert_eq!(message, "import '../outside.yml' escapes .workflow/ directory");
}

#[test]
fn load_reports_missing_root_missing_import_and_bad_files() {
    let files: Vec<ConfigFile> = vec![];
    assert_eq!(
        load_and_merge_config(&files, "/p/.workflow/config.yml", None).unwrap_err(),
        "config file not found: /p/.workflow/config.yml"
    );
    let files = vec![file(config_of(vec![], vec![], &["gone.yml"]), vec![import("gone.yml", None)])];
    assert_eq!(load_and_merge_config(&files, "/p/.workflow/config.yml", None).unwrap_err(), "import not found: gone.yml");
    let files = vec![
        file(config_of(vec![], vec![], &["bad.yml"]), vec![import("bad.yml", Some(1))]),
        ConfigFile { parsed: Err("failed to parse config YAML".to_string()), imports: vec![] },
    ];
    assert_eq!(load_and_merge_config(&files, "/p/.workflow/config.yml", None).unwrap_err(), "failed to parse config YAML");
    let files = vec![file(minimal_config(), vec![])];
    assert_eq!(
        load_and_merge_config(&files, "/p/.workflow/config.yml", Some("cannot resolve .workflow/ under /p".to_string()))
            .unwrap_err(),
        "cannot resolve .workflow/ under /p"
    );
}

#[test]
fn own_variables_win_over_imported_ones() {
    let child = config_of(vec![var("test", "from import"), var("lint", "make lint")], vec![], &[]);
    let root = config_of(vec![var("test", "inline")], vec![], &["vars.yml"]);
    let files = vec![file(root, vec![import("vars.yml", Some(1))]), file(child, vec![])];
    let config = load_and_merge_config(&files, "/p/.workflow/config.yml", None).unwrap();
    assert_eq!(var_value(&config, "test"), Some("inline"));
    assert_eq!(var_value(&config, "lint"), Some("make lint"));
    assert_eq!(config.vars.len(), 2);
}

#[test]
fn a_slug_defined_in_two_files_is_an_error() {
    let child = config_of(vec![], vec![entry("wf", "Other", vec![task("x")]), entry("extra", "Extra", vec![task("y")])], &[]);
    let root = config_of(vec![], vec![entry("wf", "WF", vec![task("s1")])], &["dup.yml"]);
    let files = vec![file(root, vec![import("dup.yml", Some(1))]), file(child, vec![])];
    assert_eq!(
        load_and_merge_config(&files, "/p/.workflow/config.yml", None).unwrap_err(),
        "workflow 'wf' is defined more than once"
    );
}

#[test]
fn a_slug_defined_in_two_imports_is_an_error() {
    let a = config_of(vec![], vec![entry("wf", "A", vec![task("x")])], &[]);
    let b = config_of(vec![], vec![entry("wf", "B", vec![task("y")])], &[]);
    let root = config_of(vec![], vec![], &["a.yml", "b.yml"]);
    let files = vec![
        file(root, vec![import("a.yml", Some(1)), import("b.yml", Some(2))]),
        file(a, vec![]),
        file(b, vec![]),
    ];
    assert_eq!(
        load_config(&files, "/p/.workflow/config.yml", None).unwrap_err(),
        "workflow 'wf' is defined more than once"
    );
}

#[test]
fn a_slug_repeated_in_one_file_is_an_error() {
    let root = config_of(vec![], vec![entry("wf", "WF", vec![task("s1")]), entry("wf", "Again", vec![task("s2")])], &[]);
    let files = vec![file(root, vec![])];
    assert_eq!(
        load_and_merge_config(&files, "/p/.workflow/config.yml", None).unwrap_err(),
        "workflow 'wf' is defined more than once"
    );
}

#[test]
fn workflows_of_a_file_reached_twice_are_merged_once() {
    let shared = config_of(vec![], vec![entry("common", "Common", vec![task("c1")])], &[]);
    let a = config_of(vec![], vec![], &["shared.yml"]);
    let b = config_of(vec![], vec![], &["shared.yml"]);
    let root = config_of(vec![], vec![entry("wf", "WF", vec![task("s1")])], &["a.yml", "b.yml"]);
    let files = vec![
        file(root, vec![import("a.yml", Some(1)), import("b.yml", Some(2))]),
        file(a, vec![import("shared.yml", Some(3))]),
        file(b, vec![import("shared.yml", Some(3))]),
        file(shared, vec![]),
    ];
    let config = load_and_merge_config(&files, "/p/.workflow/config.yml", None).unwrap();
    assert_eq!(config.workflows.len(), 2);
    assert_eq!(config.workflows[0].slug, "wf");
    assert_eq!(config.workflows[1].slug, "common");
}

#[test]
fn load_config_refuses_an_invalid_merge() {
    let root = config_of(vec![], vec![entry("wf", "WF", vec![task("s1")])], &[]);
    let files = vec![file(root, vec![])];
    assert_eq!(
        load_config(&files, "/p/.workflow/config.yml", None).unwrap_err(),
        "[1] task 's1' in workflow 'wf': manual task requires 'task'"
    );
    assert!(load_and_merge_config(&files, "/p/.workflow/config.yml", None).is_ok());
}


//! End-to-end flows of the daemon, driven through its event handling with an
//! in-memory store standing in for the database and a list standing in for
//! the webhook.
use std::collections::HashMap;
use workflow_runner::cli::{resolve_callback_base_url, resolve_target_workflow_id, resolve_webhook_url};
use workflow_runner::config::{Config, DenyRules, Task, Var, Workflow, WorkflowEntry};
use workflow_runner::daemon::{Daemon, DaemonAction, DaemonEvent, Notice, StoredRun};
use workflow_runner::executor::TaskOutput;
use workflow_runner::hooks::{edits_config, pre_bash_decision, pre_edit_decision, schema_warning, Decision};
use workflow_runner::loader::{load_config, ConfigFile, ImportRef};
use workflow_runner::output::{build_status, format_status_table, format_validate_text, list_workflows, validate_report, StatusOutput};
use workflow_runner::state::{StepStatus, WorkflowState};
use workflow_runner::store::{run_status_to_str, select_by_status};
use workflow_runner::transitions::{apply_complete, complete_output};

// ── configs ──────────────────────────────────────────────────────────────────

fn t(id: &str, name: &str, prompt: Option<&str>) -> Task {
    Task {
        id: id.to_string(),
        task: Some(name.to_string()),
        prompt: prompt.map(|p| p.to_string()),
        ..Task::default()
    }
}

fn strings(v: &[&str]) -> Vec<String> {
    v.iter().map(|s| s.to_string()).collect()
}

fn wf_entry(slug: &str, name: &str, tasks: Vec<Task>) -> WorkflowEntry {
    WorkflowEntry { slug: slug.to_string(), workflow: Workflow { name: name.to_string(), description: None, tasks } }
}

fn config(vars: &[(&str, &str)], workflows: Vec<WorkflowEntry>) -> Config {
    Config {
        imports: vec![],
        vars: vars.iter().map(|(k, v)| Var { key: k.to_string(), value: v.to_string() }).collect(),
        workflows,
    }
}

fn config_standard() -> Config {
    config(
        &[("test", "make test"), ("lint", "make lint"), ("build", "make build")],
        vec![
            wf_entry(
                "bug-fix",
                "Bug Fix Flow",
                vec![
                    t("reproduce", "Reproduce the bug", Some("Reproduce the bug and document the steps.")),
                    t("identify", "Identify root cause", Some("Identify the root cause.")),
                    Task {
                        outputs: strings(&["src/**", "tests/**"]),
                        requires: strings(&["reproduce", "identify"]),
                        ..t("implement", "Fix the bug", Some("Fix the bug. Then run {{vars.test}}."))
                    },
                    Task {
                        requires: strings(&["implement"]),
                        ..t("complete", "Confirm completion", Some("Confirm everything is complete."))
                    },
                ],
            ),
            wf_entry(
                "feature",
                "Feature Development Flow",
                vec![
                    Task {
                        outputs: strings(&["docs/**", "/.*\\.md$/"]),
                        approval: true,
                        ..t("design", "Write design doc", Some("Write the design document."))
                    },
                    Task {
                        outputs: strings(&["src/**", "tests/**"]),
                        deny: Some(DenyRules { files: strings(&["docs/specs/**"]), commands: vec![] }),
                        requires: strings(&["design"]),
                        ..t("implement", "Implement", Some("Implement the feature. Run {{vars.test}} and {{vars.lint}}."))
                    },
                    Task {
                        requires: strings(&["implement"]),
                        ..t("complete", "Confirm completion", Some("Confirm everything is complete."))
                    },
                ],
            ),
            wf_entry(
                "release",
                "Release Flow",
                vec![
                    Task {
                        outputs: strings(&["docs/**"]),
                        approval: true,
                        ..t("design", "Write design doc", Some("Write the design document."))
                    },
                    Task {
                        outputs: strings(&["src/**", "tests/**"]),
                        requires: strings(&["design"]),
                        ..t("implement", "Implement", Some("Implement. Run {{vars.build}} to verify."))
                    },
                    Task {
                        requires: strings(&["implement"]),
                        agents: strings(&["run-test", "run-lint"]),
                        ..t("quality-check", "Quality check", None)
                    },
                    Task {
                        requires: strings(&["quality-check"]),
                        approval: true,
                        ..t("complete", "Confirm completion", Some("Confirm design, implementation, and quality check are all done."))
                    },
                ],
            ),
        ],
    )
}

fn config_two_step() -> Config {
    config(
        &[],
        vec![wf_entry(
            "two-step",
            "Two Step",
            vec![
                t("step-a", "Step A", Some("Do step A.")),
                Task { requires: strings(&["step-a"]), ..t("step-b", "Step B", Some("Do step B.")) },
            ],
        )],
    )
}

fn config_approval_run() -> Config {
    config(
        &[],
        vec![wf_entry(
            "approve-run",
            "Approve Run",
            vec![
                Task { approval: true, ..t("work", "Do work", Some("Do the work.")) },
                Task { requires: strings(&["work"]), ..t("finish", "Finish", Some("Finish up.")) },
            ],
        )],
    )
}

fn config_two_workflows() -> Config {
    config(
        &[],
        vec![
            wf_entry("alpha", "Alpha Flow", vec![t("alpha-task", "Alpha task", Some("Do the alpha task."))]),
            wf_entry("beta", "Beta Flow", vec![t("beta-task", "Beta task", Some("Do the beta task."))]),
        ],
    )
}

fn config_approval() -> Config {
    config(
        &[],
        vec![wf_entry(
            "sign-off",
            "Sign-off Flow",
            vec![Task { approval: true, ..t("work", "Do work", Some("Do the work.")) }],
        )],
    )
}

fn config_sign_off() -> Config {
    config(
        &[],
        vec![wf_entry(
            "sign-off-flow",
            "Sign-off Flow",
            vec![
                t("work", "Do the work", Some("Do the work.")),
                Task {
                    requires: strings(&["work"]),
                    approval: true,
                    ..t("sign-off", "Sign off", Some("Sign off on the completed work."))
                },
            ],
        )],
    )
}

fn config_minimal() -> Config {
    config(&[], vec![wf_entry("simple", "Simple Flow", vec![t("only-task", "The only task", Some("Do the thing."))])])
}

fn config_guarded() -> Config {
    config(
        &[],
        vec![wf_entry(
            "guarded",
            "Guarded workflow",
            vec![Task {
                outputs: strings(&["src/**", "tests/**"]),
                deny: Some(DenyRules { files: strings(&["docs/specs/**"]), commands: strings(&["git push"]) }),
                ..t("implement", "Implement", Some("Do the implementation work."))
            }],
        )],
    )
}

// ── harness ──────────────────────────────────────────────────────────────────

/// A daemon with an in-memory store (status and state by run id) and a log
/// of everything handed out (run id, task).
struct Harness {
    daemon: Daemon,
    config: Config,
    runs: HashMap<String, (String, WorkflowState)>,
    sent: Vec<(String, TaskOutput)>,
    clock: u32,
    stopped: bool,
}

impl Harness {
    fn new(config: Config) -> Harness {
        Harness { daemon: Daemon::new(config.clone()), config, runs: HashMap::new(), sent: vec![], clock: 0, stopped: false }
    }

    fn now(&mut self) -> String {
        self.clock += 1;
        format!("2024-01-01T00:{:02}:{:02}+00:00", self.clock / 60, self.clock % 60)
    }

    fn event(&mut self, e: DaemonEvent) -> DaemonAction {
        let id = match &e {
            DaemonEvent::Complete { workflow_id, .. }
            | DaemonEvent::Report { workflow_id, .. }
            | DaemonEvent::Approve { workflow_id }
            | DaemonEvent::Resume { workflow_id }
            | DaemonEvent::Reject { workflow_id, .. }
            | DaemonEvent::Pause { workflow_id, .. } => Some(workflow_id.clone()),
            _ => None,
        };
        let stored = id
            .as_ref()
            .and_then(|i| self.runs.get(i))
            .map(|(status, state)| StoredRun { status: status.clone(), state: state.clone() });
        let now = self.now();
        let a = self.daemon.handle(e, stored, &now);
        let mut target = id;
        if let Some(Ok(out)) = &a.reply {
            target = Some(out.workflow_id.clone());
        }
        if let Some(st) = &a.save {
            let status = self.runs.get(&st.workflow_id).map(|r| r.0.clone()).unwrap_or_else(|| "active".to_string());
            self.runs.insert(st.workflow_id.clone(), (status, st.clone()));
        }
        if let Some(target) = target {
            if let Some(s) = a.set_status {
                if let Some(r) = self.runs.get_mut(&target) {
                    r.0 = run_status_to_str(s).to_string();
                }
            }
            if a.clear {
                if let Some(r) = self.runs.get_mut(&target) {
                    r.0 = "completed".to_string();
                }
            }
            for task in &a.dispatch {
                if let Some(r) = self.runs.get_mut(&target) {
                    if let Some(i) = r.1.find(&task.task_id) {
                        let mut s = r.1.take_state(i);
                        s.status = StepStatus::InProgress;
                        if s.started_at.is_none() {
                            s.started_at = Some(now.clone());
                        }
                        s.updated_at = Some(now.clone());
                        r.1.set_state(i, s);
                    }
                }
                self.sent.push((target.clone(), copy_output(task)));
            }
            if let Some(task) = &a.touch {
                if let Some(r) = self.runs.get_mut(&target) {
                    if let Some(i) = r.1.find(task) {
                        let mut s = r.1.take_state(i);
                        s.updated_at = Some(now.clone());
                        r.1.set_state(i, s);
                    }
                }
            }
        }
        if a.stop {
            self.stopped = true;
        }
        a
    }

    fn run(&mut self, name: &str) -> String {
        let a = self.event(DaemonEvent::Run { workflow_name: name.to_string() });
        match a.reply {
            Some(Ok(out)) => out.workflow_id,
            _ => panic!("run of '{}' failed", name),
        }
    }

    fn complete(&mut self, id: &str, task: &str) -> DaemonAction {
        self.event(DaemonEvent::Complete { workflow_id: id.to_string(), task_id: task.to_string(), summary: None })
    }

    fn approve(&mut self, id: &str) -> DaemonAction {
        self.event(DaemonEvent::Approve { workflow_id: id.to_string() })
    }

    fn reject(&mut self, id: &str, task: &str, reason: Option<&str>) -> DaemonAction {
        self.event(DaemonEvent::Reject {
            workflow_id: id.to_string(),
            task_id: task.to_string(),
            reason: reason.map(|r| r.to_string()),
        })
    }

    fn status_of_run(&self, id: &str) -> String {
        self.runs.get(id).map(|r| r.0.clone()).unwrap_or_default()
    }

    fn status(&self, id: &str) -> StatusOutput {
        let (_, state) = &self.runs[id];
        let wf = &self.config.workflows.iter().find(|e| e.slug == state.workflow).unwrap().workflow;
        build_status(state, wf)
    }

    fn task_status(&self, id: &str, task: &str) -> String {
        self.status(id).tasks.iter().find(|t| t.id == task).map(|t| t.status.clone()).unwrap()
    }

    fn sent_ids(&self) -> Vec<String> {
        self.sent.iter().map(|(_, t)| t.task_id.clone()).collect()
    }

    fn ids_with_status(&self, status: &str) -> Vec<String> {
        let mut ids: Vec<String> = self.runs.iter().filter(|(_, r)| r.0 == status).map(|(k, _)| k.clone()).collect();
        ids.sort();
        ids
    }
}

fn copy_output(t: &TaskOutput) -> TaskOutput {
    TaskOutput {
        task_id: t.task_id.clone(),
        task: t.task.clone(),
        prompt: t.prompt.clone(),
        skills: t.skills.clone(),
        agents: t.agents.clone(),
        outputs: t.outputs.clone(),
        deny: t.deny.clone(),
        approval: t.approval,
    }
}

/// Runs `release` up to the dispatch of `quality-check`.
fn advance_to_quality_check(h: &mut Harness) -> String {
    let id = h.run("release");
    assert_eq!(h.sent.len(), 1); // design
    h.complete(&id, "design");
    h.approve(&id);
    assert_eq!(h.sent.len(), 2); // implement
    h.complete(&id, "implement");
    assert_eq!(h.sent.len(), 3); // quality-check
    id
}

// ── agents ───────────────────────────────────────────────────────────────────

#[test]
fn quality_check_task_returns_agents_list() {
    let mut h = Harness::new(config_standard());
    advance_to_quality_check(&mut h);
    assert_eq!(h.sent.len(), 3, "only design, implement, and quality-check should be dispatched");
    let qc = &h.sent[2].1;
    assert_eq!(qc.task_id, "quality-check");
    assert_eq!(qc.task.as_deref(), Some("Quality check"));
    assert!(qc.prompt.is_none(), "agents-only tasks must have a null prompt");
    assert_eq!(qc.agents.len(), 2);
    assert_eq!(qc.agents[0], "run-test");
    assert_eq!(qc.agents[1], "run-lint");
}

#[test]
fn sub_agent_complete_does_not_complete_parent() {
    let mut h = Harness::new(config_standard());
    let id = advance_to_quality_check(&mut h);
    h.complete(&id, "quality-check/run-test");
    assert_eq!(h.task_status(&id, "quality-check"), "inprogress");
    assert_eq!(h.task_status(&id, "quality-check/run-test"), "completed");
    assert_eq!(h.task_status(&id, "quality-check/run-lint"), "pending");
    assert_eq!(h.sent.len(), 3, "no further dispatch while run-lint is still pending");
}

#[test]
fn parent_gated_until_all_agents_complete() {
    let mut h = Harness::new(config_standard());
    let id = advance_to_quality_check(&mut h);
    h.complete(&id, "quality-check/run-test");
    let a = h.complete(&id, "quality-check");
    assert!(matches!(&a.notices[1], Notice::GateRefused(m) if m == "task 'quality-check' cannot complete until agent 'run-lint' is done"));
    assert_eq!(h.task_status(&id, "quality-check"), "inprogress");
    assert_eq!(h.sent.len(), 3, "no further dispatch while the parent gate is blocked");
}

#[test]
fn parent_passes_gate_when_all_agents_complete() {
    let mut h = Harness::new(config_standard());
    let id = advance_to_quality_check(&mut h);
    h.complete(&id, "quality-check/run-test");
    h.complete(&id, "quality-check/run-lint");
    h.complete(&id, "quality-check");
    assert_eq!(h.sent.len(), 4);
    assert_eq!(h.sent[3].1.task_id, "complete");
}

#[test]
fn report_on_sub_agent_does_not_change_task_statuses() {
    let mut h = Harness::new(config_standard());
    let id = advance_to_quality_check(&mut h);
    assert_eq!(h.task_status(&id, "quality-check"), "inprogress");
    h.event(DaemonEvent::Report {
        workflow_id: id.clone(),
        task_id: "quality-check/run-test".to_string(),
        summary: Some("in progress".to_string()),
    });
    assert_eq!(h.task_status(&id, "quality-check"), "inprogress");
    assert_eq!(h.task_status(&id, "quality-check/run-test"), "pending");
    assert_eq!(h.task_status(&id, "quality-check/run-lint"), "pending");
}

// ── approval ─────────────────────────────────────────────────────────────────

#[test]
fn approve_cli_advances_past_awaiting_approval() {
    let mut h = Harness::new(config_standard());
    let id = h.run("feature");
    h.complete(&id, "design");
    let target = resolve_target_workflow_id(None, select_by_status("awaiting_approval", h.ids_with_status("awaiting_approval")).unwrap(), "awaiting_approval").unwrap();
    assert_eq!(target, id);
    h.approve(&target);
    assert_eq!(h.sent.len(), 2);
    assert_eq!(h.sent[1].1.task_id, "implement");
    let prompt = h.sent[1].1.prompt.clone().unwrap();
    assert!(prompt.contains("make test"));
    assert!(prompt.contains("make lint"));
}

#[test]
fn reject_cli_with_reason_redispatches_task() {
    let mut h = Harness::new(config_standard());
    let id = h.run("feature");
    h.complete(&id, "design");
    h.reject(&id, "design", Some("Design scope is too broad."));
    let ids = h.sent_ids();
    assert_eq!(ids.iter().filter(|i| *i == "design").count(), 2);
    let (_, state) = &h.runs[&id];
    let i = state.find("design").unwrap();
    let reports = &state.tasks[i].state.action_reports;
    assert_eq!(reports.last().unwrap().action_type, "reject");
    assert_eq!(reports.last().unwrap().stdout.as_deref(), Some("Design scope is too broad."));
    assert_eq!(h.status_of_run(&id), "active");
}

#[test]
fn reject_cli_outside_approval_state_fails_to_resolve_target() {
    let mut h = Harness::new(config_standard());
    let _id = h.run("feature");
    let found = select_by_status("awaiting_approval", h.ids_with_status("awaiting_approval")).unwrap();
    let err = resolve_target_workflow_id(None, found, "awaiting_approval").unwrap_err();
    assert!(err.contains("awaiting_approval"));
    assert_eq!(h.sent.len(), 1);
}

#[test]
fn approve_cli_on_final_task_completes_workflow() {
    let mut h = Harness::new(config_sign_off());
    let id = h.run("sign-off-flow");
    h.complete(&id, "work");
    assert_eq!(h.sent.len(), 2);
    h.complete(&id, "sign-off");
    assert_eq!(h.status_of_run(&id), "awaiting_approval");
    let a = h.approve(&id);
    assert!(matches!(a.notices[1], Notice::FinishedAfterApproval));
    assert_eq!(h.status_of_run(&id), "completed");
    assert!(!h.daemon.is_tracked(&id));
}

// ── basic ────────────────────────────────────────────────────────────────────

#[test]
fn status_json_reflects_current_state() {
    let mut h = Harness::new(config_standard());
    let id = h.run("bug-fix");
    assert_eq!(h.sent.len(), 2);
    h.complete(&id, "reproduce");
    h.complete(&id, "identify");
    assert_eq!(h.sent.len(), 3);
    let status = h.status(&id);
    assert_eq!(status.workflow, "bug-fix");
    assert!(!status.started_at.is_empty());
    assert_eq!(status.tasks.len(), 4);
    assert_eq!(h.task_status(&id, "reproduce"), "completed");
    assert_eq!(h.task_status(&id, "identify"), "completed");
    assert_eq!(h.task_status(&id, "implement"), "inprogress");
    assert_eq!(h.task_status(&id, "complete"), "pending");
}

#[test]
fn status_table_format_includes_header() {
    let mut h = Harness::new(config_standard());
    let id = h.run("bug-fix");
    h.complete(&id, "reproduce");
    let text = format_status_table(&h.status(&id));
    assert!(text.contains("TASK ID"));
    assert!(text.contains("TASK"));
    assert!(text.contains("STATUS"));
    assert!(text.contains("reproduce"));
    assert!(text.contains("completed"));
    assert!(text.contains("identify"));
    assert!(text.contains("Session"));
    assert!(text.contains("Workflow"));
}

#[test]
fn template_vars_are_expanded_in_prompt() {
    let mut h = Harness::new(config_standard());
    let id = h.run("bug-fix");
    h.complete(&id, "reproduce");
    h.complete(&id, "identify");
    let implement = h.sent.iter().find(|(_, t)| t.task_id == "implement").unwrap();
    let prompt = implement.1.prompt.clone().unwrap();
    assert!(prompt.contains("make test"));
    assert!(!prompt.contains("{{vars.test}}"));
}

#[test]
fn e2e_errors_undefined_var_placeholder_preserved_in_prompt() {
    let c = config(
        &[("known", "make test")],
        vec![wf_entry("test-vars", "Var test", vec![t("work", "Do work", Some("Run {{vars.known}} then {{vars.missing}}."))])],
    );
    let mut h = Harness::new(c);
    h.run("test-vars");
    let prompt = h.sent[0].1.prompt.clone().unwrap();
    assert!(prompt.contains("make test"));
    assert!(prompt.contains("{{vars.missing}}"));
    assert_eq!(prompt, "Run make test then {{vars.missing}}.");
}

// ── imports ──────────────────────────────────────────────────────────────────

fn import(name: &str, target: usize) -> ImportRef {
    ImportRef { name: name.to_string(), display: format!("/p/.workflow/{}", name), target: Some(target), escapes: false }
}

fn file(parsed: Config, imports: Vec<ImportRef>) -> ConfigFile {
    ConfigFile { parsed: Ok(parsed), imports }
}

fn with_imports(mut c: Config, imports: &[&str]) -> Config {
    c.imports = strings(imports);
    c
}

#[test]
fn e2e_errors_imports_resolves_external_workflow() {
    let extra = config(&[], vec![wf_entry("imported-wf", "Imported Workflow", vec![t("only-task", "The imported task", Some("Do the imported task."))])]);
    let root = with_imports(
        config(&[], vec![wf_entry("local-wf", "Local Workflow", vec![t("local-task", "The local task", Some("Do the local task."))])]),
        &["extra.yml"],
    );
    let files = vec![file(root, vec![import("extra.yml", 1)]), file(extra, vec![])];
    let merged = load_config(&files, "/p/.workflow/config.yml", None).unwrap();
    let slugs: Vec<String> = list_workflows(&merged).iter().map(|i| i.slug.clone()).collect();
    assert!(slugs.contains(&"local-wf".to_string()));
    assert!(slugs.contains(&"imported-wf".to_string()));
    assert!(validate_report(Ok(merged)).valid);
}

#[test]
fn e2e_errors_imports_circular_reference_is_detected() {
    let a = with_imports(config(&[], vec![wf_entry("loop-wf", "Loop", vec![t("t", "t", Some("t"))])]), &["config.yml"]);
    let root = with_imports(config(&[], vec![wf_entry("root-wf", "Root", vec![t("t", "t", Some("t"))])]), &["a.yml"]);
    let files = vec![file(root, vec![import("a.yml", 1)]), file(a, vec![import("config.yml", 0)])];
    let out = validate_report(load_config(&files, "/p/.workflow/config.yml", None));
    assert!(!out.valid);
    let combined: String = out.errors.concat();
    assert!(combined.contains("circular"));
}

#[test]
fn e2e_errors_imports_diamond_pattern_is_allowed() {
    let shared = config(&[], vec![wf_entry("shared-wf", "Shared Workflow", vec![t("shared-task", "Shared task", Some("The shared task."))])]);
    let b = with_imports(config(&[], vec![]), &["shared.yml"]);
    let c = with_imports(config(&[], vec![]), &["shared.yml"]);
    let root = with_imports(config(&[], vec![]), &["b.yml", "c.yml"]);
    let files = vec![
        file(root, vec![import("b.yml", 1), import("c.yml", 2)]),
        file(b, vec![import("shared.yml", 3)]),
        file(c, vec![import("shared.yml", 3)]),
        file(shared, vec![]),
    ];
    let merged = load_config(&files, "/p/.workflow/config.yml", None).unwrap();
    let items = list_workflows(&merged);
    assert!(validate_report(Ok(merged)).valid);
    assert_eq!(items.len(), 1);
    assert_eq!(items[0].slug, "shared-wf");
}

// ── hooks ────────────────────────────────────────────────────────────────────

/// Starts `guarded`, which hands out `implement`; returns the run's state.
fn activate_implement() -> (Harness, String) {
    let mut h = Harness::new(config_guarded());
    let id = h.run("guarded");
    assert_eq!(h.sent.len(), 1);
    (h, id)
}

fn guarded_decision_for_edit(h: &Harness, id: &str, rel: &str) -> Option<(Decision, String)> {
    let (_, state) = &h.runs[id];
    let wf = &h.config.workflows[0].workflow;
    pre_edit_decision(wf, state, rel).map(|d| (d.decision, d.reason))
}

fn guarded_decision_for_command(h: &Harness, id: &str, command: &str) -> Option<(Decision, String)> {
    let (_, state) = &h.runs[id];
    let wf = &h.config.workflows[0].workflow;
    pre_bash_decision(wf, state, command).map(|d| (d.decision, d.reason))
}

#[test]
fn pre_edit_allows_within_outputs() {
    let (h, id) = activate_implement();
    assert!(guarded_decision_for_edit(&h, &id, "src/main.rs").is_none());
}

#[test]
fn pre_edit_asks_outside_outputs() {
    let (h, id) = activate_implement();
    let (d, reason) = guarded_decision_for_edit(&h, &id, "README.md").unwrap();
    assert_eq!(d, Decision::Ask);
    assert!(reason.contains("README.md"));
    assert_eq!(reason, "[implement] 'README.md' is outside outputs for task 'Implement'");
}

#[test]
fn e2e_hooks_pre_edit_blocks_deny_file() {
    let (h, id) = activate_implement();
    let (d, reason) = guarded_decision_for_edit(&h, &id, "docs/specs/design.md").unwrap();
    assert_eq!(d, Decision::Block);
    assert!(reason.contains("docs/specs/design.md"));
}

#[test]
fn pre_edit_deny_takes_priority_over_outputs() {
    let (h, id) = activate_implement();
    let (d, reason) = guarded_decision_for_edit(&h, &id, "docs/specs/api.yaml").unwrap();
    assert_eq!(d, Decision::Block);
    assert_eq!(reason, "[implement] editing 'docs/specs/api.yaml' is denied by task 'Implement' (rule: 'docs/specs/**')");
}

#[test]
fn e2e_hooks_pre_bash_blocks_denied_command() {
    let (h, id) = activate_implement();
    let (d, reason) = guarded_decision_for_command(&h, &id, "git push origin main").unwrap();
    assert_eq!(d, Decision::Block);
    assert!(reason.contains("git push"));
    assert_eq!(reason, "[implement] command 'git push origin main' is denied by task 'Implement' (rule: 'git push')");
}

#[test]
fn e2e_hooks_pre_bash_allows_non_denied_command() {
    let (h, id) = activate_implement();
    assert!(guarded_decision_for_command(&h, &id, "cargo test --all").is_none());
}

#[test]
fn post_edit_valid_config_returns_empty() {
    assert!(edits_config("/p/.workflow/config.yml"));
    let files = vec![file(config_guarded(), vec![])];
    assert!(load_config(&files, "/p/.workflow/config.yml", None).is_ok());
}

#[test]
fn post_edit_invalid_config_emits_warning() {
    let invalid = config(&[], vec![wf_entry("bad", "Bad workflow", vec![])]);
    let files = vec![file(invalid, vec![])];
    let err = load_config(&files, "/p/.workflow/config.yml", None).unwrap_err();
    let warning = schema_warning(&err);
    assert!(warning.contains("SCHEMA WARNING"));
    assert_eq!(
        warning,
        "[SCHEMA WARNING] config.yml validation error: [1] workflow 'bad' has no tasks\n[SCHEMA WARNING] Please review and fix config.yml"
    );
    assert!(!edits_config("/p/src/main.rs"));
}

#[test]
fn hook_no_active_workflow_returns_empty() {
    let c = config_guarded();
    let wf = &c.workflows[0].workflow;
    let state = WorkflowState::new("guarded", wf);
    assert!(pre_edit_decision(wf, &state, "src/main.rs").is_none());
    assert!(pre_bash_decision(wf, &state, "git push origin main").is_none());
}

// ── several runs on one daemon ───────────────────────────────────────────────

#[test]
fn two_run_calls_get_distinct_workflow_ids() {
    let mut h = Harness::new(config_two_workflows());
    let alpha = h.run("alpha");
    let beta = h.run("beta");
    assert_ne!(alpha, beta);
    assert_eq!(h.sent.len(), 2);
    let pairs: Vec<(String, String)> = h.sent.iter().map(|(w, t)| (w.clone(), t.task_id.clone())).collect();
    assert!(pairs.contains(&(alpha.clone(), "alpha-task".to_string())));
    assert!(pairs.contains(&(beta.clone(), "beta-task".to_string())));
}

#[test]
fn complete_on_one_workflow_does_not_affect_the_other() {
    let mut h = Harness::new(config_two_workflows());
    let alpha = h.run("alpha");
    let beta = h.run("beta");
    h.complete(&alpha, "alpha-task");
    assert_eq!(h.status_of_run(&alpha), "completed");
    assert_eq!(h.status_of_run(&beta), "active");
    assert!(h.daemon.is_tracked(&beta));
}

#[test]
fn one_workflow_completing_does_not_stop_the_other() {
    let mut h = Harness::new(config_two_workflows());
    let alpha = h.run("alpha");
    let beta = h.run("beta");
    h.complete(&alpha, "alpha-task");
    assert_eq!(h.status_of_run(&alpha), "completed");
    h.complete(&beta, "beta-task");
    assert_eq!(h.status_of_run(&beta), "completed");
}

#[test]
fn daemon_keeps_running_after_all_workflows_complete() {
    let mut h = Harness::new(config_two_workflows());
    let alpha = h.run("alpha");
    h.complete(&alpha, "alpha-task");
    assert_eq!(h.status_of_run(&alpha), "completed");
    assert!(!h.stopped);
    let beta = h.run("beta");
    assert_eq!(h.sent.len(), 2);
    h.complete(&beta, "beta-task");
    assert_eq!(h.status_of_run(&beta), "completed");
    assert!(!h.stopped);
}

#[test]
fn stop_shuts_the_daemon_down() {
    let mut h = Harness::new(config_two_workflows());
    h.run("alpha");
    let a = h.event(DaemonEvent::Stop);
    assert!(a.stop);
    assert!(h.stopped);
}

#[test]
fn complete_for_unknown_workflow_id_is_ignored_not_a_crash() {
    let mut h = Harness::new(config_two_workflows());
    let alpha = h.run("alpha");
    let a = h.complete("00000000-0000-0000-0000-000000000000", "alpha-task");
    assert!(matches!(a.notices[0], Notice::UnknownRun));
    assert!(a.fatal.is_none());
    assert_eq!(h.sent.len(), 1);
    h.complete(&alpha, "alpha-task");
    assert_eq!(h.status_of_run(&alpha), "completed");
}

#[test]
fn run_unknown_workflow_name_fails_without_disturbing_others() {
    let mut h = Harness::new(config_two_workflows());
    let alpha = h.run("alpha");
    let a = h.event(DaemonEvent::Run { workflow_name: "no-such-workflow".to_string() });
    match a.reply {
        Some(Err(m)) => assert_eq!(m, "workflow 'no-such-workflow' not found in config.yml"),
        _ => panic!("starting an undefined workflow name must fail"),
    }
    h.complete(&alpha, "alpha-task");
    assert_eq!(h.status_of_run(&alpha), "completed");
}

#[test]
fn approve_without_workflow_id_errors_when_ambiguous() {
    let mut h = Harness::new(config_approval());
    let a = h.run("sign-off");
    let b = h.run("sign-off");
    h.complete(&a, "work");
    h.complete(&b, "work");
    let err = select_by_status("awaiting_approval", h.ids_with_status("awaiting_approval")).unwrap_err();
    assert!(err.contains(&a) && err.contains(&b));
}

#[test]
fn approve_with_explicit_workflow_id_targets_the_right_one() {
    let mut h = Harness::new(config_approval());
    let a = h.run("sign-off");
    let b = h.run("sign-off");
    h.complete(&a, "work");
    h.complete(&b, "work");
    let target = resolve_target_workflow_id(Some(a.as_str()), None, "awaiting_approval").unwrap();
    assert_eq!(target, a);
    h.approve(&target);
    assert_eq!(h.status_of_run(&a), "completed");
    assert_eq!(h.status_of_run(&b), "awaiting_approval");
}

// ── pause and resume ─────────────────────────────────────────────────────────

#[test]
fn pause_then_resume_redispatches_task() {
    let mut h = Harness::new(config_minimal());
    let id = h.run("simple");
    h.event(DaemonEvent::Pause {
        workflow_id: id.clone(),
        task_id: "only-task".to_string(),
        reason: Some("need clarification from the user".to_string()),
    });
    assert_eq!(h.sent.len(), 1);
    assert_eq!(h.status_of_run(&id), "paused");
    h.event(DaemonEvent::Resume { workflow_id: id.clone() });
    assert_eq!(h.sent.len(), 2);
    assert_eq!(h.sent[1].1.task_id, "only-task");
    h.complete(&id, "only-task");
    assert_eq!(h.status_of_run(&id), "completed");
}

#[test]
fn resume_cli_redispatches_paused_task() {
    let mut h = Harness::new(config_minimal());
    let id = h.run("simple");
    h.event(DaemonEvent::Pause { workflow_id: id.clone(), task_id: "only-task".to_string(), reason: None });
    let found = select_by_status("paused", h.ids_with_status("paused")).unwrap();
    let target = resolve_target_workflow_id(None, found, "paused").unwrap();
    h.event(DaemonEvent::Resume { workflow_id: target });
    assert_eq!(h.sent.len(), 2);
    assert_eq!(h.sent[1].1.task_id, "only-task");
}

#[test]
fn resume_cli_outside_paused_state_is_noop() {
    let mut h = Harness::new(config_minimal());
    let id = h.run("simple");
    let a = h.event(DaemonEvent::Resume { workflow_id: id.clone() });
    assert!(matches!(&a.notices[0], Notice::NotPaused(s) if s == "active"));
    assert_eq!(h.sent.len(), 1);
}

#[test]
fn completion_while_paused_dispatches_nothing_until_resume() {
    let mut h = Harness::new(config_two_step());
    let id = h.run("two-step");
    h.event(DaemonEvent::Pause { workflow_id: id.clone(), task_id: "step-a".to_string(), reason: None });
    let a = h.complete(&id, "step-a");
    assert!(a.dispatch.is_empty());
    assert!(matches!(a.notices[..], [Notice::TaskCompleted, Notice::Paused]));
    assert_eq!(h.sent.len(), 1);
    assert_eq!(h.status_of_run(&id), "paused");
    assert_eq!(h.task_status(&id, "step-a"), "completed");
    h.event(DaemonEvent::Resume { workflow_id: id.clone() });
    assert_eq!(h.status_of_run(&id), "active");
    assert_eq!(h.sent.len(), 2);
    assert_eq!(h.sent[1].1.task_id, "step-b");
}

#[test]
fn approve_outside_approval_state_is_noop() {
    let mut h = Harness::new(config_two_step());
    let id = h.run("two-step");
    let a = h.approve(&id);
    assert_eq!(a.notices.len(), 1);
    assert!(matches!(&a.notices[0], Notice::NotAwaitingApproval(s) if s == "active"));
    assert!(a.dispatch.is_empty() && a.save.is_none() && a.set_status.is_none());
    assert_eq!(h.sent.len(), 1);
    assert_eq!(h.status_of_run(&id), "active");
}

// ── runs ─────────────────────────────────────────────────────────────────────

#[test]
fn run_dispatches_initial_tasks() {
    let mut h = Harness::new(config_two_step());
    h.run("two-step");
    assert_eq!(h.sent[0].1.task_id, "step-a");
}

#[test]
fn run_linear_workflow_completes() {
    let mut h = Harness::new(config_two_step());
    let id = h.run("two-step");
    h.complete(&id, "step-a");
    assert_eq!(h.sent.len(), 2);
    let a = h.complete(&id, "step-b");
    assert!(matches!(a.notices[1], Notice::Finished));
    assert_eq!(h.status_of_run(&id), "completed");
}

#[test]
fn run_requires_blocks_dispatch_until_dependency_done() {
    let mut h = Harness::new(config_two_step());
    let id = h.run("two-step");
    assert_eq!(h.sent.len(), 1);
    h.complete(&id, "step-a");
    assert_eq!(h.sent.len(), 2);
    assert_eq!(h.sent[1].1.task_id, "step-b");
}

#[test]
fn run_approval_pauses_dispatch_after_complete() {
    let mut h = Harness::new(config_approval_run());
    let id = h.run("approve-run");
    assert_eq!(h.sent.len(), 1);
    h.complete(&id, "work");
    assert_eq!(h.sent.len(), 1);
    assert_eq!(h.status_of_run(&id), "awaiting_approval");
}

#[test]
fn run_next_approves_and_resumes_dispatch() {
    let mut h = Harness::new(config_approval_run());
    let id = h.run("approve-run");
    h.complete(&id, "work");
    h.approve(&id);
    assert_eq!(h.sent.len(), 2);
    assert_eq!(h.sent[1].1.task_id, "finish");
    h.complete(&id, "finish");
    assert_eq!(h.status_of_run(&id), "completed");
}

#[test]
fn run_reject_redispatches_task() {
    let mut h = Harness::new(config_approval_run());
    let id = h.run("approve-run");
    h.complete(&id, "work");
    h.reject(&id, "work", None);
    let ids = h.sent_ids();
    assert_eq!(ids.iter().filter(|i| *i == "work").count(), 2);
}

#[test]
fn run_reject_with_reason_body_is_accepted() {
    let mut h = Harness::new(config_approval_run());
    let id = h.run("approve-run");
    h.complete(&id, "work");
    h.reject(&id, "work", Some("needs more detail"));
    assert_eq!(h.sent[1].1.task_id, "work");
}

// ── own flows ────────────────────────────────────────────────────────────────

#[test]
fn approve_of_a_run_not_awaiting_approval_is_ignored() {
    let mut h = Harness::new(config_two_step());
    let id = h.run("two-step");
    let a = h.approve(&id);
    assert!(matches!(&a.notices[0], Notice::NotAwaitingApproval(s) if s == "active"));
    assert!(a.set_status.is_none());
    assert_eq!(h.sent.len(), 1);
}

#[test]
fn reject_of_a_run_not_awaiting_approval_is_ignored() {
    let mut h = Harness::new(config_two_step());
    let id = h.run("two-step");
    let a = h.reject(&id, "step-a", Some("no"));
    assert!(matches!(a.notices[0], Notice::RejectIgnored));
    assert!(a.save.is_none());
}

#[test]
fn a_task_handed_out_is_not_handed_out_twice() {
    let mut h = Harness::new(config_standard());
    let id = h.run("bug-fix");
    // reproduce and identify go out; completing reproduce hands out nothing new
    // (identify is still running and implement still waits for it).
    h.complete(&id, "reproduce");
    assert_eq!(h.sent_ids(), vec!["reproduce", "identify"]);
}

#[test]
fn report_on_unknown_task_is_reported_not_fatal() {
    let mut h = Harness::new(config_two_step());
    let id = h.run("two-step");
    let a = h.event(DaemonEvent::Report {
        workflow_id: id.clone(),
        task_id: "nope".to_string(),
        summary: None,
    });
    assert!(matches!(&a.notices[0], Notice::ReportFailed(m) if m == "unknown task_id 'nope' in workflow"));
    assert!(a.fatal.is_none());
}

#[test]
fn complete_on_a_vanished_run_is_fatal() {
    let mut h = Harness::new(config_two_step());
    let id = h.run("two-step");
    h.runs.remove(&id);
    let a = h.complete(&id, "step-a");
    assert_eq!(a.fatal.as_deref(), Some("workflow state not found"));
    let a = h.approve(&id);
    assert_eq!(a.fatal.as_deref(), Some("workflow not found"));
}

#[test]
fn validate_text_for_standard_config() {
    let text = format_validate_text(&validate_report(Ok(config_standard())));
    assert_eq!(text, "config.yml is valid (3 workflow(s), vars: build, lint, test)");
}

// ── validation and listing ───────────────────────────────────────────────────

fn config_duplicate_ids() -> Config {
    config(
        &[],
        vec![wf_entry(
            "broken",
            "Broken",
            vec![
                t("step", "First step", Some("Do the first step.")),
                t("step", "Duplicate", Some("This id already exists.")),
            ],
        )],
    )
}

fn config_undefined_requires() -> Config {
    config(
        &[],
        vec![wf_entry(
            "broken",
            "Broken",
            vec![Task { requires: strings(&["ghost"]), ..t("step", "Step", Some("Do the step.")) }],
        )],
    )
}

#[test]
fn validate_valid_config_returns_true() {
    let out = validate_report(Ok(config_standard()));
    assert!(out.valid);
    assert_eq!(out.workflow_count, 3);
    assert!(out.vars.contains(&"test".to_string()));
    assert!(out.vars.contains(&"lint".to_string()));
    assert!(out.vars.contains(&"build".to_string()));
    assert!(out.errors.is_empty(), "no errors expected for a valid config");
}

#[test]
fn validate_reports_duplicate_task_ids() {
    let out = validate_report(Ok(config_duplicate_ids()));
    assert!(!out.valid);
    assert!(!out.errors.is_empty(), "duplicate task ID must produce at least one error");
    let combined: String = out.errors.concat();
    assert!(combined.contains("step"), "error must mention the duplicate task ID 'step': got '{combined}'");
}

#[test]
fn validate_reports_undefined_requires() {
    let out = validate_report(Ok(config_undefined_requires()));
    assert!(!out.valid);
    let combined: String = out.errors.concat();
    assert!(combined.contains("ghost"), "error must mention the undefined requires target 'ghost': got '{combined}'");
}

#[test]
fn validate_missing_config_returns_false() {
    let loaded = load_config(&vec![], ".workflow/config.yml", None);
    let out = validate_report(loaded);
    assert!(!out.valid);
    assert_eq!(out.workflow_count, 0);
    let combined: String = out.errors.concat();
    assert!(combined.contains("config.yml"), "error must mention config.yml: got '{combined}'");
}

#[test]
fn validate_text_format_is_human_readable() {
    let text = format_validate_text(&validate_report(Ok(config_standard())));
    assert!(text.contains("valid"), "text output must contain the word 'valid': got '{text}'");
    assert!(text.contains('3'), "text output must mention the workflow count (3): got '{text}'");
    assert!(!text.trim_start().starts_with('{'), "text format must not be JSON: got '{text}'");
}

#[test]
fn list_returns_all_workflows_sorted_by_slug() {
    let items = list_workflows(&config_standard());
    assert_eq!(items.len(), 3, "the standard config defines three workflows");
    assert_eq!(items[0].slug, "bug-fix");
    assert_eq!(items[1].slug, "feature");
    assert_eq!(items[2].slug, "release");
    for item in &items {
        assert!(!item.slug.is_empty(), "slug must be a non-empty string");
        assert!(!item.name.is_empty(), "name must be a non-empty string");
        assert!(item.task_count > 0, "task_count must be a positive integer");
    }
    assert_eq!(items[0].task_count, 4, "bug-fix has 4 tasks");
    assert_eq!(items[1].task_count, 3, "feature has 3 tasks");
    assert_eq!(items[2].task_count, 4, "release has 4 tasks");
}

// ── run options ──────────────────────────────────────────────────────────────

#[test]
fn run_callback_url_option_sets_payload_url() {
    let custom_url = "http://ngrok-tunnel.example.test:4040";
    let url = resolve_callback_base_url(None, Some(custom_url.to_string()));
    assert_eq!(url, custom_url, "the payload must carry the --callback-url value, not the local bind URL");
}

#[test]
fn run_webhook_port_constructs_url() {
    assert_eq!(resolve_webhook_url(Some(4242), None), "http://127.0.0.1:4242");
}

#[test]
fn run_defaults_use_the_standard_ports() {
    assert_eq!(resolve_webhook_url(None, None), "http://127.0.0.1:8788");
    assert_eq!(resolve_callback_base_url(None, None), "http://127.0.0.1:8789");
    assert_eq!(resolve_callback_base_url(Some(9001), None), "http://127.0.0.1:9001");
    assert_eq!(resolve_webhook_url(Some(1), Some("http://x".to_string())), "http://x");
}

#[test]
fn run_unknown_workflow_exits_with_error() {
    let mut h = Harness::new(config_two_step());
    let a = h.event(DaemonEvent::Run { workflow_name: "no-such-workflow".to_string() });
    match a.reply {
        Some(Err(m)) => assert!(m.contains("no-such-workflow"), "error must mention the unknown workflow name: got '{m}'"),
        _ => panic!("unknown workflow must be refused"),
    }
    assert!(h.sent.is_empty());
}

#[test]
fn run_dispatch_payload_contains_required_fields() {
    let mut h = Harness::new(config_two_step());
    h.run("two-step");
    let (_, t) = &h.sent[0];
    assert_eq!(t.task_id, "step-a");
    assert!(t.task.is_some(), "payload must include task");
    assert!(t.outputs.is_empty());
    assert!(t.deny.is_none());
}

// ── top-level error cases ────────────────────────────────────────────────────

#[test]
fn start_unknown_workflow_exits_with_error() {
    let mut h = Harness::new(config_standard());
    let a = h.event(DaemonEvent::Run { workflow_name: "does-not-exist".to_string() });
    match a.reply {
        Some(Err(m)) => assert_eq!(m, "workflow 'does-not-exist' not found in config.yml"),
        _ => panic!("unknown workflow must be refused"),
    }
}

#[test]
fn complete_unknown_task_returns_allowed_false() {
    let config = config_standard();
    let wf = config.get_workflow("bug-fix").unwrap().clone();
    let mut state = WorkflowState::new("bug-fix", &wf);
    let step = apply_complete(&mut state, &wf, "ghost-task", None, "2024-01-01T00:00:00+00:00", &config);
    let out = complete_output("ghost-task", &state.workflow_id, &state.workflow, step);
    assert!(!out.allowed, "unknown task must be gated out (allowed:false), not cause an error exit");
    let reason = out.reason.expect("reason must be present");
    assert!(reason.contains("ghost-task"), "reason must mention the unknown task id: got '{reason}'");
    assert!(out.next.is_none());
}

#[test]
fn complete_unknown_task_is_refused_by_the_daemon() {
    let mut h = Harness::new(config_standard());
    let id = h.run("bug-fix");
    let a = h.complete(&id, "ghost-task");
    let refused = a.notices.iter().any(|n| matches!(n, Notice::GateRefused(m) if m.contains("ghost-task")));
    assert!(refused, "unknown task must be gated out, with a reason naming it");
    assert!(a.fatal.is_none());
}

# workflow-runner

A workflow engine that drives an AI coding agent through the tasks of a
declared workflow, deterministically: which tasks can run, when a task may be
marked completed, when a run waits for a developer's approval, and what the
agent may edit or run while a task is in progress.

The library in `src/` is verified with Verus; each public function states
what it returns or changes, and the proof functions in `src/laws.rs` (and a
few beside the functions they are about) state properties that span
functions. The program in `app/` is the command line around it: argument
parsing, the daemon's HTTP side, the SQLite store, and the files on disk.

## Library modules

- `config`: workflows, tasks, variables; `validate`: what a config must obey.
- `loader`: loading a config file with its imports (cycles, missing and
  escaping imports, a file's own variables winning over imported ones, a
  workflow defined twice).
- `state`: the state of a run, step by step; `dag`: which tasks can run;
  `gate`: when a task may complete; `executor`: the next tasks to hand out.
- `transitions`: completing, reporting on, rejecting and pausing a step.
- `daemon`: the daemon's decisions, from an event and what the store holds to
  the actions to carry out.
- `hooks`, `patterns`: what the tool-use hooks answer while a task runs.
- `settings`: merging this tool's hook entries into the agent's settings.
- `rows`, `store`: runs as stored rows, and picking the run a command targets.
- `output`, `sort`: status, listing and validation reports.
- `cli`, `input`, `runner`: addresses, request bodies, agent process results.
- `text`, `keys`: string and sequence helpers.

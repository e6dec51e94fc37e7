//! The bodies of the requests the daemon receives.
use vstd::prelude::*;

verus! {

/// Request body for `POST /complete/:workflow_id/*task_id`.
#[derive(Debug)]
pub struct CompleteInput {
    pub summary: Option<String>,
}

/// Request body for `POST /pause/:workflow_id/*task_id`.
#[derive(Debug)]
pub struct PauseInput {
    pub reason: Option<String>,
}

/// Request body for `POST /report/:workflow_id/*task_id`.
#[derive(Debug)]
pub struct ReportInput {
    pub summary: Option<String>,
}

/// Request body for `POST /run`.
#[derive(Debug)]
pub struct RunInput {
    pub workflow: String,
}

impl Default for CompleteInput {
    fn default() -> (r: CompleteInput)
        ensures
            r.summary is None,
    {
        CompleteInput { summary: None }
    }
}

impl Default for PauseInput {
    fn default() -> (r: PauseInput)
        ensures
            r.reason is None,
    {
        PauseInput { reason: None }
    }
}

impl Default for ReportInput {
    fn default() -> (r: ReportInput)
        ensures
            r.summary is None,
    {
        ReportInput { summary: None }
    }
}

} // verus!

//! How run and step statuses are written in storage, and how a single run is
//! picked among candidates.
use crate::config::views;
use crate::state::StepStatus;
use crate::text::{own, str_eq};
use vstd::prelude::*;

verus! {

/// Status of a whole run, as stored.
#[derive(Debug, Clone, Copy, PartialEq, Eq, Structural)]
pub enum RunStatus {
    Active,
    AwaitingApproval,
    Paused,
    Completed,
}

/// The stored name of a step status.
pub open spec fn status_name(s: StepStatus) -> Seq<char> {
    match s {
        StepStatus::Pending => "pending"@,
        StepStatus::InProgress => "in_progress"@,
        StepStatus::Completed => "completed"@,
        StepStatus::Failed => "failed"@,
    }
}

/// The step status a stored name stands for; anything unknown reads as pending.
pub open spec fn parse_status(s: Seq<char>) -> StepStatus {
    if s == "in_progress"@ {
        StepStatus::InProgress
    } else if s == "completed"@ {
        StepStatus::Completed
    } else if s == "failed"@ {
        StepStatus::Failed
    } else {
        StepStatus::Pending
    }
}

/// The stored name of a run status.
pub open spec fn run_status_name(s: RunStatus) -> Seq<char> {
    match s {
        RunStatus::Active => "active"@,
        RunStatus::AwaitingApproval => "awaiting_approval"@,
        RunStatus::Paused => "paused"@,
        RunStatus::Completed => "completed"@,
    }
}

/// The run status a stored name stands for, if any.
pub open spec fn parse_run_status_spec(s: Seq<char>) -> Option<RunStatus> {
    if s == "active"@ {
        Some(RunStatus::Active)
    } else if s == "awaiting_approval"@ {
        Some(RunStatus::AwaitingApproval)
    } else if s == "paused"@ {
        Some(RunStatus::Paused)
    } else if s == "completed"@ {
        Some(RunStatus::Completed)
    } else {
        None
    }
}

pub fn status_to_str(s: StepStatus) -> (r: &'static str)
    ensures
        r@ == status_name(s),
{
    match s {
        StepStatus::Pending => "pending",
        StepStatus::InProgress => "in_progress",
        StepStatus::Completed => "completed",
        StepStatus::Failed => "failed",
    }
}

pub fn str_to_status(s: &str) -> (r: StepStatus)
    ensures
        r == parse_status(s@),
{
    if str_eq(s, "in_progress") {
        StepStatus::InProgress
    } else if str_eq(s, "completed") {
        StepStatus::Completed
    } else if str_eq(s, "failed") {
        StepStatus::Failed
    } else {
        StepStatus::Pending
    }
}

pub fn run_status_to_str(s: RunStatus) -> (r: &'static str)
    ensures
        r@ == run_status_name(s),
{
    match s {
        RunStatus::Active => "active",
        RunStatus::AwaitingApproval => "awaiting_approval",
        RunStatus::Paused => "paused",
        RunStatus::Completed => "completed",
    }
}

pub fn parse_run_status(s: &str) -> (r: Option<RunStatus>)
    ensures
        r == parse_run_status_spec(s@),
{
    if str_eq(s, "active") {
        Some(RunStatus::Active)
    } else if str_eq(s, "awaiting_approval") {
        Some(RunStatus::AwaitingApproval)
    } else if str_eq(s, "paused") {
        Some(RunStatus::Paused)
    } else if str_eq(s, "completed") {
        Some(RunStatus::Completed)
    } else {
        None
    }
}

/// A stored step status reads back as itself.
pub proof fn law_status_name_round_trip(s: StepStatus)
    ensures
        parse_status(status_name(s)) == s,
{
    reveal_strlit("pending");
    reveal_strlit("in_progress");
    reveal_strlit("completed");
    reveal_strlit("failed");
    assert("pending"@.len() == 7);
    assert("in_progress"@.len() == 11);
    assert("completed"@.len() == 9);
    assert("failed"@.len() == 6);
}

/// A stored run status reads back as itself.
pub proof fn law_run_status_round_trip(s: RunStatus)
    ensures
        parse_run_status_spec(run_status_name(s)) == Some(s),
{
    reveal_strlit("active");
    reveal_strlit("awaiting_approval");
    reveal_strlit("paused");
    reveal_strlit("completed");
    assert("active"@.len() == 6);
    assert("awaiting_approval"@.len() == 17);
    assert("paused"@.len() == 6);
    assert("completed"@.len() == 9);
    assert("active"@[0] != "paused"@[0]);
}

/// The one candidate when there is exactly one; none when there are none;
/// otherwise all of them, as an ambiguity.
pub fn pick_unique(ids: Vec<String>) -> (r: Result<Option<String>, Vec<String>>)
    ensures
        ids@.len() == 0 ==> r == Ok::<Option<String>, Vec<String>>(None),
        ids@.len() == 1 ==> r == Ok::<Option<String>, Vec<String>>(Some(ids@[0])),
        ids@.len() > 1 ==> (r matches Err(all) && all@ == ids@),
{
    if ids.len() == 0 {
        Ok(None)
    } else if ids.len() == 1 {
        let mut ids = ids;
        Ok(Some(ids.remove(0)))
    } else {
        Err(ids)
    }
}

/// `head` followed by each id on its own indented line.
pub open spec fn listing(head: Seq<char>, ids: Seq<Seq<char>>, n: int) -> Seq<char>
    decreases n,
{
    if n <= 0 {
        head
    } else {
        listing(head, ids, n - 1) + "\n  "@ + ids[n - 1]
    }
}

/// The message that lists ambiguous candidates under `head`.
pub fn candidates_message(head: &str, ids: &Vec<String>) -> (r: String)
    ensures
        r@ == listing(head@, views(ids@), ids@.len() as int),
{
    let mut m = own(head);
    let mut i: usize = 0;
    while i < ids.len()
        invariant
            i <= ids.len(),
            m@ == listing(head@, views(ids@), i as int),
        decreases ids.len() - i,
    {
        m.append("\n  ");
        m.append(ids[i].as_str());
        assert(views(ids@)[i as int] == ids@[i as int]@);
        i += 1;
    }
    m
}

/// The head of the message when several runs are active.
pub open spec fn many_active_head() -> Seq<char> {
    "multiple active workflows found; use --workflow-id to specify one"@
}

/// The head of the message when several runs have the status asked for.
pub open spec fn many_with_status_head(status: Seq<char>) -> Seq<char> {
    "multiple workflows with status '"@ + status + "' found; use --workflow-id to specify one"@
}

/// The run to act on among the active ones (ids as found in the store):
/// none, the only one, or an error listing them all.
pub fn select_active(ids: Vec<String>) -> (r: Result<Option<String>, String>)
    ensures
        ids@.len() == 0 ==> r matches Ok(None),
        ids@.len() == 1 ==> (r matches Ok(Some(id)) && id == ids@[0]),
        ids@.len() > 1 ==> (r matches Err(m) && m@ == listing(many_active_head(), views(ids@), ids@.len() as int)),
{
    let ghost all = ids@;
    match pick_unique(ids) {
        Ok(x) => Ok(x),
        Err(all_ids) => Err(candidates_message("multiple active workflows found; use --workflow-id to specify one", &all_ids)),
    }
}

/// The run to act on among those with the given status: none, the only
/// one, or an error listing them all.
pub fn select_by_status(status: &str, ids: Vec<String>) -> (r: Result<Option<String>, String>)
    ensures
        ids@.len() == 0 ==> r matches Ok(None),
        ids@.len() == 1 ==> (r matches Ok(Some(id)) && id == ids@[0]),
        ids@.len() > 1 ==> (r matches Err(m) && m@ == listing(many_with_status_head(status@), views(ids@), ids@.len() as int)),
{
    match pick_unique(ids) {
        Ok(x) => Ok(x),
        Err(all_ids) => {
            let mut head = own("multiple workflows with status '");
            head.append(status);
            head.append("' found; use --workflow-id to specify one");
            Err(candidates_message(head.as_str(), &all_ids))
        },
    }
}

} // verus!

//! How the command line picks the daemon's addresses and the run it targets.
use crate::text::{decimal, decimal_string, own};
use vstd::prelude::*;

verus! {

/// `http://127.0.0.1:<port>`.
pub open spec fn local_url(port: u16) -> Seq<char> {
    "http://127.0.0.1:"@ + decimal(port as nat)
}

/// The local URL for `port`.
fn local_url_exec(port: u16) -> (r: String)
    ensures
        r@ == local_url(port),
{
    let mut u = own("http://127.0.0.1:");
    let p = decimal_string(port as usize);
    u.append(p.as_str());
    u
}

/// The daemon's callback base URL: the URL given, else the local URL on the
/// port given, else on port 8789.
pub fn resolve_callback_base_url(callback_port: Option<u16>, callback_url: Option<String>) -> (r: String)
    ensures
        callback_url matches Some(u) ==> r@ == u@,
        callback_url is None ==> r@ == local_url(
            match callback_port {
                Some(p) => p,
                None => 8789u16,
            },
        ),
{
    match callback_url {
        Some(u) => u,
        None => {
            let port = match callback_port {
                Some(p) => p,
                None => 8789,
            };
            local_url_exec(port)
        },
    }
}

/// The channels webhook URL: the URL given, else the local URL on the port
/// given, else on port 8788.
pub fn resolve_webhook_url(webhook_port: Option<u16>, webhook_url: Option<String>) -> (r: String)
    ensures
        webhook_url matches Some(u) ==> r@ == u@,
        webhook_url is None ==> r@ == local_url(
            match webhook_port {
                Some(p) => p,
                None => 8788u16,
            },
        ),
{
    match webhook_url {
        Some(u) => u,
        None => {
            let port = match webhook_port {
                Some(p) => p,
                None => 8788,
            };
            local_url_exec(port)
        },
    }
}

/// The message when no run has the wanted status.
pub open spec fn no_target_message(status: Seq<char>) -> Seq<char> {
    "no workflow with status '"@ + status + "' found; specify --workflow-id explicitly"@
}

/// The run a control command targets: the id given explicitly, else the one
/// run found with the wanted status; an error when there is none.
pub fn resolve_target_workflow_id(workflow_id: Option<&str>, found: Option<String>, status: &str) -> (r: Result<String, String>)
    ensures
        workflow_id matches Some(id) ==> (r matches Ok(x) && x@ == id@),
        workflow_id is None && found is Some ==> r == Ok::<String, String>(found.unwrap()),
        workflow_id is None && found is None ==> (r matches Err(m) && m@ == no_target_message(status@)),
{
    match workflow_id {
        Some(id) => Ok(own(id)),
        None => match found {
            Some(x) => Ok(x),
            None => {
                let mut m = own("no workflow with status '");
                m.append(status);
                m.append("' found; specify --workflow-id explicitly");
                Err(m)
            },
        },
    }
}

} // verus!

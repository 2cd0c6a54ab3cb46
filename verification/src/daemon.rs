//! Responses and settings of the local control-plane daemon.

use vstd::prelude::*;

use crate::protocol::{ApiResponse, HealthResponse, TaskEvent, TaskId};
use crate::text::{decimal, push_decimal, push_str};

verus! {

/// Daemon configuration.
#[derive(Debug, Clone, PartialEq, Eq)]
pub struct DaemonConfig {
    pub host: String,
    pub port: u16,
}

impl Default for DaemonConfig {
    /// Listen on `127.0.0.1:47129`.
    fn default() -> (r: Self)
        ensures
            r.host@ == "127.0.0.1"@,
            r.port == 47129,
    {
        DaemonConfig { host: String::from_str("127.0.0.1"), port: 47129 }
    }
}

impl DaemonConfig {
    /// `host:port`, the address the daemon binds.
    pub fn listen_address(&self) -> (r: String)
        ensures
            r@ == self.host@ + ":"@ + decimal(self.port as nat),
    {
        let mut out = self.host.clone();
        push_str(&mut out, ":");
        push_decimal(&mut out, self.port as u64);
        out
    }
}

/// `GET /health`: ok and the daemon's version.
pub fn health_response(version: String) -> (r: ApiResponse<HealthResponse>)
    ensures
        r.ok,
        r.error is None,
        r.data matches Some(h) && h.ok && h.version == version,
{
    ApiResponse::success(HealthResponse { ok: true, version })
}

/// `POST /tasks`: the task is queued under `task_id`.
pub fn task_queued_response(task_id: String) -> (r: ApiResponse<TaskEvent>)
    ensures
        r.ok,
        r.error is None,
        r.data matches Some(TaskEvent::TaskQueued { task_id: id }) && id.0 == task_id,
{
    ApiResponse::success(TaskEvent::TaskQueued { task_id: TaskId(task_id) })
}

/// A lowercase hexadecimal digit.
pub open spec fn is_lower_hex(c: char) -> bool {
    ('0' <= c && c <= '9') || ('a' <= c && c <= 'f')
}

/// The hyphenated lowercase text of a version 7 UUID: 36 characters,
/// hyphens at 8, 13, 18 and 23, hex digits elsewhere, version digit `7` at
/// 14 and an RFC 4122 variant digit at 19.
pub open spec fn is_uuid_v7_text(s: Seq<char>) -> bool {
    &&& s.len() == 36
    &&& forall|i: int|
        0 <= i < 36 ==> if i == 8 || i == 13 || i == 18 || i == 23 {
            #[trigger] s[i] == '-'
        } else {
            is_lower_hex(s[i])
        }
    &&& s[14] == '7'
    &&& s[19] == '8' || s[19] == '9' || s[19] == 'a' || s[19] == 'b'
}

/// A fresh task id: `uuid::Uuid::now_v7()` written with `to_string()`.
/// The id depends on the clock and on random bits; what is claimed is only
/// its shape, which the crate's `Display` (lowercase hyphenated) and its v7
/// encoding (version nibble 7, variant bits `10`) give every value.
#[verifier::external_body]
fn new_task_id() -> (r: String)
    ensures
        is_uuid_v7_text(r@),
{
    uuid::Uuid::now_v7().to_string()
}

/// `POST /tasks`: mint a fresh version 7 UUID and answer that the task is
/// queued under it.
pub fn create_task_response() -> (r: ApiResponse<TaskEvent>)
    ensures
        r.ok,
        r.error is None,
        r.data matches Some(TaskEvent::TaskQueued { task_id: id }) && is_uuid_v7_text(id.0@),
{
    let id = new_task_id();
    task_queued_response(id)
}

/// `GET /tasks/{id}/events`: the event stream is not implemented yet.
pub fn task_events_response<T>(task_id: &str) -> (r: ApiResponse<T>)
    ensures
        !r.ok,
        r.data is None,
        r.error matches Some(e) && e.code@ == "events_not_implemented"@ && e.message@
            == "SSE event stream for task "@ + task_id@ + " not yet implemented"@,
{
    let mut message = String::from_str("SSE event stream for task ");
    push_str(&mut message, task_id);
    push_str(&mut message, " not yet implemented");
    ApiResponse::error(String::from_str("events_not_implemented"), message)
}

} // verus!

//! What a client of the HTTP API is told.
use vstd::prelude::*;

use crate::kv::KvResult;
use crate::server::ApiResponse;
use crate::server::MembershipResult;
use crate::text;

verus! {

/// HTTP status: the request was carried out.
pub const STATUS_OK: u16 = 200;

/// HTTP status: there is no such key.
pub const STATUS_NOT_FOUND: u16 = 404;

/// HTTP status: the request contradicts the state of the cluster.
pub const STATUS_CONFLICT: u16 = 409;

/// HTTP status: this node cannot answer now.
pub const STATUS_UNAVAILABLE: u16 = 503;

/// How long a client waits for a command, in seconds.
pub const COMMAND_TIMEOUT_SECS: u64 = 5;

/// How long a client waits for a membership change, in seconds.
pub const MEMBERSHIP_TIMEOUT_SECS: u64 = 10;

/// What a client is told that could not hand its request to the server.
pub fn shutting_down() -> (reply: (u16, String))
    ensures
        reply.0 == STATUS_UNAVAILABLE,
        reply.0 == 503,
        reply.1@ == "server shutting down"@,
{
    (STATUS_UNAVAILABLE, "server shutting down".to_owned())
}

/// The status and the text for the outcome of a command, `None` where none came in time.
pub open spec fn command_reply(outcome: Option<ApiResponse<KvResult>>) -> (u16, Seq<char>) {
    match outcome {
        Some(ApiResponse::Result(KvResult::Done)) => (STATUS_OK, "ok"@),
        Some(ApiResponse::Result(KvResult::Value(Some(value)))) => (STATUS_OK, value@),
        Some(ApiResponse::Result(KvResult::Value(None))) => (STATUS_NOT_FOUND, Seq::empty()),
        Some(ApiResponse::NotLeader { leader_hint: Some(id) }) => (
            STATUS_UNAVAILABLE,
            "not the leader; leader hint: node "@ + text::decimal(id.value as nat),
        ),
        Some(ApiResponse::NotLeader { leader_hint: None }) => (
            STATUS_UNAVAILABLE,
            "not the leader"@,
        ),
        None => (STATUS_UNAVAILABLE, "timeout"@),
    }
}

/// What a client is told about its command. `None` means that no outcome came in time.
pub fn reply_to_command(outcome: Option<ApiResponse<KvResult>>) -> (reply: (u16, String))
    ensures
        (reply.0, reply.1@) == command_reply(outcome),
        match outcome {
            Some(ApiResponse::Result(KvResult::Done)) => reply.0 == 200 && reply.1@ == "ok"@,
            Some(ApiResponse::Result(KvResult::Value(Some(value)))) => reply.0 == 200 && reply.1@
                == value@,
            Some(ApiResponse::Result(KvResult::Value(None))) => reply.0 == 404 && reply.1@.len()
                == 0,
            Some(ApiResponse::NotLeader { leader_hint: Some(id) }) => reply.0 == 503 && reply.1@
                == "not the leader; leader hint: node "@ + text::decimal(id.value as nat),
            Some(ApiResponse::NotLeader { leader_hint: None }) => reply.0 == 503 && reply.1@
                == "not the leader"@,
            None => reply.0 == 503 && reply.1@ == "timeout"@,
        },
{
    match outcome {
        Some(ApiResponse::Result(KvResult::Done)) => (STATUS_OK, "ok".to_owned()),
        Some(ApiResponse::Result(KvResult::Value(Some(value)))) => (STATUS_OK, value),
        Some(ApiResponse::Result(KvResult::Value(None))) => (STATUS_NOT_FOUND, String::new()),
        Some(ApiResponse::NotLeader { leader_hint: Some(id) }) => (
            STATUS_UNAVAILABLE,
            text::render_prefixed("not the leader; leader hint: node ", id.value),
        ),
        Some(ApiResponse::NotLeader { leader_hint: None }) => (
            STATUS_UNAVAILABLE,
            "not the leader".to_owned(),
        ),
        None => (STATUS_UNAVAILABLE, "timeout".to_owned()),
    }
}

/// The status and the text for the outcome of a membership change, `None` where none came in time.
pub open spec fn membership_reply(outcome: Option<MembershipResult>) -> (u16, Seq<char>) {
    match outcome {
        Some(MembershipResult::Committed) => (STATUS_OK, "ok"@),
        Some(MembershipResult::NotLeader) => (STATUS_UNAVAILABLE, "not the leader"@),
        Some(MembershipResult::Rejected) => (
            STATUS_CONFLICT,
            "another config change is pending"@,
        ),
        Some(MembershipResult::Indeterminate) => (
            STATUS_UNAVAILABLE,
            "leadership changed before the change committed"@,
        ),
        None => (STATUS_UNAVAILABLE, "timeout"@),
    }
}

/// What a client is told about its membership change. `None` means that no outcome came in time.
pub fn reply_to_membership(outcome: Option<MembershipResult>) -> (reply: (u16, String))
    ensures
        (reply.0, reply.1@) == membership_reply(outcome),
        match outcome {
            Some(MembershipResult::Committed) => reply.0 == 200 && reply.1@ == "ok"@,
            Some(MembershipResult::NotLeader) => reply.0 == 503 && reply.1@ == "not the leader"@,
            Some(MembershipResult::Rejected) => reply.0 == 409 && reply.1@
                == "another config change is pending"@,
            Some(MembershipResult::Indeterminate) => reply.0 == 503 && reply.1@
                == "leadership changed before the change committed"@,
            None => reply.0 == 503 && reply.1@ == "timeout"@,
        },
{
    match outcome {
        Some(MembershipResult::Committed) => (STATUS_OK, "ok".to_owned()),
        Some(MembershipResult::NotLeader) => (STATUS_UNAVAILABLE, "not the leader".to_owned()),
        Some(MembershipResult::Rejected) => (
            STATUS_CONFLICT,
            "another config change is pending".to_owned(),
        ),
        Some(MembershipResult::Indeterminate) => (
            STATUS_UNAVAILABLE,
            "leadership changed before the change committed".to_owned(),
        ),
        None => (STATUS_UNAVAILABLE, "timeout".to_owned()),
    }
}

} // verus!

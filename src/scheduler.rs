//! Scheduler handles, the reading of raw scheduler node states, and what to do when
//! the scheduler cannot be asked.
use vstd::prelude::*;
use crate::model::TargetStatus;
use crate::text::{contains_text, has_text, text_is};

verus! {

/// Handle on the native batch scheduler; its calls are made by the daemon.
pub struct PbsScheduler {}

impl PbsScheduler {
    pub fn new() -> (r: Self) {
        Self {}
    }
}

/// A scheduler driven by operator commands that print JSON.
pub struct ShellScheduler {
    pub status_cmd: String,
    pub release_cmd: String,
    pub offline_cmd: String,
}

/// The status of a node whose raw scheduler state is `raw`; `jobs` tells whether jobs
/// still run on it. A state that none of the rules knows reads as Down.
pub open spec fn classify(raw: Seq<char>, jobs: bool) -> TargetStatus {
    if has_text(raw, "offline"@) {
        if jobs {
            TargetStatus::Draining
        } else {
            TargetStatus::Offline
        }
    } else if has_text(raw, "down"@) {
        if jobs {
            TargetStatus::Draining
        } else {
            TargetStatus::Down
        }
    } else if has_text(raw, "exclusive"@) {
        TargetStatus::Online
    } else if raw == "job-busy"@ || raw == "free"@ {
        TargetStatus::Online
    } else {
        TargetStatus::Down
    }
}

/// Reads a raw scheduler node state; the rules are tried in order.
pub fn classify_state(raw: &str, jobs: bool) -> (r: TargetStatus)
    ensures
        r == classify(raw@, jobs),
{
    if contains_text(raw, "offline") {
        if jobs {
            TargetStatus::Draining
        } else {
            TargetStatus::Offline
        }
    } else if contains_text(raw, "down") {
        if jobs {
            TargetStatus::Draining
        } else {
            TargetStatus::Down
        }
    } else if contains_text(raw, "exclusive") {
        TargetStatus::Online
    } else if text_is(raw, "job-busy") || text_is(raw, "free") {
        TargetStatus::Online
    } else {
        TargetStatus::Down
    }
}

/// What the reconciler does when asking the scheduler for node states failed.
#[derive(Debug, Clone, Copy, PartialEq, Eq, Structural)]
pub enum StatusFailure {
    /// Rebuild the scheduler handle and ask once more.
    RetryWithNewHandle,
    /// Give up this pass; the next one asks again.
    SkipTick,
}

/// Decides what follows a failed request for node states: an expired credential is
/// retried once with a new handle, anything else ends the pass.
pub fn on_status_error(err: &str, retried: bool) -> (r: StatusFailure)
    ensures
        r == StatusFailure::RetryWithNewHandle <==> has_text(err@, "Expired credential"@) && !retried,
{
    if !retried && contains_text(err, "Expired credential") {
        StatusFailure::RetryWithNewHandle
    } else {
        StatusFailure::SkipTick
    }
}

} // verus!

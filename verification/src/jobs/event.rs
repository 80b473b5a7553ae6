//! What is told of jobs while they run.

use vstd::prelude::*;

use crate::text;

verus! {

/// Where a job stands.
#[derive(Debug, Clone, Copy, PartialEq, Eq, Structural)]
pub enum WorkerState {
    Queued,
    Running,
    Succeeded,
    Failed,
    Cancelled,
    TimedOut,
}

/// Why a job stops.
#[derive(Debug, Clone, Copy, PartialEq, Eq, Structural)]
pub enum StopReason {
    Cancelled,
    TimedOut,
}

/// How many seconds a job may take.
pub const JOB_TIMEOUT_SECONDS: u64 = 900;

pub open spec fn reason_to_stop(cancelled: bool, elapsed_seconds: u64) -> Option<StopReason> {
    if cancelled {
        Some(StopReason::Cancelled)
    } else if elapsed_seconds >= JOB_TIMEOUT_SECONDS {
        Some(StopReason::TimedOut)
    } else {
        None
    }
}

/// Whether a job has to stop that has run for the given time.
pub fn stop_reason(cancelled: bool, elapsed_seconds: u64) -> (r: Option<StopReason>)
    ensures
        r == reason_to_stop(cancelled, elapsed_seconds),
{
    if cancelled {
        Some(StopReason::Cancelled)
    } else if elapsed_seconds >= JOB_TIMEOUT_SECONDS {
        Some(StopReason::TimedOut)
    } else {
        None
    }
}

/// What is told of a job.
#[derive(Debug)]
pub struct WorkerEvent {
    pub job_id: String,
    pub seq: u64,
    pub state: WorkerState,
    pub completed: usize,
    pub total: usize,
    pub phase: String,
    pub message: String,
    pub outputs: Option<Vec<String>>,
    pub error_code: Option<String>,
}

/// What contracts say of a `WorkerEvent`.
pub struct Notice {
    pub job_id: Seq<char>,
    pub seq: int,
    pub state: WorkerState,
    pub completed: int,
    pub total: int,
    pub phase: Seq<char>,
    pub message: Seq<char>,
    pub outputs: Option<Seq<Seq<char>>>,
    pub error_code: Option<Seq<char>>,
}

impl View for WorkerEvent {
    type V = Notice;

    open spec fn view(&self) -> Notice {
        Notice {
            job_id: self.job_id@,
            seq: self.seq as int,
            state: self.state,
            completed: self.completed as int,
            total: self.total as int,
            phase: self.phase@,
            message: self.message@,
            outputs: match self.outputs {
                None => None,
                Some(outputs) => Some(text::strings(outputs@)),
            },
            error_code: match self.error_code {
                None => None,
                Some(code) => Some(code@),
            },
        }
    }
}

impl Notice {
    /// A job waits for its turn.
    pub open spec fn queued(job_id: Seq<char>, seq: int, total: int) -> Notice {
        Notice {
            job_id,
            seq,
            state: WorkerState::Queued,
            completed: 0,
            total,
            phase: "queued"@,
            message: "Task queued"@,
            outputs: None,
            error_code: None,
        }
    }

    /// A job goes on.
    pub open spec fn running(
        job_id: Seq<char>,
        seq: int,
        completed: int,
        total: int,
        phase: Seq<char>,
        message: Seq<char>,
    ) -> Notice {
        Notice {
            job_id,
            seq,
            state: WorkerState::Running,
            completed,
            total,
            phase,
            message,
            outputs: None,
            error_code: None,
        }
    }

    /// A job ends before its work is done.
    pub open spec fn stopped(
        job_id: Seq<char>,
        seq: int,
        completed: int,
        total: int,
        reason: StopReason,
    ) -> Notice {
        Notice {
            job_id,
            seq,
            state: match reason {
                StopReason::Cancelled => WorkerState::Cancelled,
                StopReason::TimedOut => WorkerState::TimedOut,
            },
            completed,
            total,
            phase: match reason {
                StopReason::Cancelled => "cancelled"@,
                StopReason::TimedOut => "timed_out"@,
            },
            message: match reason {
                StopReason::Cancelled => "Task cancelled"@,
                StopReason::TimedOut => "Task timed out"@,
            },
            outputs: None,
            error_code: match reason {
                StopReason::Cancelled => Some("CANCELLED"@),
                StopReason::TimedOut => Some("TIMEOUT"@),
            },
        }
    }

    /// A file could not be converted.
    pub open spec fn failed(
        job_id: Seq<char>,
        seq: int,
        completed: int,
        total: int,
        code: Seq<char>,
        message: Seq<char>,
    ) -> Notice {
        Notice {
            job_id,
            seq,
            state: WorkerState::Failed,
            completed,
            total,
            phase: "failed"@,
            message,
            outputs: None,
            error_code: Some(code),
        }
    }

    /// A file was converted.
    pub open spec fn succeeded(
        job_id: Seq<char>,
        seq: int,
        completed: int,
        total: int,
        phase: Seq<char>,
        message: Seq<char>,
        outputs: Seq<Seq<char>>,
    ) -> Notice {
        Notice {
            job_id,
            seq,
            state: WorkerState::Succeeded,
            completed,
            total,
            phase,
            message,
            outputs: Some(outputs),
            error_code: None,
        }
    }
}

/// A job waits for its turn.
pub fn queued_event(job_id: &str, seq: u64, total: usize) -> (r: WorkerEvent)
    ensures
        r@ == Notice::queued(job_id@, seq as int, total as int),
{
    WorkerEvent {
        job_id: job_id.to_owned(),
        seq,
        state: WorkerState::Queued,
        completed: 0,
        total,
        phase: "queued".to_owned(),
        message: "Task queued".to_owned(),
        outputs: None,
        error_code: None,
    }
}

/// A job goes on.
pub fn running_event(
    job_id: &str,
    seq: u64,
    completed: usize,
    total: usize,
    phase: String,
    message: String,
) -> (r: WorkerEvent)
    ensures
        r@ == Notice::running(
            job_id@,
            seq as int,
            completed as int,
            total as int,
            phase@,
            message@,
        ),
{
    WorkerEvent {
        job_id: job_id.to_owned(),
        seq,
        state: WorkerState::Running,
        completed,
        total,
        phase,
        message,
        outputs: None,
        error_code: None,
    }
}

/// A job ends before its work is done.
pub fn stopped_event(
    job_id: &str,
    seq: u64,
    completed: usize,
    total: usize,
    reason: StopReason,
) -> (r: WorkerEvent)
    ensures
        r@ == Notice::stopped(job_id@, seq as int, completed as int, total as int, reason),
{
    let (state, phase, message, code) = match reason {
        StopReason::Cancelled => (
            WorkerState::Cancelled,
            "cancelled",
            "Task cancelled",
            "CANCELLED",
        ),
        StopReason::TimedOut => (WorkerState::TimedOut, "timed_out", "Task timed out", "TIMEOUT"),
    };
    WorkerEvent {
        job_id: job_id.to_owned(),
        seq,
        state,
        completed,
        total,
        phase: phase.to_owned(),
        message: message.to_owned(),
        outputs: None,
        error_code: Some(code.to_owned()),
    }
}

/// A file could not be converted.
pub fn failed_event(
    job_id: &str,
    seq: u64,
    completed: usize,
    total: usize,
    code: &str,
    message: String,
) -> (r: WorkerEvent)
    ensures
        r@ == Notice::failed(
            job_id@,
            seq as int,
            completed as int,
            total as int,
            code@,
            message@,
        ),
{
    WorkerEvent {
        job_id: job_id.to_owned(),
        seq,
        state: WorkerState::Failed,
        completed,
        total,
        phase: "failed".to_owned(),
        message,
        outputs: None,
        error_code: Some(code.to_owned()),
    }
}

/// A file was converted.
pub fn succeeded_event(
    job_id: &str,
    seq: u64,
    completed: usize,
    total: usize,
    phase: &str,
    message: String,
    outputs: Vec<String>,
) -> (r: WorkerEvent)
    ensures
        r@ == Notice::succeeded(
            job_id@,
            seq as int,
            completed as int,
            total as int,
            phase@,
            message@,
            text::strings(outputs@),
        ),
{
    WorkerEvent {
        job_id: job_id.to_owned(),
        seq,
        state: WorkerState::Succeeded,
        completed,
        total,
        phase: phase.to_owned(),
        message,
        outputs: Some(outputs),
        error_code: None,
    }
}

} // verus!

//! How a job goes through its files. The job tells at each point what is to be
//! done next, takes what came of it, and tells what to report.

use vstd::prelude::*;

use crate::jobs::event::{
    failed_event, queued_event, running_event, stopped_event, succeeded_event, Notice, StopReason,
    WorkerEvent, WorkerState,
};
use crate::jobs::plan::EngineFailure;
use crate::text;
use crate::text::{push_number, same};

verus! {

/// Why outputs could not be put in place.
#[derive(Debug)]
pub enum FinalizationFailure {
    Stopped(StopReason),
    Write(String),
}

/// What a job waits for.
#[derive(Debug)]
pub enum Stage {
    /// A place among the running jobs.
    AwaitingPermit,
    /// Whether it has to stop before the next file.
    Polling,
    /// Whether its output directory can be found.
    ResolvingOutput,
    /// Whether the images that are merged are regular files.
    CheckingInputs,
    /// Whether its input can be found.
    ResolvingInput,
    /// Whether there is a directory to work in.
    CreatingWorkspace,
    /// The conversion.
    Converting,
    /// Whether it has to stop, after a conversion failed.
    PollingAfterFailure(EngineFailure),
    /// Whether the outputs are put in place; what to tell then.
    Finalizing(String),
    /// Whether it has to stop, after the outputs were put in place.
    PollingAfterFinish(String, Vec<String>),
    /// Nothing more.
    Ended,
}

/// What contracts say of a `Stage`.
pub enum Phase {
    AwaitingPermit,
    Polling,
    ResolvingOutput,
    CheckingInputs,
    ResolvingInput,
    CreatingWorkspace,
    Converting,
    PollingAfterFailure(Seq<char>, Seq<char>),
    Finalizing(Seq<char>),
    PollingAfterFinish(Seq<char>, Seq<Seq<char>>),
    Ended,
}

impl View for Stage {
    type V = Phase;

    open spec fn view(&self) -> Phase {
        match *self {
            Stage::AwaitingPermit => Phase::AwaitingPermit,
            Stage::Polling => Phase::Polling,
            Stage::ResolvingOutput => Phase::ResolvingOutput,
            Stage::CheckingInputs => Phase::CheckingInputs,
            Stage::ResolvingInput => Phase::ResolvingInput,
            Stage::CreatingWorkspace => Phase::CreatingWorkspace,
            Stage::Converting => Phase::Converting,
            Stage::PollingAfterFailure(failure) => Phase::PollingAfterFailure(
                failure.code@,
                failure.message@,
            ),
            Stage::Finalizing(message) => Phase::Finalizing(message@),
            Stage::PollingAfterFinish(message, outputs) => Phase::PollingAfterFinish(
                message@,
                text::strings(outputs@),
            ),
            Stage::Ended => Phase::Ended,
        }
    }
}

/// What came of what a job waited for.
#[derive(Debug)]
pub enum JobInput {
    /// A place was taken, or the job has to stop.
    Permit(Result<(), StopReason>),
    /// Whether the job has to stop.
    Stop(Option<StopReason>),
    /// The output directory was found.
    OutputDir(Result<(), String>),
    /// The images are regular files.
    Regular(bool),
    /// The input was found.
    InputPath(Result<(), String>),
    /// There is a directory to work in.
    Workspace(Result<(), String>),
    /// The conversion goes on.
    Progress(String, String),
    /// So many of the images have been merged.
    Merged(usize),
    /// The conversion is over; what to tell of it.
    Converted(Result<String, EngineFailure>),
    /// The outputs are in place; their paths.
    Finalized(Result<Vec<String>, FinalizationFailure>),
}

/// What contracts say of a `JobInput`.
pub enum Happening {
    Permit(Result<(), StopReason>),
    Stop(Option<StopReason>),
    OutputDir(Result<(), Seq<char>>),
    Regular(bool),
    InputPath(Result<(), Seq<char>>),
    Workspace(Result<(), Seq<char>>),
    Progress(Seq<char>, Seq<char>),
    Merged(int),
    Converted(Seq<char>),
    Failed(Seq<char>, Seq<char>),
    Finalized(Seq<Seq<char>>),
    FinalizingStopped(StopReason),
    FinalizingFailed(Seq<char>),
}

pub open spec fn seen(r: Result<(), String>) -> Result<(), Seq<char>> {
    match r {
        Ok(_) => Ok(()),
        Err(message) => Err(message@),
    }
}

impl View for JobInput {
    type V = Happening;

    open spec fn view(&self) -> Happening {
        match *self {
            JobInput::Permit(permit) => Happening::Permit(permit),
            JobInput::Stop(reason) => Happening::Stop(reason),
            JobInput::OutputDir(found) => Happening::OutputDir(seen(found)),
            JobInput::Regular(regular) => Happening::Regular(regular),
            JobInput::InputPath(found) => Happening::InputPath(seen(found)),
            JobInput::Workspace(made) => Happening::Workspace(seen(made)),
            JobInput::Progress(phase, message) => Happening::Progress(phase@, message@),
            JobInput::Merged(count) => Happening::Merged(count as int),
            JobInput::Converted(Ok(message)) => Happening::Converted(message@),
            JobInput::Converted(Err(failure)) => Happening::Failed(
                failure.code@,
                failure.message@,
            ),
            JobInput::Finalized(Ok(outputs)) => Happening::Finalized(text::strings(outputs@)),
            JobInput::Finalized(Err(FinalizationFailure::Stopped(reason))) =>
                Happening::FinalizingStopped(reason),
            JobInput::Finalized(Err(FinalizationFailure::Write(message))) =>
                Happening::FinalizingFailed(message@),
        }
    }
}

/// A job, as far as it has come.
pub struct State {
    pub id: Seq<char>,
    /// All inputs are merged into one output.
    pub merged: bool,
    pub total: int,
    /// How many files have been dealt with.
    pub index: int,
    /// The number of the last event.
    pub seq: int,
    pub phase: Phase,
}

/// `happening` is what a job in `phase` waits for.
pub open spec fn expects(phase: Phase, happening: Happening) -> bool {
    match phase {
        Phase::AwaitingPermit => happening is Permit,
        Phase::Polling | Phase::PollingAfterFailure(..) | Phase::PollingAfterFinish(..) =>
            happening is Stop,
        Phase::ResolvingOutput => happening is OutputDir,
        Phase::CheckingInputs => happening is Regular,
        Phase::ResolvingInput => happening is InputPath,
        Phase::CreatingWorkspace => happening is Workspace,
        Phase::Converting => happening is Progress || happening is Merged || happening is Converted
            || happening is Failed,
        Phase::Finalizing(_) => happening is Finalized || happening is FinalizingStopped
            || happening is FinalizingFailed,
        Phase::Ended => false,
    }
}

/// What a job reports, and which outputs have to be removed.
pub struct Answer {
    pub notice: Option<Notice>,
    pub removed: Seq<Seq<char>>,
}

impl State {
    pub open spec fn wf(self) -> bool {
        &&& 0 <= self.index <= self.total <= usize::MAX
        &&& 0 <= self.seq <= u64::MAX
        &&& self.merged || self.phase is AwaitingPermit ==> self.index == 0
        &&& self.phase is Ended || self.phase is AwaitingPermit || self.merged || self.index
            < self.total
    }

    /// The job waits for something else.
    pub open spec fn at(self, phase: Phase) -> State {
        State { phase, ..self }
    }

    /// The job has told something.
    pub open spec fn told(self) -> State {
        State { seq: self.seq + 1, ..self }
    }

    /// How many files are dealt with once the one at hand is.
    pub open spec fn settled(self) -> int {
        if self.merged {
            self.total
        } else {
            self.index + 1
        }
    }

    /// The file at hand is dealt with, and the next one comes.
    pub open spec fn onward(self) -> State {
        if self.merged {
            self.at(Phase::Ended)
        } else if self.index + 1 < self.total {
            State { index: self.index + 1, phase: Phase::Polling, ..self }
        } else {
            State { index: self.index + 1, phase: Phase::Ended, ..self }
        }
    }

    /// The job ends before its work is done.
    pub open spec fn halted(self, reason: StopReason) -> (State, Answer) {
        (
            self.told().at(Phase::Ended),
            Answer {
                notice: Some(
                    Notice::stopped(self.id, self.seq + 1, self.index, self.total, reason),
                ),
                removed: Seq::empty(),
            },
        )
    }

    /// The file at hand could not be converted.
    pub open spec fn failing(self, code: Seq<char>, message: Seq<char>) -> (State, Answer) {
        (
            self.told().onward(),
            Answer {
                notice: Some(
                    Notice::failed(
                        self.id,
                        self.seq + 1,
                        self.settled(),
                        self.total,
                        code,
                        message,
                    ),
                ),
                removed: Seq::empty(),
            },
        )
    }

    /// The file at hand is converted.
    pub open spec fn succeeding(self, message: Seq<char>, outputs: Seq<Seq<char>>) -> (
        State,
        Answer,
    ) {
        (
            self.told().onward(),
            Answer {
                notice: Some(
                    Notice::succeeded(
                        self.id,
                        self.seq + 1,
                        self.settled(),
                        self.total,
                        if self.merged {
                            "batch_done"@
                        } else {
                            "done"@
                        },
                        message,
                        outputs,
                    ),
                ),
                removed: Seq::empty(),
            },
        )
    }

    pub open spec fn quietly(self, phase: Phase) -> (State, Answer) {
        (self.at(phase), Answer { notice: None, removed: Seq::empty() })
    }

    pub open spec fn saying(self, notice: Notice) -> (State, Answer) {
        (self.told(), Answer { notice: Some(notice), removed: Seq::empty() })
    }

    /// Where a job stands after `happening`, and what it reports.
    pub open spec fn after(self, happening: Happening) -> (State, Answer) {
        match (self.phase, happening) {
            (Phase::AwaitingPermit, Happening::Permit(Err(reason))) => self.halted(reason),
            (Phase::AwaitingPermit, Happening::Permit(Ok(_))) => self.quietly(
                if self.merged {
                    Phase::ResolvingOutput
                } else if self.total > 0 {
                    Phase::Polling
                } else {
                    Phase::Ended
                },
            ),
            (Phase::Polling, Happening::Stop(Some(reason))) => self.halted(reason),
            (Phase::Polling, Happening::Stop(None)) => self.quietly(Phase::ResolvingOutput),
            (Phase::ResolvingOutput, Happening::OutputDir(Err(message))) => self.failing(
                "OUTPUT_DIR_NOT_FOUND"@,
                if self.merged {
                    "Could not read the output directory"@
                } else {
                    "Could not read the output directory: "@ + message
                },
            ),
            (Phase::ResolvingOutput, Happening::OutputDir(Ok(_))) => self.quietly(
                if self.merged {
                    Phase::CheckingInputs
                } else {
                    Phase::ResolvingInput
                },
            ),
            (Phase::CheckingInputs, Happening::Regular(regular)) => if regular {
                self.quietly(Phase::ResolvingInput)
            } else {
                self.failing(
                    "INPUT_NOT_FOUND"@,
                    "The image input is missing or is not a regular file"@,
                )
            },
            (Phase::ResolvingInput, Happening::InputPath(Err(message))) => self.failing(
                "INPUT_NOT_FOUND"@,
                "Could not read the input file: "@ + message,
            ),
            (Phase::ResolvingInput, Happening::InputPath(Ok(_))) => self.quietly(
                Phase::CreatingWorkspace,
            ),
            (Phase::CreatingWorkspace, Happening::Workspace(Err(message))) => self.failing(
                "OUTPUT_WRITE_FAILED"@,
                "Could not create the temporary directory: "@ + message,
            ),
            (Phase::CreatingWorkspace, Happening::Workspace(Ok(_))) => self.quietly(
                Phase::Converting,
            ),
            (Phase::Converting, Happening::Progress(phase, message)) => self.saying(
                Notice::running(self.id, self.seq + 1, self.index, self.total, phase, message),
            ),
            (Phase::Converting, Happening::Merged(count)) => self.saying(
                Notice::running(
                    self.id,
                    self.seq + 1,
                    count,
                    self.total,
                    "batch"@,
                    "Merging image "@ + text::number(count as nat) + " of "@ + text::number(
                        self.total as nat,
                    ),
                ),
            ),
            (Phase::Converting, Happening::Converted(message)) => self.quietly(
                Phase::Finalizing(message),
            ),
            (Phase::Converting, Happening::Failed(code, message)) => self.quietly(
                Phase::PollingAfterFailure(code, message),
            ),
            (Phase::PollingAfterFailure(code, message), Happening::Stop(Some(reason))) =>
                self.halted(reason),
            (Phase::PollingAfterFailure(code, message), Happening::Stop(None)) => if code
                == "TIMED_OUT"@ {
                self.halted(StopReason::TimedOut)
            } else {
                self.failing(code, message)
            },
            (Phase::Finalizing(message), Happening::FinalizingStopped(reason)) => self.halted(
                reason,
            ),
            (Phase::Finalizing(message), Happening::FinalizingFailed(error)) => self.failing(
                "OUTPUT_WRITE_FAILED"@,
                error,
            ),
            (Phase::Finalizing(message), Happening::Finalized(outputs)) => self.quietly(
                Phase::PollingAfterFinish(message, outputs),
            ),
            (Phase::PollingAfterFinish(message, outputs), Happening::Stop(Some(reason))) => {
                let (state, answer) = self.halted(reason);
                (state, Answer { removed: outputs, ..answer })
            },
            (Phase::PollingAfterFinish(message, outputs), Happening::Stop(None)) =>
                self.succeeding(message, outputs),
            _ => self.quietly(self.phase),
        }
    }
}

/// The state that a job starts in, once it has told that it waits.
pub open spec fn started(id: Seq<char>, merged: bool, total: int) -> State {
    State { id, merged, total, index: 0, seq: 1, phase: Phase::AwaitingPermit }
}

/// A job, as far as it has come.
#[derive(Debug)]
pub struct JobRun {
    id: String,
    merged: bool,
    total: usize,
    index: usize,
    seq: u64,
    stage: Stage,
}

impl View for JobRun {
    type V = State;

    closed spec fn view(&self) -> State {
        State {
            id: self.id@,
            merged: self.merged,
            total: self.total as int,
            index: self.index as int,
            seq: self.seq as int,
            phase: self.stage@,
        }
    }
}

/// What a job reports, and which outputs have to be removed.
#[derive(Debug)]
pub struct JobAnswer {
    pub event: Option<WorkerEvent>,
    pub removed: Vec<String>,
}

impl View for JobAnswer {
    type V = Answer;

    open spec fn view(&self) -> Answer {
        Answer {
            notice: match self.event {
                None => None,
                Some(event) => Some(event@),
            },
            removed: text::strings(self.removed@),
        }
    }
}

fn answer(event: Option<WorkerEvent>) -> (r: JobAnswer)
    ensures
        r@ == (Answer {
            notice: match event {
                None => None,
                Some(event) => Some(event@),
            },
            removed: Seq::empty(),
        }),
{
    let r = JobAnswer { event, removed: Vec::new() };
    assert(r@.removed =~= Seq::<Seq<char>>::empty());
    r
}

fn with_prefix(prefix: &str, message: String) -> (r: String)
    ensures
        r@ == prefix@ + message@,
{
    let mut text = prefix.to_owned();
    text.push_str(message.as_str());
    text
}

impl JobRun {
    /// Starts a job. The event tells that it waits for its turn.
    pub fn start(id: String, merged: bool, total: usize) -> (r: (JobRun, WorkerEvent))
        ensures
            r.0@ == started(id@, merged, total as int),
            r.0@.wf(),
            r.1@ == Notice::queued(id@, 1, total as int),
    {
        let event = queued_event(id.as_str(), 1, total);
        (JobRun { id, merged, total, index: 0, seq: 1, stage: Stage::AwaitingPermit }, event)
    }

    /// What the job waits for.
    pub fn stage(&self) -> (r: &Stage)
        ensures
            r@ == self@.phase,
    {
        &self.stage
    }

    /// Which file the job is at.
    pub fn index(&self) -> (r: usize)
        ensures
            r == self@.index,
    {
        self.index
    }

    /// The number of the last event.
    pub fn sequence(&self) -> (r: u64)
        ensures
            r == self@.seq,
    {
        self.seq
    }

    fn quietly(&mut self, stage: Stage) -> (r: JobAnswer)
        ensures
            (final(self)@, r@) == old(self)@.quietly(stage@),
    {
        self.stage = stage;
        answer(None)
    }

    fn halt(&mut self, reason: StopReason) -> (r: JobAnswer)
        requires
            old(self)@.seq < u64::MAX,
        ensures
            (final(self)@, r@) == old(self)@.halted(reason),
    {
        self.seq = self.seq + 1;
        self.stage = Stage::Ended;
        answer(Some(stopped_event(self.id.as_str(), self.seq, self.index, self.total, reason)))
    }

    /// Goes on to the next file.
    fn go_on(&mut self)
        requires
            old(self)@.wf(),
            old(self)@.merged || old(self)@.index < old(self)@.total,
        ensures
            final(self)@ == old(self)@.onward(),
    {
        if self.merged {
            self.stage = Stage::Ended;
        } else {
            self.index = self.index + 1;
            self.stage = if self.index < self.total {
                Stage::Polling
            } else {
                Stage::Ended
            };
        }
    }

    fn fail(&mut self, code: &str, message: String) -> (r: JobAnswer)
        requires
            old(self)@.wf(),
            old(self)@.merged || old(self)@.index < old(self)@.total,
            old(self)@.seq < u64::MAX,
        ensures
            (final(self)@, r@) == old(self)@.failing(code@, message@),
    {
        self.seq = self.seq + 1;
        let settled: usize = if self.merged {
            self.total
        } else {
            self.index + 1
        };
        let event = failed_event(
            self.id.as_str(),
            self.seq,
            settled,
            self.total,
            code,
            message,
        );
        self.go_on();
        answer(Some(event))
    }

    fn report(&mut self, completed: usize, phase: String, message: String) -> (r: JobAnswer)
        requires
            old(self)@.seq < u64::MAX,
        ensures
            (final(self)@, r@) == old(self)@.saying(
                Notice::running(
                    old(self)@.id,
                    old(self)@.seq + 1,
                    completed as int,
                    old(self)@.total,
                    phase@,
                    message@,
                ),
            ),
    {
        self.seq = self.seq + 1;
        let event = running_event(
            self.id.as_str(),
            self.seq,
            completed,
            self.total,
            phase,
            message,
        );
        answer(Some(event))
    }

    fn convert(&mut self, input: JobInput) -> (r: JobAnswer)
        requires
            old(self)@.wf(),
            old(self)@.phase is Converting,
            expects(old(self)@.phase, input@),
            old(self)@.seq < u64::MAX,
        ensures
            (final(self)@, r@) == old(self)@.after(input@),
    {
        match input {
            JobInput::Progress(phase, message) => self.report(self.index, phase, message),
            JobInput::Merged(count) => {
                let mut message = "Merging image ".to_owned();
                push_number(&mut message, count as u64);
                message.push_str(" of ");
                push_number(&mut message, self.total as u64);
                self.report(count, "batch".to_owned(), message)
            },
            JobInput::Converted(Ok(message)) => self.quietly(Stage::Finalizing(message)),
            JobInput::Converted(Err(failure)) => self.quietly(
                Stage::PollingAfterFailure(failure),
            ),
            _ => self.quietly(Stage::Converting),
        }
    }

    /// The file at hand is converted.
    fn succeed(&mut self, message: String, outputs: Vec<String>) -> (r: JobAnswer)
        requires
            old(self)@.wf(),
            old(self)@.merged || old(self)@.index < old(self)@.total,
            old(self)@.seq < u64::MAX,
        ensures
            (final(self)@, r@) == old(self)@.succeeding(message@, text::strings(outputs@)),
    {
        self.seq = self.seq + 1;
        let settled: usize = if self.merged {
            self.total
        } else {
            self.index + 1
        };
        let phase = if self.merged {
            "batch_done"
        } else {
            "done"
        };
        let event = succeeded_event(
            self.id.as_str(),
            self.seq,
            settled,
            self.total,
            phase,
            message,
            outputs,
        );
        self.go_on();
        answer(Some(event))
    }

    /// Takes what came of what the job waited for.
    pub fn advance(&mut self, input: JobInput) -> (r: JobAnswer)
        requires
            old(self)@.wf(),
            expects(old(self)@.phase, input@),
            old(self)@.seq < u64::MAX,
        ensures
            (final(self)@, r@) == old(self)@.after(input@),
            final(self)@.wf(),
    {
        let mut stage = Stage::Ended;
        std::mem::swap(&mut stage, &mut self.stage);
        match stage {
            Stage::AwaitingPermit => match input {
                JobInput::Permit(Err(reason)) => self.halt(reason),
                _ => {
                    let next = if self.merged {
                        Stage::ResolvingOutput
                    } else if self.total > 0 {
                        Stage::Polling
                    } else {
                        Stage::Ended
                    };
                    self.quietly(next)
                },
            },
            Stage::Polling => match input {
                JobInput::Stop(Some(reason)) => self.halt(reason),
                _ => self.quietly(Stage::ResolvingOutput),
            },
            Stage::ResolvingOutput => match input {
                JobInput::OutputDir(Err(message)) => {
                    let text = if self.merged {
                        "Could not read the output directory".to_owned()
                    } else {
                        with_prefix("Could not read the output directory: ", message)
                    };
                    self.fail("OUTPUT_DIR_NOT_FOUND", text)
                },
                _ => {
                    let next = if self.merged {
                        Stage::CheckingInputs
                    } else {
                        Stage::ResolvingInput
                    };
                    self.quietly(next)
                },
            },
            Stage::CheckingInputs => match input {
                JobInput::Regular(false) => self.fail(
                    "INPUT_NOT_FOUND",
                    "The image input is missing or is not a regular file".to_owned(),
                ),
                _ => self.quietly(Stage::ResolvingInput),
            },
            Stage::ResolvingInput => match input {
                JobInput::InputPath(Err(message)) => self.fail(
                    "INPUT_NOT_FOUND",
                    with_prefix("Could not read the input file: ", message),
                ),
                _ => self.quietly(Stage::CreatingWorkspace),
            },
            Stage::CreatingWorkspace => match input {
                JobInput::Workspace(Err(message)) => self.fail(
                    "OUTPUT_WRITE_FAILED",
                    with_prefix("Could not create the temporary directory: ", message),
                ),
                _ => self.quietly(Stage::Converting),
            },
            Stage::Converting => {
                self.stage = Stage::Converting;
                self.convert(input)
            },
            Stage::PollingAfterFailure(failure) => match input {
                JobInput::Stop(Some(reason)) => self.halt(reason),
                _ => if same(failure.code, "TIMED_OUT") {
                    self.halt(StopReason::TimedOut)
                } else {
                    self.fail(failure.code, failure.message)
                },
            },
            Stage::Finalizing(message) => match input {
                JobInput::Finalized(Err(FinalizationFailure::Stopped(reason))) => self.halt(reason),
                JobInput::Finalized(Err(FinalizationFailure::Write(error))) => self.fail(
                    "OUTPUT_WRITE_FAILED",
                    error,
                ),
                JobInput::Finalized(Ok(outputs)) => self.quietly(
                    Stage::PollingAfterFinish(message, outputs),
                ),
                _ => self.quietly(Stage::Ended),
            },
            Stage::PollingAfterFinish(message, outputs) => match input {
                JobInput::Stop(Some(reason)) => {
                    let halted = self.halt(reason);
                    JobAnswer { event: halted.event, removed: outputs }
                },
                _ => self.succeed(message, outputs),
            },
            Stage::Ended => self.quietly(Stage::Ended),
        }
    }
}

/// Events are numbered one by one, and all of them are about the job and its
/// files.
pub proof fn law_events_are_numbered(state: State, happening: Happening)
    requires
        state.wf(),
        expects(state.phase, happening),
    ensures
        ({
            let (next, answer) = state.after(happening);
            match answer.notice {
                None => next.seq == state.seq,
                Some(notice) => next.seq == state.seq + 1 && notice.seq == next.seq
                    && notice.job_id == state.id && notice.total == state.total,
            }
        }),
{
}

/// A job goes on to the next file exactly when it has told how the file at hand
/// came out, and never goes beyond its files.
pub proof fn law_every_file_is_settled_once(state: State, happening: Happening)
    requires
        state.wf(),
        expects(state.phase, happening),
        !state.merged,
    ensures
        ({
            let (next, answer) = state.after(happening);
            &&& next.index == state.index || next.index == state.index + 1 <= next.total
            &&& next.index == state.index + 1 <==> (match answer.notice {
                None => false,
                Some(notice) => notice.state == WorkerState::Failed || notice.state
                    == WorkerState::Succeeded,
            })
            &&& next.index == state.index + 1 ==> answer.notice->0.completed == next.index
        }),
{
}

/// A job that has to stop tells so and ends, and takes back what it has put in
/// place for the file at hand.
pub proof fn law_stopping_ends_the_job(state: State, reason: StopReason)
    requires
        state.wf(),
        expects(state.phase, Happening::Stop(Some(reason))),
    ensures
        ({
            let (next, answer) = state.after(Happening::Stop(Some(reason)));
            &&& next.phase is Ended
            &&& answer.notice == Some(
                Notice::stopped(state.id, state.seq + 1, state.index, state.total, reason),
            )
            &&& match state.phase {
                Phase::PollingAfterFinish(_, outputs) => answer.removed == outputs,
                _ => answer.removed.len() == 0,
            }
        }),
{
}

/// Only a file whose outputs are in place is told to be converted, and it is
/// told where they are; a failure leaves the other files to be converted.
pub proof fn law_success_tells_the_outputs(state: State, happening: Happening)
    requires
        state.wf(),
        expects(state.phase, happening),
    ensures
        ({
            let (next, answer) = state.after(happening);
            match answer.notice {
                None => true,
                Some(notice) => {
                    &&& notice.state == WorkerState::Succeeded ==> match state.phase {
                        Phase::PollingAfterFinish(message, outputs) => notice.outputs == Some(
                            outputs,
                        ) && notice.message == message && answer.removed.len() == 0,
                        _ => false,
                    }
                    &&& notice.state == WorkerState::Failed && !state.merged && state.index + 1
                        < state.total ==> next.phase is Polling
                },
            }
        }),
{
}

/// Where a job stands after all that has happened.
pub open spec fn state_after(start: State, happenings: Seq<Happening>) -> State
    decreases happenings.len(),
{
    if happenings.len() == 0 {
        start
    } else {
        state_after(start, happenings.drop_last()).after(happenings.last()).0
    }
}

/// All that has happened is what the job waited for.
pub open spec fn is_run(start: State, happenings: Seq<Happening>) -> bool
    decreases happenings.len(),
{
    happenings.len() > 0 ==> {
        &&& is_run(start, happenings.drop_last())
        &&& expects(state_after(start, happenings.drop_last()).phase, happenings.last())
    }
}

/// The events of a job, of which the first tells that it waits.
pub open spec fn events_of(start: State, happenings: Seq<Happening>) -> Seq<Notice>
    decreases happenings.len(),
{
    if happenings.len() == 0 {
        seq![Notice::queued(start.id, start.seq, start.total)]
    } else {
        let before = events_of(start, happenings.drop_last());
        match state_after(start, happenings.drop_last()).after(happenings.last()).1.notice {
            None => before,
            Some(notice) => before.push(notice),
        }
    }
}

/// An event tells how a file came out.
pub open spec fn is_outcome(notice: Notice) -> bool {
    notice.state == WorkerState::Succeeded || notice.state == WorkerState::Failed
}

/// An event tells that the job had to stop.
pub open spec fn is_stop(notice: Notice) -> bool {
    notice.state == WorkerState::Cancelled || notice.state == WorkerState::TimedOut
}

/// How many of the first `n` events tell how a file came out.
pub open spec fn outcomes(events: Seq<Notice>, n: int) -> int
    decreases n,
{
    if n <= 0 {
        0
    } else {
        outcomes(events, n - 1) + if is_outcome(events[n - 1]) {
            1int
        } else {
            0
        }
    }
}

proof fn lemma_same_outcomes(a: Seq<Notice>, b: Seq<Notice>, n: int)
    requires
        0 <= n <= a.len() <= b.len(),
        forall|i: int| 0 <= i < n ==> a[i] == b[i],
    ensures
        outcomes(a, n) == outcomes(b, n),
    decreases n,
{
    if n > 0 {
        lemma_same_outcomes(a, b, n - 1);
    }
}

/// The events of a job as a whole: they are numbered from one, each is about the
/// job and its files, and the first tells that it waits. The files come out one
/// after the other, whether converted or not. An event that tells that the job had
/// to stop is the last one; without it, every file comes out by the end.
pub proof fn law_a_run_tells_of_every_file(
    id: Seq<char>,
    total: int,
    happenings: Seq<Happening>,
)
    requires
        0 <= total <= usize::MAX,
        happenings.len() < u64::MAX,
        is_run(started(id, false, total), happenings),
    ensures
        ({
            let events = events_of(started(id, false, total), happenings);
            let state = state_after(started(id, false, total), happenings);
            let n = events.len() as int;
            &&& n > 0
            &&& events[0].state == WorkerState::Queued
            &&& forall|i: int|
                0 <= i < n ==> (#[trigger] events[i]).seq == i + 1 && events[i].job_id == id
                    && events[i].total == total
            &&& forall|i: int|
                0 <= i < n && is_outcome(#[trigger] events[i]) ==> events[i].completed == outcomes(
                    events,
                    i + 1,
                )
            &&& forall|i: int|
                0 <= i < n && is_stop(#[trigger] events[i]) ==> i == n - 1 && state.phase is Ended
            &&& outcomes(events, n) <= total
            &&& state.phase is Ended && !is_stop(events[n - 1]) ==> outcomes(events, n) == total
        }),
{
    lemma_run(started(id, false, total), happenings);
}

proof fn lemma_run(start: State, happenings: Seq<Happening>)
    requires
        start == started(start.id, false, start.total),
        0 <= start.total <= usize::MAX,
        happenings.len() < u64::MAX,
        is_run(start, happenings),
    ensures
        ({
            let events = events_of(start, happenings);
            let state = state_after(start, happenings);
            let n = events.len() as int;
            &&& state.wf()
            &&& !state.merged
            &&& state.id == start.id
            &&& state.total == start.total
            &&& state.seq == n <= happenings.len() + 1
            &&& n > 0
            &&& events[0].state == WorkerState::Queued
            &&& forall|i: int|
                0 <= i < n ==> (#[trigger] events[i]).seq == i + 1 && events[i].job_id == start.id
                    && events[i].total == start.total
            &&& forall|i: int|
                0 <= i < n && is_outcome(#[trigger] events[i]) ==> events[i].completed == outcomes(
                    events,
                    i + 1,
                )
            &&& forall|i: int|
                0 <= i < n && is_stop(#[trigger] events[i]) ==> i == n - 1 && state.phase is Ended
            &&& outcomes(events, n) == state.index
            &&& state.phase is Ended && !is_stop(events[n - 1]) ==> state.index == state.total
        }),
    decreases happenings.len(),
{
    let events = events_of(start, happenings);
    if happenings.len() == 0 {
        reveal_with_fuel(outcomes, 2);
    } else {
        let earlier = happenings.drop_last();
        lemma_run(start, earlier);
        let before = events_of(start, earlier);
        let state = state_after(start, earlier);
        let happening = happenings.last();
        law_events_are_numbered(state, happening);
        law_every_file_is_settled_once(state, happening);
        assert forall|k: int| 0 <= k <= before.len() implies #[trigger] outcomes(events, k)
            == outcomes(before, k) by {
            lemma_same_outcomes(before, events, k);
        }
        assert(!is_stop(before.last()));
        let m = before.len() as int;
        let n = events.len() as int;
        assert(outcomes(events, m) == state.index);
        if n > m {
            assert(n == m + 1);
            assert(outcomes(events, n) == outcomes(events, n - 1) + if is_outcome(events[n - 1]) {
                1int
            } else {
                0
            });
        }
        assert forall|i: int| 0 <= i < n && is_outcome(#[trigger] events[i]) implies events[i].completed
            == outcomes(events, i + 1) by {
            if i < m {
                assert(events[i] == before[i]);
                assert(outcomes(events, i + 1) == outcomes(before, i + 1));
            }
        }
    }
}

/// The events of a job that merges its files, as a whole: they are numbered from
/// one, each is about the job and its files, and the first tells that it waits.
/// How the job came out, or that it had to stop, is told by the last event and by
/// no other; all files have come out then, or none. A job that has ended has told
/// it.
pub proof fn law_a_merger_is_told_once(id: Seq<char>, total: int, happenings: Seq<Happening>)
    requires
        0 <= total <= usize::MAX,
        happenings.len() < u64::MAX,
        is_run(started(id, true, total), happenings),
    ensures
        ({
            let events = events_of(started(id, true, total), happenings);
            let state = state_after(started(id, true, total), happenings);
            let n = events.len() as int;
            &&& n > 0
            &&& events[0].state == WorkerState::Queued
            &&& forall|i: int|
                0 <= i < n ==> (#[trigger] events[i]).seq == i + 1 && events[i].job_id == id
                    && events[i].total == total
            &&& forall|i: int|
                0 <= i < n && (is_outcome(#[trigger] events[i]) || is_stop(events[i])) ==> i == n
                    - 1 && state.phase is Ended
            &&& forall|i: int|
                0 <= i < n && is_outcome(#[trigger] events[i]) ==> events[i].completed == total
            &&& forall|i: int|
                0 <= i < n && is_stop(#[trigger] events[i]) ==> events[i].completed == 0
            &&& state.phase is Ended ==> is_outcome(events[n - 1]) || is_stop(events[n - 1])
        }),
{
    lemma_merger(started(id, true, total), happenings);
}

proof fn lemma_merger(start: State, happenings: Seq<Happening>)
    requires
        start == started(start.id, true, start.total),
        0 <= start.total <= usize::MAX,
        happenings.len() < u64::MAX,
        is_run(start, happenings),
    ensures
        ({
            let events = events_of(start, happenings);
            let state = state_after(start, happenings);
            let n = events.len() as int;
            &&& state.wf()
            &&& state.merged
            &&& state.id == start.id
            &&& state.total == start.total
            &&& state.seq == n <= happenings.len() + 1
            &&& n > 0
            &&& events[0].state == WorkerState::Queued
            &&& forall|i: int|
                0 <= i < n ==> (#[trigger] events[i]).seq == i + 1 && events[i].job_id == start.id
                    && events[i].total == start.total
            &&& forall|i: int|
                0 <= i < n && (is_outcome(#[trigger] events[i]) || is_stop(events[i])) ==> i == n
                    - 1 && state.phase is Ended
            &&& forall|i: int|
                0 <= i < n && is_outcome(#[trigger] events[i]) ==> events[i].completed
                    == start.total
            &&& forall|i: int|
                0 <= i < n && is_stop(#[trigger] events[i]) ==> events[i].completed == 0
            &&& state.phase is Ended ==> is_outcome(events[n - 1]) || is_stop(events[n - 1])
        }),
    decreases happenings.len(),
{
    if happenings.len() > 0 {
        let earlier = happenings.drop_last();
        lemma_merger(start, earlier);
        law_events_are_numbered(state_after(start, earlier), happenings.last());
    }
}

} // verus!

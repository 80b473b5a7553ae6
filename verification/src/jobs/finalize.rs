//! Putting the outputs of a conversion in place, under names that are free.

use vstd::prelude::*;

use crate::bytes;
use crate::bytes::push_padded;
use crate::jobs::event::StopReason;
use crate::jobs::run::FinalizationFailure;
use crate::text;
use crate::text::{push_ascii, push_number, same};

verus! {

/// How many further names are tried when outputs exist already.
pub const MAX_ATTEMPTS: usize = 1000;

/// A name without extension, with the number of the attempt from the second on.
pub open spec fn numbered(stem: Seq<char>, attempt: int) -> Seq<char> {
    if attempt == 0 {
        stem
    } else {
        stem + " ("@ + text::number(attempt as nat) + ")"@
    }
}

/// The name of output `page` of `count` outputs.
pub open spec fn output_name(
    stem: Seq<char>,
    extension: Seq<char>,
    count: int,
    attempt: int,
    page: int,
) -> Seq<char> {
    if count == 1 {
        numbered(stem, attempt) + "."@ + extension
    } else {
        numbered(stem, attempt) + "-"@ + text::ascii(bytes::padded((page + 1) as nat, 3)) + "."@
            + extension
    }
}

proof fn lemma_leading_zeros(count: int, s: Seq<u8>)
    requires
        count >= 0,
    ensures
        bytes::decimal_value(bytes::zeros(count) + s) == bytes::decimal_value(s),
    decreases s.len(), count,
{
    let all = bytes::zeros(count) + s;
    if s.len() > 0 {
        assert(all.drop_last() =~= bytes::zeros(count) + s.drop_last());
        assert(all.last() == s.last());
        lemma_leading_zeros(count, s.drop_last());
    } else if count > 0 {
        assert(all =~= bytes::zeros(count));
        assert(all.drop_last() =~= bytes::zeros(count - 1) + s);
        lemma_leading_zeros(count - 1, s);
    } else {
        assert(all =~= s);
    }
}

proof fn lemma_padded(n: nat)
    ensures
        bytes::decimal_value(bytes::padded(n, 3)) == n,
{
    bytes::law_decimal_round_trip(n);
    let digits = bytes::decimal(n);
    if digits.len() < 3 {
        lemma_leading_zeros(3 - digits.len(), digits);
    } else {
        lemma_leading_zeros(0, digits);
    }
}

/// The outputs of a conversion have different names.
pub proof fn law_output_names_differ(
    stem: Seq<char>,
    extension: Seq<char>,
    count: int,
    attempt: int,
    page: int,
    other: int,
)
    requires
        0 <= page < count,
        0 <= other < count,
        page != other,
    ensures
        output_name(stem, extension, count, attempt, page) != output_name(
            stem,
            extension,
            count,
            attempt,
            other,
        ),
{
    let a = output_name(stem, extension, count, attempt, page);
    let b = output_name(stem, extension, count, attempt, other);
    if a == b {
        let start = numbered(stem, attempt) + "-"@;
        let end = "."@ + extension;
        let x = bytes::padded((page + 1) as nat, 3);
        let y = bytes::padded((other + 1) as nat, 3);
        let p = start.len() as int;
        assert(a =~= start + text::ascii(x) + end);
        assert(b =~= start + text::ascii(y) + end);
        assert(x.len() == y.len());
        assert forall|i: int| 0 <= i < x.len() implies x[i] == y[i] by {
            assert(a[p + i] == x[i] as char);
            assert(b[p + i] == y[i] as char);
        }
        assert(x =~= y);
        lemma_padded((page + 1) as nat);
        lemma_padded((other + 1) as nat);
    }
}

/// The names of all outputs.
pub open spec fn output_names(
    stem: Seq<char>,
    extension: Seq<char>,
    count: int,
    attempt: int,
) -> Seq<Seq<char>> {
    Seq::new(count as nat, |page: int| output_name(stem, extension, count, attempt, page))
}

fn name_output(stem: &str, extension: &str, count: usize, attempt: usize, page: usize) -> (r:
    String)
    requires
        page < count,
    ensures
        r@ == output_name(
            stem@,
            extension@,
            count as int,
            attempt as int,
            page as int,
        ),
{
    let mut name = stem.to_owned();
    if attempt > 0 {
        name.push_str(" (");
        push_number(&mut name, attempt as u64);
        name.push_str(")");
    }
    if count != 1 {
        name.push_str("-");
        let mut digits: Vec<u8> = Vec::new();
        push_padded(&mut digits, page as u64 + 1, 3);
        assert(digits@ =~= bytes::padded((page + 1) as nat, 3));
        push_ascii(&mut name, digits.as_slice());
    }
    name.push_str(".");
    name.push_str(extension);
    name
}

/// What putting outputs in place waits for.
#[derive(Debug)]
pub enum FinalStage {
    /// Whether it has to stop, before anything.
    PollingFirst,
    /// Whether a staged output is what it should be.
    Checking(usize),
    /// Whether it has to stop, before names are reserved.
    PollingAgain,
    /// Whether a file with a name that is free could be made: the attempt, and
    /// the output.
    Reserving(usize, usize),
    /// Whether it has to stop, before an output is moved.
    PollingBefore(usize, usize),
    /// Whether an output could be moved.
    Installing(usize, usize),
    /// Whether it has to stop, after an output was moved.
    PollingAfter(usize, usize),
    /// Nothing more: the outputs are in place, under the names of an attempt.
    Finished(usize),
    /// Nothing more: it was stopped or failed.
    Failed(FinalizationFailure),
}

/// What contracts say of a `FinalStage`.
pub enum Step {
    PollingFirst,
    Checking(int),
    PollingAgain,
    Reserving(int, int),
    PollingBefore(int, int),
    Installing(int, int),
    PollingAfter(int, int),
    Finished(int),
    Stopped(StopReason),
    Failed(Seq<char>),
}

impl View for FinalStage {
    type V = Step;

    open spec fn view(&self) -> Step {
        match *self {
            FinalStage::PollingFirst => Step::PollingFirst,
            FinalStage::Checking(i) => Step::Checking(i as int),
            FinalStage::PollingAgain => Step::PollingAgain,
            FinalStage::Reserving(attempt, i) => Step::Reserving(attempt as int, i as int),
            FinalStage::PollingBefore(attempt, i) => Step::PollingBefore(attempt as int, i as int),
            FinalStage::Installing(attempt, i) => Step::Installing(attempt as int, i as int),
            FinalStage::PollingAfter(attempt, i) => Step::PollingAfter(attempt as int, i as int),
            FinalStage::Finished(attempt) => Step::Finished(attempt as int),
            FinalStage::Failed(FinalizationFailure::Stopped(reason)) => Step::Stopped(reason),
            FinalStage::Failed(FinalizationFailure::Write(message)) => Step::Failed(message@),
        }
    }
}

/// What came of it.
#[derive(Debug)]
pub enum FinalInput {
    /// Whether it has to stop.
    Stop(Option<StopReason>),
    /// A staged output is what it should be.
    Checked(Result<(), FinalizationFailure>),
    /// A file was made.
    Created,
    /// A file of that name exists already.
    Exists,
    /// A file could not be made.
    NotCreated(String),
    /// An output was moved.
    Installed(Result<(), String>),
}

/// What contracts say of a `FinalInput`.
pub enum Outcome {
    Stop(Option<StopReason>),
    Checked,
    CheckStopped(StopReason),
    CheckFailed(Seq<char>),
    Created,
    Exists,
    NotCreated(Seq<char>),
    Installed,
    NotInstalled(Seq<char>),
}

impl View for FinalInput {
    type V = Outcome;

    open spec fn view(&self) -> Outcome {
        match *self {
            FinalInput::Stop(reason) => Outcome::Stop(reason),
            FinalInput::Checked(Ok(_)) => Outcome::Checked,
            FinalInput::Checked(Err(FinalizationFailure::Stopped(reason))) =>
                Outcome::CheckStopped(reason),
            FinalInput::Checked(Err(FinalizationFailure::Write(message))) => Outcome::CheckFailed(
                message@,
            ),
            FinalInput::Created => Outcome::Created,
            FinalInput::Exists => Outcome::Exists,
            FinalInput::NotCreated(message) => Outcome::NotCreated(message@),
            FinalInput::Installed(Ok(_)) => Outcome::Installed,
            FinalInput::Installed(Err(message)) => Outcome::NotInstalled(message@),
        }
    }
}

/// Outputs that are put in place.
pub struct Work {
    pub stem: Seq<char>,
    pub extension: Seq<char>,
    pub count: int,
    pub step: Step,
}

/// `outcome` is what is waited for.
pub open spec fn fits(step: Step, outcome: Outcome) -> bool {
    match step {
        Step::PollingFirst
        | Step::PollingAgain
        | Step::PollingBefore(..)
        | Step::PollingAfter(..) => outcome is Stop,
        Step::Checking(_) => outcome is Checked || outcome is CheckStopped
            || outcome is CheckFailed,
        Step::Reserving(..) => outcome is Created || outcome is Exists || outcome is NotCreated,
        Step::Installing(..) => outcome is Installed || outcome is NotInstalled,
        _ => false,
    }
}

impl Work {
    pub open spec fn wf(self) -> bool {
        &&& 0 <= self.count <= usize::MAX
        &&& match self.step {
            Step::Checking(i) => 0 <= i < self.count,
            Step::Reserving(attempt, i) => 0 <= attempt <= MAX_ATTEMPTS && 0 <= i < self.count,
            Step::PollingBefore(attempt, i)
            | Step::Installing(attempt, i)
            | Step::PollingAfter(attempt, i) => 0 <= attempt <= MAX_ATTEMPTS && 0 <= i
                < self.count,
            Step::Finished(attempt) => 0 <= attempt <= MAX_ATTEMPTS,
            _ => true,
        }
    }

    pub open spec fn at(self, step: Step) -> Work {
        Work { step, ..self }
    }

    pub open spec fn names(self, attempt: int) -> Seq<Seq<char>> {
        output_names(self.stem, self.extension, self.count, attempt)
    }

    /// The files that were made and not removed again.
    pub open spec fn held(self) -> Seq<Seq<char>> {
        match self.step {
            Step::Reserving(attempt, i) => self.names(attempt).take(i),
            Step::PollingBefore(attempt, _)
            | Step::Installing(attempt, _)
            | Step::PollingAfter(attempt, _)
            | Step::Finished(attempt) => self.names(attempt),
            _ => Seq::empty(),
        }
    }

    /// Nothing is removed.
    pub open spec fn on(self, step: Step) -> (Work, Seq<Seq<char>>) {
        (self.at(step), Seq::empty())
    }

    /// Whatever was made is removed.
    pub open spec fn back(self, step: Step) -> (Work, Seq<Seq<char>>) {
        (self.at(step), self.held())
    }

    /// What follows, and which files have to be removed.
    pub open spec fn after(self, outcome: Outcome) -> (Work, Seq<Seq<char>>) {
        match (self.step, outcome) {
            (Step::PollingFirst, Outcome::Stop(None)) => self.on(
                if self.count > 0 {
                    Step::Checking(0)
                } else {
                    Step::PollingAgain
                },
            ),
            (Step::Checking(i), Outcome::Checked) => self.on(
                if i + 1 < self.count {
                    Step::Checking(i + 1)
                } else {
                    Step::PollingAgain
                },
            ),
            (Step::Checking(_), Outcome::CheckStopped(reason)) => self.on(Step::Stopped(reason)),
            (Step::Checking(_), Outcome::CheckFailed(message)) => self.on(Step::Failed(message)),
            (Step::PollingAgain, Outcome::Stop(None)) => self.on(
                if self.count > 0 {
                    Step::Reserving(0, 0)
                } else {
                    Step::Failed("No output was produced"@)
                },
            ),
            (Step::Reserving(attempt, i), Outcome::Created) => self.on(
                if i + 1 < self.count {
                    Step::Reserving(attempt, i + 1)
                } else {
                    Step::PollingBefore(attempt, 0)
                },
            ),
            (Step::Reserving(attempt, _), Outcome::Exists) => self.back(
                if attempt < MAX_ATTEMPTS {
                    Step::Reserving(attempt + 1, 0)
                } else {
                    Step::Failed("Too many output files have the same name"@)
                },
            ),
            (Step::Reserving(..), Outcome::NotCreated(message)) => self.back(
                Step::Failed("Could not reserve the output file: "@ + message),
            ),
            (Step::PollingBefore(attempt, i), Outcome::Stop(None)) => self.on(
                Step::Installing(attempt, i),
            ),
            (Step::Installing(attempt, i), Outcome::Installed) => self.on(
                Step::PollingAfter(attempt, i),
            ),
            (Step::Installing(..), Outcome::NotInstalled(message)) => self.back(
                Step::Failed("Could not move the output file: "@ + message),
            ),
            (Step::PollingAfter(attempt, i), Outcome::Stop(None)) => self.on(
                if i + 1 < self.count {
                    Step::PollingBefore(attempt, i + 1)
                } else {
                    Step::Finished(attempt)
                },
            ),
            (_, Outcome::Stop(Some(reason))) => self.back(Step::Stopped(reason)),
            _ => self.on(self.step),
        }
    }
}

/// Whatever happens, the files that were made are held until they are removed:
/// only a file that could be made is added, all are removed together, and
/// nothing is held by a run that was stopped or failed.
pub proof fn law_failed_outputs_are_removed(work: Work, outcome: Outcome)
    requires
        work.wf(),
        fits(work.step, outcome),
    ensures
        ({
            let (next, removed) = work.after(outcome);
            &&& next.wf()
            &&& next.step is Stopped || next.step is Failed ==> next.held().len() == 0 && removed
                == work.held()
            &&& removed.len() > 0 ==> removed == work.held() && next.held().len() == 0
            &&& match (work.step, outcome) {
                (Step::Reserving(attempt, i), Outcome::Created) => next.held()
                    == work.held().push(
                    output_name(work.stem, work.extension, work.count, attempt, i),
                ),
                _ => next.held() == work.held() || (next.held().len() == 0 && removed
                    == work.held()),
            }
        }),
{
    let (next, removed) = work.after(outcome);
    match (work.step, outcome) {
        (Step::Reserving(attempt, i), Outcome::Created) => {
            assert(next.held() =~= work.held().push(
                output_name(work.stem, work.extension, work.count, attempt, i),
            ));
        },
        (Step::Reserving(attempt, i), Outcome::Exists) => {
            assert(next.held() =~= Seq::<Seq<char>>::empty());
        },
        (Step::PollingAgain, _) => {
            assert(next.held() =~= Seq::<Seq<char>>::empty());
        },
        _ => {},
    }
}

/// Outputs that are put in place.
#[derive(Debug)]
pub struct Finalizer {
    stem: String,
    extension: String,
    count: usize,
    stage: FinalStage,
}

impl View for Finalizer {
    type V = Work;

    closed spec fn view(&self) -> Work {
        Work {
            stem: self.stem@,
            extension: self.extension@,
            count: self.count as int,
            step: self.stage@,
        }
    }
}

fn no_names() -> (r: Vec<String>)
    ensures
        text::strings(r@) == Seq::<Seq<char>>::empty(),
{
    let r: Vec<String> = Vec::new();
    assert(text::strings(r@) =~= Seq::<Seq<char>>::empty());
    r
}

fn with_prefix(prefix: &str, message: String) -> (r: String)
    ensures
        r@ == prefix@ + message@,
{
    let mut text = prefix.to_owned();
    text.push_str(message.as_str());
    text
}

impl Finalizer {
    pub fn new(stem: String, extension: String, count: usize) -> (r: Finalizer)
        ensures
            r@ == (Work {
                stem: stem@,
                extension: extension@,
                count: count as int,
                step: Step::PollingFirst,
            }),
            r@.wf(),
    {
        Finalizer { stem, extension, count, stage: FinalStage::PollingFirst }
    }

    /// What is waited for.
    pub fn stage(&self) -> (r: &FinalStage)
        ensures
            r@ == self@.step,
    {
        &self.stage
    }

    /// The name of an output.
    pub fn name(&self, attempt: usize, page: usize) -> (r: String)
        requires
            page < self@.count,
        ensures
            r@ == output_name(
                self@.stem,
                self@.extension,
                self@.count,
                attempt as int,
                page as int,
            ),
    {
        name_output(
            self.stem.as_str(),
            self.extension.as_str(),
            self.count,
            attempt,
            page,
        )
    }

    /// The names of the first `n` outputs.
    pub fn names(&self, attempt: usize, n: usize) -> (r: Vec<String>)
        requires
            n <= self@.count,
        ensures
            text::strings(r@) == self@.names(attempt as int).take(n as int),
    {
        let mut out: Vec<String> = Vec::new();
        let mut i: usize = 0;
        assert(text::strings(out@) =~= self@.names(attempt as int).take(0));
        while i < n
            invariant
                i <= n <= self@.count,
                text::strings(out@) == self@.names(attempt as int).take(i as int),
            decreases n - i,
        {
            let ghost before = text::strings(out@);
            let name = self.name(attempt, i);
            let ghost added = name@;
            out.push(name);
            assert(text::strings(out@) =~= before.push(added));
            i += 1;
            assert(text::strings(out@) =~= self@.names(attempt as int).take(i as int));
        }
        out
    }

    fn all_names(&self, attempt: usize) -> (r: Vec<String>)
        ensures
            text::strings(r@) == self@.names(attempt as int),
    {
        assert(self@.names(attempt as int).take(self@.count) =~= self@.names(attempt as int));
        self.names(attempt, self.count)
    }

    fn held(&self) -> (r: Vec<String>)
        requires
            self@.wf(),
        ensures
            text::strings(r@) == self@.held(),
    {
        match self.stage {
            FinalStage::Reserving(attempt, i) => self.names(attempt, i),
            FinalStage::PollingBefore(attempt, _)
            | FinalStage::Installing(attempt, _)
            | FinalStage::PollingAfter(attempt, _)
            | FinalStage::Finished(attempt) => self.all_names(attempt),
            _ => no_names(),
        }
    }

    /// Takes what came of what was waited for; gives the files that have to be
    /// removed.
    pub fn advance(&mut self, input: FinalInput) -> (r: Vec<String>)
        requires
            old(self)@.wf(),
            fits(old(self)@.step, input@),
        ensures
            (final(self)@, text::strings(r@)) == old(self)@.after(input@),
            final(self)@.wf(),
    {
        let held = self.held();
        let stop = match &input {
            FinalInput::Stop(Some(reason)) => Some(*reason),
            _ => None,
        };
        match stop {
            Some(reason) => {
                self.stage = FinalStage::Failed(FinalizationFailure::Stopped(reason));
                return held;
            },
            None => {},
        }
        let (next, removed) = match &self.stage {
            FinalStage::PollingFirst => (
                if self.count > 0 {
                    FinalStage::Checking(0)
                } else {
                    FinalStage::PollingAgain
                },
                no_names(),
            ),
            FinalStage::Checking(i) => (
                match input {
                    FinalInput::Checked(Err(failure)) => FinalStage::Failed(failure),
                    _ => if *i + 1 < self.count {
                        FinalStage::Checking(*i + 1)
                    } else {
                        FinalStage::PollingAgain
                    },
                },
                no_names(),
            ),
            FinalStage::PollingAgain => (
                if self.count > 0 {
                    FinalStage::Reserving(0, 0)
                } else {
                    FinalStage::Failed(
                        FinalizationFailure::Write("No output was produced".to_owned()),
                    )
                },
                no_names(),
            ),
            FinalStage::Reserving(attempt, i) => match input {
                FinalInput::Exists => (
                    if *attempt < MAX_ATTEMPTS {
                        FinalStage::Reserving(*attempt + 1, 0)
                    } else {
                        FinalStage::Failed(
                            FinalizationFailure::Write(
                                "Too many output files have the same name".to_owned(),
                            ),
                        )
                    },
                    held,
                ),
                FinalInput::NotCreated(message) => (
                    FinalStage::Failed(
                        FinalizationFailure::Write(
                            with_prefix("Could not reserve the output file: ", message),
                        ),
                    ),
                    held,
                ),
                _ => (
                    if *i + 1 < self.count {
                        FinalStage::Reserving(*attempt, *i + 1)
                    } else {
                        FinalStage::PollingBefore(*attempt, 0)
                    },
                    no_names(),
                ),
            },
            FinalStage::PollingBefore(attempt, i) => (
                FinalStage::Installing(*attempt, *i),
                no_names(),
            ),
            FinalStage::Installing(attempt, i) => match input {
                FinalInput::Installed(Err(message)) => (
                    FinalStage::Failed(
                        FinalizationFailure::Write(
                            with_prefix("Could not move the output file: ", message),
                        ),
                    ),
                    held,
                ),
                _ => (FinalStage::PollingAfter(*attempt, *i), no_names()),
            },
            FinalStage::PollingAfter(attempt, i) => (
                if *i + 1 < self.count {
                    FinalStage::PollingBefore(*attempt, *i + 1)
                } else {
                    FinalStage::Finished(*attempt)
                },
                no_names(),
            ),
            FinalStage::Finished(attempt) => (FinalStage::Finished(*attempt), no_names()),
            FinalStage::Failed(_) => (FinalStage::PollingFirst, no_names()),
        };
        self.stage = next;
        removed
    }
}

} // verus!

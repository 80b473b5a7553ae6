//! Requests that come line by line.

use vstd::prelude::*;

use crate::bytes::append;
use crate::text::same;

verus! {

/// The most bytes that a request may have, with its line feed.
pub const MAX_REQUEST_BYTES: usize = 1_048_576;

/// The most bytes that the name of a request may have.
pub const MAX_ID_BYTES: usize = 128;

/// The most jobs that may wait or run.
pub const MAX_PENDING_JOBS: usize = 32;

/// Where the first line of `b` ends: behind its line feed, or at the end.
pub open spec fn first_line(b: Seq<u8>, i: int) -> int
    decreases b.len() - i,
{
    if i < 0 || i >= b.len() {
        b.len() as int
    } else if b[i] == 0x0a {
        i + 1
    } else {
        first_line(b, i + 1)
    }
}

/// A line is the same in whatever pieces it comes: behind a piece without a line
/// feed, it ends where the rest of it does.
pub proof fn law_lines_do_not_depend_on_pieces(piece: Seq<u8>, rest: Seq<u8>, i: int)
    requires
        0 <= i <= piece.len(),
        forall|k: int| 0 <= k < piece.len() ==> #[trigger] piece[k] != 0x0a,
    ensures
        first_line(piece, i) == piece.len(),
        first_line(piece + rest, i) == piece.len() + first_line(rest, 0),
        piece + rest.take(first_line(rest, 0)) == (piece + rest).take(first_line(piece + rest, i)),
    decreases piece.len() - i,
{
    let all = piece + rest;
    if i < piece.len() {
        assert(all[i] == piece[i]);
        law_lines_do_not_depend_on_pieces(piece, rest, i + 1);
    } else {
        lemma_first_line(piece, rest, 0);
        assert(piece + rest.take(first_line(rest, 0)) =~= all.take(first_line(all, i)));
    }
}

proof fn lemma_first_line(piece: Seq<u8>, rest: Seq<u8>, k: int)
    requires
        0 <= k <= rest.len(),
    ensures
        first_line(piece + rest, piece.len() + k) == piece.len() + first_line(rest, k),
        k <= first_line(rest, k) <= rest.len(),
    decreases rest.len() - k,
{
    if k < rest.len() {
        assert((piece + rest)[piece.len() + k] == rest[k]);
        lemma_first_line(piece, rest, k + 1);
    }
}

fn line_length(b: &[u8]) -> (r: usize)
    requires
        b@.len() > 0,
    ensures
        r == first_line(b@, 0),
        0 < r <= b@.len(),
        forall|k: int| 0 <= k < r - 1 ==> b@[k] != 0x0a,
        r < b@.len() ==> b@[r - 1] == 0x0a,
{
    let mut i: usize = 0;
    while i < b.len()
        invariant
            i <= b@.len(),
            first_line(b@, i as int) == first_line(b@, 0),
            forall|k: int| 0 <= k < i ==> b@[k] != 0x0a,
        decreases b@.len() - i,
    {
        if b[i] == 0x0a {
            return i + 1;
        }
        i += 1;
    }
    i
}

/// Collects the bytes of a line, which may come in pieces. A line that is too
/// long is passed over.
pub struct FrameReader {
    frame: Vec<u8>,
    too_long: bool,
    line: Ghost<Seq<u8>>,
}

impl View for FrameReader {
    type V = Seq<u8>;

    /// The line, as far as it has come.
    closed spec fn view(&self) -> Seq<u8> {
        self.line@
    }
}

impl FrameReader {
    pub closed spec fn wf(self) -> bool {
        &&& self.too_long == (self.line@.len() > MAX_REQUEST_BYTES)
        &&& self.frame@ == if self.too_long {
            Seq::empty()
        } else {
            self.line@
        }
    }

    pub fn new() -> (r: FrameReader)
        ensures
            r.wf(),
            r@ == Seq::<u8>::empty(),
    {
        let frame: Vec<u8> = Vec::new();
        assert(frame@ =~= Seq::<u8>::empty());
        FrameReader { frame, too_long: false, line: Ghost(Seq::empty()) }
    }

    /// The line, if it is not too long.
    pub fn frame(&self) -> (r: &Vec<u8>)
        requires
            self.wf(),
        ensures
            r@ == if self@.len() > MAX_REQUEST_BYTES {
                Seq::empty()
            } else {
                self@
            },
    {
        &self.frame
    }

    /// Begins the next line.
    pub fn start(&mut self)
        ensures
            final(self).wf(),
            final(self)@ == Seq::<u8>::empty(),
    {
        self.frame = Vec::new();
        self.too_long = false;
        self.line = Ghost(Seq::empty());
        assert(self.frame@ =~= Seq::<u8>::empty());
    }

    /// Takes what belongs to the line of the bytes that are there. Gives how
    /// many that are and, once the line has ended, whether it was short enough.
    pub fn accept(&mut self, available: &[u8]) -> (r: (usize, Option<bool>))
        requires
            old(self).wf(),
            available@.len() > 0,
        ensures
            final(self).wf(),
            r.0 == first_line(available@, 0),
            final(self)@ == old(self)@ + available@.take(r.0 as int),
            r.1 == if available@[r.0 - 1] == 0x0a {
                Some(final(self)@.len() <= MAX_REQUEST_BYTES)
            } else {
                None
            },
    {
        let size = line_length(available);
        let piece = vstd::slice::slice_subrange(available, 0, size);
        let ends = available[size - 1] == 0x0a;
        assert(piece@ =~= available@.take(size as int));
        let ghost before = self.line@;
        assert(size <= usize::MAX);
        if !self.too_long && size <= MAX_REQUEST_BYTES && self.frame.len() <= MAX_REQUEST_BYTES
            - size {
            append(&mut self.frame, piece);
        } else {
            self.too_long = true;
            self.frame = Vec::new();
            assert(self.frame@ =~= Seq::<u8>::empty());
        }
        self.line = Ghost(before + piece@);
        let outcome = if ends {
            Some(!self.too_long)
        } else {
            None
        };
        (size, outcome)
    }

    /// What is left when no more bytes come: nothing, or a line without a line
    /// feed and whether it was short enough.
    pub fn finish(&self) -> (r: Option<bool>)
        requires
            self.wf(),
        ensures
            r == if self@.len() == 0 {
                None
            } else {
                Some(self@.len() <= MAX_REQUEST_BYTES)
            },
    {
        if self.frame.len() == 0 && !self.too_long {
            None
        } else {
            Some(!self.too_long)
        }
    }
}

/// What a request asks for.
#[derive(Debug, Clone, Copy, PartialEq, Eq, Structural)]
pub enum BridgeCommand {
    GetSelfCheck,
    GetDiagnosticInfo,
    InspectInputFiles,
    StartJob,
    CancelJob,
}

/// What the name of a command asks for.
pub open spec fn command_of(name: Seq<char>) -> Option<BridgeCommand> {
    if name == "get_self_check"@ {
        Some(BridgeCommand::GetSelfCheck)
    } else if name == "get_diagnostic_info"@ {
        Some(BridgeCommand::GetDiagnosticInfo)
    } else if name == "inspect_input_files"@ {
        Some(BridgeCommand::InspectInputFiles)
    } else if name == "start_job"@ {
        Some(BridgeCommand::StartJob)
    } else if name == "cancel_job"@ {
        Some(BridgeCommand::CancelJob)
    } else {
        None
    }
}

/// What the name of a command asks for.
pub fn parse_command(name: &str) -> (r: Result<BridgeCommand, &'static str>)
    ensures
        match command_of(name@) {
            Some(command) => r is Ok && r->Ok_0 == command,
            None => r is Err && r->Err_0@ == "UNKNOWN_COMMAND: unsupported bridge command"@,
        },
{
    if same(name, "get_self_check") {
        Ok(BridgeCommand::GetSelfCheck)
    } else if same(name, "get_diagnostic_info") {
        Ok(BridgeCommand::GetDiagnosticInfo)
    } else if same(name, "inspect_input_files") {
        Ok(BridgeCommand::InspectInputFiles)
    } else if same(name, "start_job") {
        Ok(BridgeCommand::StartJob)
    } else if same(name, "cancel_job") {
        Ok(BridgeCommand::CancelJob)
    } else {
        Err("UNKNOWN_COMMAND: unsupported bridge command")
    }
}

/// What is wrong with a request of which `id` is the name in UTF-8, if it could
/// be read at all.
pub open spec fn request_fault(within_limit: bool, id: Option<Seq<u8>>) -> Option<Seq<char>> {
    if !within_limit {
        Some("INVALID_REQUEST: request exceeds the size limit"@)
    } else {
        match id {
            None => Some("INVALID_REQUEST: invalid JSONL request"@),
            Some(id) => if id.len() == 0 || id.len() > MAX_ID_BYTES {
                Some("INVALID_REQUEST: invalid request id"@)
            } else {
                None
            },
        }
    }
}

/// Refuses a request that is too long, cannot be read, or has no proper name.
pub fn admit_request(within_limit: bool, id: Option<&[u8]>) -> (r: Result<(), &'static str>)
    ensures
        match request_fault(
            within_limit,
            match id {
                None => None,
                Some(id) => Some(id@),
            },
        ) {
            None => r is Ok,
            Some(message) => r is Err && r->Err_0@ == message,
        },
{
    if !within_limit {
        return Err("INVALID_REQUEST: request exceeds the size limit");
    }
    match id {
        None => Err("INVALID_REQUEST: invalid JSONL request"),
        Some(id) => if id.len() == 0 || id.len() > MAX_ID_BYTES {
            Err("INVALID_REQUEST: invalid request id")
        } else {
            Ok(())
        },
    }
}

/// Refuses a job when too many wait or run.
pub fn admit_job(pending: usize) -> (r: Result<(), &'static str>)
    ensures
        if pending >= MAX_PENDING_JOBS {
            r is Err && r->Err_0@ == "JOB_LIMIT_REACHED: too many queued tasks"@
        } else {
            r is Ok
        },
{
    if pending >= MAX_PENDING_JOBS {
        Err("JOB_LIMIT_REACHED: too many queued tasks")
    } else {
        Ok(())
    }
}

/// Which of the startup arguments is the path of the worker. `flags` tells of
/// each argument whether it is the flag that announces one.
pub open spec fn worker_argument(flags: Seq<bool>) -> Result<Option<int>, Seq<char>> {
    if flags.len() == 0 {
        Ok(None)
    } else if !flags[0] {
        Err("INVALID_BRIDGE_CONFIG: unknown or duplicate startup argument"@)
    } else if flags.len() == 1 {
        Err("INVALID_BRIDGE_CONFIG: missing --worker-path value"@)
    } else if flags.len() == 2 {
        Ok(Some(1int))
    } else {
        Err("INVALID_BRIDGE_CONFIG: unknown or duplicate startup argument"@)
    }
}

/// Which of the startup arguments is the path of the worker.
pub fn parse_config(flags: &Vec<bool>) -> (r: Result<Option<usize>, &'static str>)
    ensures
        match worker_argument(flags@) {
            Err(message) => r is Err && r->Err_0@ == message,
            Ok(None) => r is Ok && r->Ok_0 is None,
            Ok(Some(index)) => r is Ok && r->Ok_0 is Some && r->Ok_0->0 == index && index
                < flags@.len(),
        },
{
    if flags.len() == 0 {
        return Ok(None);
    }
    if !flags[0] {
        return Err("INVALID_BRIDGE_CONFIG: unknown or duplicate startup argument");
    }
    if flags.len() == 1 {
        return Err("INVALID_BRIDGE_CONFIG: missing --worker-path value");
    }
    if flags.len() == 2 {
        Ok(Some(1))
    } else {
        Err("INVALID_BRIDGE_CONFIG: unknown or duplicate startup argument")
    }
}

/// Refuses a path of the worker that is not absolute.
pub fn admit_worker_path(absolute: bool) -> (r: Result<(), &'static str>)
    ensures
        if absolute {
            r is Ok
        } else {
            r is Err && r->Err_0@ == "INVALID_BRIDGE_CONFIG: worker path must be absolute"@
        },
{
    if absolute {
        Ok(())
    } else {
        Err("INVALID_BRIDGE_CONFIG: worker path must be absolute")
    }
}

} // verus!

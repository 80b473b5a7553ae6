//! Putting PDF files together.

use vstd::prelude::*;
use vstd::utf8::*;

use crate::bytes;
use crate::bytes::{append, push_decimal, push_padded};

verus! {

/// A PDF file that is being written.
pub struct Draft {
    pub bytes: Seq<u8>,
    /// Where the objects begin; the first is object 1.
    pub offsets: Seq<int>,
}

/// What an object begins with.
pub open spec fn object_start(number: int) -> Seq<u8> {
    bytes::decimal(number as nat) + encode_utf8(" 0 obj\n"@)
}

/// What an object ends with.
pub open spec fn object_end() -> Seq<u8> {
    encode_utf8("\nendobj\n"@)
}

/// The rows of the cross-reference table for the first `n` objects.
pub open spec fn table_rows(offsets: Seq<int>, n: int) -> Seq<u8>
    decreases n,
{
    if n <= 0 {
        Seq::empty()
    } else {
        table_rows(offsets, n - 1) + bytes::padded(offsets[n - 1] as nat, 10) + encode_utf8(
            " 00000 n \n"@,
        )
    }
}

impl Draft {
    pub open spec fn begun(header: Seq<u8>) -> Draft {
        Draft { bytes: header, offsets: Seq::empty() }
    }

    pub open spec fn with(self, more: Seq<u8>) -> Draft {
        Draft { bytes: self.bytes + more, offsets: self.offsets }
    }

    /// The next object begins.
    pub open spec fn with_start(self) -> Draft {
        Draft {
            bytes: self.bytes + object_start(self.offsets.len() as int + 1),
            offsets: self.offsets.push(self.bytes.len() as int),
        }
    }

    /// The next object is `body`.
    pub open spec fn with_object(self, body: Seq<u8>) -> Draft {
        self.with_start().with(body).with(object_end())
    }

    /// What follows the head of the cross-reference table.
    pub open spec fn table(self) -> Seq<u8> {
        let size = bytes::decimal((self.offsets.len() + 1) as nat);
        size + encode_utf8("\n0000000000 65535 f \n"@) + table_rows(
            self.offsets,
            self.offsets.len() as int,
        ) + encode_utf8("trailer << /Size "@) + size + encode_utf8(
            " /Root 1 0 R >>\nstartxref\n"@,
        ) + bytes::decimal(self.bytes.len() as nat) + encode_utf8("\n%%EOF\n"@)
    }

    /// The whole file.
    pub open spec fn finished(self) -> Seq<u8> {
        self.bytes + (encode_utf8("xref\n0 "@) + self.table())
    }

    /// Every object begins where the offsets say.
    pub open spec fn wf(self) -> bool {
        forall|i: int|
            0 <= i < self.offsets.len() ==> bytes::occurs(
                self.bytes,
                #[trigger] self.offsets[i],
                object_start(i + 1),
            )
    }
}

/// Whatever is written next, the objects begin where the offsets say.
pub proof fn law_draft_keeps_offsets(draft: Draft, more: Seq<u8>)
    requires
        draft.wf(),
    ensures
        draft.with(more).wf(),
        draft.with_start().wf(),
        draft.with_object(more).wf(),
{
    lemma_with(draft, more);
    lemma_start(draft);
    lemma_with(draft.with_start(), more);
    lemma_with(draft.with_start().with(more), object_end());
}

proof fn lemma_with(draft: Draft, more: Seq<u8>)
    requires
        draft.wf(),
    ensures
        draft.with(more).wf(),
{
    let next = draft.with(more);
    assert forall|i: int| 0 <= i < next.offsets.len() implies bytes::occurs(
        next.bytes,
        #[trigger] next.offsets[i],
        object_start(i + 1),
    ) by {
        let at = draft.offsets[i];
        let word = object_start(i + 1);
        assert(bytes::occurs(draft.bytes, at, word));
        assert(next.bytes.subrange(at, at + word.len()) =~= draft.bytes.subrange(
            at,
            at + word.len(),
        ));
    }
}

proof fn lemma_start(draft: Draft)
    requires
        draft.wf(),
    ensures
        draft.with_start().wf(),
{
    let next = draft.with_start();
    let n = draft.offsets.len() as int;
    let last = object_start(n + 1);
    lemma_with(draft, last);
    assert(next.bytes == draft.with(last).bytes);
    assert forall|i: int| 0 <= i < next.offsets.len() implies bytes::occurs(
        next.bytes,
        #[trigger] next.offsets[i],
        object_start(i + 1),
    ) by {
        if i < n {
            assert(next.offsets[i] == draft.with(last).offsets[i]);
        } else {
            let at = draft.bytes.len() as int;
            assert(next.bytes.subrange(at, at + last.len()) =~= last);
        }
    }
}

/// In a finished file every object begins where its row of the cross-reference
/// table says, and the table where the last lines say.
pub proof fn law_finished_file_points_at_its_objects(draft: Draft)
    requires
        draft.wf(),
    ensures
        forall|i: int|
            0 <= i < draft.offsets.len() ==> bytes::occurs(
                draft.finished(),
                #[trigger] draft.offsets[i],
                object_start(i + 1),
            ),
        bytes::occurs(draft.finished(), draft.bytes.len() as int, encode_utf8("xref\n0 "@)),
{
    let mark = encode_utf8("xref\n0 "@);
    let rest = draft.table();
    lemma_with(draft, mark + rest);
    let next = draft.with(mark + rest);
    assert forall|i: int| 0 <= i < draft.offsets.len() implies bytes::occurs(
        draft.finished(),
        #[trigger] draft.offsets[i],
        object_start(i + 1),
    ) by {
        assert(next.offsets[i] == draft.offsets[i]);
    }
    let at = draft.bytes.len() as int;
    assert(draft.finished().subrange(at, at + mark.len()) =~= mark);
}

/// A PDF file that is being written.
#[derive(Debug)]
pub struct PdfOutput {
    bytes: Vec<u8>,
    offsets: Vec<usize>,
}

impl View for PdfOutput {
    type V = Draft;

    closed spec fn view(&self) -> Draft {
        Draft {
            bytes: self.bytes@,
            offsets: Seq::new(self.offsets@.len(), |i: int| self.offsets@[i] as int),
        }
    }
}

impl PdfOutput {
    pub fn new(header: Vec<u8>) -> (r: PdfOutput)
        ensures
            r@ == Draft::begun(header@),
    {
        let r = PdfOutput { bytes: header, offsets: Vec::new() };
        assert(r@.offsets =~= Seq::<int>::empty());
        r
    }

    /// How many bytes have been written.
    pub fn position(&self) -> (r: usize)
        ensures
            r == self@.bytes.len(),
    {
        self.bytes.len()
    }

    pub fn append(&mut self, more: &[u8])
        ensures
            final(self)@ == old(self)@.with(more@),
    {
        append(&mut self.bytes, more);
        assert(self@.offsets =~= old(self)@.offsets);
    }

    pub fn append_text(&mut self, more: &str)
        ensures
            final(self)@ == old(self)@.with(encode_utf8(more@)),
    {
        self.append(more.as_bytes());
    }

    /// Begins the next object.
    pub fn start_object(&mut self)
        ensures
            final(self)@ == old(self)@.with_start(),
    {
        let ghost before = self@;
        let at = self.bytes.len();
        self.offsets.push(at);
        assert(self@.offsets =~= before.offsets.push(at as int));
        let number: u128 = self.offsets.len() as u128;
        push_decimal(&mut self.bytes, number);
        append(&mut self.bytes, " 0 obj\n".as_bytes());
        assert(self@.bytes =~= before.with_start().bytes);
        assert(self@.offsets =~= before.with_start().offsets);
    }

    /// Ends an object.
    pub fn end_object(&mut self)
        ensures
            final(self)@ == old(self)@.with(object_end()),
    {
        self.append("\nendobj\n".as_bytes());
    }

    /// Writes the next object.
    pub fn object(&mut self, body: &[u8])
        ensures
            final(self)@ == old(self)@.with_object(body@),
    {
        self.start_object();
        self.append(body);
        self.end_object();
    }

    /// The whole file.
    pub fn finish(self) -> (r: Vec<u8>)
        ensures
            r@ == self@.finished(),
    {
        let ghost draft = self@;
        let mut out = self.bytes;
        let table = table_of(out.len(), &self.offsets);
        assert(draft.offsets =~= places(self.offsets@));
        let mut tail: Vec<u8> = Vec::new();
        append(&mut tail, "xref\n0 ".as_bytes());
        append(&mut tail, table.as_slice());
        assert(tail@ =~= encode_utf8("xref\n0 "@) + draft.table());
        append(&mut out, tail.as_slice());
        out
    }
}

pub open spec fn places(offsets: Seq<usize>) -> Seq<int> {
    Seq::new(offsets.len(), |i: int| offsets[i] as int)
}

/// What follows the head of the cross-reference table of a file in which
/// `length` bytes stand before it.
fn table_of(length: usize, offsets: &Vec<usize>) -> (r: Vec<u8>)
    ensures
        forall|draft: Draft|
            draft.bytes.len() == length && draft.offsets == places(offsets@) ==> r@
                == #[trigger] draft.table(),
{
    let mut out: Vec<u8> = Vec::new();
    let ghost all = places(offsets@);
    assert(offsets.len() <= usize::MAX);
    let size: u128 = offsets.len() as u128 + 1;
    push_decimal(&mut out, size);
    assert(out@ =~= bytes::decimal(size as nat));
    append(&mut out, "\n0000000000 65535 f \n".as_bytes());
    let ghost before = out@;
    let mut i: usize = 0;
    assert(out@ =~= before + table_rows(all, 0));
    while i < offsets.len()
        invariant
            i <= offsets@.len(),
            all == places(offsets@),
            out@ == before + table_rows(all, i as int),
        decreases offsets@.len() - i,
    {
        push_padded(&mut out, offsets[i] as u64, 10);
        append(&mut out, " 00000 n \n".as_bytes());
        i += 1;
        assert(out@ =~= before + table_rows(all, i as int));
    }
    append(&mut out, "trailer << /Size ".as_bytes());
    push_decimal(&mut out, size);
    append(&mut out, " /Root 1 0 R >>\nstartxref\n".as_bytes());
    push_decimal(&mut out, length as u128);
    append(&mut out, "\n%%EOF\n".as_bytes());
    out
}

} // verus!

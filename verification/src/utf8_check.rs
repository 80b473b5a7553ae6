//! Finding out whether data that comes in pieces is UTF-8.

use vstd::prelude::*;
use vstd::utf8::*;

use crate::bytes::append;

verus! {

/// How many bytes a character has that begins with `byte`; zero if none does.
pub open spec fn width_of(byte: u8) -> int {
    if is_leading_byte_width_1(byte) {
        1
    } else if is_leading_byte_width_2(byte) {
        2
    } else if is_leading_byte_width_3(byte) {
        3
    } else if is_leading_byte_width_4(byte) {
        4
    } else {
        0
    }
}

fn width(byte: u8) -> (r: usize)
    ensures
        r == width_of(byte),
{
    if byte <= 0x7f {
        1
    } else if byte >= 0xc0 && byte <= 0xdf {
        2
    } else if byte >= 0xe0 && byte <= 0xef {
        3
    } else if byte >= 0xf0 && byte <= 0xf7 {
        4
    } else {
        0
    }
}

/// Whether the first character is well formed does not depend on what follows
/// it.
proof fn lemma_first(s: Seq<u8>, rest: Seq<u8>)
    requires
        s.len() > 0,
        s.len() >= width_of(s[0]),
    ensures
        valid_first_scalar(s + rest) == valid_first_scalar(s),
        valid_first_scalar(s) ==> width_of(s[0]) > 0 && valid_utf8(s + rest) == valid_utf8(
            s.skip(width_of(s[0])) + rest,
        ),
        !valid_first_scalar(s) ==> !valid_utf8(s + rest),
{
    let all = s + rest;
    assert(all[0] == s[0]);
    if s.len() > 1 {
        assert(all[1] == s[1]);
    }
    if s.len() > 2 {
        assert(all[2] == s[2]);
    }
    if s.len() > 3 {
        assert(all[3] == s[3]);
    }
    if valid_first_scalar(s) {
        assert(pop_first_scalar(all) =~= s.skip(width_of(s[0])) + rest);
    }
}

fn is_continuation(byte: u8) -> (r: bool)
    ensures
        r == is_continuation_byte(byte),
{
    byte >= 0x80 && byte <= 0xbf
}

/// The character that begins at `i` is well formed.
fn is_scalar_at(b: &Vec<u8>, i: usize) -> (r: bool)
    requires
        i < b@.len(),
        0 < width_of(b@[i as int]) <= b@.len() - i,
    ensures
        r == valid_first_scalar(b@.skip(i as int)),
{
    assert(b.len() <= usize::MAX);
    let ghost s = b@.skip(i as int);
    assert(s[0] == b@[i as int]);
    let first: u8 = b[i];
    if first <= 0x7f {
        assert((first & 0x7f) as u32 <= 0x7f) by (bit_vector);
        return true;
    }
    let second: u8 = b[i + 1];
    assert(s[1] == second);
    if !is_continuation(second) {
        return false;
    }
    if first <= 0xdf {
        let code: u32 = (((first & 0x1F) as u32) << 6) | ((second & 0x3f) as u32);
        assert((((first & 0x1F) as u32) << 6) | ((second & 0x3f) as u32) <= 0x7ff)
            by (bit_vector);
        return code >= 0x80;
    }
    let third: u8 = b[i + 2];
    assert(s[2] == third);
    if !is_continuation(third) {
        return false;
    }
    if first <= 0xef {
        let code: u32 = (((first & 0x0F) as u32) << 12) | (((second & 0x3f) as u32) << 6) | ((third
            & 0x3f) as u32);
        return code >= 0x800 && !(code >= 0xd800 && code <= 0xdfff);
    }
    let fourth: u8 = b[i + 3];
    assert(s[3] == fourth);
    if !is_continuation(fourth) {
        return false;
    }
    let code: u32 = (((first & 0x07) as u32) << 18) | (((second & 0x3f) as u32) << 12) | (((third
        & 0x3f) as u32) << 6) | ((fourth & 0x3f) as u32);
    code >= 0x10000 && code <= 0x10ffff
}

/// Whether data that comes in pieces is UTF-8.
pub struct Utf8Check {
    /// The beginning of a character that is not complete yet.
    pending: Vec<u8>,
    seen: Ghost<Seq<u8>>,
}

impl View for Utf8Check {
    type V = Seq<u8>;

    /// All data up to now.
    closed spec fn view(&self) -> Seq<u8> {
        self.seen@
    }
}

impl Utf8Check {
    pub closed spec fn wf(self) -> bool {
        &&& self.pending@.len() > 0 ==> self.pending@.len() < width_of(self.pending@[0])
        &&& forall|rest: Seq<u8>|
            valid_utf8(#[trigger] (self.seen@ + rest)) == valid_utf8(self.pending@ + rest)
    }

    pub fn new() -> (r: Utf8Check)
        ensures
            r.wf(),
            r@ == Seq::<u8>::empty(),
    {
        let pending: Vec<u8> = Vec::new();
        assert(pending@ =~= Seq::<u8>::empty());
        Utf8Check { pending, seen: Ghost(Seq::empty()) }
    }

    /// Takes the next piece; `false` if the data cannot be UTF-8 any more,
    /// whatever follows.
    pub fn accept(&mut self, piece: &[u8]) -> (r: bool)
        requires
            old(self).wf(),
        ensures
            final(self)@ == old(self)@ + piece@,
            r ==> final(self).wf(),
            !r ==> forall|rest: Seq<u8>| !valid_utf8(#[trigger] (final(self)@ + rest)),
    {
        let ghost before = self.seen@;
        let ghost now = before + piece@;
        let mut data: Vec<u8> = Vec::new();
        append(&mut data, self.pending.as_slice());
        append(&mut data, piece);
        assert(data@ =~= self.pending@ + piece@);
        self.seen = Ghost(now);
        assert(data.len() <= usize::MAX);
        assert forall|rest: Seq<u8>| valid_utf8(#[trigger] (now + rest)) == valid_utf8(
            data@.skip(0) + rest,
        ) by {
            assert(now + rest =~= before + (piece@ + rest));
            assert(data@.skip(0) + rest =~= self.pending@ + (piece@ + rest));
        }
        let mut i: usize = 0;
        while i < data.len()
            invariant
                i <= data@.len() <= usize::MAX,
                self.seen@ == now,
                now == old(self)@ + piece@,
                forall|rest: Seq<u8>|
                    valid_utf8(#[trigger] (now + rest)) == valid_utf8(
                        data@.skip(i as int) + rest,
                    ),
            decreases data@.len() - i,
        {
            let count = width(data[i]);
            let ghost left = data@.skip(i as int);
            assert(left[0] == data@[i as int]);
            if count == 0 {
                assert forall|rest: Seq<u8>| !valid_utf8(#[trigger] (now + rest)) by {
                    lemma_first(left, rest);
                }
                return false;
            }
            if count > data.len() - i {
                let pending: Vec<u8> = vstd::slice::slice_to_vec(
                    vstd::slice::slice_subrange(data.as_slice(), i, data.len()),
                );
                assert(pending@ =~= left);
                self.pending = pending;
                return true;
            }
            if !is_scalar_at(&data, i) {
                assert forall|rest: Seq<u8>| !valid_utf8(#[trigger] (now + rest)) by {
                    lemma_first(left, rest);
                }
                return false;
            }
            assert forall|rest: Seq<u8>| valid_utf8(#[trigger] (now + rest)) == valid_utf8(
                data@.skip(i + count) + rest,
            ) by {
                lemma_first(left, rest);
                assert(left.skip(count as int) =~= data@.skip(i + count));
            }
            i += count;
        }
        self.pending = Vec::new();
        assert(data@.skip(i as int) =~= self.pending@);
        true
    }

    /// Whether all data was UTF-8.
    pub fn finish(&self) -> (r: bool)
        requires
            self.wf(),
        ensures
            r == valid_utf8(self@),
    {
        let ghost none = Seq::<u8>::empty();
        assert(self.seen@ + none =~= self.seen@);
        assert(self.pending@ + none =~= self.pending@);
        assert(valid_utf8(self.seen@ + none) == valid_utf8(self.pending@ + none));
        self.pending.len() == 0
    }
}

} // verus!

//! How large the images of slides are.

use vstd::prelude::*;

use crate::bytes;
use crate::pdf::mapped::big;
use crate::pptx::image_file;
use crate::pptx::image_file::FRAME_SEARCH_END;

verus! {

proof fn lemma_two(b: Seq<u8>, i: int, s: Seq<u8>)
    requires
        0 <= i,
        i + 2 <= b.len(),
        s.len() == 2,
        b[i] == s[0],
        b[i + 1] == s[1],
    ensures
        bytes::u16_be(b, i) == Some(big(s) as u16),
        0 <= big(s) <= 65_535,
{
    reveal_with_fuel(big, 3);
    assert(s.drop_last()[0] == s[0]);
    assert(s.drop_last().drop_last().len() == 0);
}

proof fn lemma_four(b: Seq<u8>, i: int, s: Seq<u8>)
    requires
        0 <= i,
        i + 4 <= b.len(),
        s.len() == 4,
        b[i] == s[0],
        b[i + 1] == s[1],
        b[i + 2] == s[2],
        b[i + 3] == s[3],
    ensures
        bytes::u32_be(b, i) == Some(big(s) as u32),
        0 <= big(s) <= 4_294_967_295,
{
    reveal_with_fuel(big, 5);
    assert(s.drop_last()[2] == s[2]);
    assert(s.drop_last().drop_last()[1] == s[1]);
    assert(s.drop_last().drop_last().drop_last()[0] == s[0]);
    assert(s.drop_last().drop_last().drop_last().drop_last().len() == 0);
}

/// A PNG file tells its width, then its height, behind its signature and the name
/// of its first chunk.
pub proof fn law_png_tells_its_size(width: Seq<u8>, height: Seq<u8>, rest: Seq<u8>, length: u64)
    requires
        width.len() == 4,
        height.len() == 4,
        length >= 33,
    ensures
        image_file::png_size(
            seq![0x89u8, 0x50, 0x4e, 0x47, 0x0d, 0x0a, 0x1a, 0x0a, 0, 0, 0, 13, 0x49, 0x48, 0x44, 0x52]
                + width + height + rest,
            length,
        ) == Some((big(width) as u32, big(height) as u32)),
{
    let start = seq![0x89u8, 0x50, 0x4e, 0x47, 0x0d, 0x0a, 0x1a, 0x0a, 0, 0, 0, 13, 0x49, 0x48, 0x44, 0x52];
    let b = start + width + height + rest;
    assert(start =~= image_file::png_start());
    assert(b.subrange(0, 16) =~= start);
    lemma_four(b, 16, width);
    lemma_four(b, 20, height);
}

/// What may stand before the frame of a JPEG file.
pub enum Lead {
    /// A byte that fills up.
    Fill,
    /// A marker without content.
    Bare(u8),
    /// A segment: its marker and its content.
    Segment(u8, Seq<u8>),
}

/// What stands there may stand there.
pub open spec fn is_lead(lead: Lead) -> bool {
    match lead {
        Lead::Fill => true,
        Lead::Bare(tag) => tag == 0x01 || 0xd0 <= tag <= 0xd7,
        Lead::Segment(tag, content) => {
            &&& content.len() <= 65_533
            &&& !(tag == 0x01 || 0xd0 <= tag <= 0xd7)
            &&& tag != 0xd9 && tag != 0xda && tag != 0xff
            &&& !(0xc0 <= tag <= 0xcf) || tag == 0xc4 || tag == 0xc8 || tag == 0xcc
        },
    }
}

/// The bytes of what stands there.
pub open spec fn lead_bytes(lead: Lead) -> Seq<u8> {
    match lead {
        Lead::Fill => seq![0xffu8],
        Lead::Bare(tag) => seq![0xffu8, tag],
        Lead::Segment(tag, content) => seq![
            0xffu8,
            tag,
            ((content.len() + 2) / 256) as u8,
            ((content.len() + 2) % 256) as u8,
        ] + content,
    }
}

/// The bytes of all that stands there.
pub open spec fn leads_bytes(leads: Seq<Lead>) -> Seq<u8>
    decreases leads.len(),
{
    if leads.len() == 0 {
        Seq::empty()
    } else {
        lead_bytes(leads[0]) + leads_bytes(leads.skip(1))
    }
}

/// The header of a frame with components of eight bits.
pub open spec fn frame_bytes(tag: u8, height: Seq<u8>, width: Seq<u8>, length: int) -> Seq<u8> {
    seq![0xffu8, tag, (length / 256) as u8, (length % 256) as u8, 8] + height + width
}

proof fn lemma_frame(
    before: Seq<u8>,
    leads: Seq<Lead>,
    tag: u8,
    height: Seq<u8>,
    width: Seq<u8>,
    length: int,
    rest: Seq<u8>,
)
    requires
        forall|i: int| 0 <= i < leads.len() ==> is_lead(#[trigger] leads[i]),
        0xc0 <= tag <= 0xcf && tag != 0xc4 && tag != 0xc8 && tag != 0xcc,
        height.len() == 2,
        width.len() == 2,
        7 <= length <= 65_535,
        before.len() + leads_bytes(leads).len() <= FRAME_SEARCH_END,
    ensures
        image_file::frame_size(
            before + leads_bytes(leads) + frame_bytes(tag, height, width, length) + rest,
            before.len() as int,
        ) == Some((big(width) as u32, big(height) as u32)),
    decreases leads.len(),
{
    let frame = frame_bytes(tag, height, width, length);
    let b = before + leads_bytes(leads) + frame + rest;
    let i = before.len() as int;
    if leads.len() == 0 {
        assert(frame.len() == 9);
        assert forall|k: int| 0 <= k < 9 implies b[i + k] == #[trigger] frame[k] by {
        }
        assert(b[i] == frame[0] && b[i + 1] == frame[1] && b[i + 2] == frame[2] && b[i + 3]
            == frame[3] && b[i + 4] == frame[4] && b[i + 5] == frame[5] && b[i + 6] == frame[6]
            && b[i + 7] == frame[7] && b[i + 8] == frame[8]);
        lemma_two(b, i + 5, height);
        lemma_two(b, i + 7, width);
        assert((length / 256) as u8 == length / 256 && (length % 256) as u8 == length % 256);
        assert(bytes::u16_be(b, i + 2) == Some(length as u16));
    } else {
        let one = lead_bytes(leads[0]);
        let others = leads.skip(1);
        assert(is_lead(leads[0]));
        assert forall|k: int| 0 <= k < others.len() implies is_lead(#[trigger] others[k]) by {
            assert(others[k] == leads[k + 1]);
        }
        lemma_frame(before + one, others, tag, height, width, length, rest);
        assert(before + one + leads_bytes(others) + frame + rest =~= b);
        match leads[0] {
            Lead::Fill => {
                let next = leads_bytes(others) + frame + rest;
                lemma_marker(others, frame);
                assert(b[i] == 0xff);
                assert(b[i + 1] == next[0]);
            },
            Lead::Bare(other) => {
                assert(b[i] == one[0] && b[i + 1] == one[1]);
            },
            Lead::Segment(other, content) => {
                let n = content.len() + 2;
                assert(b[i] == one[0] && b[i + 1] == one[1] && b[i + 2] == one[2] && b[i + 3]
                    == one[3]);
                assert((n / 256) as u8 == n / 256 && (n % 256) as u8 == n % 256);
                assert(bytes::u16_be(b, i + 2) == Some(n as u16));
                assert(one.len() == n + 2);
            },
        }
    }
}

proof fn lemma_marker(leads: Seq<Lead>, frame: Seq<u8>)
    requires
        frame.len() > 0,
        frame[0] == 0xff,
    ensures
        (leads_bytes(leads) + frame).len() > 0,
        (leads_bytes(leads) + frame)[0] == 0xff,
{
    if leads.len() > 0 {
        let one = lead_bytes(leads[0]);
        assert(one[0] == 0xff);
        assert((leads_bytes(leads) + frame)[0] == one[0]);
    }
}

/// A JPEG file tells its height, then its width, in its first frame, whatever
/// segments, bare markers and fill bytes stand before it.
pub proof fn law_jpeg_tells_its_size(
    leads: Seq<Lead>,
    tag: u8,
    height: Seq<u8>,
    width: Seq<u8>,
    length: int,
    rest: Seq<u8>,
)
    requires
        forall|i: int| 0 <= i < leads.len() ==> is_lead(#[trigger] leads[i]),
        0xc0 <= tag <= 0xcf && tag != 0xc4 && tag != 0xc8 && tag != 0xcc,
        height.len() == 2,
        width.len() == 2,
        7 <= length <= 65_535,
        2 + leads_bytes(leads).len() <= FRAME_SEARCH_END,
    ensures
        image_file::jpeg_size(
            seq![0xffu8, 0xd8] + leads_bytes(leads) + frame_bytes(tag, height, width, length) + rest
                + seq![0xffu8, 0xd9],
        ) == Some((big(width) as u32, big(height) as u32)),
{
    let start = seq![0xffu8, 0xd8];
    let tail = rest + seq![0xffu8, 0xd9];
    let b = start + leads_bytes(leads) + frame_bytes(tag, height, width, length) + rest + seq![
        0xffu8,
        0xd9,
    ];
    lemma_frame(start, leads, tag, height, width, length, tail);
    assert(b =~= start + leads_bytes(leads) + frame_bytes(tag, height, width, length) + tail);
    assert(b[0] == 0xff && b[1] == 0xd8);
    assert(b[b.len() - 2] == 0xff && b[b.len() - 1] == 0xd9);
}

} // verus!

//! How large the image of a JPEG file is.

use vstd::prelude::*;

use crate::bytes;
use crate::image::jpeg;
use crate::image::jpeg::Progress;

verus! {

/// A frame stands at `at`: its marker, its length, a precision of eight bits, the
/// height before the width, and the number of components.
pub open spec fn is_frame_at(b: Seq<u8>, at: int, width: int, height: int, components: int) -> bool {
    &&& 0 <= at
    &&& at + 10 <= b.len()
    &&& b[at] == 0xff
    &&& b[at + 1] == 0xc0 || b[at + 1] == 0xc2
    &&& b[at + 4] == 8
    &&& height == 256 * b[at + 5] + b[at + 6]
    &&& width == 256 * b[at + 7] + b[at + 8]
    &&& components == b[at + 9]
}

/// What is known of the frame stands in the file.
spec fn is_known(b: Seq<u8>, progress: Progress) -> bool {
    progress.frame matches Some((width, height, components)) ==> exists|at: int| #[trigger]
        is_frame_at(b, at, width as int, height as int, components as int)
}

proof fn lemma_fill(b: Seq<u8>, i: int)
    requires
        0 < i <= b.len(),
        b[i - 1] == 0xff,
    ensures
        i <= jpeg::fill_end(b, i) <= b.len(),
        b[jpeg::fill_end(b, i) - 1] == 0xff,
    decreases b.len() - i,
{
    if i < b.len() && b[i] == 0xff {
        lemma_fill(b, i + 1);
    }
}

proof fn lemma_marker(b: Seq<u8>, at: int, in_scan: bool, entropy: int)
    ensures
        jpeg::marker_from(b, at, in_scan, entropy) matches Some((marker, behind, _)) ==> {
            &&& 2 <= behind <= b.len()
            &&& b[behind - 1] == marker
            &&& b[behind - 2] == 0xff
        },
    decreases b.len() - at,
{
    if 0 <= at < b.len() {
        if b[at] == 0xff {
            lemma_fill(b, at + 1);
            let i = jpeg::fill_end(b, at + 1);
            if i < b.len() && in_scan && b[i] == 0 {
                lemma_marker(b, i + 1, in_scan, entropy + 1);
            } else if i < b.len() && in_scan && jpeg::is_restart(b[i]) {
                lemma_marker(b, i + 1, in_scan, entropy);
            }
        } else if in_scan {
            lemma_marker(b, at + 1, in_scan, entropy + 1);
        }
    }
}

proof fn lemma_info(b: Seq<u8>, at: int, progress: Progress)
    requires
        is_known(b, progress),
    ensures
        jpeg::info_from(b, at, progress) matches Ok(info) ==> exists|k: int| #[trigger]
            is_frame_at(b, k, info.width as int, info.height as int, info.components as int),
    decreases b.len() - at,
{
    lemma_marker(b, at, progress.in_scan, progress.entropy);
    if let Some((marker, behind, entropy)) = jpeg::marker_from(
        b,
        at,
        progress.in_scan,
        progress.entropy,
    ) {
        let now = Progress { entropy, ..progress };
        if marker == 0xd9 {
            if let Ok(info) = jpeg::finished(b, behind, now) {
                let frame = (info.width, info.height, info.components);
                assert(progress.frame == Some(frame));
                let k = choose|k: int| #[trigger]
                    is_frame_at(b, k, frame.0 as int, frame.1 as int, frame.2 as int);
                assert(is_frame_at(
                    b,
                    k,
                    info.width as int,
                    info.height as int,
                    info.components as int,
                ));
            }
        } else {
            if let Some(length) = bytes::u16_be(b, behind) {
                if length >= 2 && behind + length <= b.len() && behind > at {
                    if let Ok(next) = jpeg::segment_read(
                        b,
                        marker,
                        behind + 2,
                        length as int,
                        now,
                    ) {
                        if marker == 0xc0 || marker == 0xc2 {
                            let (width, height, components) = next.frame->0;
                            assert(is_frame_at(
                                b,
                                behind - 2,
                                width as int,
                                height as int,
                                components as int,
                            ));
                        }
                        let further = Progress { in_scan: marker == 0xda, ..next };
                        assert(is_known(b, further));
                        lemma_info(b, behind + length, further);
                    }
                }
            }
        }
    }
}

/// A JPEG file that can be embedded is as wide and as high as a frame in it says,
/// and has as many components.
pub proof fn law_jpeg_is_as_large_as_its_frame(b: Seq<u8>)
    ensures
        jpeg::jpeg_info(b) matches Ok(info) ==> exists|at: int| #[trigger]
            is_frame_at(b, at, info.width as int, info.height as int, info.components as int),
{
    lemma_info(b, 2, jpeg::fresh());
}

} // verus!

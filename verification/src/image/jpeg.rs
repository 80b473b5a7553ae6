//! Checking JPEG files before they are embedded as they are.

use vstd::prelude::*;

use crate::bytes;
use crate::bytes::{read_u16_be, read_u16_le, read_u32_be, read_u32_le};
use crate::image::error::{Fault, ImagePdfError};
use crate::image::raster;
use crate::image::raster::checked_dimensions;

verus! {

/// What the headers of a file say: its size, the number of its components, and
/// whether colours are transformed.
#[derive(Debug, Clone, Copy, PartialEq, Eq, Structural)]
pub struct JpegInfo {
    pub width: u32,
    pub height: u32,
    pub components: u8,
    pub color_transform: u8,
}

pub open spec fn is_restart(byte: u8) -> bool {
    0xd0 <= byte <= 0xd7
}

/// Where the run of bytes `0xff` that goes on at `i` ends.
pub open spec fn fill_end(b: Seq<u8>, i: int) -> int
    decreases b.len() - i,
{
    if i < 0 || i >= b.len() {
        b.len() as int
    } else if b[i] != 0xff {
        i
    } else {
        fill_end(b, i + 1)
    }
}

/// The next marker from `at` on, the place behind it, and how many bytes of
/// compressed data were passed. Such data is allowed only within a scan.
pub open spec fn marker_from(b: Seq<u8>, at: int, in_scan: bool, entropy: int) -> Option<
    (u8, int, int),
>
    decreases b.len() - at,
{
    if at < 0 || at >= b.len() {
        None
    } else if b[at] == 0xff {
        let i = fill_end(b, at + 1);
        if i <= at || i >= b.len() {
            None
        } else if in_scan && b[i] == 0 {
            marker_from(b, i + 1, in_scan, entropy + 1)
        } else if in_scan && is_restart(b[i]) {
            marker_from(b, i + 1, in_scan, entropy)
        } else if b[i] == 0 {
            None
        } else {
            Some((b[i], i + 1, entropy))
        }
    } else if in_scan {
        marker_from(b, at + 1, in_scan, entropy + 1)
    } else {
        None
    }
}

proof fn lemma_fill_end(b: Seq<u8>, i: int)
    requires
        0 <= i <= b.len(),
    ensures
        i <= fill_end(b, i) <= b.len(),
    decreases b.len() - i,
{
    if i < b.len() && b[i] == 0xff {
        lemma_fill_end(b, i + 1);
    }
}

proof fn lemma_marker_from(b: Seq<u8>, at: int, in_scan: bool, entropy: int)
    requires
        0 <= at,
    ensures
        marker_from(b, at, in_scan, entropy) matches Some((marker, behind, passed)) ==> {
            &&& at + 2 <= behind <= b.len()
            &&& entropy <= passed <= entropy + behind - at
        },
    decreases b.len() - at,
{
    if at < b.len() {
        if b[at] == 0xff {
            lemma_fill_end(b, at + 1);
            let i = fill_end(b, at + 1);
            if i < b.len() && in_scan {
                if b[i] == 0 {
                    lemma_marker_from(b, i + 1, in_scan, entropy + 1);
                } else if is_restart(b[i]) {
                    lemma_marker_from(b, i + 1, in_scan, entropy);
                }
            }
        } else if in_scan {
            lemma_marker_from(b, at + 1, in_scan, entropy + 1);
        }
    }
}

fn read_marker(b: &[u8], at: usize, in_scan: bool, entropy: u64) -> (r: Option<(u8, usize, u64)>)
    requires
        entropy <= at <= b@.len(),
    ensures
        match r {
            Some((marker, behind, passed)) => {
                &&& marker_from(b@, at as int, in_scan, entropy as int) == Some(
                    (marker, behind as int, passed as int),
                )
                &&& at + 2 <= behind <= b@.len()
                &&& passed <= behind
            },
            None => marker_from(b@, at as int, in_scan, entropy as int) is None,
        },
{
    let mut i: usize = at;
    let mut passed: u64 = entropy;
    proof {
        lemma_marker_from(b@, at as int, in_scan, entropy as int);
        assert(b.len() <= usize::MAX);
    }
    while i < b.len()
        invariant
            at <= i <= b@.len() <= usize::MAX,
            passed <= i,
            marker_from(b@, at as int, in_scan, entropy as int) matches Some((_, behind, passed))
                ==> at + 2 <= behind <= b@.len() && passed <= entropy + behind - at,
            entropy <= at,
            marker_from(b@, i as int, in_scan, passed as int) == marker_from(
                b@,
                at as int,
                in_scan,
                entropy as int,
            ),
        decreases b@.len() - i,
    {
        if b[i] == 0xff {
            let mut k: usize = i + 1;
            while k < b.len() && b[k] == 0xff
                invariant
                    i < k <= b@.len() <= usize::MAX,
                    fill_end(b@, k as int) == fill_end(b@, i + 1),
                decreases b@.len() - k,
            {
                k += 1;
            }
            if k >= b.len() {
                return None;
            }
            if in_scan && b[k] == 0 {
                passed += 1;
            } else if in_scan && b[k] >= 0xd0 && b[k] <= 0xd7 {
            } else if b[k] == 0 {
                return None;
            } else {
                return Some((b[k], k + 1, passed));
            }
            i = k + 1;
        } else if in_scan {
            passed += 1;
            i += 1;
        } else {
            return None;
        }
    }
    None
}

/// A number in the byte order that the file names.
pub open spec fn number16(b: Seq<u8>, i: int, little: bool) -> Option<u16> {
    if little {
        bytes::u16_le(b, i)
    } else {
        bytes::u16_be(b, i)
    }
}

pub open spec fn number32(b: Seq<u8>, i: int, little: bool) -> Option<u32> {
    if little {
        bytes::u32_le(b, i)
    } else {
        bytes::u32_be(b, i)
    }
}

/// The orientation that the entries from the `i`-th on give; upright if none
/// does.
pub open spec fn orientation_from(
    b: Seq<u8>,
    little: bool,
    offset: int,
    count: int,
    i: int,
) -> Option<u16>
    decreases count - i,
{
    let entry = offset + 2 + 12 * i;
    if i < 0 || i >= count {
        Some(1)
    } else if number16(b, entry, little) == Some(0x0112u16) {
        if number16(b, entry + 2, little) != Some(3u16) || number32(b, entry + 4, little) != Some(
            1u32,
        ) {
            None
        } else {
            number16(b, entry + 8, little)
        }
    } else {
        orientation_from(b, little, offset, count, i + 1)
    }
}

/// The orientation that an EXIF segment gives, if the segment is well-formed.
pub open spec fn orientation(segment: Seq<u8>) -> Option<u16> {
    let b = segment.skip(6);
    if segment.len() < 8 {
        None
    } else if !(b[0] == 0x49 && b[1] == 0x49) && !(b[0] == 0x4d && b[1] == 0x4d) {
        None
    } else {
        let little = b[0] == 0x49;
        if number16(b, 2, little) != Some(42u16) {
            None
        } else {
            match number32(b, 4, little) {
                None => None,
                Some(offset) => match number16(b, offset as int, little) {
                    None => None,
                    Some(count) => orientation_from(b, little, offset as int, count as int, 0),
                },
            }
        }
    }
}

fn read_number16(b: &[u8], i: u64, little: bool) -> (r: Option<u16>)
    ensures
        r == number16(b@, i as int, little),
{
    if i > b.len() as u64 {
        return None;
    }
    if little {
        read_u16_le(b, i as usize)
    } else {
        read_u16_be(b, i as usize)
    }
}

fn read_number32(b: &[u8], i: u64, little: bool) -> (r: Option<u32>)
    ensures
        r == number32(b@, i as int, little),
{
    if i > b.len() as u64 {
        return None;
    }
    if little {
        read_u32_le(b, i as usize)
    } else {
        read_u32_be(b, i as usize)
    }
}

/// The orientation that an EXIF segment gives.
pub fn exif_orientation(segment: &[u8]) -> (r: Result<u16, ImagePdfError>)
    ensures
        match orientation(segment@) {
            Some(value) => r is Ok && r->Ok_0 == value,
            None => r is Err && r->Err_0@ == Fault::InvalidImage,
        },
{
    if segment.len() < 8 {
        return Err(ImagePdfError::InvalidImage);
    }
    let b = bytes::tail(segment, 6);
    let little = b[0] == 0x49 && b[1] == 0x49;
    if !little && !(b[0] == 0x4d && b[1] == 0x4d) {
        return Err(ImagePdfError::InvalidImage);
    }
    match read_number16(b, 2, little) {
        Some(42) => {},
        _ => {
            return Err(ImagePdfError::InvalidImage);
        },
    }
    let offset: u64 = match read_number32(b, 4, little) {
        None => {
            return Err(ImagePdfError::InvalidImage);
        },
        Some(offset) => offset as u64,
    };
    let count: u64 = match read_number16(b, offset, little) {
        None => {
            return Err(ImagePdfError::InvalidImage);
        },
        Some(count) => count as u64,
    };
    let mut i: u64 = 0;
    while i < count
        invariant
            i <= count <= u16::MAX,
            offset <= u32::MAX,
            orientation(segment@) == orientation_from(
                b@,
                little,
                offset as int,
                count as int,
                i as int,
            ),
        decreases count - i,
    {
        let entry: u64 = offset + 2 + 12 * i;
        if let Some(0x0112) = read_number16(b, entry, little) {
            let kind = read_number16(b, entry + 2, little);
            let length = read_number32(b, entry + 4, little);
            let fits = match (kind, length) {
                (Some(kind), Some(length)) => kind == 3 && length == 1,
                _ => false,
            };
            if !fits {
                return Err(ImagePdfError::InvalidImage);
            }
            return match read_number16(b, entry + 8, little) {
                Some(value) => Ok(value),
                None => Err(ImagePdfError::InvalidImage),
            };
        }
        i += 1;
    }
    Ok(1)
}

/// How often the `i`-th component of a frame is sampled across and down.
pub open spec fn factors(b: Seq<u8>, at: int, i: int) -> (int, int) {
    ((b[at + 3 * i + 1] / 16) as int, (b[at + 3 * i + 1] % 16) as int)
}

pub open spec fn valid_factors(b: Seq<u8>, at: int, n: int) -> bool {
    forall|i: int|
        0 <= i < n ==> 1 <= (#[trigger] factors(b, at, i)).0 <= 4 && 1 <= factors(b, at, i).1 <= 4
}

pub open spec fn larger(a: int, b: int) -> int {
    if a > b {
        a
    } else {
        b
    }
}

/// The largest factors of the first `n` components.
pub open spec fn most_factors(b: Seq<u8>, at: int, n: int) -> (int, int)
    decreases n,
{
    if n <= 0 {
        (0, 0)
    } else {
        let (across, down) = most_factors(b, at, n - 1);
        (larger(across, factors(b, at, n - 1).0), larger(down, factors(b, at, n - 1).1))
    }
}

pub open spec fn ceiling(a: int, b: int) -> int {
    (a + b - 1) / b
}

/// How many blocks of eight by eight samples the first `n` components have.
pub open spec fn block_count(
    b: Seq<u8>,
    at: int,
    n: int,
    width: int,
    height: int,
    most: (int, int),
) -> int
    decreases n,
{
    if n <= 0 {
        0
    } else {
        let (across, down) = factors(b, at, n - 1);
        block_count(b, at, n - 1, width, height, most) + ceiling(width * across, 8 * most.0)
            * ceiling(height * down, 8 * most.1)
    }
}

/// Where the check of a file stands.
pub struct Progress {
    /// Size and number of components, once the frame was seen.
    pub frame: Option<(u32, u32, u8)>,
    /// The fewest bits that the blocks of the frame can take.
    pub least_bits: int,
    pub scanned: bool,
    pub quantization: bool,
    pub in_scan: bool,
    pub entropy: int,
    pub transform: u8,
}

pub open spec fn fresh() -> Progress {
    Progress {
        frame: None,
        least_bits: 0,
        scanned: false,
        quantization: false,
        in_scan: false,
        entropy: 0,
        transform: 1,
    }
}

/// What a frame header says.
pub open spec fn frame_read(
    b: Seq<u8>,
    marker: u8,
    at: int,
    length: int,
    progress: Progress,
) -> Result<Progress, Fault> {
    if progress.frame is Some || length < 11 {
        Err(Fault::InvalidImage)
    } else {
        let height = bytes::u16_be(b, at + 1)->0 as u32;
        let width = bytes::u16_be(b, at + 3)->0 as u32;
        let components = b[at + 5];
        if b[at] != 8 || components != 1 && components != 3 || length != 8 + 3 * components {
            Err(Fault::UnsupportedImage)
        } else if !raster::allowed_size(width as int, height as int) {
            Err(Fault::TooLarge)
        } else if !valid_factors(b, at + 6, components as int) {
            Err(Fault::InvalidImage)
        } else {
            let blocks = block_count(
                b,
                at + 6,
                components as int,
                width as int,
                height as int,
                most_factors(b, at + 6, components as int),
            );
            Ok(
                Progress {
                    frame: Some((width, height, components)),
                    least_bits: if marker == 0xc0 {
                        2 * blocks
                    } else {
                        blocks
                    },
                    ..progress
                },
            )
        }
    }
}

/// The marker begins a frame that is not supported.
pub open spec fn is_other_frame(marker: u8) -> bool {
    marker == 0xc1 || marker == 0xc3 || 0xc5 <= marker <= 0xcf
}

pub open spec fn word_exif() -> Seq<u8> {
    seq![0x45u8, 0x78, 0x69, 0x66, 0, 0]
}

pub open spec fn word_icc() -> Seq<u8> {
    seq![0x49u8, 0x43, 0x43, 0x5f, 0x50, 0x52, 0x4f, 0x46, 0x49, 0x4c, 0x45, 0]
}

pub open spec fn word_adobe() -> Seq<u8> {
    seq![0x41u8, 0x64, 0x6f, 0x62, 0x65]
}

/// What a segment does whose content stands from `at` to `end`.
pub open spec fn segment_read(
    b: Seq<u8>,
    marker: u8,
    at: int,
    length: int,
    progress: Progress,
) -> Result<Progress, Fault> {
    if marker == 0xc0 || marker == 0xc2 {
        frame_read(b, marker, at, length, progress)
    } else if marker == 0xda {
        match progress.frame {
            None => Err(Fault::InvalidImage),
            Some((_, _, components)) => if at >= b.len() || b[at] == 0 || b[at] > components
                || length != 6 + 2 * b[at] || !progress.quantization {
                Err(Fault::InvalidImage)
            } else {
                Ok(Progress { scanned: true, ..progress })
            },
        }
    } else if marker == 0xdb {
        Ok(Progress { quantization: true, ..progress })
    } else if marker == 0xe1 {
        let segment = b.subrange(at, at + length - 2);
        if !bytes::occurs(segment, 0, word_exif()) {
            Ok(progress)
        } else {
            match orientation(segment) {
                None => Err(Fault::InvalidImage),
                Some(value) => if value != 1 {
                    Err(Fault::UnsupportedImage)
                } else {
                    Ok(progress)
                },
            }
        }
    } else if marker == 0xe2 {
        if length >= 14 && bytes::occurs(b, at, word_icc()) {
            Err(Fault::UnsupportedImage)
        } else {
            Ok(progress)
        }
    } else if marker == 0xee {
        if length >= 14 && bytes::occurs(b, at, word_adobe()) {
            if b[at + 11] > 1 {
                Err(Fault::UnsupportedImage)
            } else {
                Ok(Progress { transform: b[at + 11], ..progress })
            }
        } else {
            Ok(progress)
        }
    } else if is_other_frame(marker) {
        Err(Fault::UnsupportedImage)
    } else {
        Ok(progress)
    }
}

/// The verdict at the end marker, behind which the file is at `at`.
pub open spec fn finished(b: Seq<u8>, at: int, progress: Progress) -> Result<JpegInfo, Fault> {
    match progress.frame {
        None => Err(Fault::InvalidImage),
        Some((width, height, components)) => if !progress.scanned || !progress.quantization || at
            != b.len() || progress.entropy < (progress.least_bits + 7) / 8 {
            Err(Fault::InvalidImage)
        } else {
            Ok(JpegInfo { width, height, components, color_transform: progress.transform })
        },
    }
}

/// What the rest of a file from `at` on leads to.
pub open spec fn info_from(b: Seq<u8>, at: int, progress: Progress) -> Result<JpegInfo, Fault>
    decreases b.len() - at,
{
    match marker_from(b, at, progress.in_scan, progress.entropy) {
        None => Err(Fault::InvalidImage),
        Some((marker, behind, entropy)) => {
            let progress = Progress { entropy, ..progress };
            if marker == 0xd9 {
                finished(b, behind, progress)
            } else if marker == 0xd8 || marker == 0x01 || is_restart(marker) {
                Err(Fault::InvalidImage)
            } else {
                match bytes::u16_be(b, behind) {
                    None => Err(Fault::InvalidImage),
                    Some(length) => if length < 2 || behind + length > b.len() || behind <= at {
                        Err(Fault::InvalidImage)
                    } else {
                        match segment_read(b, marker, behind + 2, length as int, progress) {
                            Err(fault) => Err(fault),
                            Ok(progress) => info_from(
                                b,
                                behind + length,
                                Progress { in_scan: marker == 0xda, ..progress },
                            ),
                        }
                    },
                }
            }
        },
    }
}

/// What a file says of itself, if it is one that can be embedded.
pub open spec fn jpeg_info(b: Seq<u8>) -> Result<JpegInfo, Fault> {
    if b.len() < 2 || b[0] != 0xff || b[1] != 0xd8 {
        Err(Fault::InvalidImage)
    } else {
        info_from(b, 2, fresh())
    }
}

/// A `Progress` as it is kept.
struct Inspection {
    frame: Option<(u32, u32, u8)>,
    least_bits: u64,
    scanned: bool,
    quantization: bool,
    in_scan: bool,
    entropy: u64,
    transform: u8,
}

impl View for Inspection {
    type V = Progress;

    closed spec fn view(&self) -> Progress {
        Progress {
            frame: self.frame,
            least_bits: self.least_bits as int,
            scanned: self.scanned,
            quantization: self.quantization,
            in_scan: self.in_scan,
            entropy: self.entropy as int,
            transform: self.transform,
        }
    }
}

/// The blocks of a frame, at most three components of it.
fn count_blocks(b: &[u8], at: usize, components: usize, width: u32, height: u32) -> (r: Option<u64>)
    requires
        1 <= components <= 3,
        at + 3 * components <= b@.len(),
        raster::allowed_size(width as int, height as int),
    ensures
        match r {
            Some(blocks) => {
                &&& valid_factors(b@, at as int, components as int)
                &&& blocks == block_count(
                    b@,
                    at as int,
                    components as int,
                    width as int,
                    height as int,
                    most_factors(b@, at as int, components as int),
                )
                &&& blocks <= 0x1_0000_0000_0000
            },
            None => !valid_factors(b@, at as int, components as int),
        },
{
    assert(b.len() <= usize::MAX);
    let mut across: u64 = 0;
    let mut down: u64 = 0;
    let mut i: usize = 0;
    while i < components
        invariant
            i <= components <= 3,
            at + 3 * components <= b@.len() <= usize::MAX,
            valid_factors(b@, at as int, i as int),
            most_factors(b@, at as int, i as int) == (across as int, down as int),
            across <= 4,
            down <= 4,
            i > 0 ==> across >= 1 && down >= 1,
        decreases components - i,
    {
        let h: u64 = (b[at + 3 * i + 1] / 16) as u64;
        let v: u64 = (b[at + 3 * i + 1] % 16) as u64;
        assert((h as int, v as int) == factors(b@, at as int, i as int));
        if h < 1 || h > 4 || v < 1 || v > 4 {
            return None;
        }
        if h > across {
            across = h;
        }
        if v > down {
            down = v;
        }
        i += 1;
    }
    let ghost most = (across as int, down as int);
    let mut blocks: u64 = 0;
    i = 0;
    while i < components
        invariant
            i <= components <= 3,
            at + 3 * components <= b@.len() <= usize::MAX,
            valid_factors(b@, at as int, components as int),
            most == (across as int, down as int),
            1 <= across <= 4,
            1 <= down <= 4,
            width <= 20_000,
            height <= 20_000,
            blocks == block_count(
                b@,
                at as int,
                i as int,
                width as int,
                height as int,
                most,
            ),
            blocks <= i * 100_000_000_000,
        decreases components - i,
    {
        let h: u64 = (b[at + 3 * i + 1] / 16) as u64;
        let v: u64 = (b[at + 3 * i + 1] % 16) as u64;
        assert((h as int, v as int) == factors(b@, at as int, i as int));
        assert(0 <= width * h <= 80_000 && 0 <= height * v <= 80_000) by (nonlinear_arith)
            requires
                0 <= width <= 20_000,
                0 <= height <= 20_000,
                1 <= h <= 4,
                1 <= v <= 4,
        ;
        let columns: u64 = (width as u64 * h + (8 * across - 1)) / (8 * across);
        let rows: u64 = (height as u64 * v + (8 * down - 1)) / (8 * down);
        assert(columns == ceiling(width * h, 8 * most.0));
        assert(rows == ceiling(height * v, 8 * most.1));
        assert(columns <= 100_000 && rows <= 100_000) by (nonlinear_arith)
            requires
                columns == (width * h + (8 * across - 1)) / (8 * across as int),
                rows == (height * v + (8 * down - 1)) / (8 * down as int),
                0 <= width * h <= 80_000,
                0 <= height * v <= 80_000,
                1 <= across <= 4,
                1 <= down <= 4,
        ;
        assert(columns * rows <= 10_000_000_000) by (nonlinear_arith)
            requires
                0 <= columns <= 100_000,
                0 <= rows <= 100_000,
        ;
        blocks = blocks + columns * rows;
        i += 1;
    }
    Some(blocks)
}

fn begins_with(b: &[u8], at: usize, word: &[u8]) -> (r: bool)
    ensures
        r == bytes::occurs(b@, at as int, word@),
{
    bytes::occurs_at(b, at, word)
}

fn exif_word() -> (r: [u8; 6])
    ensures
        r@ == word_exif(),
{
    let r: [u8; 6] = [0x45, 0x78, 0x69, 0x66, 0, 0];
    assert(r@ =~= word_exif());
    r
}

fn icc_word() -> (r: [u8; 12])
    ensures
        r@ == word_icc(),
{
    let r: [u8; 12] = [0x49, 0x43, 0x43, 0x5f, 0x50, 0x52, 0x4f, 0x46, 0x49, 0x4c, 0x45, 0];
    assert(r@ =~= word_icc());
    r
}

fn adobe_word() -> (r: [u8; 5])
    ensures
        r@ == word_adobe(),
{
    let r: [u8; 5] = [0x41, 0x64, 0x6f, 0x62, 0x65];
    assert(r@ =~= word_adobe());
    r
}

impl Inspection {
    closed spec fn wf(&self) -> bool {
        self.least_bits <= 0x4_0000_0000_0000
    }

    fn read_frame(&mut self, b: &[u8], marker: u8, at: usize, length: u16) -> (r: Result<
        (),
        ImagePdfError,
    >)
        requires
            old(self).wf(),
            2 <= length,
            2 <= at,
            at - 2 + length <= b@.len(),
        ensures
            final(self).wf(),
            match frame_read(b@, marker, at as int, length as int, old(self)@) {
                Ok(progress) => r is Ok && final(self)@ == progress,
                Err(fault) => r is Err && r->Err_0@ == fault,
            },
    {
        assert(b.len() <= usize::MAX);
        if self.frame.is_some() || length < 11 {
            return Err(ImagePdfError::InvalidImage);
        }
        let (height, width): (u32, u32) = match (read_u16_be(b, at + 1), read_u16_be(b, at + 3)) {
            (Some(height), Some(width)) => (height as u32, width as u32),
            _ => {
                return Err(ImagePdfError::InvalidImage);
            },
        };
        let components: u8 = b[at + 5];
        if b[at] != 8 || (components != 1 && components != 3) || length as u32 != 8 + 3
            * components as u32 {
            return Err(ImagePdfError::UnsupportedImage);
        }
        match checked_dimensions(width, height) {
            Err(error) => {
                return Err(error);
            },
            Ok(()) => {},
        }
        let blocks: u64 = match count_blocks(b, at + 6, components as usize, width, height) {
            None => {
                return Err(ImagePdfError::InvalidImage);
            },
            Some(blocks) => blocks,
        };
        self.least_bits = if marker == 0xc0 {
            2 * blocks
        } else {
            blocks
        };
        self.frame = Some((width, height, components));
        Ok(())
    }

    fn read_segment(&mut self, b: &[u8], marker: u8, at: usize, length: u16) -> (r: Result<
        (),
        ImagePdfError,
    >)
        requires
            old(self).wf(),
            2 <= length,
            2 <= at,
            at - 2 + length <= b@.len(),
        ensures
            final(self).wf(),
            match segment_read(b@, marker, at as int, length as int, old(self)@) {
                Ok(progress) => r is Ok && final(self)@ == progress,
                Err(fault) => r is Err && r->Err_0@ == fault,
            },
    {
        assert(b.len() <= usize::MAX);
        if marker == 0xc0 || marker == 0xc2 {
            return self.read_frame(b, marker, at, length);
        } else if marker == 0xda {
            let components: u8 = match self.frame {
                None => {
                    return Err(ImagePdfError::InvalidImage);
                },
                Some((_, _, components)) => components,
            };
            if at >= b.len() || b[at] == 0 || b[at] > components || length as u32 != 6 + 2
                * b[at] as u32 || !self.quantization {
                return Err(ImagePdfError::InvalidImage);
            }
            self.scanned = true;
        } else if marker == 0xdb {
            self.quantization = true;
        } else if marker == 0xe1 {
            let segment = vstd::slice::slice_subrange(b, at, at + (length as usize - 2));
            if begins_with(segment, 0, exif_word().as_slice()) {
                match exif_orientation(segment) {
                    Err(error) => {
                        return Err(error);
                    },
                    Ok(value) => {
                        if value != 1 {
                            return Err(ImagePdfError::UnsupportedImage);
                        }
                    },
                }
            }
        } else if marker == 0xe2 {
            if length >= 14 && begins_with(b, at, icc_word().as_slice()) {
                return Err(ImagePdfError::UnsupportedImage);
            }
        } else if marker == 0xee {
            if length >= 14 && begins_with(b, at, adobe_word().as_slice()) {
                if b[at + 11] > 1 {
                    return Err(ImagePdfError::UnsupportedImage);
                }
                self.transform = b[at + 11];
            }
        } else if marker == 0xc1 || marker == 0xc3 || (marker >= 0xc5 && marker <= 0xcf) {
            return Err(ImagePdfError::UnsupportedImage);
        }
        Ok(())
    }
}

/// Checks that a file can be embedded, and reads what its headers say.
pub fn inspect_jpeg<F: Fn() -> bool>(b: &[u8], should_stop: &F) -> (r: Result<
    JpegInfo,
    ImagePdfError,
>)
    requires
        should_stop.requires(()),
    ensures
        crate::image::error::halted(r, *should_stop) || match jpeg_info(b@) {
            Ok(info) => r is Ok && r->Ok_0 == info,
            Err(fault) => r is Err && r->Err_0@ == fault,
        },
{
    assert(b.len() <= usize::MAX);
    if b.len() < 2 || b[0] != 0xff || b[1] != 0xd8 {
        return Err(ImagePdfError::InvalidImage);
    }
    let mut seen = Inspection {
        frame: None,
        least_bits: 0,
        scanned: false,
        quantization: false,
        in_scan: false,
        entropy: 0,
        transform: 1,
    };
    let mut at: usize = 2;
    loop
        invariant
            2 <= at <= b@.len() <= usize::MAX,
            seen.wf(),
            seen.entropy <= at,
            should_stop.requires(()),
            jpeg_info(b@) == info_from(b@, at as int, seen@),
        decreases b@.len() - at,
    {
        if should_stop() {
            return Err(ImagePdfError::Cancelled);
        }
        let (marker, behind, entropy): (u8, usize, u64) = match read_marker(
            b,
            at,
            seen.in_scan,
            seen.entropy,
        ) {
            None => {
                return Err(ImagePdfError::InvalidImage);
            },
            Some((marker, behind, entropy)) => (marker, behind, entropy),
        };
        seen.entropy = entropy;
        if marker == 0xd9 {
            return match seen.frame {
                None => Err(ImagePdfError::InvalidImage),
                Some((width, height, components)) => if !seen.scanned || !seen.quantization
                    || behind != b.len() || seen.entropy < (seen.least_bits + 7) / 8 {
                    Err(ImagePdfError::InvalidImage)
                } else {
                    Ok(JpegInfo { width, height, components, color_transform: seen.transform })
                },
            };
        }
        if marker == 0xd8 || marker == 0x01 || (marker >= 0xd0 && marker <= 0xd7) {
            return Err(ImagePdfError::InvalidImage);
        }
        let length: u16 = match read_u16_be(b, behind) {
            None => {
                return Err(ImagePdfError::InvalidImage);
            },
            Some(length) => length,
        };
        if length < 2 || length as usize > b.len() - behind {
            return Err(ImagePdfError::InvalidImage);
        }
        let ghost before = seen@;
        match seen.read_segment(b, marker, behind + 2, length) {
            Err(error) => {
                return Err(error);
            },
            Ok(()) => {},
        }
        seen.in_scan = marker == 0xda;
        at = behind + length as usize;
        assert(segment_read(b@, marker, behind + 2, length as int, before) matches Ok(p)
            ==> p.entropy == before.entropy);
    }
}

} // verus!

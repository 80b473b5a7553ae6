//! Looks into the first directory of a TIFF file before it is decoded.

use vstd::prelude::*;

verus! {

pub const TAG_WIDTH: u16 = 256;

pub const TAG_HEIGHT: u16 = 257;

pub const TAG_STRIP_OFFSETS: u16 = 273;

pub const TAG_SAMPLES_PER_PIXEL: u16 = 277;

pub const TAG_ROWS_PER_STRIP: u16 = 278;

pub const TAG_STRIP_SIZES: u16 = 279;

pub const TAG_PLANAR_CONFIGURATION: u16 = 284;

pub const TAG_TILE_WIDTH: u16 = 322;

pub const TAG_TILE_LENGTH: u16 = 323;

pub const TAG_TILE_OFFSETS: u16 = 324;

pub const TAG_TILE_SIZES: u16 = 325;

/// The number in the `n` bytes from `i` on.
pub open spec fn number(b: Seq<u8>, big_endian: bool, i: int, n: int) -> int
    decreases n,
{
    if n <= 0 {
        0
    } else if big_endian {
        number(b, big_endian, i, n - 1) * 256 + b[i + n - 1]
    } else {
        number(b, big_endian, i + 1, n - 1) * 256 + b[i]
    }
}

/// One more than the largest number of `n` bytes.
spec fn bound(n: int) -> int
    decreases n,
{
    if n <= 0 {
        1
    } else {
        bound(n - 1) * 256
    }
}

proof fn lemma_number(b: Seq<u8>, big_endian: bool, i: int, n: int)
    requires
        0 <= n <= 8,
    ensures
        0 <= number(b, big_endian, i, n) < bound(n),
        bound(n) <= 0x1_0000_0000_0000_0000,
        n <= 4 ==> bound(n) <= 0x1_0000_0000,
        n <= 2 ==> bound(n) <= 0x1_0000,
        n == 1 ==> bound(n) == 0x100,
    decreases n,
{
    reveal_with_fuel(bound, 10);
    if n > 0 {
        if big_endian {
            lemma_number(b, big_endian, i, n - 1);
        } else {
            lemma_number(b, big_endian, i + 1, n - 1);
        }
    }
}

fn read_number(b: &[u8], big_endian: bool, i: usize, n: usize) -> (r: u64)
    requires
        n <= 8,
        i + n <= b@.len(),
    ensures
        r == number(b@, big_endian, i as int, n as int),
    decreases n,
{
    proof {
        lemma_number(b@, big_endian, i as int, n as int);
    }
    assert(b.len() <= usize::MAX);
    if n == 0 {
        0
    } else if big_endian {
        read_number(b, big_endian, i, n - 1) * 256 + b[i + n - 1] as u64
    } else {
        read_number(b, big_endian, i + 1, n - 1) * 256 + b[i] as u64
    }
}

/// A list of entries: how its numbers are written, whether they are those of a
/// large file, where the first entry is, and how many entries there are.
#[derive(Debug, Clone, Copy, PartialEq, Eq, Structural)]
pub struct TiffDirectory {
    pub big_endian: bool,
    pub large: bool,
    pub first: usize,
    pub count: u64,
}

/// An entry has one of the types of the format.
pub open spec fn is_kind(kind: int) -> bool {
    1 <= kind <= 13 || 16 <= kind <= 18
}

impl TiffDirectory {
    pub open spec fn kind(self, b: Seq<u8>, at: int) -> int {
        number(b, self.big_endian, at + 2, 2)
    }

    /// How many bytes of the file the entry at `at` takes up. The numbers of a type
    /// that is not known are passed over as those of a small file.
    pub open spec fn entry_size(self, b: Seq<u8>, at: int) -> int {
        if self.large && is_kind(self.kind(b, at)) {
            20
        } else {
            12
        }
    }

    /// The file holds the entry at `at`.
    pub open spec fn holds(self, b: Seq<u8>, at: int) -> bool {
        at + 12 <= b.len() && at + self.entry_size(b, at) <= b.len()
    }

    /// Where the `left` entries from `at` on end, if the file holds them.
    pub open spec fn end_from(self, b: Seq<u8>, at: int, left: int) -> Option<int>
        decreases left,
    {
        if left <= 0 {
            Some(at)
        } else if !self.holds(b, at) {
            None
        } else {
            self.end_from(b, at + self.entry_size(b, at), left - 1)
        }
    }

    /// The last of the `left` entries from `at` on that stands for `tag`, or
    /// `found`.
    pub open spec fn last_from(
        self,
        b: Seq<u8>,
        tag: u16,
        at: int,
        left: int,
        found: Option<int>,
    ) -> Option<int>
        decreases left,
    {
        if left <= 0 || !self.holds(b, at) {
            found
        } else {
            self.last_from(
                b,
                tag,
                at + self.entry_size(b, at),
                left - 1,
                if number(b, self.big_endian, at, 2) == tag && is_kind(self.kind(b, at)) {
                    Some(at)
                } else {
                    found
                },
            )
        }
    }

    /// The entry that counts for `tag`.
    pub open spec fn entry(self, b: Seq<u8>, tag: u16) -> Option<int> {
        self.last_from(b, tag, self.first as int, self.count as int, None)
    }

    /// The number that the entry at `at` stands for, if it is one number. A number
    /// that is too wide for the entry of a small file stands elsewhere. `pointers`
    /// tells whether places in the file count as numbers.
    pub open spec fn value(self, b: Seq<u8>, at: int, pointers: bool) -> Option<int> {
        let kind = self.kind(b, at);
        let (count, place) = if self.large {
            (number(b, self.big_endian, at + 4, 8), at + 12)
        } else {
            (number(b, self.big_endian, at + 4, 4), at + 8)
        };
        let far = number(b, self.big_endian, place, 4);
        if count != 1 || (kind == 13 || kind == 18) && !pointers {
            None
        } else if kind == 1 || kind == 7 {
            Some(number(b, self.big_endian, place, 1))
        } else if kind == 3 {
            Some(number(b, self.big_endian, place, 2))
        } else if kind == 4 || kind == 13 {
            Some(far)
        } else if kind != 16 && kind != 18 {
            None
        } else if self.large {
            Some(number(b, self.big_endian, place, 8))
        } else if far + 8 <= b.len() {
            Some(number(b, self.big_endian, far, 8))
        } else {
            None
        }
    }

    /// What is known of a number: `default` without an entry, and nothing for an
    /// entry that is no number up to `most`.
    pub open spec fn number_of(
        self,
        b: Seq<u8>,
        tag: u16,
        most: int,
        default: Option<int>,
    ) -> Option<int> {
        match self.entry(b, tag) {
            None => default,
            Some(at) => match self.value(b, at, most > u16::MAX) {
                Some(n) => if n <= most {
                    Some(n)
                } else {
                    None
                },
                None => None,
            },
        }
    }
}

/// The directory that begins at `first`, if the file holds it and what follows it.
pub open spec fn directory_at(
    b: Seq<u8>,
    big_endian: bool,
    large: bool,
    first: int,
    count: int,
) -> Option<TiffDirectory> {
    let d = TiffDirectory { big_endian, large, first: first as usize, count: count as u64 };
    match d.end_from(b, first, count) {
        Some(end) => if end + (if large {
            8int
        } else {
            4
        }) <= b.len() {
            Some(d)
        } else {
            None
        },
        None => None,
    }
}

/// The first directory of a file.
pub open spec fn directory(b: Seq<u8>) -> Option<TiffDirectory> {
    if b.len() < 8 || b[0] != b[1] || (b[0] != 0x49 && b[0] != 0x4d) {
        None
    } else {
        let big_endian = b[0] == 0x4d;
        if number(b, big_endian, 2, 2) == 42 {
            let offset = number(b, big_endian, 4, 4);
            if offset + 2 > b.len() {
                None
            } else {
                directory_at(b, big_endian, false, offset + 2, number(b, big_endian, offset, 2))
            }
        } else if number(b, big_endian, 2, 2) == 43 && b.len() >= 16 && number(b, big_endian, 4, 2)
            == 8 && number(b, big_endian, 6, 2) == 0 {
            let offset = number(b, big_endian, 8, 8);
            if offset + 8 > b.len() {
                None
            } else {
                directory_at(b, big_endian, true, offset + 8, number(b, big_endian, offset, 8))
            }
        } else {
            None
        }
    }
}

/// Whether the file holds an entry, and how many bytes it takes up.
fn measure_entry(b: &[u8], d: &TiffDirectory, at: usize) -> (r: Option<usize>)
    requires
        at <= b@.len(),
    ensures
        r is Some <==> d.holds(b@, at as int),
        r is Some ==> r->0 == d.entry_size(b@, at as int) && r->0 >= 12 && at + r->0 <= b@.len(),
{
    if b.len() - at < 12 {
        return None;
    }
    let kind = read_number(b, d.big_endian, at + 2, 2);
    let size: usize = if d.large && (kind >= 1 && kind <= 13 || kind >= 16 && kind <= 18) {
        20
    } else {
        12
    };
    if b.len() - at < size {
        None
    } else {
        Some(size)
    }
}

fn make_directory(b: &[u8], big_endian: bool, large: bool, first: usize, count: u64) -> (r: Option<
    TiffDirectory,
>)
    requires
        first <= b@.len(),
    ensures
        r == directory_at(b@, big_endian, large, first as int, count as int),
        r is Some ==> r->0.first <= b@.len(),
{
    let d = TiffDirectory { big_endian, large, first, count };
    let mut at: usize = first;
    let mut left: u64 = count;
    while left > 0
        invariant
            at <= b@.len(),
            d.end_from(b@, at as int, left as int) == d.end_from(b@, first as int, count as int),
            d == (TiffDirectory { big_endian, large, first, count }),
        decreases left,
    {
        assert(b.len() <= usize::MAX);
        match measure_entry(b, &d, at) {
            None => {
                return None;
            },
            Some(size) => {
                at += size;
            },
        }
        left -= 1;
    }
    let next: usize = if large {
        8
    } else {
        4
    };
    if b.len() - at < next {
        None
    } else {
        Some(d)
    }
}

fn find_directory(b: &[u8]) -> (r: Option<TiffDirectory>)
    ensures
        r == directory(b@),
        r is Some ==> r->0.first <= b@.len(),
{
    if b.len() < 8 || b[0] != b[1] || (b[0] != 0x49 && b[0] != 0x4d) {
        return None;
    }
    let big_endian = b[0] == 0x4d;
    let version = read_number(b, big_endian, 2, 2);
    if version == 42 {
        let offset = read_number(b, big_endian, 4, 4);
        if offset > (b.len() - 2) as u64 {
            return None;
        }
        let offset: usize = offset as usize;
        let count = read_number(b, big_endian, offset, 2);
        return make_directory(b, big_endian, false, offset + 2, count);
    }
    if version != 43 || b.len() < 16 || read_number(b, big_endian, 4, 2) != 8 || read_number(
        b,
        big_endian,
        6,
        2,
    ) != 0 {
        return None;
    }
    let offset = read_number(b, big_endian, 8, 8);
    if offset > (b.len() - 8) as u64 {
        return None;
    }
    let offset: usize = offset as usize;
    let count = read_number(b, big_endian, offset, 8);
    make_directory(b, big_endian, true, offset + 8, count)
}

fn find_entry(b: &[u8], d: &TiffDirectory, tag: u16) -> (r: Option<usize>)
    requires
        d.first <= b@.len(),
    ensures
        r is Some <==> d.entry(b@, tag) is Some,
        r is Some ==> r->0 == d.entry(b@, tag)->0 && d.holds(b@, r->0 as int) && is_kind(
            d.kind(b@, r->0 as int),
        ),
{
    let mut found: Option<usize> = None;
    let mut at: usize = d.first;
    let mut left: u64 = d.count;
    while left > 0
        invariant
            at <= b@.len(),
            found is Some ==> d.holds(b@, found->0 as int) && is_kind(
                d.kind(b@, found->0 as int),
            ),
            d.last_from(
                b@,
                tag,
                at as int,
                left as int,
                match found {
                    Some(place) => Some(place as int),
                    None => None,
                },
            ) == d.entry(b@, tag),
        decreases left,
    {
        assert(b.len() <= usize::MAX);
        match measure_entry(b, d, at) {
            None => {
                return found;
            },
            Some(size) => {
                let kind = read_number(b, d.big_endian, at + 2, 2);
                if read_number(b, d.big_endian, at, 2) == tag as u64 && (kind >= 1 && kind <= 13
                    || kind >= 16 && kind <= 18) {
                    found = Some(at);
                }
                at += size;
            },
        }
        left -= 1;
    }
    found
}

fn read_value(b: &[u8], d: &TiffDirectory, at: usize, pointers: bool) -> (r: Option<u64>)
    requires
        d.holds(b@, at as int),
        is_kind(d.kind(b@, at as int)),
    ensures
        r is Some <==> d.value(b@, at as int, pointers) is Some,
        r is Some ==> r->0 == d.value(b@, at as int, pointers)->0,
{
    assert(b.len() <= usize::MAX);
    let kind = read_number(b, d.big_endian, at + 2, 2);
    let (width, place): (usize, usize) = if d.large {
        (8, at + 12)
    } else {
        (4, at + 8)
    };
    if read_number(b, d.big_endian, at + 4, width) != 1 || (kind == 13 || kind == 18) && !pointers {
        None
    } else if kind == 1 || kind == 7 {
        Some(read_number(b, d.big_endian, place, 1))
    } else if kind == 3 {
        Some(read_number(b, d.big_endian, place, 2))
    } else if kind == 4 || kind == 13 {
        Some(read_number(b, d.big_endian, place, 4))
    } else if kind != 16 && kind != 18 {
        None
    } else if d.large {
        Some(read_number(b, d.big_endian, place, 8))
    } else {
        let far = read_number(b, d.big_endian, place, 4);
        proof {
            lemma_number(b@, d.big_endian, place as int, 4);
        }
        if far + 8 <= b.len() as u64 {
            Some(read_number(b, d.big_endian, far as usize, 8))
        } else {
            None
        }
    }
}

fn find_number(b: &[u8], d: &TiffDirectory, tag: u16, most: u32, default: Option<u32>) -> (r:
    Option<u32>)
    requires
        d.first <= b@.len(),
    ensures
        ({
            let expected = d.number_of(
                b@,
                tag,
                most as int,
                match default {
                    Some(n) => Some(n as int),
                    None => None,
                },
            );
            &&& r is Some <==> expected is Some
            &&& r is Some ==> r->0 == expected->0
        }),
        r is Some ==> default is Some && r->0 == default->0 || r->0 <= most,
{
    match find_entry(b, d, tag) {
        None => default,
        Some(at) => match read_value(b, d, at, most > u16::MAX as u32) {
            Some(n) => if n <= most as u64 {
                Some(n as u32)
            } else {
                None
            },
            None => None,
        },
    }
}

/// How an image is cut up: its size, and in how many pieces across, down and
/// deep it is stored.
#[derive(Debug, Clone, Copy, PartialEq, Eq, Structural)]
pub struct TiffLayout {
    pub width: u32,
    pub height: u32,
    pub tiled: bool,
    pub across: u32,
    pub down: u32,
    pub planes: u32,
}

impl TiffLayout {
    /// The strips can be counted in 32 bits, and the tiles in a machine word.
    pub open spec fn is_countable(self) -> bool {
        self.across * self.down * self.planes <= if self.tiled {
            usize::MAX as int
        } else {
            u32::MAX as int
        }
    }
}

pub open spec fn divided_up(n: int, d: int) -> int {
    (n + d - 1) / d
}

/// How many planes the samples of an image take up, if that is known.
pub open spec fn planes_of(b: Seq<u8>, d: TiffDirectory) -> Option<int> {
    match (
        d.number_of(b, TAG_SAMPLES_PER_PIXEL, u16::MAX as int, Some(1)),
        d.number_of(b, TAG_PLANAR_CONFIGURATION, u16::MAX as int, Some(1)),
    ) {
        (Some(samples), Some(planar)) => if samples == 0 {
            None
        } else if planar == 1 {
            Some(1int)
        } else if planar == 2 {
            Some(samples)
        } else {
            None
        },
        _ => None,
    }
}

/// How the image of a directory is cut up; nothing where the directory does not
/// say it.
pub open spec fn layout_in(b: Seq<u8>, d: TiffDirectory) -> Option<TiffLayout> {
    let most = u32::MAX as int;
    let stripped = d.entry(b, TAG_STRIP_OFFSETS) is Some && d.entry(b, TAG_STRIP_SIZES) is Some
        && d.entry(b, TAG_TILE_OFFSETS) is None && d.entry(b, TAG_TILE_SIZES) is None;
    let tiled = d.entry(b, TAG_STRIP_OFFSETS) is None && d.entry(b, TAG_STRIP_SIZES) is None
        && d.entry(b, TAG_TILE_OFFSETS) is Some && d.entry(b, TAG_TILE_SIZES) is Some;
    match (
        d.number_of(b, TAG_WIDTH, most, None),
        d.number_of(b, TAG_HEIGHT, most, None),
        planes_of(b, d),
    ) {
        (Some(width), Some(height), Some(planes)) => if width == 0 || height == 0 || !stripped
            && !tiled {
            None
        } else {
            let (wide, long) = if tiled {
                (
                    d.number_of(b, TAG_TILE_WIDTH, most, None),
                    d.number_of(b, TAG_TILE_LENGTH, most, None),
                )
            } else {
                (Some(width), d.number_of(b, TAG_ROWS_PER_STRIP, most, Some(height)))
            };
            match (wide, long) {
                (Some(wide), Some(long)) => if wide == 0 || long == 0 {
                    None
                } else {
                    Some(
                        TiffLayout {
                            width: width as u32,
                            height: height as u32,
                            tiled,
                            across: divided_up(width, wide) as u32,
                            down: divided_up(height, long) as u32,
                            planes: planes as u32,
                        },
                    )
                },
                _ => None,
            }
        },
        _ => None,
    }
}

/// How the first image of a file is cut up; nothing where that is not told.
pub open spec fn layout(b: Seq<u8>) -> Option<TiffLayout> {
    match directory(b) {
        Some(d) => layout_in(b, d),
        None => None,
    }
}

/// The pieces of the image of a file can be counted, if the file tells of them.
pub open spec fn is_countable(b: Seq<u8>) -> bool {
    layout(b) is Some ==> layout(b)->0.is_countable()
}

fn find_planes(b: &[u8], d: &TiffDirectory) -> (r: Option<u32>)
    requires
        d.first <= b@.len(),
    ensures
        r is Some <==> planes_of(b@, *d) is Some,
        r is Some ==> r->0 == planes_of(b@, *d)->0 && r->0 <= u16::MAX,
{
    match (
        find_number(b, d, TAG_SAMPLES_PER_PIXEL, u16::MAX as u32, Some(1)),
        find_number(b, d, TAG_PLANAR_CONFIGURATION, u16::MAX as u32, Some(1)),
    ) {
        (Some(samples), Some(planar)) => {
            if samples == 0 {
                None
            } else if planar == 1 {
                Some(1)
            } else if planar == 2 {
                Some(samples)
            } else {
                None
            }
        },
        _ => None,
    }
}

fn divide_up(n: u32, d: u32) -> (r: u32)
    requires
        d > 0,
    ensures
        r == divided_up(n as int, d as int),
{
    let sum: u64 = n as u64 + d as u64 - 1;
    assert(sum as int / d as int <= n) by (nonlinear_arith)
        requires
            sum == n + d - 1,
            d > 0,
            n >= 0,
    ;
    (sum / d as u64) as u32
}

/// Looks up how the first image of a file is cut up.
pub fn read_layout(b: &[u8]) -> (r: Option<TiffLayout>)
    ensures
        r == layout(b@),
        r is Some ==> r->0.planes <= u16::MAX,
{
    let d = match find_directory(b) {
        None => {
            return None;
        },
        Some(d) => d,
    };
    let offsets = find_entry(b, &d, TAG_STRIP_OFFSETS).is_some();
    let sizes = find_entry(b, &d, TAG_STRIP_SIZES).is_some();
    let tile_offsets = find_entry(b, &d, TAG_TILE_OFFSETS).is_some();
    let tile_sizes = find_entry(b, &d, TAG_TILE_SIZES).is_some();
    let stripped = offsets && sizes && !tile_offsets && !tile_sizes;
    let tiled = !offsets && !sizes && tile_offsets && tile_sizes;
    let (width, height, planes): (u32, u32, u32) = match (
        find_number(b, &d, TAG_WIDTH, u32::MAX, None),
        find_number(b, &d, TAG_HEIGHT, u32::MAX, None),
        find_planes(b, &d),
    ) {
        (Some(width), Some(height), Some(planes)) => (width, height, planes),
        _ => {
            return None;
        },
    };
    if width == 0 || height == 0 || !stripped && !tiled {
        return None;
    }
    let (wide, long): (Option<u32>, Option<u32>) = if tiled {
        (
            find_number(b, &d, TAG_TILE_WIDTH, u32::MAX, None),
            find_number(b, &d, TAG_TILE_LENGTH, u32::MAX, None),
        )
    } else {
        (Some(width), find_number(b, &d, TAG_ROWS_PER_STRIP, u32::MAX, Some(height)))
    };
    match (wide, long) {
        (Some(wide), Some(long)) => {
            if wide == 0 || long == 0 {
                None
            } else {
                Some(
                    TiffLayout {
                        width,
                        height,
                        tiled,
                        across: divide_up(width, wide),
                        down: divide_up(height, long),
                        planes,
                    },
                )
            }
        },
        _ => None,
    }
}

impl TiffLayout {
    /// Whether the pieces can be counted.
    pub fn can_be_counted(&self) -> (r: bool)
        requires
            self.planes <= u16::MAX,
        ensures
            r == self.is_countable(),
    {
        assert(self.across * self.down <= 0xffff_ffff * 0xffff_ffff) by (nonlinear_arith)
            requires
                self.across <= 0xffff_ffff,
                self.down <= 0xffff_ffff,
        ;
        let pieces: u128 = self.across as u128 * self.down as u128;
        assert(pieces * self.planes <= 0x1_0000_0000_0000_0000 * 0x1_0000) by (nonlinear_arith)
            requires
                pieces <= 0x1_0000_0000_0000_0000,
                self.planes <= 0x1_0000,
        ;
        let most: u128 = if self.tiled {
            usize::MAX as u128
        } else {
            u32::MAX as u128
        };
        pieces * self.planes as u128 <= most
    }
}

} // verus!

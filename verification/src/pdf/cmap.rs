//! Maps from font codes to text.

use vstd::prelude::*;
use vstd::utf8::*;

use crate::bytes;
use crate::pdf::error::{stopped, Failure, PdfError};
use crate::pdf::lexer;
use crate::pdf::lexer::{hex_nibble, is_ascii_space};
use crate::pdf::xref::max;
use crate::pdf::xref_stream::{be_value, pow256};
use crate::stopping;
use crate::table;
use crate::table::Table;
use crate::text;

verus! {

/// The most codes that a font map may have.
pub const MAX_CMAP_ENTRIES: usize = 65_536;

/// The most codes that one range may have.
pub const MAX_CMAP_RANGE_ENTRIES: usize = 4_096;

/// The most bytes of codes and text that a font map may have.
pub const MAX_CMAP_MAPPING_BYTES: usize = 4_194_304;

/// The most bytes that one hexadecimal string may write.
pub const MAX_CMAP_TOKEN_BYTES: usize = 4_096;

/// The most hexadecimal strings that are read.
pub const MAX_CMAP_TOKENS: usize = 196_608;

/// The longest code, in bytes.
pub const MAX_CODE_BYTES: usize = 4;

/// Text by font code.
#[derive(Debug)]
pub struct FontMap {
    pub code_width: usize,
    pub values: Table<Vec<u8>, String>,
}

/// What contracts say of a `FontMap`.
pub struct Glyphs {
    pub width: int,
    pub values: Seq<(Seq<u8>, Seq<char>)>,
}

impl View for FontMap {
    type V = Glyphs;

    open spec fn view(&self) -> Glyphs {
        Glyphs { width: self.code_width as int, values: self.values@ }
    }
}

pub open spec fn no_glyphs() -> Glyphs {
    Glyphs { width: 0, values: Seq::empty() }
}

impl FontMap {
    pub open spec fn wf(&self) -> bool {
        self.values.wf()
    }
}

impl Default for FontMap {
    fn default() -> (r: FontMap)
        ensures
            r@ == no_glyphs(),
            r.wf(),
    {
        FontMap { code_width: 0, values: Table::new() }
    }
}

/// What reading a font map has used up.
#[derive(Debug, Clone, Copy, PartialEq, Eq, Structural)]
pub struct CmapBudget {
    pub entries: usize,
    pub mapping_bytes: usize,
    pub tokens: usize,
}

impl Default for CmapBudget {
    fn default() -> (r: CmapBudget)
        ensures
            r == fresh_budget(),
    {
        CmapBudget { entries: 0, mapping_bytes: 0, tokens: 0 }
    }
}

pub open spec fn fresh_budget() -> CmapBudget {
    CmapBudget { entries: 0, mapping_bytes: 0, tokens: 0 }
}

/// Where reading stands: the map so far and what it has used up.
pub struct Progress {
    pub glyphs: Glyphs,
    pub budget: CmapBudget,
}

/// One more hexadecimal string, if the limit allows it.
pub open spec fn charged(budget: CmapBudget) -> Option<CmapBudget> {
    if budget.tokens + 1 <= MAX_CMAP_TOKENS {
        Some(CmapBudget { tokens: (budget.tokens + 1) as usize, ..budget })
    } else {
        None
    }
}

/// One more code, if the limits allow it.
pub open spec fn inserted(p: Progress, source: Seq<u8>, value: Seq<char>) -> Option<Progress> {
    let bytes = p.budget.mapping_bytes + source.len() + encode_utf8(value).len();
    if p.budget.entries + 1 <= MAX_CMAP_ENTRIES && bytes <= MAX_CMAP_MAPPING_BYTES {
        Some(
            Progress {
                glyphs: Glyphs {
                    width: max(p.glyphs.width, source.len() as int),
                    values: table::put::<Vec<u8>, Seq<char>>(p.glyphs.values, source, value),
                },
                budget: CmapBudget {
                    entries: (p.budget.entries + 1) as usize,
                    mapping_bytes: bytes as usize,
                    tokens: p.budget.tokens,
                },
            },
        )
    } else {
        None
    }
}

pub fn utf8_len(s: &str) -> (r: usize)
    ensures
        r == encode_utf8(s@).len(),
{
    s.as_bytes().len()
}

impl CmapBudget {
    fn charge_token(&mut self) -> (r: Result<(), PdfError>)
        ensures
            match charged(*old(self)) {
                Some(after) => r is Ok && *final(self) == after,
                None => {
                    &&& r is Err
                    &&& r->Err_0@ == Failure::CMapLimitExceeded
                    &&& *final(self) == *old(self)
                },
            },
    {
        if self.tokens >= MAX_CMAP_TOKENS {
            return Err(PdfError::CMapLimitExceeded);
        }
        self.tokens += 1;
        Ok(())
    }

    fn ensure_entry_capacity(&self, count: usize) -> (r: Result<(), PdfError>)
        ensures
            if self.entries + count <= MAX_CMAP_ENTRIES {
                r is Ok
            } else {
                r is Err && r->Err_0@ == Failure::CMapLimitExceeded
            },
    {
        if self.entries > MAX_CMAP_ENTRIES || count > MAX_CMAP_ENTRIES - self.entries {
            return Err(PdfError::CMapLimitExceeded);
        }
        Ok(())
    }

    /// Puts one code into `map`, if the limits allow it.
    pub fn insert(&mut self, map: &mut FontMap, source: Vec<u8>, text: String) -> (r: Result<
        (),
        PdfError,
    >)
        requires
            old(map).wf(),
        ensures
            final(map).wf(),
            match inserted(
                Progress { glyphs: old(map)@, budget: *old(self) },
                source@,
                text@,
            ) {
                Some(after) => r is Ok && final(map)@ == after.glyphs && *final(self)
                    == after.budget,
                None => {
                    &&& r is Err
                    &&& r->Err_0@ == Failure::CMapLimitExceeded
                    &&& *final(self) == *old(self)
                    &&& final(map)@ == old(map)@
                },
            },
    {
        match self.ensure_entry_capacity(1) {
            Err(error) => {
                return Err(error);
            },
            Ok(()) => {},
        }
        let length: usize = utf8_len(text.as_str());
        if source.len() > MAX_CMAP_MAPPING_BYTES || length > MAX_CMAP_MAPPING_BYTES
            || self.mapping_bytes > MAX_CMAP_MAPPING_BYTES {
            return Err(PdfError::CMapLimitExceeded);
        }
        let bytes: usize = self.mapping_bytes + source.len() + length;
        if bytes > MAX_CMAP_MAPPING_BYTES {
            return Err(PdfError::CMapLimitExceeded);
        }
        self.mapping_bytes = bytes;
        self.entries += 1;
        if source.len() > map.code_width {
            map.code_width = source.len();
        }
        map.values.insert(source, text);
        Ok(())
    }
}

/// The first place from `pos` on that holds `byte`, or the end.
pub open spec fn seek(b: Seq<u8>, pos: int, byte: u8) -> int
    decreases b.len() - pos,
{
    if 0 <= pos < b.len() && b[pos] != byte {
        seek(b, pos + 1, byte)
    } else {
        pos
    }
}

proof fn lemma_seek(b: Seq<u8>, pos: int, byte: u8)
    requires
        0 <= pos <= b.len(),
    ensures
        pos <= seek(b, pos, byte) <= b.len(),
        seek(b, pos, byte) < b.len() ==> b[seek(b, pos, byte)] == byte,
    decreases b.len() - pos,
{
    if pos < b.len() && b[pos] != byte {
        lemma_seek(b, pos + 1, byte);
    }
}

/// The bytes of `b[from..to]` that are no white space.
pub open spec fn solid(b: Seq<u8>, from: int, to: int) -> Seq<u8>
    decreases to - from,
{
    if to <= from {
        Seq::empty()
    } else if lexer::is_space(b[to - 1]) {
        solid(b, from, to - 1)
    } else {
        solid(b, from, to - 1).push(b[to - 1])
    }
}

proof fn lemma_solid(b: Seq<u8>, from: int, mid: int, to: int)
    requires
        from <= mid <= to,
    ensures
        solid(b, from, mid).len() <= solid(b, from, to).len(),
    decreases to - mid,
{
    if mid < to {
        lemma_solid(b, from, mid, to - 1);
    }
}

/// All of them are hexadecimal digits, in pairs.
pub open spec fn is_hex_text(s: Seq<u8>) -> bool {
    s.len() % 2 == 0 && forall|i: int|
        0 <= i < s.len() ==> lexer::hex_value(#[trigger] s[i]) is Some
}

pub open spec fn hex_values(s: Seq<u8>) -> Seq<u8> {
    Seq::new(s.len(), |i: int| lexer::hex_value(s[i])->0)
}

/// The next hexadecimal string from `pos` on, where reading stops, and what
/// it has used up; nothing when a limit is exceeded.
pub open spec fn hex_token(b: Seq<u8>, pos: int, budget: CmapBudget) -> Option<
    (Option<Seq<u8>>, int, CmapBudget),
>
    decreases b.len() - pos,
{
    let open = seek(b, pos, 60);
    let close = seek(b, open + 1, 62);
    let s = solid(b, open + 1, close);
    if open >= b.len() || open < pos {
        Some((None, open, budget))
    } else if lexer::at(b, open + 1) == Some(60u8) {
        hex_token(b, open + 2, budget)
    } else if s.len() > MAX_CMAP_TOKEN_BYTES * 2 {
        None
    } else if close >= b.len() {
        Some((None, close, budget))
    } else {
        match charged(budget) {
            None => None,
            Some(after) => if is_hex_text(s) {
                Some((Some(lexer::pair_up(hex_values(s))), close + 1, after))
            } else if close > pos {
                hex_token(b, close + 1, after)
            } else {
                None
            },
        }
    }
}

/// Hexadecimal strings, one after the other.
pub struct CmapHexTokens<'a> {
    pub bytes: &'a [u8],
    pub position: usize,
}

fn to_pairs(s: &Vec<u8>) -> (r: Option<Vec<u8>>)
    ensures
        r is Some <==> is_hex_text(s@),
        r is Some ==> r->0@ == lexer::pair_up(hex_values(s@)),
{
    if s.len() % 2 != 0 {
        return None;
    }
    let mut out: Vec<u8> = Vec::new();
    let mut i: usize = 0;
    while i < s.len()
        invariant
            i <= s@.len(),
            i % 2 == 0,
            s@.len() % 2 == 0,
            i == 2 * out@.len(),
            forall|k: int| 0 <= k < i ==> lexer::hex_value(#[trigger] s@[k]) is Some,
            forall|k: int|
                0 <= k < out@.len() ==> #[trigger] out@[k] == lexer::pair_up(hex_values(s@))[k],
        decreases s@.len() - i,
    {
        match (hex_nibble(s[i]), hex_nibble(s[i + 1])) {
            (Some(high), Some(low)) => {
                out.push(high * 16 + low);
            },
            _ => {
                return None;
            },
        }
        i += 2;
    }
    assert(out@ =~= lexer::pair_up(hex_values(s@)));
    Some(out)
}

pub open spec fn opt_bytes(v: Option<Vec<u8>>) -> Option<Seq<u8>> {
    match v {
        Some(v) => Some(v@),
        None => None,
    }
}

impl<'a> CmapHexTokens<'a> {
    pub fn new(bytes: &'a [u8]) -> (r: Self)
        ensures
            r.bytes@ == bytes@,
            r.position == 0,
    {
        CmapHexTokens { bytes, position: 0 }
    }

    /// Takes the next hexadecimal string.
    pub fn next<F: Fn() -> bool>(&mut self, budget: &mut CmapBudget, should_stop: &F) -> (r: Result<
        Option<Vec<u8>>,
        PdfError,
    >)
        requires
            should_stop.requires(()),
            old(self).position <= old(self).bytes@.len(),
        ensures
            final(self).bytes@ == old(self).bytes@,
            final(self).position <= final(self).bytes@.len(),
            r matches Ok(Some(_)) ==> final(self).position > old(self).position,
            stopped(r, *should_stop) || match hex_token(
                old(self).bytes@,
                old(self).position as int,
                *old(budget),
            ) {
                Some((token, position, after)) => r is Ok && opt_bytes(r->Ok_0) == token
                    && final(self).position == position && *final(budget) == after,
                None => r is Err && r->Err_0@ == Failure::CMapLimitExceeded,
            },
    {
        let bytes = self.bytes;
        let ghost b = bytes@;
        let ghost goal = hex_token(b, self.position as int, *budget);
        assert(bytes.len() <= usize::MAX);
        loop
            invariant
                should_stop.requires(()),
                self.bytes@ == b,
                bytes@ == b,
                b == old(self).bytes@,
                b.len() <= usize::MAX,
                old(self).position <= self.position <= b.len(),
                goal == hex_token(b, old(self).position as int, *old(budget)),
                hex_token(b, self.position as int, *budget) == goal,
            decreases b.len() - self.position,
        {
            let ghost from = self.position as int;
            proof {
                lemma_seek(b, from, 60);
            }
            let mut p: usize = self.position;
            while p < bytes.len() && bytes[p] != 60
                invariant
                    should_stop.requires(()),
                    bytes@ == b,
                    self.bytes@ == b,
                    b == old(self).bytes@,
                    self.position == from,
                    from <= p <= b.len(),
                    seek(b, p as int, 60) == seek(b, from, 60),
                decreases b.len() - p,
            {
                if p % 4_096 == 0 && should_stop() {
                    return Err(PdfError::Cancelled);
                }
                p += 1;
            }
            if p >= bytes.len() {
                self.position = p;
                return Ok(None);
            }
            if p + 1 < bytes.len() && bytes[p + 1] == 60 {
                self.position = p + 2;
                continue;
            }
            let start: usize = p + 1;
            proof {
                lemma_seek(b, start as int, 62);
            }
            let mut found: Vec<u8> = Vec::new();
            let mut q: usize = start;
            let ghost close = seek(b, start as int, 62);
            while q < bytes.len() && bytes[q] != 62
                invariant
                    should_stop.requires(()),
                    bytes@ == b,
                    start <= q <= close <= b.len(),
                    b.len() <= usize::MAX,
                    from <= p < b.len(),
                    start == p + 1,
                    p == seek(b, from, 60),
                    lexer::at(b, p + 1) != Some(60u8),
                    close == seek(b, start as int, 62),
                    seek(b, q as int, 62) == close,
                    found@ == solid(b, start as int, q as int),
                    found@.len() <= MAX_CMAP_TOKEN_BYTES * 2,
                    goal == hex_token(b, old(self).position as int, *old(budget)),
                    b == old(self).bytes@,
                    self.bytes@ == b,
                    self.position == from,
                    hex_token(b, from, *budget) == goal,
                decreases b.len() - q,
            {
                proof {
                    lemma_seek(b, q + 1, 62);
                    lemma_solid(b, start as int, q + 1, close);
                }
                if q % 4_096 == 0 && should_stop() {
                    return Err(PdfError::Cancelled);
                }
                let byte: u8 = bytes[q];
                if !is_ascii_space(byte) {
                    if found.len() >= MAX_CMAP_TOKEN_BYTES * 2 {
                        assert(solid(b, start as int, q + 1).len() > MAX_CMAP_TOKEN_BYTES * 2);
                        return Err(PdfError::CMapLimitExceeded);
                    }
                    found.push(byte);
                }
                q += 1;
            }
            assert(q == close);
            if q >= bytes.len() {
                self.position = q;
                return Ok(None);
            }
            match budget.charge_token() {
                Err(error) => {
                    return Err(error);
                },
                Ok(()) => {},
            }
            self.position = q + 1;
            match to_pairs(&found) {
                Some(token) => {
                    return Ok(Some(token));
                },
                None => {},
            }
        }
    }
}

/// The code of the pair of bytes at `2 * i`.
pub open spec fn pair_code(b: Seq<u8>, i: int) -> int {
    b[2 * i] * 256 + b[2 * i + 1]
}

/// The text that the target of a code writes: pairs of bytes as scalar values,
/// anything else as UTF-8.
pub open spec fn unicode_text(b: Seq<u8>) -> Option<Seq<char>> {
    if b.len() >= 2 && b.len() % 2 == 0 {
        if forall|i: int|
            0 <= i < b.len() / 2 ==> text::scalar(#[trigger] pair_code(b, i)) is Some {
            Some(Seq::new((b.len() / 2) as nat, |i: int| text::scalar(pair_code(b, i))->0))
        } else {
            None
        }
    } else if valid_utf8(b) {
        Some(decode_utf8(b))
    } else {
        None
    }
}

pub open spec fn opt_text(s: Option<String>) -> Option<Seq<char>> {
    match s {
        Some(s) => Some(s@),
        None => None,
    }
}

/// Reads the target of a code.
pub fn decode_unicode_hex(bytes: &[u8]) -> (r: Option<String>)
    ensures
        opt_text(r) == unicode_text(bytes@),
{
    if bytes.len() >= 2 && bytes.len() % 2 == 0 {
        let mut output = String::new();
        let mut i: usize = 0;
        while i < bytes.len()
            invariant
                i <= bytes@.len(),
                i % 2 == 0,
                bytes@.len() % 2 == 0,
                bytes@.len() >= 2,
                i == 2 * output@.len(),
                forall|k: int|
                    0 <= k < output@.len() ==> text::scalar(#[trigger] pair_code(bytes@, k))
                        == Some(output@[k]),
            decreases bytes@.len() - i,
        {
            let code: u32 = bytes[i] as u32 * 256 + bytes[i + 1] as u32;
            assert(code == pair_code(bytes@, output@.len() as int));
            match text::char_from_u32(code) {
                Some(c) => {
                    output.push(c);
                },
                None => {
                    return None;
                },
            }
            i += 2;
        }
        assert(output@ =~= unicode_text(bytes@)->0);
        Some(output)
    } else {
        text::from_utf8(bytes)
    }
}

/// The text that follows `s` in a range: its first character's successor, if
/// that is a scalar value.
pub open spec fn next_text(s: Seq<char>) -> Seq<char> {
    if s.len() == 0 {
        s
    } else {
        match text::scalar(s[0] as int + 1) {
            Some(c) => seq![c],
            None => s,
        }
    }
}

/// The text that follows `value` in a range.
pub fn next_unicode_scalar(value: &str) -> (r: String)
    ensures
        r@ == next_text(value@),
{
    let chars = text::chars_of(value);
    if chars.len() == 0 {
        return value.to_owned();
    }
    let first: char = chars[0];
    let code: u32 = first as u32;
    proof {
        char_u32_cast(first, code);
        char_is_scalar(first);
    }
    match text::char_from_u32(code + 1) {
        Some(c) => {
            let mut out = String::new();
            out.push(c);
            assert(out@ =~= seq![c]);
            out
        },
        None => value.to_owned(),
    }
}

proof fn lemma_be_prefix(b: Seq<u8>, n: int)
    requires
        0 <= n <= b.len(),
    ensures
        0 <= be_value(b.take(n)) <= be_value(b),
    decreases b.len() - n,
{
    if n < b.len() {
        lemma_be_prefix(b, n + 1);
        assert(b.take(n + 1).drop_last() =~= b.take(n));
        lemma_be_nonnegative(b.take(n));
    } else {
        assert(b.take(n) =~= b);
        lemma_be_nonnegative(b);
    }
}

proof fn lemma_be_nonnegative(b: Seq<u8>)
    ensures
        0 <= be_value(b),
    decreases b.len(),
{
    if b.len() > 0 {
        lemma_be_nonnegative(b.drop_last());
    }
}

/// The number that a code's bytes write, highest first.
pub fn bytes_to_number(bytes: &[u8]) -> (r: Option<u32>)
    ensures
        match r {
            Some(value) => be_value(bytes@) == value,
            None => be_value(bytes@) > u32::MAX,
        },
{
    let mut value: u64 = 0;
    let mut i: usize = 0;
    while i < bytes.len()
        invariant
            i <= bytes@.len(),
            value == be_value(bytes@.take(i as int)),
            value <= u32::MAX,
        decreases bytes@.len() - i,
    {
        assert(bytes@.take(i + 1).drop_last() =~= bytes@.take(i as int));
        value = value * 256 + bytes[i] as u64;
        i += 1;
        if value > u32::MAX as u64 {
            proof {
                lemma_be_prefix(bytes@, i as int);
            }
            return None;
        }
    }
    assert(bytes@.take(i as int) =~= bytes@);
    Some(value as u32)
}

/// The lowest `width` digits of a number in base 256, highest first.
pub open spec fn be_bytes(value: int, width: int) -> Seq<u8>
    decreases width,
{
    if width <= 0 {
        Seq::empty()
    } else {
        be_bytes(value / 256, width - 1).push((value % 256) as u8)
    }
}

/// A number that fits is what its bytes write.
pub proof fn law_bytes_write_the_number(value: int, width: int)
    requires
        0 <= width,
        0 <= value < pow256(width),
    ensures
        be_bytes(value, width).len() == width,
        be_value(be_bytes(value, width)) == value,
    decreases width,
{
    if width > 0 {
        law_bytes_write_the_number(value / 256, width - 1);
        let high = be_bytes(value / 256, width - 1);
        assert(be_bytes(value, width).drop_last() =~= high);
    }
}

/// The bytes of a code of `width` bytes.
pub fn number_to_bytes(value: u32, width: usize) -> (r: Option<Vec<u8>>)
    ensures
        match r {
            Some(bytes) => width <= MAX_CODE_BYTES && bytes@ == be_bytes(
                value as int,
                width as int,
            ),
            None => width > MAX_CODE_BYTES,
        },
{
    if width > MAX_CODE_BYTES {
        return None;
    }
    let b3: u8 = (value % 256) as u8;
    let b2: u8 = (value / 256 % 256) as u8;
    let b1: u8 = (value / 65_536 % 256) as u8;
    let b0: u8 = (value / 16_777_216 % 256) as u8;
    let mut out: Vec<u8> = Vec::new();
    if width >= 4 {
        out.push(b0);
    }
    if width >= 3 {
        out.push(b1);
    }
    if width >= 2 {
        out.push(b2);
    }
    if width >= 1 {
        out.push(b3);
    }
    proof {
        reveal_with_fuel(be_bytes, 5);
        assert(value / 65_536 == value / 256 / 256);
        assert(value / 16_777_216 == value / 256 / 256 / 256);
        assert(out@ =~= be_bytes(value as int, width as int));
    }
    Some(out)
}

/// The pairs of a `bfchar` block from `pos` on, added to `p`.
pub open spec fn bfchar(b: Seq<u8>, pos: int, p: Progress) -> Option<Progress>
    decreases b.len() - pos,
{
    match hex_token(b, pos, p.budget) {
        None => None,
        Some((None, _, budget)) => Some(Progress { budget, ..p }),
        Some((Some(source), middle, budget)) => match hex_token(b, middle, budget) {
            None => None,
            Some((None, _, budget)) => Some(Progress { budget, ..p }),
            Some((Some(target), after, budget)) => {
                let p = Progress { budget, ..p };
                if !(pos < after <= b.len()) {
                    None
                } else if source.len() == 0 {
                    bfchar(b, after, p)
                } else if source.len() > MAX_CODE_BYTES {
                    None
                } else {
                    match unicode_text(target) {
                        None => bfchar(b, after, p),
                        Some(value) => match inserted(p, source, value) {
                            None => None,
                            Some(p) => bfchar(b, after, p),
                        },
                    }
                }
            },
        },
    }
}

/// The codes from `code` to `end`, added to `p` with `value` and the texts
/// that follow it.
pub open spec fn expanded(
    code: int,
    end: int,
    width: int,
    value: Seq<char>,
    p: Progress,
) -> Option<Progress>
    decreases end - code + 1,
{
    if code > end {
        Some(p)
    } else {
        match inserted(p, be_bytes(code, width), value) {
            None => None,
            Some(p) => expanded(code + 1, end, width, next_text(value), p),
        }
    }
}

/// One range, added to `p`.
pub open spec fn with_range(
    first: Seq<u8>,
    last: Seq<u8>,
    target: Seq<u8>,
    p: Progress,
) -> Option<Progress> {
    let start = be_value(first);
    let end = be_value(last);
    if first.len() == 0 || first.len() != last.len() || target.len() == 0 {
        Some(p)
    } else if first.len() > MAX_CODE_BYTES {
        None
    } else if start > end {
        Some(p)
    } else if end - start + 1 > MAX_CMAP_RANGE_ENTRIES {
        None
    } else {
        match unicode_text(target) {
            None => Some(p),
            Some(value) => if p.budget.entries + (end - start + 1) > MAX_CMAP_ENTRIES {
                None
            } else {
                expanded(start, end, first.len() as int, value, p)
            },
        }
    }
}

/// The ranges of a `bfrange` block from `pos` on, added to `p`.
pub open spec fn bfrange(b: Seq<u8>, pos: int, p: Progress) -> Option<Progress>
    decreases b.len() - pos,
{
    match hex_token(b, pos, p.budget) {
        None => None,
        Some((None, _, budget)) => Some(Progress { budget, ..p }),
        Some((Some(first), p1, budget)) => match hex_token(b, p1, budget) {
            None => None,
            Some((None, _, budget)) => Some(Progress { budget, ..p }),
            Some((Some(last), p2, budget)) => match hex_token(b, p2, budget) {
                None => None,
                Some((None, _, budget)) => Some(Progress { budget, ..p }),
                Some((Some(target), after, budget)) => if !(pos < after <= b.len()) {
                    None
                } else {
                    match with_range(first, last, target, Progress { budget, ..p }) {
                        None => None,
                        Some(p) => bfrange(b, after, p),
                    }
                },
            },
        },
    }
}

/// What reading a block leaves behind.
pub open spec fn progressed<F: Fn() -> bool>(
    r: Result<(), PdfError>,
    expected: Option<Progress>,
    map: FontMap,
    budget: CmapBudget,
    stop: F,
) -> bool {
    stopped(r, stop) || match expected {
        Some(p) => r is Ok && map@ == p.glyphs && budget == p.budget,
        None => r is Err && r->Err_0@ == Failure::CMapLimitExceeded,
    }
}

fn parse_bfchar_block<F: Fn() -> bool>(
    block: &[u8],
    map: &mut FontMap,
    budget: &mut CmapBudget,
    should_stop: &F,
) -> (r: Result<(), PdfError>)
    requires
        should_stop.requires(()),
        old(map).wf(),
    ensures
        final(map).wf(),
        progressed(
            r,
            bfchar(block@, 0, Progress { glyphs: old(map)@, budget: *old(budget) }),
            *final(map),
            *final(budget),
            *should_stop,
        ),
{
    let ghost goal = bfchar(block@, 0, Progress { glyphs: map@, budget: *budget });
    let mut tokens = CmapHexTokens::new(block);
    loop
        invariant
            should_stop.requires(()),
            map.wf(),
            tokens.bytes@ == block@,
            tokens.position <= block@.len(),
            goal == bfchar(block@, 0, Progress { glyphs: old(map)@, budget: *old(budget) }),
            bfchar(
                block@,
                tokens.position as int,
                Progress { glyphs: map@, budget: *budget },
            ) == goal,
        decreases block@.len() - tokens.position,
    {
        let source = match tokens.next(budget, should_stop) {
            Err(error) => {
                return Err(error);
            },
            Ok(None) => {
                return Ok(());
            },
            Ok(Some(source)) => source,
        };
        let target = match tokens.next(budget, should_stop) {
            Err(error) => {
                return Err(error);
            },
            Ok(None) => {
                return Ok(());
            },
            Ok(Some(target)) => target,
        };
        if source.len() == 0 {
            continue;
        }
        if source.len() > MAX_CODE_BYTES {
            return Err(PdfError::CMapLimitExceeded);
        }
        if let Some(value) = decode_unicode_hex(target.as_slice()) {
            match budget.insert(map, source, value) {
                Err(error) => {
                    return Err(error);
                },
                Ok(()) => {},
            }
        }
    }
}

fn insert_range<F: Fn() -> bool>(
    start: u32,
    end: u32,
    width: usize,
    first: String,
    map: &mut FontMap,
    budget: &mut CmapBudget,
    should_stop: &F,
) -> (r: Result<(), PdfError>)
    requires
        should_stop.requires(()),
        old(map).wf(),
        start <= end,
        width <= MAX_CODE_BYTES,
    ensures
        final(map).wf(),
        progressed(
            r,
            expanded(
                start as int,
                end as int,
                width as int,
                first@,
                Progress { glyphs: old(map)@, budget: *old(budget) },
            ),
            *final(map),
            *final(budget),
            *should_stop,
        ),
{
    let ghost goal = expanded(
        start as int,
        end as int,
        width as int,
        first@,
        Progress { glyphs: map@, budget: *budget },
    );
    let mut unicode: String = first;
    let mut code: u64 = start as u64;
    let mut index: usize = 0;
    while code <= end as u64
        invariant
            should_stop.requires(()),
            map.wf(),
            width <= MAX_CODE_BYTES,
            code <= end + 1,
            index < 256,
            goal == expanded(
                start as int,
                end as int,
                width as int,
                first@,
                Progress { glyphs: old(map)@, budget: *old(budget) },
            ),
            expanded(
                code as int,
                end as int,
                width as int,
                unicode@,
                Progress { glyphs: map@, budget: *budget },
            ) == goal,
        decreases end + 1 - code,
    {
        if index == 0 && should_stop() {
            return Err(PdfError::Cancelled);
        }
        index = if index == 255 {
            0
        } else {
            index + 1
        };
        let source = match number_to_bytes(code as u32, width) {
            None => {
                return Err(PdfError::CMapLimitExceeded);
            },
            Some(source) => source,
        };
        let next = next_unicode_scalar(unicode.as_str());
        match budget.insert(map, source, unicode) {
            Err(error) => {
                return Err(error);
            },
            Ok(()) => {},
        }
        unicode = next;
        code += 1;
    }
    Ok(())
}

fn insert_range_of<F: Fn() -> bool>(
    first: &Vec<u8>,
    last: &Vec<u8>,
    target: &Vec<u8>,
    map: &mut FontMap,
    budget: &mut CmapBudget,
    should_stop: &F,
) -> (r: Result<(), PdfError>)
    requires
        should_stop.requires(()),
        old(map).wf(),
    ensures
        final(map).wf(),
        progressed(
            r,
            with_range(
                first@,
                last@,
                target@,
                Progress { glyphs: old(map)@, budget: *old(budget) },
            ),
            *final(map),
            *final(budget),
            *should_stop,
        ),
{
    if first.len() == 0 || first.len() != last.len() || target.len() == 0 {
        return Ok(());
    }
    if first.len() > MAX_CODE_BYTES {
        return Err(PdfError::CMapLimitExceeded);
    }
    proof {
        lemma_code_fits(first@);
        lemma_code_fits(last@);
    }
    let (start, end): (u32, u32) = match (
        bytes_to_number(first.as_slice()),
        bytes_to_number(last.as_slice()),
    ) {
        (Some(start), Some(end)) => (start, end),
        _ => {
            return Err(PdfError::CMapLimitExceeded);
        },
    };
    if start > end {
        return Ok(());
    }
    if end - start >= MAX_CMAP_RANGE_ENTRIES as u32 {
        return Err(PdfError::CMapLimitExceeded);
    }
    match decode_unicode_hex(target.as_slice()) {
        None => Ok(()),
        Some(value) => {
            match budget.ensure_entry_capacity((end - start + 1) as usize) {
                Err(error) => {
                    return Err(error);
                },
                Ok(()) => {},
            }
            insert_range(start, end, first.len(), value, map, budget, should_stop)
        },
    }
}

proof fn lemma_code_fits(b: Seq<u8>)
    requires
        b.len() <= 4,
    ensures
        0 <= be_value(b) <= u32::MAX,
{
    reveal_with_fuel(be_value, 5);
}

fn parse_bfrange_block<F: Fn() -> bool>(
    block: &[u8],
    map: &mut FontMap,
    budget: &mut CmapBudget,
    should_stop: &F,
) -> (r: Result<(), PdfError>)
    requires
        should_stop.requires(()),
        old(map).wf(),
    ensures
        final(map).wf(),
        progressed(
            r,
            bfrange(block@, 0, Progress { glyphs: old(map)@, budget: *old(budget) }),
            *final(map),
            *final(budget),
            *should_stop,
        ),
{
    let ghost goal = bfrange(block@, 0, Progress { glyphs: map@, budget: *budget });
    let mut tokens = CmapHexTokens::new(block);
    loop
        invariant
            should_stop.requires(()),
            map.wf(),
            tokens.bytes@ == block@,
            tokens.position <= block@.len(),
            goal == bfrange(block@, 0, Progress { glyphs: old(map)@, budget: *old(budget) }),
            bfrange(
                block@,
                tokens.position as int,
                Progress { glyphs: map@, budget: *budget },
            ) == goal,
        decreases block@.len() - tokens.position,
    {
        let first = match tokens.next(budget, should_stop) {
            Err(error) => {
                return Err(error);
            },
            Ok(None) => {
                return Ok(());
            },
            Ok(Some(first)) => first,
        };
        let last = match tokens.next(budget, should_stop) {
            Err(error) => {
                return Err(error);
            },
            Ok(None) => {
                return Ok(());
            },
            Ok(Some(last)) => last,
        };
        let target = match tokens.next(budget, should_stop) {
            Err(error) => {
                return Err(error);
            },
            Ok(None) => {
                return Ok(());
            },
            Ok(Some(target)) => target,
        };
        match insert_range_of(&first, &last, &target, map, budget, should_stop) {
            Err(error) => {
                return Err(error);
            },
            Ok(()) => {},
        }
    }
}

pub open spec fn opening(range: bool) -> Seq<u8> {
    if range {
        encode_utf8("beginbfrange"@)
    } else {
        encode_utf8("beginbfchar"@)
    }
}

pub open spec fn closing(range: bool) -> Seq<u8> {
    if range {
        encode_utf8("endbfrange"@)
    } else {
        encode_utf8("endbfchar"@)
    }
}

/// The blocks of one kind from `pos` on, added to `p`.
pub open spec fn blocks(b: Seq<u8>, pos: int, range: bool, p: Progress) -> Option<Progress>
    decreases b.len() - pos,
{
    match bytes::first_at(b, pos, opening(range)) {
        None => Some(p),
        Some(open) => {
            let start = open + opening(range).len();
            match bytes::first_at(b, start, closing(range)) {
                None => Some(p),
                Some(end) => {
                    let block = b.subrange(start, end);
                    let after = if range {
                        bfrange(block, 0, p)
                    } else {
                        bfchar(block, 0, p)
                    };
                    let next = end + closing(range).len();
                    match after {
                        None => None,
                        Some(p) => if pos < next <= b.len() {
                            blocks(b, next, range, p)
                        } else {
                            Some(p)
                        },
                    }
                },
            }
        },
    }
}

/// The font map that a character map writes: first its single codes, then its
/// ranges; none if it has no codes.
pub open spec fn font_map(b: Seq<u8>) -> Result<Option<Glyphs>, Failure> {
    match blocks(b, 0, false, Progress { glyphs: no_glyphs(), budget: fresh_budget() }) {
        None => Err(Failure::CMapLimitExceeded),
        Some(p) => match blocks(b, 0, true, p) {
            None => Err(Failure::CMapLimitExceeded),
            Some(p) => if p.glyphs.width > 0 && p.glyphs.values.len() > 0 {
                Ok(Some(p.glyphs))
            } else {
                Ok(None)
            },
        },
    }
}

/// The first place from `from` on where `needle` stands, asking now and then
/// whether to stop.
pub fn find_bytes_with_control<F: Fn() -> bool>(
    haystack: &[u8],
    from: usize,
    needle: &[u8],
    should_stop: &F,
) -> (r: Result<Option<usize>, PdfError>)
    requires
        should_stop.requires(()),
    ensures
        stopped(r, *should_stop) || match bytes::first_at(haystack@, from as int, needle@) {
            Some(i) => r is Ok && r->Ok_0 is Some && r->Ok_0->0 == i && from <= i && i
                + needle@.len() <= haystack@.len(),
            None => r is Ok && r->Ok_0 is None,
        },
{
    if needle.len() > haystack.len() || from > haystack.len() - needle.len() {
        return Ok(None);
    }
    let last: usize = haystack.len() - needle.len();
    let mut i: usize = from;
    loop
        invariant
            should_stop.requires(()),
            from <= i <= last,
            last + needle@.len() == haystack@.len(),
            bytes::first_at(haystack@, i as int, needle@) == bytes::first_at(
                haystack@,
                from as int,
                needle@,
            ),
        decreases last - i,
    {
        if i % 4_096 == 0 && should_stop() {
            return Err(PdfError::Cancelled);
        }
        if bytes::occurs_at(haystack, i, needle) {
            return Ok(Some(i));
        }
        if i == last {
            assert(bytes::first_at(haystack@, i + 1, needle@) is None);
            return Ok(None);
        }
        i += 1;
    }
}

fn parse_blocks<F: Fn() -> bool>(
    data: &[u8],
    range: bool,
    map: &mut FontMap,
    budget: &mut CmapBudget,
    should_stop: &F,
) -> (r: Result<(), PdfError>)
    requires
        should_stop.requires(()),
        old(map).wf(),
    ensures
        final(map).wf(),
        progressed(
            r,
            blocks(data@, 0, range, Progress { glyphs: old(map)@, budget: *old(budget) }),
            *final(map),
            *final(budget),
            *should_stop,
        ),
{
    let ghost goal = blocks(data@, 0, range, Progress { glyphs: map@, budget: *budget });
    let begin: &[u8] = if range {
        "beginbfrange".as_bytes()
    } else {
        "beginbfchar".as_bytes()
    };
    let finish: &[u8] = if range {
        "endbfrange".as_bytes()
    } else {
        "endbfchar".as_bytes()
    };
    proof {
        lemma_markers_nonempty();
    }
    let mut pos: usize = 0;
    loop
        invariant
            should_stop.requires(()),
            map.wf(),
            begin@ == opening(range),
            finish@ == closing(range),
            begin@.len() > 0,
            pos <= data@.len(),
            goal == blocks(
                data@,
                0,
                range,
                Progress { glyphs: old(map)@, budget: *old(budget) },
            ),
            blocks(data@, pos as int, range, Progress { glyphs: map@, budget: *budget }) == goal,
        decreases data@.len() - pos,
    {
        let open: usize = match find_bytes_with_control(data, pos, begin, should_stop) {
            Err(error) => {
                return Err(error);
            },
            Ok(None) => {
                return Ok(());
            },
            Ok(Some(open)) => open,
        };
        assert(data.len() <= usize::MAX);
        let start: usize = open + begin.len();
        let end: usize = match find_bytes_with_control(data, start, finish, should_stop) {
            Err(error) => {
                return Err(error);
            },
            Ok(None) => {
                return Ok(());
            },
            Ok(Some(end)) => end,
        };
        let block = vstd::slice::slice_subrange(data, start, end);
        let result = if range {
            parse_bfrange_block(block, map, budget, should_stop)
        } else {
            parse_bfchar_block(block, map, budget, should_stop)
        };
        match result {
            Err(error) => {
                return Err(error);
            },
            Ok(()) => {},
        }
        pos = end + finish.len();
    }
}

proof fn lemma_markers_nonempty()
    ensures
        opening(true).len() > 0,
        opening(false).len() > 0,
{
    reveal_strlit("beginbfrange");
    reveal_strlit("beginbfchar");
    encode_utf8_first_scalar("beginbfrange"@);
    encode_utf8_first_scalar("beginbfchar"@);
}

pub open spec fn opt_map(map: Option<FontMap>) -> Option<Glyphs> {
    match map {
        Some(map) => Some(map@),
        None => None,
    }
}

/// Reads a character map.
pub fn parse_to_unicode_cmap<F: Fn() -> bool>(data: &[u8], should_stop: &F) -> (r: Result<
    Option<FontMap>,
    PdfError,
>)
    requires
        should_stop.requires(()),
    ensures
        stopping::always(*should_stop) ==> stopped(r, *should_stop),
        stopped(r, *should_stop) || match font_map(data@) {
            Ok(glyphs) => r is Ok && opt_map(r->Ok_0) == glyphs,
            Err(failure) => r is Err && r->Err_0@ == failure,
        },
        r matches Ok(Some(map)) ==> map.wf(),
{
    if should_stop() {
        return Err(PdfError::Cancelled);
    }
    let mut map = FontMap::default();
    let mut budget = CmapBudget::default();
    match parse_blocks(data, false, &mut map, &mut budget, should_stop) {
        Err(error) => {
            return Err(error);
        },
        Ok(()) => {},
    }
    match parse_blocks(data, true, &mut map, &mut budget, should_stop) {
        Err(error) => {
            return Err(error);
        },
        Ok(()) => {},
    }
    if map.code_width > 0 && !map.values.is_empty() {
        Ok(Some(map))
    } else {
        Ok(None)
    }
}

} // verus!

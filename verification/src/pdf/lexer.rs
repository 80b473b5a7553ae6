//! Splitting PDF syntax into tokens.

use vstd::prelude::*;
use vstd::utf8::*;

use crate::pdf::number;
use crate::pdf::number::{parse_number, PdfNumber};
use crate::text;

verus! {

/// One token of PDF syntax.
#[derive(Debug)]
pub enum Token {
    Number(PdfNumber),
    Name(String),
    LiteralString(Vec<u8>),
    HexString(Vec<u8>),
    Keyword(String),
    StartDictionary,
    EndDictionary,
    StartArray,
    EndArray,
}

/// What contracts say of a `Token`.
pub enum Lexeme {
    Number(PdfNumber),
    Name(Seq<char>),
    LiteralString(Seq<u8>),
    HexString(Seq<u8>),
    Keyword(Seq<char>),
    StartDictionary,
    EndDictionary,
    StartArray,
    EndArray,
}

impl View for Token {
    type V = Lexeme;

    open spec fn view(&self) -> Lexeme {
        match *self {
            Token::Number(value) => Lexeme::Number(value),
            Token::Name(value) => Lexeme::Name(value@),
            Token::LiteralString(value) => Lexeme::LiteralString(value@),
            Token::HexString(value) => Lexeme::HexString(value@),
            Token::Keyword(value) => Lexeme::Keyword(value@),
            Token::StartDictionary => Lexeme::StartDictionary,
            Token::EndDictionary => Lexeme::EndDictionary,
            Token::StartArray => Lexeme::StartArray,
            Token::EndArray => Lexeme::EndArray,
        }
    }
}

pub open spec fn token_wf(token: Lexeme) -> bool {
    token matches Lexeme::Number(value) ==> value.wf()
}

pub open spec fn some_view(token: Option<Token>) -> Option<Lexeme> {
    match token {
        Some(token) => Some(token@),
        None => None,
    }
}

impl Clone for Token {
    fn clone(&self) -> (r: Token)
        ensures
            r@ == self@,
    {
        match self {
            Token::Number(value) => Token::Number(*value),
            Token::Name(value) => Token::Name(value.clone()),
            Token::LiteralString(value) => Token::LiteralString(value.clone()),
            Token::HexString(value) => Token::HexString(value.clone()),
            Token::Keyword(value) => Token::Keyword(value.clone()),
            Token::StartDictionary => Token::StartDictionary,
            Token::EndDictionary => Token::EndDictionary,
            Token::StartArray => Token::StartArray,
            Token::EndArray => Token::EndArray,
        }
    }
}

pub open spec fn is_space(byte: u8) -> bool {
    byte == 9 || byte == 10 || byte == 12 || byte == 13 || byte == 32
}

pub open spec fn is_delimiter_spec(byte: u8) -> bool {
    byte == 40 || byte == 41 || byte == 60 || byte == 62 || byte == 91 || byte == 93 || byte == 123
        || byte == 125 || byte == 47
}

pub open spec fn hex_value(byte: u8) -> Option<u8> {
    if 48 <= byte <= 57 {
        Some((byte - 48) as u8)
    } else if 97 <= byte <= 102 {
        Some((byte - 87) as u8)
    } else if 65 <= byte <= 70 {
        Some((byte - 55) as u8)
    } else {
        None
    }
}

/// ASCII white space.
pub fn is_ascii_space(byte: u8) -> (r: bool)
    ensures
        r == is_space(byte),
{
    byte == 9 || byte == 10 || byte == 12 || byte == 13 || byte == 32
}

pub fn is_delimiter(byte: u8) -> (r: bool)
    ensures
        r == is_delimiter_spec(byte),
{
    byte == 40 || byte == 41 || byte == 60 || byte == 62 || byte == 91 || byte == 93 || byte == 123
        || byte == 125 || byte == 47
}

/// The value of a hexadecimal digit.
pub fn hex_nibble(byte: u8) -> (r: Option<u8>)
    ensures
        r == hex_value(byte),
        r is Some ==> r->0 < 16,
{
    if byte >= 48 && byte <= 57 {
        Some(byte - 48)
    } else if byte >= 97 && byte <= 102 {
        Some(byte - 87)
    } else if byte >= 65 && byte <= 70 {
        Some(byte - 55)
    } else {
        None
    }
}

/// The byte at `i`, if the sequence has one there.
pub open spec fn at(b: Seq<u8>, i: int) -> Option<u8> {
    if 0 <= i < b.len() {
        Some(b[i])
    } else {
        None
    }
}

/// Where white space and comments end that begin at `pos`.
pub open spec fn space_end(b: Seq<u8>, pos: int, comment: bool) -> int
    decreases b.len() - pos, (if comment {
        1int
    } else {
        0int
    }),
{
    if pos < 0 || pos >= b.len() {
        pos
    } else if comment {
        if b[pos] == 10 || b[pos] == 13 {
            space_end(b, pos, false)
        } else {
            space_end(b, pos + 1, true)
        }
    } else if is_space(b[pos]) {
        space_end(b, pos + 1, false)
    } else if b[pos] == 37 {
        space_end(b, pos + 1, true)
    } else {
        pos
    }
}

/// Where a run of regular characters ends that begins at `pos`.
pub open spec fn word_end(b: Seq<u8>, pos: int) -> int
    decreases b.len() - pos,
{
    if 0 <= pos < b.len() && !is_space(b[pos]) && !is_delimiter_spec(b[pos]) {
        word_end(b, pos + 1)
    } else {
        pos
    }
}

pub open spec fn is_octal(byte: Option<u8>) -> bool {
    byte is Some && 48 <= byte->0 <= 55
}

/// The octal digits of an escape from `i` on: one to three.
pub open spec fn octal_len(b: Seq<u8>, i: int) -> int {
    if !is_octal(at(b, i + 1)) {
        1
    } else if !is_octal(at(b, i + 2)) {
        2
    } else {
        3
    }
}

pub open spec fn octal_value(b: Seq<u8>, i: int) -> u8 {
    let one = b[i] - 48;
    let two = one * 8 + (b[i + 1] - 48);
    let three = two * 8 + (b[i + 2] - 48);
    if octal_len(b, i) == 1 {
        one as u8
    } else if octal_len(b, i) == 2 {
        two as u8
    } else {
        number::min(255, three) as u8
    }
}

/// What follows the open parenthesis of a string: its bytes, if it is closed,
/// and where reading stops.
pub open spec fn literal(b: Seq<u8>, pos: int, depth: nat, out: Seq<u8>) -> (
    Option<Seq<u8>>,
    int,
)
    decreases b.len() - pos,
{
    if pos < 0 || pos >= b.len() {
        (None, pos)
    } else {
        let byte = b[pos];
        if byte == 40 {
            literal(b, pos + 1, depth + 1, out.push(byte))
        } else if byte == 41 {
            if depth <= 1 {
                (Some(out), pos + 1)
            } else {
                literal(b, pos + 1, (depth - 1) as nat, out.push(byte))
            }
        } else if byte == 92 {
            if pos + 1 >= b.len() {
                (None, pos + 1)
            } else {
                let escaped = b[pos + 1];
                if escaped == 110 {
                    literal(b, pos + 2, depth, out.push(10))
                } else if escaped == 114 {
                    literal(b, pos + 2, depth, out.push(13))
                } else if escaped == 116 {
                    literal(b, pos + 2, depth, out.push(9))
                } else if escaped == 98 {
                    literal(b, pos + 2, depth, out.push(8))
                } else if escaped == 102 {
                    literal(b, pos + 2, depth, out.push(12))
                } else if escaped == 10 {
                    literal(b, pos + 2, depth, out)
                } else if escaped == 13 {
                    if at(b, pos + 2) == Some(10u8) {
                        literal(b, pos + 3, depth, out)
                    } else {
                        literal(b, pos + 2, depth, out)
                    }
                } else if 48 <= escaped <= 55 {
                    literal(
                        b,
                        pos + 1 + octal_len(b, pos + 1),
                        depth,
                        out.push(octal_value(b, pos + 1)),
                    )
                } else {
                    literal(b, pos + 2, depth, out.push(escaped))
                }
            }
        } else {
            literal(b, pos + 1, depth, out.push(byte))
        }
    }
}

/// The digits of a hexadecimal string from `pos` on: their values, if a `>`
/// closes them, and where reading stops.
pub open spec fn hex_digits(b: Seq<u8>, pos: int, out: Seq<u8>) -> (Option<Seq<u8>>, int)
    decreases b.len() - pos,
{
    if pos < 0 || pos >= b.len() {
        (None, pos)
    } else if b[pos] == 62 {
        (Some(out), pos + 1)
    } else if is_space(b[pos]) {
        hex_digits(b, pos + 1, out)
    } else {
        match hex_value(b[pos]) {
            None => (None, pos + 1),
            Some(value) => hex_digits(b, pos + 1, out.push(value)),
        }
    }
}

/// Digits put together in pairs, the last one followed by a zero if it has no
/// partner.
pub open spec fn pair_up(nibbles: Seq<u8>) -> Seq<u8> {
    Seq::new(
        ((nibbles.len() + 1) / 2) as nat,
        |i: int|
            (nibbles[2 * i] * 16 + if 2 * i + 1 < nibbles.len() {
                nibbles[2 * i + 1] as int
            } else {
                0
            }) as u8,
    )
}

/// A name's bytes with its `#` escapes resolved, from `i` on.
pub open spec fn unescape(s: Seq<u8>, i: int) -> Seq<u8>
    decreases s.len() - i,
{
    if i < 0 || i >= s.len() {
        Seq::empty()
    } else if s[i] == 35 && i + 2 < s.len() && hex_value(s[i + 1]) is Some && hex_value(
        s[i + 2],
    ) is Some {
        seq![(hex_value(s[i + 1])->0 * 16 + hex_value(s[i + 2])->0) as u8] + unescape(s, i + 3)
    } else {
        seq![s[i]] + unescape(s, i + 1)
    }
}

pub open spec fn name_text(s: Seq<u8>) -> Seq<char> {
    text::utf8_lossy(unescape(s, 0))
}

pub open spec fn is_number_start(byte: u8) -> bool {
    number::is_digit(byte) || byte == 43 || byte == 45 || byte == 46
}

/// What a run of regular characters is that may be a number.
pub open spec fn number_or_keyword(s: Seq<u8>) -> Option<Lexeme> {
    if !valid_utf8(s) {
        None
    } else {
        match number::number_of(s) {
            Some(value) => Some(Lexeme::Number(value)),
            None => Some(Lexeme::Keyword(decode_utf8(s))),
        }
    }
}

/// The token that begins at `pos`, and where reading stops.
#[verifier::opaque]
pub open spec fn token_at(b: Seq<u8>, pos: int) -> (Option<Lexeme>, int) {
    let p = space_end(b, pos, false);
    match at(b, p) {
        None => (None, p),
        Some(byte) => if byte == 60 && at(b, p + 1) == Some(60u8) {
            (Some(Lexeme::StartDictionary), p + 2)
        } else if byte == 62 && at(b, p + 1) == Some(62u8) {
            (Some(Lexeme::EndDictionary), p + 2)
        } else if byte == 91 {
            (Some(Lexeme::StartArray), p + 1)
        } else if byte == 93 {
            (Some(Lexeme::EndArray), p + 1)
        } else if byte == 40 {
            let (content, end) = literal(b, p + 1, 1, Seq::empty());
            match content {
                Some(bytes) => (Some(Lexeme::LiteralString(bytes)), end),
                None => (None, end),
            }
        } else if byte == 60 {
            let (content, end) = hex_digits(b, p + 1, Seq::empty());
            match content {
                Some(nibbles) => (Some(Lexeme::HexString(pair_up(nibbles))), end),
                None => (None, end),
            }
        } else if byte == 47 {
            let end = word_end(b, p + 1);
            (Some(Lexeme::Name(name_text(b.subrange(p + 1, end)))), end)
        } else if is_number_start(byte) {
            let end = word_end(b, p);
            (number_or_keyword(b.subrange(p, end)), end)
        } else {
            let end = word_end(b, p);
            if end == p {
                (None, end)
            } else {
                (Some(Lexeme::Keyword(text::utf8_lossy(b.subrange(p, end)))), end)
            }
        },
    }
}

/// Where a tokenizer stands: a position, and a token that was looked at but
/// not taken.
pub struct Place {
    pub pos: int,
    pub ahead: Option<Lexeme>,
}

/// The next token, and the place behind it.
pub open spec fn step(b: Seq<u8>, place: Place) -> (Option<Lexeme>, Place) {
    match place.ahead {
        Some(token) => (Some(token), Place { pos: place.pos, ahead: None }),
        None => {
            let (token, pos) = token_at(b, place.pos);
            (token, Place { pos, ahead: None })
        },
    }
}

/// The place after a look at the next token.
pub open spec fn look(b: Seq<u8>, place: Place) -> Place {
    match place.ahead {
        Some(_) => place,
        None => {
            let (token, pos) = token_at(b, place.pos);
            Place { pos, ahead: token }
        },
    }
}

/// What is left to read: it shrinks with every token.
pub open spec fn left(b: Seq<u8>, place: Place) -> int {
    2 * (b.len() - place.pos) + if place.ahead is Some {
        1int
    } else {
        0int
    }
}

pub open spec fn place_wf(b: Seq<u8>, place: Place) -> bool {
    &&& 0 <= place.pos <= b.len()
    &&& place.ahead is Some ==> token_wf(place.ahead->0)
}

proof fn lemma_space_end(b: Seq<u8>, pos: int, comment: bool)
    requires
        0 <= pos <= b.len(),
    ensures
        pos <= space_end(b, pos, comment) <= b.len(),
    decreases b.len() - pos, (if comment {
        1int
    } else {
        0int
    }),
{
    if pos < b.len() {
        if comment {
            if b[pos] == 10 || b[pos] == 13 {
                lemma_space_end(b, pos, false);
            } else {
                lemma_space_end(b, pos + 1, true);
            }
        } else if is_space(b[pos]) {
            lemma_space_end(b, pos + 1, false);
        } else if b[pos] == 37 {
            lemma_space_end(b, pos + 1, true);
        }
    }
}

proof fn lemma_word_end(b: Seq<u8>, pos: int)
    requires
        0 <= pos <= b.len(),
    ensures
        pos <= word_end(b, pos) <= b.len(),
    decreases b.len() - pos,
{
    if pos < b.len() && !is_space(b[pos]) && !is_delimiter_spec(b[pos]) {
        lemma_word_end(b, pos + 1);
    }
}

proof fn lemma_literal(b: Seq<u8>, pos: int, depth: nat, out: Seq<u8>)
    requires
        0 <= pos <= b.len(),
    ensures
        pos <= literal(b, pos, depth, out).1 <= b.len(),
    decreases b.len() - pos,
{
    if pos < b.len() {
        let byte = b[pos];
        if byte == 40 {
            lemma_literal(b, pos + 1, depth + 1, out.push(byte));
        } else if byte == 41 {
            if depth > 1 {
                lemma_literal(b, pos + 1, (depth - 1) as nat, out.push(byte));
            }
        } else if byte == 92 {
            if pos + 1 < b.len() {
                let escaped = b[pos + 1];
                if escaped == 110 {
                    lemma_literal(b, pos + 2, depth, out.push(10));
                } else if escaped == 114 {
                    lemma_literal(b, pos + 2, depth, out.push(13));
                } else if escaped == 116 {
                    lemma_literal(b, pos + 2, depth, out.push(9));
                } else if escaped == 98 {
                    lemma_literal(b, pos + 2, depth, out.push(8));
                } else if escaped == 102 {
                    lemma_literal(b, pos + 2, depth, out.push(12));
                } else if escaped == 10 {
                    lemma_literal(b, pos + 2, depth, out);
                } else if escaped == 13 {
                    if at(b, pos + 2) == Some(10u8) {
                        lemma_literal(b, pos + 3, depth, out);
                    } else {
                        lemma_literal(b, pos + 2, depth, out);
                    }
                } else if 48 <= escaped <= 55 {
                    lemma_literal(
                        b,
                        pos + 1 + octal_len(b, pos + 1),
                        depth,
                        out.push(octal_value(b, pos + 1)),
                    );
                } else {
                    lemma_literal(b, pos + 2, depth, out.push(escaped));
                }
            }
        } else {
            lemma_literal(b, pos + 1, depth, out.push(byte));
        }
    }
}

proof fn lemma_hex_digits(b: Seq<u8>, pos: int, out: Seq<u8>)
    requires
        0 <= pos <= b.len(),
    ensures
        pos <= hex_digits(b, pos, out).1 <= b.len(),
    decreases b.len() - pos,
{
    if pos < b.len() && b[pos] != 62 {
        if is_space(b[pos]) {
            lemma_hex_digits(b, pos + 1, out);
        } else if hex_value(b[pos]) is Some {
            lemma_hex_digits(b, pos + 1, out.push(hex_value(b[pos])->0));
        }
    }
}

/// Every token takes at least one byte, and reading stays within the bytes.
pub proof fn lemma_token_at(b: Seq<u8>, pos: int)
    requires
        0 <= pos <= b.len(),
    ensures
        pos <= token_at(b, pos).1 <= b.len(),
        token_at(b, pos).0 is Some ==> pos < token_at(b, pos).1,
{
    reveal(token_at);
    lemma_space_end(b, pos, false);
    let p = space_end(b, pos, false);
    if p < b.len() {
        lemma_literal(b, p + 1, 1, Seq::empty());
        lemma_hex_digits(b, p + 1, Seq::empty());
        lemma_word_end(b, p + 1);
        lemma_word_end(b, p);
    }
}

/// Splits bytes into tokens.
pub struct Tokenizer<'a> {
    pub bytes: &'a [u8],
    pub position: usize,
    pub lookahead: Option<Token>,
}

impl<'a> Tokenizer<'a> {
    pub open spec fn place(&self) -> Place {
        Place { pos: self.position as int, ahead: some_view(self.lookahead) }
    }

    pub open spec fn wf(&self) -> bool {
        place_wf(self.bytes@, self.place())
    }

    pub fn new(bytes: &'a [u8]) -> (r: Self)
        ensures
            r.wf(),
            r.bytes@ == bytes@,
            r.place() == (Place { pos: 0, ahead: None }),
    {
        Tokenizer { bytes, position: 0, lookahead: None }
    }

    /// A second tokenizer at the same place.
    pub fn probe(&self) -> (r: Self)
        ensures
            r.bytes@ == self.bytes@,
            r.place() == self.place(),
    {
        let lookahead = match &self.lookahead {
            Some(token) => Some(token.clone()),
            None => None,
        };
        Tokenizer { bytes: self.bytes, position: self.position, lookahead }
    }

    /// Moves to a position, at most the end of the bytes.
    pub fn set_position(&mut self, position: usize)
        ensures
            final(self).bytes@ == old(self).bytes@,
            final(self).wf(),
            final(self).place() == (Place {
                pos: number::min(position as int, old(self).bytes@.len() as int),
                ahead: None,
            }),
    {
        self.position = if position < self.bytes.len() {
            position
        } else {
            self.bytes.len()
        };
        self.lookahead = None;
    }

    pub fn raw_position(&self) -> (r: usize)
        ensures
            r == self.position,
    {
        self.position
    }

    /// Skips white space and comments.
    pub fn skip_space_and_comments(&mut self)
        requires
            old(self).wf(),
        ensures
            final(self).bytes@ == old(self).bytes@,
            final(self).lookahead == old(self).lookahead,
            final(self).position == space_end(old(self).bytes@, old(self).position as int, false),
            final(self).position <= old(self).bytes@.len(),
    {
        let mut comment: bool = false;
        let mut p: usize = self.position;
        while p < self.bytes.len()
            invariant_except_break
                p <= self.bytes@.len(),
                self.bytes@ == old(self).bytes@,
                self.lookahead == old(self).lookahead,
                space_end(self.bytes@, p as int, comment) == space_end(
                    old(self).bytes@,
                    old(self).position as int,
                    false,
                ),
            ensures
                p <= self.bytes@.len(),
                self.bytes@ == old(self).bytes@,
                self.lookahead == old(self).lookahead,
                p == space_end(old(self).bytes@, old(self).position as int, false),
            decreases self.bytes@.len() - p, (if comment {
                1int
            } else {
                0int
            }),
        {
            let byte: u8 = self.bytes[p];
            if comment {
                if byte == 10 || byte == 13 {
                    comment = false;
                } else {
                    p += 1;
                }
            } else if is_ascii_space(byte) {
                p += 1;
            } else if byte == 37 {
                comment = true;
                p += 1;
            } else {
                break;
            }
        }
        self.position = p;
    }

    fn read_literal_string(&mut self) -> (r: Option<Vec<u8>>)
        requires
            old(self).position < old(self).bytes@.len(),
        ensures
            final(self).bytes@ == old(self).bytes@,
            final(self).lookahead == old(self).lookahead,
            ({
                let (content, end) = literal(
                    old(self).bytes@,
                    old(self).position + 1,
                    1,
                    Seq::empty(),
                );
                &&& final(self).position == end
                &&& r is Some == (content is Some)
                &&& r is Some ==> r->0@ == content->0
            }),
    {
        let bytes = self.bytes;
        assert(bytes.len() <= usize::MAX);
        let mut p: usize = self.position + 1;
        let mut output: Vec<u8> = Vec::new();
        let mut depth: usize = 1;
        let ghost goal = literal(bytes@, self.position + 1, 1, Seq::empty());
        while p < bytes.len()
            invariant
                1 <= depth <= p <= bytes@.len(),
                self.bytes@ == old(self).bytes@,
                bytes@ == self.bytes@,
                self.lookahead == old(self).lookahead,
                goal == literal(old(self).bytes@, old(self).position + 1, 1, Seq::empty()),
                literal(bytes@, p as int, depth as nat, output@) == goal,
            decreases bytes@.len() - p,
        {
            let byte: u8 = bytes[p];
            if byte == 40 {
                depth += 1;
                output.push(byte);
                p += 1;
            } else if byte == 41 {
                if depth == 1 {
                    self.position = p + 1;
                    return Some(output);
                }
                depth -= 1;
                output.push(byte);
                p += 1;
            } else if byte == 92 {
                if p + 1 >= bytes.len() {
                    self.position = p + 1;
                    return None;
                }
                let escaped: u8 = bytes[p + 1];
                if escaped == 110 {
                    output.push(10);
                    p += 2;
                } else if escaped == 114 {
                    output.push(13);
                    p += 2;
                } else if escaped == 116 {
                    output.push(9);
                    p += 2;
                } else if escaped == 98 {
                    output.push(8);
                    p += 2;
                } else if escaped == 102 {
                    output.push(12);
                    p += 2;
                } else if escaped == 10 {
                    p += 2;
                } else if escaped == 13 {
                    p += 2;
                    if p < bytes.len() && bytes[p] == 10 {
                        p += 1;
                    }
                } else if escaped >= 48 && escaped <= 55 {
                    let mut value: u16 = (escaped - 48) as u16;
                    let mut next: usize = p + 2;
                    if next < bytes.len() && bytes[next] >= 48 && bytes[next] <= 55 {
                        value = value * 8 + (bytes[next] - 48) as u16;
                        next += 1;
                        if next < bytes.len() && bytes[next] >= 48 && bytes[next] <= 55 {
                            value = value * 8 + (bytes[next] - 48) as u16;
                            if value > 255 {
                                value = 255;
                            }
                            next += 1;
                        }
                    }
                    assert(next == p + 1 + octal_len(bytes@, p + 1));
                    output.push(value as u8);
                    p = next;
                } else {
                    output.push(escaped);
                    p += 2;
                }
            } else {
                output.push(byte);
                p += 1;
            }
        }
        self.position = p;
        None
    }

    fn read_hex_string(&mut self) -> (r: Option<Vec<u8>>)
        requires
            old(self).position < old(self).bytes@.len(),
        ensures
            final(self).bytes@ == old(self).bytes@,
            final(self).lookahead == old(self).lookahead,
            ({
                let (content, end) = hex_digits(
                    old(self).bytes@,
                    old(self).position + 1,
                    Seq::empty(),
                );
                &&& final(self).position == end
                &&& r is Some == (content is Some)
                &&& r is Some ==> r->0@ == pair_up(content->0)
            }),
    {
        let bytes = self.bytes;
        assert(bytes.len() <= usize::MAX);
        let mut p: usize = self.position + 1;
        let mut nibbles: Vec<u8> = Vec::new();
        let ghost goal = hex_digits(bytes@, self.position + 1, Seq::empty());
        while p < bytes.len()
            invariant
                p <= bytes@.len(),
                self.bytes@ == old(self).bytes@,
                bytes@ == self.bytes@,
                self.lookahead == old(self).lookahead,
                goal == hex_digits(old(self).bytes@, old(self).position + 1, Seq::empty()),
                hex_digits(bytes@, p as int, nibbles@) == goal,
                forall|i: int| 0 <= i < nibbles@.len() ==> #[trigger] nibbles@[i] < 16,
            decreases bytes@.len() - p,
        {
            let byte: u8 = bytes[p];
            p += 1;
            if byte == 62 {
                self.position = p;
                return Some(join_pairs(&nibbles));
            }
            if !is_ascii_space(byte) {
                match hex_nibble(byte) {
                    None => {
                        self.position = p;
                        return None;
                    },
                    Some(value) => {
                        nibbles.push(value);
                    },
                }
            }
        }
        self.position = p;
        None
    }

    fn scan_word(&self, from: usize) -> (r: usize)
        requires
            from <= self.bytes@.len(),
        ensures
            r == word_end(self.bytes@, from as int),
            from <= r <= self.bytes@.len(),
    {
        let mut p: usize = from;
        while p < self.bytes.len() && !is_ascii_space(self.bytes[p]) && !is_delimiter(self.bytes[p])
            invariant
                from <= p <= self.bytes@.len(),
                word_end(self.bytes@, p as int) == word_end(self.bytes@, from as int),
            decreases self.bytes@.len() - p,
        {
            p += 1;
        }
        p
    }

    /// Takes the next token.
    pub fn next(&mut self) -> (r: Option<Token>)
        requires
            old(self).wf(),
        ensures
            final(self).bytes@ == old(self).bytes@,
            final(self).wf(),
            (some_view(r), final(self).place()) == step(old(self).bytes@, old(self).place()),
            left(old(self).bytes@, final(self).place()) <= left(
                old(self).bytes@,
                old(self).place(),
            ),
            r is Some ==> token_wf(r->0@) && left(old(self).bytes@, final(self).place()) < left(
                old(self).bytes@,
                old(self).place(),
            ),
    {
        proof {
            lemma_token_at(self.bytes@, self.position as int);
        }
        if self.lookahead.is_some() {
            return self.lookahead.take();
        }
        proof {
            reveal(token_at);
        }
        self.skip_space_and_comments();
        let p: usize = self.position;
        if p >= self.bytes.len() {
            return None;
        }
        let byte: u8 = self.bytes[p];
        if byte == 60 && p + 1 < self.bytes.len() && self.bytes[p + 1] == 60 {
            self.position = p + 2;
            Some(Token::StartDictionary)
        } else if byte == 62 && p + 1 < self.bytes.len() && self.bytes[p + 1] == 62 {
            self.position = p + 2;
            Some(Token::EndDictionary)
        } else if byte == 91 {
            self.position = p + 1;
            Some(Token::StartArray)
        } else if byte == 93 {
            self.position = p + 1;
            Some(Token::EndArray)
        } else if byte == 40 {
            match self.read_literal_string() {
                Some(content) => Some(Token::LiteralString(content)),
                None => None,
            }
        } else if byte == 60 {
            match self.read_hex_string() {
                Some(content) => Some(Token::HexString(content)),
                None => None,
            }
        } else if byte == 47 {
            let end: usize = self.scan_word(p + 1);
            self.position = end;
            let name = decode_name(vstd::slice::slice_subrange(self.bytes, p + 1, end));
            Some(Token::Name(name))
        } else if (byte >= 48 && byte <= 57) || byte == 43 || byte == 45 || byte == 46 {
            let end: usize = self.scan_word(p);
            self.position = end;
            read_number_or_keyword(vstd::slice::slice_subrange(self.bytes, p, end))
        } else {
            let end: usize = self.scan_word(p);
            if end == p {
                return None;
            }
            self.position = end;
            let word = text::from_utf8_lossy(vstd::slice::slice_subrange(self.bytes, p, end));
            Some(Token::Keyword(word))
        }
    }

    /// Looks at the next token without taking it.
    pub fn peek(&mut self) -> (r: Option<Token>)
        requires
            old(self).wf(),
        ensures
            final(self).bytes@ == old(self).bytes@,
            final(self).wf(),
            final(self).place() == look(old(self).bytes@, old(self).place()),
            some_view(r) == final(self).place().ahead,
            left(old(self).bytes@, final(self).place()) <= left(
                old(self).bytes@,
                old(self).place(),
            ),
    {
        if self.lookahead.is_none() {
            let token = self.next();
            self.lookahead = token;
        }
        match &self.lookahead {
            Some(token) => Some(token.clone()),
            None => None,
        }
    }
}

fn join_pairs(nibbles: &Vec<u8>) -> (r: Vec<u8>)
    requires
        forall|i: int| 0 <= i < nibbles@.len() ==> #[trigger] nibbles@[i] < 16,
    ensures
        r@ == pair_up(nibbles@),
{
    let mut out: Vec<u8> = Vec::new();
    let mut i: usize = 0;
    while i < nibbles.len()
        invariant
            i <= nibbles@.len() + 1,
            i % 2 == 0,
            i == 2 * out@.len(),
            forall|k: int| 0 <= k < nibbles@.len() ==> #[trigger] nibbles@[k] < 16,
            forall|k: int| 0 <= k < out@.len() ==> #[trigger] out@[k] == pair_up(nibbles@)[k],
        decreases nibbles@.len() + 1 - i,
    {
        assert(nibbles@[i as int] < 16);
        let high: u8 = nibbles[i];
        let ghost before = out@;
        if nibbles.len() - i > 1 {
            assert(nibbles@[i as int + 1] < 16);
            out.push(high * 16 + nibbles[i + 1]);
            i += 2;
        } else {
            out.push(high * 16);
            assert(out@ =~= pair_up(nibbles@));
            return out;
        }
    }
    assert(out@ =~= pair_up(nibbles@));
    out
}

/// The text of a name, with its `#` escapes resolved.
pub fn decode_name(bytes: &[u8]) -> (r: String)
    ensures
        r@ == name_text(bytes@),
{
    let mut output: Vec<u8> = Vec::new();
    let mut i: usize = 0;
    while i < bytes.len()
        invariant
            i <= bytes@.len(),
            output@ + unescape(bytes@, i as int) == unescape(bytes@, 0),
        decreases bytes@.len() - i,
    {
        let ghost before = output@;
        if bytes[i] == 35 && bytes.len() - i > 2 {
            if let (Some(high), Some(low)) = (hex_nibble(bytes[i + 1]), hex_nibble(bytes[i + 2])) {
                output.push(high * 16 + low);
                proof {
                    assert(before + unescape(bytes@, i as int) =~= output@ + unescape(
                        bytes@,
                        i + 3,
                    ));
                }
                i += 3;
                continue;
            }
        }
        output.push(bytes[i]);
        proof {
            assert(before + unescape(bytes@, i as int) =~= output@ + unescape(bytes@, i + 1));
        }
        i += 1;
    }
    assert(output@ =~= unescape(bytes@, 0));
    text::from_utf8_lossy(output.as_slice())
}

fn read_number_or_keyword(word: &[u8]) -> (r: Option<Token>)
    ensures
        some_view(r) == number_or_keyword(word@),
        r is Some ==> token_wf(r->0@),
{
    match text::from_utf8(word) {
        None => None,
        Some(keyword) => match parse_number(word) {
            Some(value) => Some(Token::Number(value)),
            None => Some(Token::Keyword(keyword)),
        },
    }
}

/// `token` is the keyword `word`.
pub fn is_keyword(token: &Option<Token>, word: &str) -> (r: bool)
    ensures
        r == (some_view(*token) == Some(Lexeme::Keyword(word@))),
{
    match token {
        Some(Token::Keyword(keyword)) => text::same(keyword.as_str(), word),
        _ => false,
    }
}

} // verus!

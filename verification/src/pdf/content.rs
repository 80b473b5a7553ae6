//! The text that content streams show.

use vstd::prelude::*;
use vstd::utf8::*;

use crate::pdf::cmap::{FontMap, Glyphs};
use crate::pdf::error::{settles, stopped, Failure, PdfError};
use crate::pdf::filter;
use crate::pdf::filter::decode_stream_with_control;
use crate::pdf::font_text;
use crate::pdf::font_text::{font_chars, plain_chars};
use crate::pdf::lexer;
use crate::pdf::lexer::{Lexeme, Place, Token, Tokenizer};
use crate::pdf::number;
use crate::pdf::number::PdfNumber;
use crate::pdf::object;
use crate::pdf::object::{get_object, Objects, Thing, MAX_STREAM_BYTES};
use crate::pdf::pages;
use crate::pdf::pages::{
    font_maps_for_resources, page_content_streams, page_font_maps, page_resources,
    resolved_dictionary, FontMaps,
};
use crate::pdf::value;
use crate::pdf::value::{
    bytes_of, dictionary, is_name, lookup, reference_value, Datum, Dictionary, PdfRef,
    PdfValue, MAX_VALUE_DEPTH,
};
use crate::table;
use crate::table::Table;
use crate::text;

verus! {

/// The most forms that the content of a page may show.
pub const MAX_FORM_INVOCATIONS: usize = 10_000;

/// The text of a content stream, and how many strings showed it.
#[derive(Debug)]
pub struct ContentText {
    pub text: Vec<char>,
    pub text_object_count: usize,
}

/// What contracts say of a `ContentText`.
pub struct Shown {
    pub text: Seq<char>,
    pub count: int,
}

impl View for ContentText {
    type V = Shown;

    open spec fn view(&self) -> Shown {
        Shown { text: self.text@, count: self.text_object_count as int }
    }
}

/// A sum of counts; one that no counter holds stays at the counter's end.
pub open spec fn counted(a: int, b: int) -> int {
    if a + b > usize::MAX {
        usize::MAX as int
    } else if a + b < 0 {
        0
    } else {
        a + b
    }
}

fn count_up(a: usize, b: usize) -> (r: usize)
    ensures
        r == counted(a as int, b as int),
{
    if b > usize::MAX - a {
        usize::MAX
    } else {
        a + b
    }
}

/// `s` without the spaces at its end.
pub open spec fn unpadded(s: Seq<char>) -> Seq<char>
    decreases s.len(),
{
    if s.len() > 0 && s.last() == ' ' {
        unpadded(s.drop_last())
    } else {
        s
    }
}

/// `s` with the line it is in brought to an end.
pub open spec fn line_ended(s: Seq<char>) -> Seq<char> {
    let s = unpadded(s);
    if s.len() > 0 && s.last() != '\n' {
        s.push('\n')
    } else {
        s
    }
}

/// `page` with `text` on lines of its own.
pub open spec fn page_with(page: Seq<char>, text: Seq<char>) -> Seq<char> {
    if text.len() == 0 {
        page
    } else if page.len() > 0 && page.last() != '\n' {
        page.push('\n') + text
    } else {
        page + text
    }
}

/// Brings the line that the text is in to an end.
pub fn ensure_line_break(output: &mut Vec<char>)
    ensures
        final(output)@ == line_ended(old(output)@),
{
    while output.len() > 0
        invariant_except_break
            unpadded(output@) == unpadded(old(output)@),
        ensures
            output@ == unpadded(old(output)@),
        decreases output@.len(),
    {
        if output[output.len() - 1] != ' ' {
            break;
        }
        output.pop();
    }
    if output.len() > 0 {
        if output[output.len() - 1] != '\n' {
            output.push('\n');
        }
    }
}

fn extend(output: &mut Vec<char>, text: &Vec<char>)
    ensures
        final(output)@ == old(output)@ + text@,
{
    let ghost before = output@;
    let mut i: usize = 0;
    assert(output@ =~= before + text@.take(0));
    while i < text.len()
        invariant
            i <= text@.len(),
            output@ == before + text@.take(i as int),
        decreases text@.len() - i,
    {
        output.push(text[i]);
        i += 1;
        assert(output@ =~= before + text@.take(i as int));
    }
    assert(text@.take(i as int) =~= text@);
}

/// Puts `text` on lines of its own at the end of a page.
pub fn append_page_text(page: &mut Vec<char>, text: &Vec<char>)
    ensures
        final(page)@ == page_with(old(page)@, text@),
{
    if text.len() == 0 {
        return;
    }
    if page.len() > 0 {
        if page[page.len() - 1] != '\n' {
            page.push('\n');
        }
    }
    extend(page, text);
}

/// What stands for a token among operands and array items.
pub open spec fn token_value(token: Lexeme) -> Option<Datum> {
    match token {
        Lexeme::Number(number) => Some(Datum::Number(number)),
        Lexeme::Name(name) => Some(Datum::Name(name)),
        Lexeme::LiteralString(s) => Some(Datum::String(s)),
        Lexeme::HexString(s) => Some(Datum::HexString(s)),
        Lexeme::Keyword(word) => Some(value::keyword_value(word)),
        _ => None,
    }
}

pub open spec fn some_datum(value: Option<PdfValue>) -> Option<Datum> {
    match value {
        Some(value) => Some(value@),
        None => None,
    }
}

fn token_to_value(token: Token) -> (r: Option<PdfValue>)
    requires
        lexer::token_wf(token@),
    ensures
        some_datum(r) == token_value(token@),
        r is Some ==> value::value_wf(r->0),
{
    match token {
        Token::Number(number) => Some(PdfValue::Number(number)),
        Token::Name(name) => Some(PdfValue::Name(name)),
        Token::LiteralString(s) => Some(PdfValue::String(s)),
        Token::HexString(s) => Some(PdfValue::HexString(s)),
        Token::Keyword(word) => if text::same(word.as_str(), "null") {
            Some(PdfValue::Null)
        } else if text::same(word.as_str(), "true") {
            Some(PdfValue::Bool(true))
        } else if text::same(word.as_str(), "false") {
            Some(PdfValue::Bool(false))
        } else {
            Some(PdfValue::Keyword(word))
        },
        _ => None,
    }
}

/// The rest of an array whose items so far are `items`.
pub open spec fn content_array(b: Seq<u8>, place: Place, items: Seq<Datum>) -> Option<
    (Datum, Place),
>
    decreases lexer::left(b, place),
{
    let (token, after) = lexer::step(b, place);
    match token {
        None => None,
        Some(token) => if !value::shrinks(b, place, after) {
            None
        } else {
            match token {
                Lexeme::EndArray => Some((Datum::Array(items), after)),
                Lexeme::StartArray => match content_array(b, after, Seq::empty()) {
                    None => None,
                    Some((item, behind)) => if value::shrinks(b, place, behind) {
                        content_array(b, behind, items.push(item))
                    } else {
                        None
                    },
                },
                _ => match token_value(token) {
                    None => content_array(b, after, items),
                    Some(item) => content_array(b, after, items.push(item)),
                },
            }
        },
    }
}

fn push_datum(values: &mut Vec<PdfValue>, value: PdfValue)
    ensures
        final(values)@ == old(values)@.push(value),
        value::data(final(values)@) == value::data(old(values)@).push(value@),
{
    let ghost before = value::data(values@);
    let ghost item = value@;
    values.push(value);
    assert(value::data(values@) =~= before.push(item));
}

fn parse_content_array(tokenizer: &mut Tokenizer<'_>) -> (r: Result<PdfValue, PdfError>)
    requires
        old(tokenizer).wf(),
    ensures
        final(tokenizer).wf(),
        final(tokenizer).bytes@ == old(tokenizer).bytes@,
        lexer::left(old(tokenizer).bytes@, final(tokenizer).place()) <= lexer::left(
            old(tokenizer).bytes@,
            old(tokenizer).place(),
        ),
        match content_array(old(tokenizer).bytes@, old(tokenizer).place(), Seq::empty()) {
            Some((value, place)) => {
                &&& r is Ok
                &&& r->Ok_0@ == value
                &&& value::value_wf(r->Ok_0)
                &&& final(tokenizer).place() == place
            },
            None => r is Err && r->Err_0@ == Failure::CorruptedPdf,
        },
    decreases lexer::left(old(tokenizer).bytes@, old(tokenizer).place()),
{
    let mut values: Vec<PdfValue> = Vec::new();
    let ghost b = tokenizer.bytes@;
    let ghost goal = content_array(b, tokenizer.place(), Seq::empty());
    assert(value::data(values@) =~= Seq::empty());
    loop
        invariant
            tokenizer.wf(),
            tokenizer.bytes@ == b,
            b == old(tokenizer).bytes@,
            goal == content_array(old(tokenizer).bytes@, old(tokenizer).place(), Seq::empty()),
            content_array(b, tokenizer.place(), value::data(values@)) == goal,
            0 <= lexer::left(b, tokenizer.place()) <= lexer::left(b, old(tokenizer).place()),
            forall|i: int| 0 <= i < values@.len() ==> value::value_wf(#[trigger] values@[i]),
        decreases lexer::left(b, tokenizer.place()),
    {
        match tokenizer.next() {
            None => {
                return Err(PdfError::CorruptedPdf);
            },
            Some(Token::EndArray) => {
                let value = PdfValue::Array(values);
                proof {
                    value::lemma_datum(value);
                }
                return Ok(value);
            },
            Some(Token::StartArray) => match parse_content_array(tokenizer) {
                Err(error) => {
                    return Err(error);
                },
                Ok(value) => {
                    push_datum(&mut values, value);
                },
            },
            Some(token) => match token_to_value(token) {
                None => {},
                Some(value) => {
                    push_datum(&mut values, value);
                },
            },
        }
    }
}

/// The text that a value shows, if it is a string.
pub open spec fn string_text(value: Datum, font: Option<Glyphs>) -> Option<Seq<char>> {
    match value {
        Datum::String(s) | Datum::HexString(s) => match font {
            Some(glyphs) => Some(font_text::font_text(s, glyphs)),
            None => Some(font_text::plain_text(s)),
        },
        _ => None,
    }
}

pub open spec fn some_chars(text: Option<Vec<char>>) -> Option<Seq<char>> {
    match text {
        Some(text) => Some(text@),
        None => None,
    }
}

pub open spec fn some_glyphs(font: Option<&FontMap>) -> Option<Glyphs> {
    match font {
        Some(font) => Some(font@),
        None => None,
    }
}

fn string_value(value: &PdfValue, font: Option<&FontMap>) -> (r: Option<Vec<char>>)
    requires
        font is Some ==> font->0.wf(),
    ensures
        some_chars(r) == string_text(value@, some_glyphs(font)),
{
    match value {
        PdfValue::String(s) | PdfValue::HexString(s) => match font {
            Some(map) => Some(font_chars(s.as_slice(), map)),
            None => Some(plain_chars(s.as_slice())),
        },
        _ => None,
    }
}

/// Where the reading of a content stream stands.
pub struct Canvas {
    pub text: Vec<char>,
    pub in_text: bool,
    pub count: usize,
    pub y: Option<PdfNumber>,
    pub last_y: Option<PdfNumber>,
    pub font: Option<String>,
    pub operands: Vec<PdfValue>,
}

/// What contracts say of a `Canvas`.
pub struct Scene {
    /// The text so far.
    pub text: Seq<char>,
    /// Inside a text object.
    pub in_text: bool,
    /// How many strings were shown.
    pub count: int,
    /// The height of the line, once it was set.
    pub y: Option<PdfNumber>,
    /// The height of the line that text was last shown on.
    pub last_y: Option<PdfNumber>,
    /// The name of the font.
    pub font: Option<Seq<char>>,
    /// The operands for the next operator.
    pub operands: Seq<Datum>,
}

impl View for Canvas {
    type V = Scene;

    open spec fn view(&self) -> Scene {
        Scene {
            text: self.text@,
            in_text: self.in_text,
            count: self.count as int,
            y: self.y,
            last_y: self.last_y,
            font: match self.font {
                Some(name) => Some(name@),
                None => None,
            },
            operands: value::data(self.operands@),
        }
    }
}

/// The scene before the first token.
pub open spec fn blank() -> Scene {
    Scene {
        text: Seq::empty(),
        in_text: false,
        count: 0,
        y: None,
        last_y: None,
        font: None,
        operands: Seq::empty(),
    }
}

/// The second operand from the end, or the only one.
pub open spec fn second_last(operands: Seq<Datum>) -> Option<Datum> {
    if operands.len() >= 2 {
        Some(operands[operands.len() - 2])
    } else if operands.len() == 1 {
        Some(operands[0])
    } else {
        None
    }
}

pub open spec fn last_of(operands: Seq<Datum>) -> Option<Datum> {
    if operands.len() > 0 {
        Some(operands.last())
    } else {
        None
    }
}

/// Two heights that are more than half a point apart.
pub open spec fn apart(a: PdfNumber, b: PdfNumber) -> bool {
    a.plus_spec(b.negated_spec()).exceeds_spec(number::half())
}

/// The text of the strings up to the `n`-th value, together.
pub open spec fn joined(values: Seq<Datum>, n: int, font: Option<Glyphs>) -> Seq<char>
    decreases n,
{
    if n <= 0 {
        Seq::empty()
    } else {
        match string_text(values[n - 1], font) {
            Some(text) => joined(values, n - 1, font) + text,
            None => joined(values, n - 1, font),
        }
    }
}

/// How many of the values up to the `n`-th are strings.
pub open spec fn strings(values: Seq<Datum>, n: int) -> int
    decreases n,
{
    if n <= 0 {
        0
    } else if values[n - 1] is String || values[n - 1] is HexString {
        strings(values, n - 1) + 1
    } else {
        strings(values, n - 1)
    }
}

impl Scene {
    pub open spec fn cleared(self) -> Scene {
        Scene { operands: Seq::empty(), ..self }
    }

    pub open spec fn with_operand(self, value: Datum) -> Scene {
        Scene { operands: self.operands.push(value), ..self }
    }

    pub open spec fn line_ended(self) -> Scene {
        Scene { text: line_ended(self.text), ..self }
    }

    /// `text` is shown; on a line of its own if the height has changed since.
    pub open spec fn showing(self, text: Seq<char>) -> Scene {
        if text.len() == 0 {
            self
        } else {
            let moved = self.last_y is Some && self.y is Some && apart(self.last_y->0, self.y->0);
            let before = if moved {
                line_ended(self.text)
            } else {
                self.text
            };
            Scene { text: before + text, last_y: self.y, ..self }
        }
    }

    pub open spec fn counting(self, more: int) -> Scene {
        Scene { count: counted(self.count, more), ..self }
    }

    /// The map of the font in use.
    pub open spec fn glyphs(self, fonts: Seq<(Seq<u8>, Glyphs)>) -> Option<Glyphs> {
        match self.font {
            Some(name) => table::find::<Vec<u8>, Glyphs>(fonts, encode_utf8(name)),
            None => None,
        }
    }

    /// The last operand is shown, if it is a string.
    pub open spec fn showing_operand(self, fonts: Seq<(Seq<u8>, Glyphs)>) -> Scene {
        match last_of(self.operands) {
            Some(value) => match string_text(value, self.glyphs(fonts)) {
                Some(text) => self.showing(text).counting(1),
                None => self,
            },
            None => self,
        }
    }

    /// The strings of the last operand are shown as one, if it is an array.
    pub open spec fn showing_strings(self, fonts: Seq<(Seq<u8>, Glyphs)>) -> Scene {
        match last_of(self.operands) {
            Some(Datum::Array(values)) => {
                let text = joined(values, values.len() as int, self.glyphs(fonts));
                if text.len() > 0 {
                    self.showing(text).counting(strings(values, values.len() as int))
                } else {
                    self
                }
            },
            _ => self,
        }
    }

    /// The line moves by the last operand.
    pub open spec fn moved(self) -> Scene {
        match (second_last(self.operands), last_of(self.operands)) {
            (Some(Datum::Number(_)), Some(Datum::Number(y))) => {
                let ended = self.y is Some && y.exceeds_spec(number::thousandth());
                Scene {
                    text: if ended {
                        line_ended(self.text)
                    } else {
                        self.text
                    },
                    y: Some(
                        match self.y {
                            Some(from) => from,
                            None => number::nothing(),
                        }.plus_spec(y),
                    ),
                    ..self
                }
            },
            _ => self,
        }
    }

    /// The line is set to the last operand.
    pub open spec fn placed(self) -> Scene {
        match last_of(self.operands) {
            Some(Datum::Number(y)) => {
                let ended = self.y is Some && apart(self.y->0, y);
                Scene {
                    text: if ended {
                        line_ended(self.text)
                    } else {
                        self.text
                    },
                    y: Some(y),
                    ..self
                }
            },
            _ => self,
        }
    }

    /// What an operator other than the one for forms does.
    pub open spec fn after(self, operator: Seq<char>, fonts: Seq<(Seq<u8>, Glyphs)>) -> Scene {
        if operator == "BT"@ {
            Scene { in_text: true, y: None, ..self }
        } else if operator == "ET"@ {
            Scene { in_text: false, ..self }
        } else if !self.in_text {
            self
        } else if operator == "Tf"@ {
            Scene { font: value::name_in(second_last(self.operands)), ..self }
        } else if operator == "Tj"@ {
            self.showing_operand(fonts)
        } else if operator == "TJ"@ {
            self.showing_strings(fonts)
        } else if operator == "'"@ || operator == "\""@ {
            self.line_ended().showing_operand(fonts)
        } else if operator == "T*"@ {
            self.line_ended()
        } else if operator == "Td"@ || operator == "TD"@ {
            self.moved()
        } else if operator == "Tm"@ {
            self.placed()
        } else {
            self
        }
    }

    /// The text of a form stands on lines of its own.
    pub open spec fn with_form(self, form: Shown) -> Scene {
        let text = page_with(self.text, form.text);
        Scene {
            text: if form.text.len() > 0 {
                line_ended(text)
            } else {
                text
            },
            ..self
        }.counting(form.count)
    }
}

impl Canvas {
    pub open spec fn wf(&self) -> bool {
        &&& self.y is Some ==> self.y->0.wf()
        &&& self.last_y is Some ==> self.last_y->0.wf()
        &&& forall|i: int|
            0 <= i < self.operands@.len() ==> value::value_wf(#[trigger] self.operands@[i])
    }

    fn new() -> (r: Canvas)
        ensures
            r.wf(),
            r@ == blank(),
    {
        let r = Canvas {
            text: Vec::new(),
            in_text: false,
            count: 0,
            y: None,
            last_y: None,
            font: None,
            operands: Vec::new(),
        };
        assert(r@.operands =~= blank().operands);
        r
    }

    fn clear_operands(&mut self)
        requires
            old(self).wf(),
        ensures
            final(self).wf(),
            final(self)@ == old(self)@.cleared(),
    {
        self.operands.clear();
        assert(self@.operands =~= Seq::empty());
    }

    fn push_operand(&mut self, value: PdfValue)
        requires
            old(self).wf(),
            value::value_wf(value),
        ensures
            final(self).wf(),
            final(self)@ == old(self)@.with_operand(value@),
    {
        push_datum(&mut self.operands, value);
    }

    fn last_operand(&self) -> (r: Option<&PdfValue>)
        requires
            self.wf(),
        ensures
            value::opt_view(r) == last_of(self@.operands),
            r is Some ==> value::value_wf(*r->0),
    {
        if self.operands.len() > 0 {
            Some(&self.operands[self.operands.len() - 1])
        } else {
            None
        }
    }

    fn operand_before(&self) -> (r: Option<&PdfValue>)
        requires
            self.wf(),
        ensures
            value::opt_view(r) == second_last(self@.operands),
            r is Some ==> value::value_wf(*r->0),
    {
        if self.operands.len() >= 2 {
            Some(&self.operands[self.operands.len() - 2])
        } else if self.operands.len() == 1 {
            Some(&self.operands[0])
        } else {
            None
        }
    }

    fn append_text(&mut self, text: &Vec<char>)
        requires
            old(self).wf(),
        ensures
            final(self).wf(),
            final(self)@ == old(self)@.showing(text@),
            final(self).operands == old(self).operands,
    {
        if text.len() == 0 {
            return;
        }
        if let (Some(previous), Some(current)) = (self.last_y, self.y) {
            if previous.plus(current.negated()).exceeds_half() {
                ensure_line_break(&mut self.text);
            }
        }
        extend(&mut self.text, text);
        self.last_y = self.y;
    }

    fn font_map<'a>(&self, fonts: &'a FontMaps) -> (r: Option<&'a FontMap>)
        requires
            pages::fonts_wf(*fonts),
        ensures
            some_glyphs(r) == self@.glyphs(fonts@),
            r is Some ==> r->0.wf(),
    {
        match &self.font {
            Some(name) => {
                let key = bytes_of(name.as_str());
                fonts.get(&key)
            },
            None => None,
        }
    }

    fn show_operand(&mut self, fonts: &FontMaps)
        requires
            old(self).wf(),
            pages::fonts_wf(*fonts),
        ensures
            final(self).wf(),
            final(self)@ == old(self)@.showing_operand(fonts@),
    {
        let text = match self.last_operand() {
            Some(value) => string_value(value, self.font_map(fonts)),
            None => None,
        };
        if let Some(text) = text {
            self.append_text(&text);
            self.count = count_up(self.count, 1);
        }
    }

    fn show_strings(&mut self, fonts: &FontMaps)
        requires
            old(self).wf(),
            pages::fonts_wf(*fonts),
        ensures
            final(self).wf(),
            final(self)@ == old(self)@.showing_strings(fonts@),
    {
        let mut text: Vec<char> = Vec::new();
        let mut found: usize = 0;
        let font = self.font_map(fonts);
        let ghost glyphs = self@.glyphs(fonts@);
        let last = self.last_operand();
        match last {
            Some(value) => {
                proof {
                    value::lemma_datum(*value);
                }
                if let PdfValue::Array(values) = value {
                    let ghost all = value::data(values@);
                    let mut i: usize = 0;
                    while i < values.len()
                        invariant
                            i <= values@.len(),
                            all == value::data(values@),
                            text@ == joined(all, i as int, glyphs),
                            found == strings(all, i as int),
                            found <= i,
                            font is Some ==> font->0.wf(),
                            glyphs == some_glyphs(font),
                        decreases values@.len() - i,
                    {
                        assert(all[i as int] == values@[i as int]@);
                        if let Some(more) = string_value(&values[i], font) {
                            extend(&mut text, &more);
                            found += 1;
                        }
                        i += 1;
                    }
                }
            },
            None => {},
        }
        if text.len() > 0 {
            self.append_text(&text);
            self.count = count_up(self.count, found);
        }
    }

    fn apply_text_move(&mut self)
        requires
            old(self).wf(),
        ensures
            final(self).wf(),
            final(self)@ == old(self)@.moved(),
    {
        let y: PdfNumber = match (self.operand_before(), self.last_operand()) {
            (Some(PdfValue::Number(_)), Some(PdfValue::Number(y))) => *y,
            _ => {
                return;
            },
        };
        let from: PdfNumber = match self.y {
            Some(from) => {
                if y.exceeds_thousandth() {
                    ensure_line_break(&mut self.text);
                }
                from
            },
            None => PdfNumber::Finite { mantissa: 0, place: 0 },
        };
        self.y = Some(from.plus(y));
    }

    fn apply_text_matrix(&mut self)
        requires
            old(self).wf(),
        ensures
            final(self).wf(),
            final(self)@ == old(self)@.placed(),
    {
        let y: PdfNumber = match self.last_operand() {
            Some(PdfValue::Number(y)) => *y,
            _ => {
                return;
            },
        };
        if let Some(previous) = self.y {
            if previous.plus(y.negated()).exceeds_half() {
                ensure_line_break(&mut self.text);
            }
        }
        self.y = Some(y);
    }

    fn set_font(&mut self)
        requires
            old(self).wf(),
        ensures
            final(self).wf(),
            final(self)@ == (Scene {
                font: value::name_in(second_last(old(self)@.operands)),
                ..old(self)@
            }),
    {
        let font: Option<String> = match self.operand_before() {
            Some(PdfValue::Name(name)) => Some(name.clone()),
            _ => None,
        };
        self.font = font;
    }

    fn apply(&mut self, operator: &str, fonts: &FontMaps)
        requires
            old(self).wf(),
            pages::fonts_wf(*fonts),
        ensures
            final(self).wf(),
            final(self)@ == old(self)@.after(operator@, fonts@),
    {
        if text::same(operator, "BT") {
            self.in_text = true;
            self.y = None;
        } else if text::same(operator, "ET") {
            self.in_text = false;
        } else if !self.in_text {
        } else if text::same(operator, "Tf") {
            self.set_font();
        } else if text::same(operator, "Tj") {
            self.show_operand(fonts);
        } else if text::same(operator, "TJ") {
            self.show_strings(fonts);
        } else if text::same(operator, "'") || text::same(operator, "\"") {
            ensure_line_break(&mut self.text);
            self.show_operand(fonts);
        } else if text::same(operator, "T*") {
            ensure_line_break(&mut self.text);
        } else if text::same(operator, "Td") || text::same(operator, "TD") {
            self.apply_text_move();
        } else if text::same(operator, "Tm") {
            self.apply_text_matrix();
        }
    }

    fn append_form(&mut self, form: &ContentText)
        requires
            old(self).wf(),
        ensures
            final(self).wf(),
            final(self)@ == old(self)@.with_form(form@),
    {
        append_page_text(&mut self.text, &form.text);
        if form.text.len() > 0 {
            ensure_line_break(&mut self.text);
        }
        self.count = count_up(self.count, form.text_object_count);
    }
}

/// What goes with a content stream.
pub struct Setting {
    pub objects: Seq<(u32, Thing)>,
    pub fonts: Seq<(Seq<u8>, Glyphs)>,
    pub resources: Option<Seq<(Seq<u8>, Datum)>>,
    /// The forms that the stream stands in.
    pub visiting: Seq<u32>,
    pub depth: int,
}

/// What a page has used up.
pub struct Spent {
    pub bytes: int,
    pub forms: int,
}

pub open spec fn start() -> Place {
    Place { pos: 0, ahead: None }
}

/// The name of the form that an operator shows, if it shows one.
pub open spec fn form_name(scene: Scene, operator: Seq<char>) -> Option<Seq<char>> {
    if operator == "Do"@ && !scene.in_text {
        value::name_in(last_of(scene.operands))
    } else {
        None
    }
}

/// What a content stream shows from `place` on, and what is spent then.
pub open spec fn content(
    setting: Setting,
    b: Seq<u8>,
    place: Place,
    scene: Scene,
    spent: Spent,
) -> Result<(Shown, Spent), Failure>
    decreases MAX_VALUE_DEPTH - setting.depth, lexer::left(b, place),
{
    let (token, after) = lexer::step(b, place);
    match token {
        None => Ok((Shown { text: text::trimmed_end(scene.text), count: scene.count }, spent)),
        Some(token) => if !value::shrinks(b, place, after) {
            Err(Failure::CorruptedPdf)
        } else {
            match token {
                Lexeme::Keyword(operator) => match form_name(scene, operator) {
                    None => content(
                        setting,
                        b,
                        after,
                        scene.after(operator, setting.fonts).cleared(),
                        spent,
                    ),
                    Some(name) => match form(setting, name, spent) {
                        Err(failure) => Err(failure),
                        Ok((None, spent)) => content(setting, b, after, scene.cleared(), spent),
                        Ok((Some(shown), spent)) => if encode_utf8(scene.text).len() + encode_utf8(
                            shown.text,
                        ).len() > MAX_STREAM_BYTES {
                            Err(Failure::StreamLimitExceeded)
                        } else {
                            content(setting, b, after, scene.with_form(shown).cleared(), spent)
                        },
                    },
                },
                Lexeme::StartArray => match content_array(b, after, Seq::empty()) {
                    None => Err(Failure::CorruptedPdf),
                    Some((value, behind)) => if value::shrinks(b, place, behind) {
                        content(setting, b, behind, scene.with_operand(value), spent)
                    } else {
                        Err(Failure::CorruptedPdf)
                    },
                },
                _ => match token_value(token) {
                    None => content(setting, b, after, scene, spent),
                    Some(value) => content(setting, b, after, scene.with_operand(value), spent),
                },
            }
        },
    }
}

/// What a form shows, and what is spent then; nothing if there is no such form.
pub open spec fn form(setting: Setting, name: Seq<char>, spent: Spent) -> Result<
    (Option<Shown>, Spent),
    Failure,
>
    decreases MAX_VALUE_DEPTH - setting.depth, 0int,
{
    let objects = setting.objects;
    let listed = match setting.resources {
        None => None,
        Some(resources) => match pages::resolved(objects, value::entry(resources, "XObject"@)) {
            None => None,
            Some(listed) => value::entry(listed, name),
        },
    };
    match listed {
        None => Ok((None, spent)),
        Some(value) => match value::ref_in(Some(value)) {
            None => Err(Failure::CorruptedPdf),
            Some(reference) => match object::object_in(objects, reference.object) {
                None => Err(Failure::CorruptedPdf),
                Some(object) => match value::dict_in(Some(object.value)) {
                    None => Err(Failure::CorruptedPdf),
                    Some(dict) => if value::name_in(value::entry(dict, "Subtype"@)) != Some(
                        "Form"@,
                    ) {
                        Ok((None, spent))
                    } else if setting.depth >= MAX_VALUE_DEPTH || setting.visiting.contains(
                        reference.object,
                    ) {
                        Err(Failure::CorruptedPdf)
                    } else if spent.forms + 1 > MAX_FORM_INVOCATIONS {
                        Err(Failure::StreamLimitExceeded)
                    } else {
                        match filter::decoded(object) {
                            Err(failure) => Err(failure),
                            Ok(stream) => if spent.bytes + stream.len() > MAX_STREAM_BYTES {
                                Err(Failure::StreamLimitExceeded)
                            } else {
                                match form_setting(setting, dict, reference.object) {
                                    Err(failure) => Err(failure),
                                    Ok(inner) => match content(
                                        Setting { depth: setting.depth + 1, ..inner },
                                        stream,
                                        start(),
                                        blank(),
                                        Spent {
                                            bytes: spent.bytes + stream.len(),
                                            forms: spent.forms + 1,
                                        },
                                    ) {
                                        Err(failure) => Err(failure),
                                        Ok((shown, spent)) => Ok((Some(shown), spent)),
                                    },
                                }
                            },
                        }
                    },
                },
            },
        },
    }
}

/// What goes with the content stream of a form: its own resources, or those of
/// the stream around it.
pub open spec fn form_setting(
    setting: Setting,
    dict: Seq<(Seq<u8>, Datum)>,
    number: u32,
) -> Result<Setting, Failure> {
    let objects = setting.objects;
    let own = value::entry(dict, "Resources"@);
    let resources = if own is Some {
        pages::resolved(objects, own)
    } else {
        setting.resources
    };
    if own is Some && resources is None {
        Err(Failure::CorruptedPdf)
    } else {
        let fonts = match resources {
            None => Ok(Seq::empty()),
            Some(resources) => pages::resource_fonts(objects, resources),
        };
        match fonts {
            Err(failure) => Err(failure),
            Ok(fonts) => Ok(
                Setting {
                    objects,
                    fonts,
                    resources,
                    visiting: setting.visiting.push(number),
                    depth: setting.depth + 1,
                },
            ),
        }
    }
}

/// The state of reading the content of a page.
pub struct ContentExtractor<'a, F: Fn() -> bool> {
    pub objects: &'a Objects,
    pub should_stop: &'a F,
    pub decoded_bytes: usize,
    pub form_invocations: usize,
    pub visiting: Vec<u32>,
}

pub open spec fn some_dict(dict: Option<&Dictionary>) -> Option<Seq<(Seq<u8>, Datum)>> {
    match dict {
        Some(dict) => Some(dict@),
        None => None,
    }
}

/// `r` and what is spent are the outcome `expected`.
pub open spec fn shows(
    r: Result<ContentText, PdfError>,
    expected: Result<(Shown, Spent), Failure>,
    spent: Spent,
) -> bool {
    match expected {
        Ok((shown, after)) => r is Ok && r->Ok_0@ == shown && spent == after,
        Err(failure) => r is Err && r->Err_0@ == failure,
    }
}

impl<'a, F: Fn() -> bool> ContentExtractor<'a, F> {
    pub open spec fn wf(&self) -> bool {
        &&& object::objects_wf(*self.objects)
        &&& self.should_stop.requires(())
        &&& self.decoded_bytes <= MAX_STREAM_BYTES
        &&& self.form_invocations <= MAX_FORM_INVOCATIONS
    }

    pub open spec fn spent(&self) -> Spent {
        Spent { bytes: self.decoded_bytes as int, forms: self.form_invocations as int }
    }

    /// Nothing but what is spent differs.
    pub open spec fn continues(&self, before: &Self) -> bool {
        &&& self.wf()
        &&& self.objects == before.objects
        &&& self.should_stop == before.should_stop
        &&& self.visiting@ == before.visiting@
    }

    pub open spec fn setting(
        &self,
        fonts: FontMaps,
        resources: Option<&Dictionary>,
        depth: int,
    ) -> Setting {
        Setting {
            objects: self.objects@,
            fonts: fonts@,
            resources: some_dict(resources),
            visiting: self.visiting@,
            depth,
        }
    }

    /// Counts decoded bytes against the limit.
    fn charge(&mut self, bytes: usize) -> (r: Result<(), PdfError>)
        requires
            old(self).wf(),
        ensures
            final(self).continues(old(self)),
            final(self).spent().forms == old(self).spent().forms,
            if old(self).spent().bytes + bytes > MAX_STREAM_BYTES {
                r is Err && r->Err_0@ == Failure::StreamLimitExceeded
            } else {
                r is Ok && final(self).spent().bytes == old(self).spent().bytes + bytes
            },
    {
        if bytes > MAX_STREAM_BYTES - self.decoded_bytes {
            return Err(PdfError::StreamLimitExceeded);
        }
        self.decoded_bytes += bytes;
        Ok(())
    }

    /// Reads the text that a content stream shows.
    pub fn extract_stream(
        &mut self,
        bytes: &[u8],
        fonts: &FontMaps,
        resources: Option<&'a Dictionary>,
        depth: usize,
    ) -> (r: Result<ContentText, PdfError>)
        requires
            old(self).wf(),
            pages::fonts_wf(*fonts),
            resources is Some ==> value::dict_wf(*resources->0),
            depth <= MAX_VALUE_DEPTH,
        ensures
            r is Ok ==> final(self).continues(old(self)),
            stopped(r, *old(self).should_stop) || shows(
                r,
                content(
                    old(self).setting(*fonts, resources, depth as int),
                    bytes@,
                    start(),
                    blank(),
                    old(self).spent(),
                ),
                final(self).spent(),
            ),
        decreases MAX_VALUE_DEPTH - depth, 1int,
    {
        let mut tokenizer = Tokenizer::new(bytes);
        let mut canvas = Canvas::new();
        let ghost b = bytes@;
        let ghost setting = self.setting(*fonts, resources, depth as int);
        let ghost goal = content(setting, b, start(), blank(), self.spent());
        let mut poll: u32 = 0;
        loop
            invariant
                tokenizer.wf(),
                tokenizer.bytes@ == b,
                b == bytes@,
                canvas.wf(),
                self.continues(old(self)),
                pages::fonts_wf(*fonts),
                resources is Some ==> value::dict_wf(*resources->0),
                depth <= MAX_VALUE_DEPTH,
                poll < 1024,
                setting == old(self).setting(*fonts, resources, depth as int),
                setting == self.setting(*fonts, resources, depth as int),
                goal == content(
                    old(self).setting(*fonts, resources, depth as int),
                    bytes@,
                    start(),
                    blank(),
                    old(self).spent(),
                ),
                content(setting, b, tokenizer.place(), canvas@, self.spent()) == goal,
            decreases lexer::left(b, tokenizer.place()),
        {
            let token = match tokenizer.next() {
                None => {
                    text::trim_end(&mut canvas.text);
                    return Ok(ContentText { text: canvas.text, text_object_count: canvas.count });
                },
                Some(token) => token,
            };
            if poll == 0 {
                if (self.should_stop)() {
                    return Err(PdfError::Cancelled);
                }
            }
            poll = if poll == 1023 {
                0
            } else {
                poll + 1
            };
            match token {
                Token::Keyword(operator) => {
                    let mut name: Option<String> = None;
                    if text::same(operator.as_str(), "Do") && !canvas.in_text {
                        if let Some(PdfValue::Name(last)) = canvas.last_operand() {
                            name = Some(last.clone());
                        }
                    }
                    match name {
                        None => {
                            assert(form_name(canvas@, operator@) is None);
                            canvas.apply(operator.as_str(), fonts);
                        },
                        Some(name) => {
                            assert(form_name(canvas@, operator@) == Some(name@));
                            match self.extract_form(name.as_str(), fonts, resources, depth) {
                                Err(error) => {
                                    return Err(error);
                                },
                                Ok(None) => {},
                                Ok(Some(form)) => {
                                    let own: usize = text::utf8_size(canvas.text.as_slice());
                                    let more: usize = text::utf8_size(form.text.as_slice());
                                    if own > MAX_STREAM_BYTES || more > MAX_STREAM_BYTES - own {
                                        return Err(PdfError::StreamLimitExceeded);
                                    }
                                    canvas.append_form(&form);
                                },
                            }
                        },
                    }
                    canvas.clear_operands();
                },
                Token::StartArray => match parse_content_array(&mut tokenizer) {
                    Err(error) => {
                        return Err(error);
                    },
                    Ok(value) => {
                        canvas.push_operand(value);
                    },
                },
                token => match token_to_value(token) {
                    None => {},
                    Some(value) => {
                        canvas.push_operand(value);
                    },
                },
            }
        }
    }

    /// Reads the text that a form shows, if there is a form of that name.
    fn extract_form(
        &mut self,
        name: &str,
        fonts: &FontMaps,
        resources: Option<&'a Dictionary>,
        depth: usize,
    ) -> (r: Result<Option<ContentText>, PdfError>)
        requires
            old(self).wf(),
            pages::fonts_wf(*fonts),
            resources is Some ==> value::dict_wf(*resources->0),
            depth <= MAX_VALUE_DEPTH,
        ensures
            r is Ok ==> final(self).continues(old(self)),
            stopped(r, *old(self).should_stop) || match form(
                old(self).setting(*fonts, resources, depth as int),
                name@,
                old(self).spent(),
            ) {
                Ok((shown, after)) => {
                    &&& r is Ok
                    &&& final(self).spent() == after
                    &&& match r->Ok_0 {
                        Some(text) => shown == Some(text@),
                        None => shown is None,
                    }
                },
                Err(failure) => r is Err && r->Err_0@ == failure,
            },
        decreases MAX_VALUE_DEPTH - depth, 0int,
    {
        let objects = self.objects;
        let ghost outer = self.setting(*fonts, resources, depth as int);
        let ghost stack = self.visiting@;
        let xobjects = match resources {
            None => None,
            Some(resources) => resolved_dictionary(objects, lookup(resources, "XObject")),
        };
        let value = match xobjects {
            None => None,
            Some(xobjects) => lookup(xobjects, name),
        };
        if value.is_none() {
            return Ok(None);
        }
        let reference = match reference_value(value) {
            None => {
                return Err(PdfError::CorruptedPdf);
            },
            Some(reference) => reference,
        };
        let object = match get_object(objects, reference.object) {
            None => {
                return Err(PdfError::CorruptedPdf);
            },
            Some(object) => object,
        };
        let dict = match dictionary(&object.value) {
            None => {
                return Err(PdfError::CorruptedPdf);
            },
            Some(dict) => dict,
        };
        if !is_name(lookup(dict, "Subtype"), "Form") {
            return Ok(None);
        }
        if depth >= MAX_VALUE_DEPTH || pages::holds(&self.visiting, reference.object) {
            return Err(PdfError::CorruptedPdf);
        }
        if self.form_invocations >= MAX_FORM_INVOCATIONS {
            return Err(PdfError::StreamLimitExceeded);
        }
        self.form_invocations += 1;
        let stream = match decode_stream_with_control(object, self.should_stop) {
            Err(error) => {
                return Err(error);
            },
            Ok(stream) => stream,
        };
        match self.charge(stream.len()) {
            Err(error) => {
                return Err(error);
            },
            Ok(()) => {},
        }
        let own = lookup(dict, "Resources");
        let inner: Option<&'a Dictionary> = if own.is_some() {
            let found = resolved_dictionary(objects, own);
            if found.is_none() {
                return Err(PdfError::CorruptedPdf);
            }
            found
        } else {
            resources
        };
        let inner_fonts: FontMaps = match inner {
            None => Table::new(),
            Some(resources) => match font_maps_for_resources(
                objects,
                resources,
                self.should_stop,
            ) {
                Err(error) => {
                    return Err(error);
                },
                Ok(inner_fonts) => inner_fonts,
            },
        };
        self.visiting.push(reference.object);
        assert(form_setting(outer, dict@, reference.object) == Ok::<Setting, Failure>(
            self.setting(inner_fonts, inner, depth + 1),
        ));
        let result = self.extract_stream(stream.as_slice(), &inner_fonts, inner, depth + 1);
        match result {
            Err(error) => Err(error),
            Ok(text) => {
                self.visiting.pop();
                assert(self.visiting@ =~= stack);
                Ok(Some(text))
            },
        }
    }
}

/// What the streams from the `i`-th on show, put behind `page`.
pub open spec fn streams_shown(
    setting: Setting,
    streams: Seq<Seq<u8>>,
    i: int,
    page: Shown,
    spent: Spent,
) -> Result<Shown, Failure>
    decreases streams.len() - i,
{
    if i < 0 || i >= streams.len() {
        Ok(Shown { text: text::trimmed_end(page.text), count: page.count })
    } else if spent.bytes + streams[i].len() > MAX_STREAM_BYTES {
        Err(Failure::StreamLimitExceeded)
    } else {
        match content(
            setting,
            streams[i],
            start(),
            blank(),
            Spent { bytes: spent.bytes + streams[i].len(), forms: spent.forms },
        ) {
            Err(failure) => Err(failure),
            Ok((shown, spent)) => streams_shown(
                setting,
                streams,
                i + 1,
                Shown {
                    text: page_with(page.text, shown.text),
                    count: counted(page.count, shown.count),
                },
                spent,
            ),
        }
    }
}

proof fn lemma_streams_count(
    setting: Setting,
    streams: Seq<Seq<u8>>,
    i: int,
    page: Shown,
    spent: Spent,
)
    requires
        page.count >= 0,
    ensures
        streams_shown(setting, streams, i, page, spent) matches Ok(shown) ==> shown.count >= 0,
    decreases streams.len() - i,
{
    if 0 <= i < streams.len() && spent.bytes + streams[i].len() <= MAX_STREAM_BYTES {
        let start_spent = Spent { bytes: spent.bytes + streams[i].len(), forms: spent.forms };
        if let Ok((shown, spent)) = content(setting, streams[i], start(), blank(), start_spent) {
            let next = Shown {
                text: page_with(page.text, shown.text),
                count: counted(page.count, shown.count),
            };
            lemma_streams_count(setting, streams, i + 1, next, spent);
        }
    }
}

/// A page shows no fewer than zero strings.
pub proof fn lemma_page_count(objects: Seq<(u32, Thing)>, page: PdfRef)
    ensures
        page_shown(objects, page) matches Ok(shown) ==> shown.count >= 0,
{
    if let Ok(streams) = pages::page_contents(objects, page) {
        if let Ok(fonts) = pages::fonts_from(objects, Some(page), Set::empty(), objects.len()) {
            lemma_streams_count(
                Setting {
                    objects,
                    fonts,
                    resources: pages::resources_from(
                        objects,
                        Some(page),
                        Set::empty(),
                        objects.len(),
                    ),
                    visiting: Seq::empty(),
                    depth: 0,
                },
                streams,
                0,
                Shown { text: Seq::empty(), count: 0 },
                Spent { bytes: 0, forms: 0 },
            );
        }
    }
}

/// What a page shows.
pub open spec fn page_shown(objects: Seq<(u32, Thing)>, page: PdfRef) -> Result<Shown, Failure> {
    match pages::page_contents(objects, page) {
        Err(failure) => Err(failure),
        Ok(streams) => match pages::fonts_from(
            objects,
            Some(page),
            Set::empty(),
            objects.len(),
        ) {
            Err(failure) => Err(failure),
            Ok(fonts) => streams_shown(
                Setting {
                    objects,
                    fonts,
                    resources: pages::resources_from(
                        objects,
                        Some(page),
                        Set::empty(),
                        objects.len(),
                    ),
                    visiting: Seq::empty(),
                    depth: 0,
                },
                streams,
                0,
                Shown { text: Seq::empty(), count: 0 },
                Spent { bytes: 0, forms: 0 },
            ),
        },
    }
}

/// Reads the text of a page.
pub fn extract_page_content<F: Fn() -> bool>(
    objects: &Objects,
    page_ref: PdfRef,
    should_stop: &F,
) -> (r: Result<ContentText, PdfError>)
    requires
        object::objects_wf(*objects),
        should_stop.requires(()),
    ensures
        settles(r, page_shown(objects@, page_ref), *should_stop),
{
    let streams = match page_content_streams(objects, page_ref, should_stop) {
        Err(error) => {
            return Err(error);
        },
        Ok(streams) => streams,
    };
    let fonts = match page_font_maps(objects, page_ref, should_stop) {
        Err(error) => {
            return Err(error);
        },
        Ok(fonts) => fonts,
    };
    let resources = page_resources(objects, page_ref);
    let mut extractor = ContentExtractor {
        objects,
        should_stop,
        decoded_bytes: 0,
        form_invocations: 0,
        visiting: Vec::new(),
    };
    let mut page = ContentText { text: Vec::new(), text_object_count: 0 };
    let ghost goal = page_shown(objects@, page_ref);
    let ghost setting = extractor.setting(fonts, resources, 0);
    let ghost all = pages::chunks(streams@);
    assert(goal == streams_shown(setting, all, 0, page@, extractor.spent()));
    let mut i: usize = 0;
    while i < streams.len()
        invariant
            i <= streams@.len(),
            all == pages::chunks(streams@),
            extractor.wf(),
            extractor.objects == objects,
            extractor.should_stop == should_stop,
            pages::fonts_wf(fonts),
            resources is Some ==> value::dict_wf(*resources->0),
            goal == page_shown(objects@, page_ref),
            setting == extractor.setting(fonts, resources, 0),
            streams_shown(setting, all, i as int, page@, extractor.spent()) == goal,
        decreases streams@.len() - i,
    {
        assert(all[i as int] == streams@[i as int]@);
        match extractor.charge(streams[i].len()) {
            Err(error) => {
                return Err(error);
            },
            Ok(()) => {},
        }
        match extractor.extract_stream(streams[i].as_slice(), &fonts, resources, 0) {
            Err(error) => {
                return Err(error);
            },
            Ok(shown) => {
                append_page_text(&mut page.text, &shown.text);
                page.text_object_count = count_up(page.text_object_count, shown.text_object_count);
            },
        }
        i += 1;
    }
    text::trim_end(&mut page.text);
    Ok(page)
}

} // verus!

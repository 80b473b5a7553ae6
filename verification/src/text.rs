//! Characters, strings and byte sequences.

use vstd::prelude::*;
use vstd::utf8::*;

use crate::bytes;

verus! {

/// `String::push` appends one character.
pub assume_specification[ std::string::String::push ](s: &mut std::string::String, c: char)
    ensures
        final(s)@ == old(s)@.push(c),
;

/// `String::push_str` appends the characters of a string slice.
pub assume_specification[ std::string::String::push_str ](s: &mut std::string::String, t: &str)
    ensures
        final(s)@ == old(s)@ + t@,
;

/// What `String::from_utf8_lossy` makes of bytes that are not UTF-8.
pub uninterp spec fn replaced_utf8(bytes: Seq<u8>) -> Seq<char>;

/// The text of bytes: decoded, or with replacements where that fails.
pub open spec fn utf8_lossy(bytes: Seq<u8>) -> Seq<char> {
    if valid_utf8(bytes) {
        decode_utf8(bytes)
    } else {
        replaced_utf8(bytes)
    }
}

/// Calls `String::from_utf8_lossy`: valid UTF-8 is decoded unchanged, and what
/// replacement characters stand for in other input is left to its name.
#[verifier::external_body]
pub(crate) fn from_utf8_lossy(bytes: &[u8]) -> (r: String)
    ensures
        valid_utf8(bytes@) ==> r@ == decode_utf8(bytes@),
        !valid_utf8(bytes@) ==> r@ == replaced_utf8(bytes@),
{
    String::from_utf8_lossy(bytes).into_owned()
}

/// Calls `std::str::from_utf8`: a string exactly for valid UTF-8, holding the
/// decoded characters.
#[verifier::external_body]
pub(crate) fn from_utf8(bytes: &[u8]) -> (r: Option<String>)
    ensures
        r is Some <==> valid_utf8(bytes@),
        r is Some ==> r->0@ == decode_utf8(bytes@),
{
    std::str::from_utf8(bytes).ok().map(|text| text.to_owned())
}

/// Calls `str`'s `==`: two strings are equal when their characters are.
#[verifier::external_body]
pub(crate) fn same(a: &str, b: &str) -> (r: bool)
    ensures
        r == (a@ == b@),
{
    a == b
}

/// An ASCII letter as a small one.
pub open spec fn lower(c: char) -> char {
    if 'A' <= c <= 'Z' {
        (c as u8 + 32) as char
    } else {
        c
    }
}

/// ASCII letters as small ones.
pub open spec fn lowered(s: Seq<char>) -> Seq<char> {
    s.map_values(|c: char| lower(c))
}

pub fn lower_char(c: char) -> (r: char)
    ensures
        r == lower(c),
{
    if c >= 'A' && c <= 'Z' {
        (c as u8 + 32) as char
    } else {
        c
    }
}

/// ASCII letters as small ones.
pub fn to_lower(s: &str) -> (r: String)
    ensures
        r@ == lowered(s@),
{
    let chars = chars_of(s);
    let mut out = String::new();
    let mut i: usize = 0;
    while i < chars.len()
        invariant
            i <= chars@.len(),
            out@ == lowered(chars@).take(i as int),
        decreases chars@.len() - i,
    {
        out.push(lower_char(chars[i]));
        i += 1;
        assert(out@ =~= lowered(chars@).take(i as int));
    }
    assert(out@ =~= lowered(s@));
    out
}

/// A Unicode scalar value, if `code` is one.
pub open spec fn scalar(code: int) -> Option<char> {
    if 0 <= code <= 0xd7ff || 0xe000 <= code <= 0x10ffff {
        Some(code as char)
    } else {
        None
    }
}

/// Calls `char::from_u32`.
#[verifier::external_body]
pub(crate) fn char_from_u32(code: u32) -> (r: Option<char>)
    ensures
        r == scalar(code as int),
{
    char::from_u32(code)
}

/// The characters of `s`, in order.
pub fn chars_of(s: &str) -> (r: Vec<char>)
    ensures
        r@ == s@,
{
    let mut out: Vec<char> = Vec::new();
    for c in it: s.chars()
        invariant
            out@ == it.seq().take(it.index() as int),
            it.seq() == s@,
    {
        out.push(c);
        assert(out@ =~= it.seq().take(it.index() as int + 1));
    }
    assert(out@ =~= s@);
    out
}

/// The string with the given characters.
pub fn string_of(chars: &[char]) -> (r: String)
    ensures
        r@ == chars@,
{
    let mut out = String::new();
    let mut i: usize = 0;
    while i < chars.len()
        invariant
            i <= chars@.len(),
            out@ == chars@.take(i as int),
        decreases chars@.len() - i,
    {
        out.push(chars[i]);
        i += 1;
        assert(out@ =~= chars@.take(i as int));
    }
    assert(out@ =~= chars@);
    out
}

/// Appends the characters of `s`.
pub fn push_string(out: &mut Vec<char>, s: &str)
    ensures
        final(out)@ == old(out)@ + s@,
{
    let chars = chars_of(s);
    let ghost before = out@;
    let mut i: usize = 0;
    assert(out@ =~= before + chars@.take(0));
    while i < chars.len()
        invariant
            i <= chars@.len(),
            out@ == before + chars@.take(i as int),
        decreases chars@.len() - i,
    {
        out.push(chars[i]);
        i += 1;
        assert(out@ =~= before + chars@.take(i as int));
    }
    assert(chars@.take(i as int) =~= chars@);
}

/// A character that Unicode counts as white space.
pub open spec fn is_white(c: char) -> bool {
    '\u{9}' <= c <= '\u{d}' || c == ' ' || c == '\u{85}' || c == '\u{a0}' || c == '\u{1680}'
        || '\u{2000}' <= c <= '\u{200a}' || c == '\u{2028}' || c == '\u{2029}' || c == '\u{202f}'
        || c == '\u{205f}' || c == '\u{3000}'
}

/// Whether Unicode counts a character as white space.
pub fn is_white_space(c: char) -> (r: bool)
    ensures
        r == is_white(c),
{
    match c {
        '\u{9}'..='\u{d}' | ' ' | '\u{85}' | '\u{a0}' | '\u{1680}' => true,
        '\u{2000}'..='\u{200a}' | '\u{2028}' | '\u{2029}' | '\u{202f}' => true,
        '\u{205f}' | '\u{3000}' => true,
        _ => false,
    }
}

/// `s` without the white space at its end.
pub open spec fn trimmed_end(s: Seq<char>) -> Seq<char>
    decreases s.len(),
{
    if s.len() > 0 && is_white(s.last()) {
        trimmed_end(s.drop_last())
    } else {
        s
    }
}

/// `s` without the white space at its start.
pub open spec fn trimmed_start(s: Seq<char>) -> Seq<char>
    decreases s.len(),
{
    if s.len() > 0 && is_white(s[0]) {
        trimmed_start(s.drop_first())
    } else {
        s
    }
}

/// `s` without the white space around it.
pub open spec fn trimmed(s: Seq<char>) -> Seq<char> {
    trimmed_end(trimmed_start(s))
}

/// Drops the white space at the end.
pub fn trim_end(chars: &mut Vec<char>)
    ensures
        final(chars)@ == trimmed_end(old(chars)@),
{
    while chars.len() > 0
        invariant_except_break
            trimmed_end(chars@) == trimmed_end(old(chars)@),
        ensures
            chars@ == trimmed_end(old(chars)@),
        decreases chars@.len(),
    {
        if !is_white_space(chars[chars.len() - 1]) {
            break;
        }
        chars.pop();
    }
}

/// The characters without the white space around them.
pub fn trim(chars: &[char]) -> (r: Vec<char>)
    ensures
        r@ == trimmed(chars@),
{
    let mut from: usize = 0;
    assert(chars@.skip(0) =~= chars@);
    while from < chars.len()
        invariant_except_break
            from <= chars@.len(),
            trimmed_start(chars@.skip(from as int)) == trimmed_start(chars@),
        ensures
            from <= chars@.len(),
            chars@.skip(from as int) == trimmed_start(chars@),
        decreases chars@.len() - from,
    {
        if !is_white_space(chars[from]) {
            break;
        }
        assert(chars@.skip(from as int).drop_first() =~= chars@.skip(from + 1));
        from += 1;
    }
    let mut out: Vec<char> = Vec::new();
    let mut i: usize = from;
    while i < chars.len()
        invariant
            from <= i <= chars@.len(),
            out@ == chars@.subrange(from as int, i as int),
        decreases chars@.len() - i,
    {
        out.push(chars[i]);
        i += 1;
        assert(out@ =~= chars@.subrange(from as int, i as int));
    }
    assert(out@ =~= chars@.skip(from as int));
    trim_end(&mut out);
    out
}

/// How many bytes the characters take in UTF-8.
pub fn utf8_size(chars: &[char]) -> (r: usize)
    ensures
        r == encode_utf8(chars@).len(),
{
    string_of(chars).as_str().as_bytes().len()
}

/// Where `c` first stands from `from` on, or the end.
pub open spec fn index_of(s: Seq<char>, c: char, from: int) -> int
    decreases s.len() - from,
{
    if from < 0 || from >= s.len() {
        s.len() as int
    } else if s[from] == c {
        from
    } else {
        index_of(s, c, from + 1)
    }
}

/// Where `c` first stands from `from` on, or the end.
pub fn find_char(s: &[char], c: char, from: usize) -> (r: usize)
    requires
        from <= s@.len(),
    ensures
        r == index_of(s@, c, from as int),
        from <= r <= s@.len(),
        r < s@.len() ==> s@[r as int] == c,
{
    let mut i: usize = from;
    while i < s.len()
        invariant
            from <= i <= s@.len(),
            index_of(s@, c, i as int) == index_of(s@, c, from as int),
        decreases s@.len() - i,
    {
        if s[i] == c {
            return i;
        }
        i += 1;
    }
    i
}

pub proof fn lemma_index_of(s: Seq<char>, c: char, from: int)
    requires
        0 <= from <= s.len(),
    ensures
        from <= index_of(s, c, from) <= s.len(),
        index_of(s, c, from) < s.len() ==> s[index_of(s, c, from)] == c,
        forall|i: int| from <= i < index_of(s, c, from) ==> s[i] != c,
    decreases s.len() - from,
{
    if from < s.len() && s[from] != c {
        lemma_index_of(s, c, from + 1);
    }
}

/// The line from `from` to the line feed at `end`, without a carriage return
/// before that.
pub open spec fn line_of(s: Seq<char>, from: int, end: int) -> Seq<char> {
    if end < s.len() && from < end && s[end - 1] == '\r' {
        s.subrange(from, end - 1)
    } else {
        s.subrange(from, end)
    }
}

/// The lines from `from` on. A line feed ends a line, so none begins behind the
/// last one.
pub open spec fn lines_from(s: Seq<char>, from: int) -> Seq<Seq<char>>
    decreases s.len() - from + 1,
{
    if from < 0 || from >= s.len() {
        Seq::empty()
    } else {
        let end = index_of(s, '\n', from);
        if end < from || end > s.len() {
            Seq::empty()
        } else {
            seq![line_of(s, from, end)] + lines_from(s, end + 1)
        }
    }
}

pub open spec fn texts(parts: Seq<Vec<char>>) -> Seq<Seq<char>> {
    Seq::new(parts.len(), |i: int| parts[i]@)
}

pub open spec fn strings(parts: Seq<String>) -> Seq<Seq<char>> {
    Seq::new(parts.len(), |i: int| parts[i]@)
}

/// The lines of a text.
pub fn lines_of(s: &[char]) -> (r: Vec<Vec<char>>)
    ensures
        texts(r@) == lines_from(s@, 0),
{
    let mut out: Vec<Vec<char>> = Vec::new();
    let mut from: usize = 0;
    assert(s.len() <= usize::MAX);
    assert(texts(out@) + lines_from(s@, 0) =~= lines_from(s@, 0));
    while from < s.len()
        invariant
            from <= s@.len() <= usize::MAX,
            texts(out@) + lines_from(s@, from as int) == lines_from(s@, 0),
        decreases s@.len() - from,
    {
        let end = find_char(s, '\n', from);
        let last: usize = if end < s.len() && from < end && s[end - 1] == '\r' {
            end - 1
        } else {
            end
        };
        let line: Vec<char> = vstd::slice::slice_to_vec(vstd::slice::slice_subrange(s, from, last));
        let ghost before = texts(out@);
        let ghost added = line@;
        assert(added == line_of(s@, from as int, end as int));
        out.push(line);
        assert(texts(out@) =~= before.push(added));
        let ghost rest = lines_from(s@, end + 1);
        assert(texts(out@) + rest =~= before + (seq![added] + rest));
        if end == s.len() {
            assert(lines_from(s@, end + 1) =~= lines_from(s@, end as int));
            from = end;
        } else {
            from = end + 1;
        }
    }
    assert(texts(out@) =~= lines_from(s@, 0));
    out
}

/// The first `n` parts with `between` between them.
pub open spec fn joined(parts: Seq<Seq<char>>, between: Seq<char>, n: int) -> Seq<char>
    decreases n,
{
    if n <= 0 {
        Seq::empty()
    } else if n == 1 {
        parts[0]
    } else {
        joined(parts, between, n - 1) + between + parts[n - 1]
    }
}

/// The parts with `between` between them.
pub fn join(parts: &Vec<String>, between: &str) -> (r: String)
    ensures
        r@ == joined(strings(parts@), between@, parts@.len() as int),
{
    let mut out = String::new();
    let ghost all = strings(parts@);
    let mut i: usize = 0;
    assert(out@ =~= joined(all, between@, 0));
    while i < parts.len()
        invariant
            i <= parts@.len(),
            all == strings(parts@),
            out@ == joined(all, between@, i as int),
        decreases parts@.len() - i,
    {
        if i > 0 {
            out.push_str(between);
        }
        out.push_str(parts[i].as_str());
        i += 1;
        assert(out@ =~= joined(all, between@, i as int));
    }
    out
}

/// What stands between the `c` from `from` on; always at least one part.
pub open spec fn split_from(s: Seq<char>, c: char, from: int) -> Seq<Seq<char>>
    decreases s.len() - from + 1,
{
    let end = index_of(s, c, from);
    if from < 0 || from > s.len() || end < from || end >= s.len() {
        seq![s.subrange(from, s.len() as int)]
    } else {
        seq![s.subrange(from, end)] + split_from(s, c, end + 1)
    }
}

/// What stands between the `c`.
pub fn split(s: &[char], c: char) -> (r: Vec<Vec<char>>)
    ensures
        texts(r@) == split_from(s@, c, 0),
{
    let mut out: Vec<Vec<char>> = Vec::new();
    let mut from: usize = 0;
    assert(s.len() <= usize::MAX);
    assert(texts(out@) + split_from(s@, c, 0) =~= split_from(s@, c, 0));
    loop
        invariant
            from <= s@.len() <= usize::MAX,
            texts(out@) + split_from(s@, c, from as int) == split_from(s@, c, 0),
        decreases s@.len() - from,
    {
        let end = find_char(s, c, from);
        let line: Vec<char> = vstd::slice::slice_to_vec(vstd::slice::slice_subrange(s, from, end));
        let ghost before = texts(out@);
        let ghost added = line@;
        out.push(line);
        assert(texts(out@) =~= before.push(added));
        if end == s.len() {
            assert(texts(out@) =~= split_from(s@, c, 0));
            return out;
        }
        let ghost rest = split_from(s@, c, end + 1);
        assert(texts(out@) + rest =~= before + (seq![added] + rest));
        from = end + 1;
    }
}

/// `s` begins with `prefix`.
pub fn begins_with(s: &[char], prefix: &[char]) -> (r: bool)
    ensures
        r == prefix@.is_prefix_of(s@),
{
    if prefix.len() > s.len() {
        return false;
    }
    let mut i: usize = 0;
    while i < prefix.len()
        invariant
            i <= prefix@.len() <= s@.len(),
            forall|k: int| 0 <= k < i ==> prefix@[k] == s@[k],
        decreases prefix@.len() - i,
    {
        if prefix[i] != s[i] {
            assert(s@.subrange(0, prefix@.len() as int)[i as int] == s@[i as int]);
            return false;
        }
        i += 1;
    }
    assert(prefix@ =~= s@.subrange(0, prefix@.len() as int));
    true
}

/// An ASCII letter as a capital one.
pub open spec fn upper(c: char) -> char {
    if 'a' <= c <= 'z' {
        (c as u8 - 32) as u8 as char
    } else {
        c
    }
}

/// ASCII letters as capital ones.
pub open spec fn raised(s: Seq<char>) -> Seq<char> {
    s.map_values(|c: char| upper(c))
}

pub fn upper_char(c: char) -> (r: char)
    ensures
        r == upper(c),
{
    if c >= 'a' && c <= 'z' {
        (c as u8 - 32) as char
    } else {
        c
    }
}

/// ASCII letters as capital ones.
pub fn to_upper(s: &str) -> (r: String)
    ensures
        r@ == raised(s@),
{
    let chars = chars_of(s);
    let mut out = String::new();
    let mut i: usize = 0;
    while i < chars.len()
        invariant
            i <= chars@.len(),
            out@ == raised(chars@).take(i as int),
        decreases chars@.len() - i,
    {
        out.push(upper_char(chars[i]));
        i += 1;
        assert(out@ =~= raised(chars@).take(i as int));
    }
    assert(out@ =~= raised(s@));
    out
}

/// Bytes that are ASCII characters, as text.
pub open spec fn ascii(b: Seq<u8>) -> Seq<char> {
    b.map_values(|byte: u8| byte as char)
}

/// The digits of a number.
pub open spec fn number(n: nat) -> Seq<char> {
    ascii(bytes::decimal(n))
}

/// Bytes that are ASCII characters, added to a text.
pub fn push_ascii(out: &mut String, b: &[u8])
    ensures
        final(out)@ == old(out)@ + ascii(b@),
{
    let ghost before = out@;
    let mut i: usize = 0;
    assert(out@ =~= before + ascii(b@).take(0));
    while i < b.len()
        invariant
            i <= b@.len(),
            out@ == before + ascii(b@).take(i as int),
        decreases b@.len() - i,
    {
        out.push(b[i] as char);
        i += 1;
        assert(out@ =~= before + ascii(b@).take(i as int));
    }
    assert(ascii(b@).take(i as int) =~= ascii(b@));
}

/// Adds the digits of a number to a text.
pub fn push_number(out: &mut String, n: u64)
    ensures
        final(out)@ == old(out)@ + number(n as nat),
{
    let mut digits: Vec<u8> = Vec::new();
    bytes::push_decimal(&mut digits, n as u128);
    assert(digits@ =~= bytes::decimal(n as nat));
    push_ascii(out, digits.as_slice());
}

/// `word` stands in `s` at `i`.
pub open spec fn stands_at(s: Seq<char>, i: int, word: Seq<char>) -> bool {
    0 <= i && i + word.len() <= s.len() && s.subrange(i, i + word.len()) == word
}

/// `word` stands somewhere in `s`.
pub open spec fn holds(s: Seq<char>, word: Seq<char>) -> bool {
    exists|i: int| #[trigger] stands_at(s, i, word)
}

fn is_at(s: &[char], i: usize, word: &[char]) -> (r: bool)
    requires
        i + word@.len() <= s@.len(),
    ensures
        r == stands_at(s@, i as int, word@),
{
    assert(s.len() <= usize::MAX);
    let mut k: usize = 0;
    while k < word.len()
        invariant
            k <= word@.len(),
            i + word@.len() <= s@.len() <= usize::MAX,
            forall|j: int| 0 <= j < k ==> s@[i + j] == #[trigger] word@[j],
        decreases word@.len() - k,
    {
        if s[i + k] != word[k] {
            assert(s@.subrange(i as int, i + word@.len())[k as int] != word@[k as int]);
            return false;
        }
        k += 1;
    }
    assert(s@.subrange(i as int, i + word@.len()) =~= word@);
    true
}

/// `word` stands somewhere in `s`.
pub fn contains(s: &str, word: &str) -> (r: bool)
    ensures
        r == holds(s@, word@),
{
    let chars = chars_of(s);
    let sought = chars_of(word);
    if sought.len() > chars.len() {
        return false;
    }
    assert(chars.len() <= usize::MAX);
    let last: usize = chars.len() - sought.len();
    let mut i: usize = 0;
    loop
        invariant
            i <= last,
            chars@ == s@,
            sought@ == word@,
            last == s@.len() - word@.len(),
            forall|k: int| 0 <= k < i ==> !stands_at(s@, k, word@),
        decreases last - i,
    {
        if is_at(chars.as_slice(), i, sought.as_slice()) {
            return true;
        }
        if i == last {
            return false;
        }
        i += 1;
    }
}

} // verus!

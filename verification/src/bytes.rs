//! Searching byte sequences and writing numbers into them.

use vstd::prelude::*;

verus! {

/// `word` stands in `b` at `i`.
pub open spec fn occurs(b: Seq<u8>, i: int, word: Seq<u8>) -> bool {
    0 <= i && i + word.len() <= b.len() && b.subrange(i, i + word.len()) == word
}

/// The first place from `i` on where `word` stands.
pub open spec fn first_at(b: Seq<u8>, i: int, word: Seq<u8>) -> Option<int>
    decreases b.len() - i + 1,
{
    if i < 0 || i + word.len() > b.len() {
        None
    } else if occurs(b, i, word) {
        Some(i)
    } else {
        first_at(b, i + 1, word)
    }
}

/// The last place up to `i` where `word` stands.
pub open spec fn last_at(b: Seq<u8>, i: int, word: Seq<u8>) -> Option<int>
    decreases i + 1,
{
    if i < 0 {
        None
    } else if occurs(b, i, word) {
        Some(i)
    } else {
        last_at(b, i - 1, word)
    }
}

/// `word` stands in `b` at `i`.
pub fn occurs_at(b: &[u8], i: usize, word: &[u8]) -> (r: bool)
    ensures
        r == occurs(b@, i as int, word@),
{
    if i > b.len() || word.len() > b.len() - i {
        return false;
    }
    let mut k: usize = 0;
    while k < word.len()
        invariant
            k <= word@.len(),
            i + word@.len() <= b@.len() <= usize::MAX,
            forall|j: int| 0 <= j < k ==> b@[i + j] == #[trigger] word@[j],
        decreases word@.len() - k,
    {
        if b[i + k] != word[k] {
            assert(b@.subrange(i as int, i + word@.len())[k as int] != word@[k as int]);
            return false;
        }
        k += 1;
    }
    assert(b@.subrange(i as int, i + word@.len()) =~= word@);
    true
}

/// `word` stands somewhere in `b`.
pub fn contains(b: &[u8], word: &[u8]) -> (r: bool)
    ensures
        r == (first_at(b@, 0, word@) is Some),
{
    let mut i: usize = 0;
    assert(b.len() <= usize::MAX);
    while i <= b.len() && word.len() <= b.len() - i
        invariant
            i <= b@.len() <= usize::MAX,
            first_at(b@, i as int, word@) == first_at(b@, 0, word@),
        decreases b@.len() - i,
    {
        if occurs_at(b, i, word) {
            return true;
        }
        if i == b.len() {
            assert(first_at(b@, i + 1, word@) is None);
            return false;
        }
        i += 1;
    }
    false
}

/// The last place where `word` stands.
pub fn find_last(b: &[u8], word: &[u8]) -> (r: Option<usize>)
    ensures
        match r {
            Some(i) => last_at(b@, b@.len() - word@.len(), word@) == Some(i as int) && i
                + word@.len() <= b@.len(),
            None => last_at(b@, b@.len() - word@.len(), word@) is None,
        },
{
    if word.len() > b.len() {
        return None;
    }
    let mut i: usize = b.len() - word.len();
    loop
        invariant
            i + word@.len() <= b@.len(),
            last_at(b@, i as int, word@) == last_at(b@, b@.len() - word@.len(), word@),
        decreases i,
    {
        if occurs_at(b, i, word) {
            return Some(i);
        }
        if i == 0 {
            assert(last_at(b@, -1, word@) is None);
            return None;
        }
        i -= 1;
    }
}

/// The bytes `a[i..]`, when there are that many.
pub fn tail(a: &[u8], i: usize) -> (r: &[u8])
    requires
        i <= a@.len(),
    ensures
        r@ == a@.skip(i as int),
{
    let r = vstd::slice::slice_subrange(a, i, a.len());
    assert(r@ =~= a@.skip(i as int));
    r
}

/// Appends `more` to `out`.
pub fn append(out: &mut Vec<u8>, more: &[u8])
    ensures
        final(out)@ == old(out)@ + more@,
{
    let ghost before = out@;
    out.extend_from_slice(more);
    assert(out@ =~= before + more@);
}

/// The 16-bit number at `i`, lowest byte first.
pub open spec fn u16_le(b: Seq<u8>, i: int) -> Option<u16> {
    if 0 <= i && i + 2 <= b.len() {
        Some((b[i] + 256 * b[i + 1]) as u16)
    } else {
        None
    }
}

/// The 32-bit number at `i`, lowest byte first.
pub open spec fn u32_le(b: Seq<u8>, i: int) -> Option<u32> {
    if 0 <= i && i + 4 <= b.len() {
        Some((b[i] + 256 * b[i + 1] + 65536 * b[i + 2] + 16777216 * b[i + 3]) as u32)
    } else {
        None
    }
}

/// The 16-bit number at `i`, highest byte first.
pub open spec fn u16_be(b: Seq<u8>, i: int) -> Option<u16> {
    if 0 <= i && i + 2 <= b.len() {
        Some((b[i + 1] + 256 * b[i]) as u16)
    } else {
        None
    }
}

/// The 32-bit number at `i`, highest byte first.
pub open spec fn u32_be(b: Seq<u8>, i: int) -> Option<u32> {
    if 0 <= i && i + 4 <= b.len() {
        Some((b[i + 3] + 256 * b[i + 2] + 65536 * b[i + 1] + 16777216 * b[i]) as u32)
    } else {
        None
    }
}

/// The 16-bit number at `i`, lowest byte first.
pub fn read_u16_le(b: &[u8], i: usize) -> (r: Option<u16>)
    ensures
        r == u16_le(b@, i as int),
{
    if b.len() < 2 || i > b.len() - 2 {
        return None;
    }
    Some(b[i] as u16 + 256 * b[i + 1] as u16)
}

/// The 32-bit number at `i`, lowest byte first.
pub fn read_u32_le(b: &[u8], i: usize) -> (r: Option<u32>)
    ensures
        r == u32_le(b@, i as int),
{
    if b.len() < 4 || i > b.len() - 4 {
        return None;
    }
    Some(
        b[i] as u32 + 256 * b[i + 1] as u32 + 65536 * b[i + 2] as u32 + 16777216 * b[i + 3] as u32,
    )
}

/// The 16-bit number at `i`, highest byte first.
pub fn read_u16_be(b: &[u8], i: usize) -> (r: Option<u16>)
    ensures
        r == u16_be(b@, i as int),
{
    if b.len() < 2 || i > b.len() - 2 {
        return None;
    }
    Some(b[i + 1] as u16 + 256 * b[i] as u16)
}

/// The 32-bit number at `i`, highest byte first.
pub fn read_u32_be(b: &[u8], i: usize) -> (r: Option<u32>)
    ensures
        r == u32_be(b@, i as int),
{
    if b.len() < 4 || i > b.len() - 4 {
        return None;
    }
    Some(
        b[i + 3] as u32 + 256 * b[i + 2] as u32 + 65536 * b[i + 1] as u32 + 16777216 * b[i] as u32,
    )
}

/// A 16-bit number, lowest byte first.
pub open spec fn le16(n: u16) -> Seq<u8> {
    seq![(n % 256) as u8, (n / 256) as u8]
}

/// A 32-bit number, lowest byte first.
pub open spec fn le32(n: u32) -> Seq<u8> {
    seq![
        (n % 256) as u8,
        ((n / 256) % 256) as u8,
        ((n / 65536) % 256) as u8,
        (n / 16777216) as u8,
    ]
}

/// Appends a 16-bit number, lowest byte first.
pub fn push_u16_le(out: &mut Vec<u8>, n: u16)
    ensures
        final(out)@ == old(out)@ + le16(n),
{
    let ghost before = out@;
    out.push((n % 256) as u8);
    out.push((n / 256) as u8);
    assert(out@ =~= before + le16(n));
}

/// Appends a 32-bit number, lowest byte first.
pub fn push_u32_le(out: &mut Vec<u8>, n: u32)
    ensures
        final(out)@ == old(out)@ + le32(n),
{
    let ghost before = out@;
    out.push((n % 256) as u8);
    out.push(((n / 256) % 256) as u8);
    out.push(((n / 65536) % 256) as u8);
    out.push((n / 16777216) as u8);
    assert(out@ =~= before + le32(n));
}

/// A number that was written is read back.
pub proof fn law_little_endian_round_trip(b: Seq<u8>, i: int, short: u16, long: u32)
    ensures
        occurs(b, i, le16(short)) ==> u16_le(b, i) == Some(short),
        occurs(b, i, le32(long)) ==> u32_le(b, i) == Some(long),
{
    if occurs(b, i, le16(short)) {
        let w = b.subrange(i, i + 2);
        assert(w[0] == b[i] && w[1] == b[i + 1]);
    }
    if occurs(b, i, le32(long)) {
        let w = b.subrange(i, i + 4);
        assert(w[0] == b[i] && w[1] == b[i + 1] && w[2] == b[i + 2] && w[3] == b[i + 3]);
    }
}

/// A number in decimal digits.
pub open spec fn decimal(n: nat) -> Seq<u8>
    decreases n,
{
    if n < 10 {
        seq![(48 + n) as u8]
    } else {
        decimal(n / 10).push((48 + n % 10) as u8)
    }
}

/// The value of decimal digits.
pub open spec fn decimal_value(s: Seq<u8>) -> int
    decreases s.len(),
{
    if s.len() == 0 {
        0
    } else {
        10 * decimal_value(s.drop_last()) + (s.last() - 48)
    }
}

/// A number that was written in digits is the value of those digits.
pub proof fn law_decimal_round_trip(n: nat)
    ensures
        decimal_value(decimal(n)) == n,
        decimal(n).len() > 0,
        forall|i: int| 0 <= i < decimal(n).len() ==> 48 <= #[trigger] decimal(n)[i] <= 57,
    decreases n,
{
    let s = decimal(n);
    if n < 10 {
        assert(s.drop_last() =~= Seq::<u8>::empty());
        assert(decimal_value(s.drop_last()) == 0);
    } else {
        law_decimal_round_trip(n / 10);
        assert(s.drop_last() =~= decimal(n / 10));
        assert forall|i: int| 0 <= i < s.len() implies 48 <= #[trigger] s[i] <= 57 by {
            if i < s.len() - 1 {
                assert(s[i] == decimal(n / 10)[i]);
            }
        }
    }
}

/// `count` zeros.
pub open spec fn zeros(count: int) -> Seq<u8> {
    Seq::new(
        if count < 0 {
            0nat
        } else {
            count as nat
        },
        |i: int| 48u8,
    )
}

/// A number in at least `width` decimal digits.
pub open spec fn padded(n: nat, width: int) -> Seq<u8> {
    zeros(width - decimal(n).len()) + decimal(n)
}

/// The number of digits.
fn digit_count(n: u64) -> (r: usize)
    ensures
        r == decimal(n as nat).len(),
        r <= 20,
{
    let mut left: u64 = n;
    let mut count: usize = 1;
    proof {
        lemma_digits(n as nat);
    }
    while left >= 10
        invariant
            count + decimal(left as nat).len() == decimal(n as nat).len() + 1,
            count < 21,
            decimal(n as nat).len() <= 20,
            decimal(left as nat).len() >= 1,
        decreases left,
    {
        assert(decimal(left as nat).len() == decimal((left / 10) as nat).len() + 1);
        proof {
            law_decimal_round_trip((left / 10) as nat);
        }
        left = left / 10;
        count += 1;
    }
    count
}

spec fn power10(n: nat) -> nat
    decreases n,
{
    if n == 0 {
        1
    } else {
        10 * power10((n - 1) as nat)
    }
}

proof fn lemma_digit_bound(n: nat, k: nat)
    requires
        n < power10(k),
        k > 0,
    ensures
        decimal(n).len() <= k,
    decreases k,
{
    if n >= 10 {
        assert(k > 1) by {
            assert(power10(1) == 10 * power10(0));
        }
        assert(n / 10 < power10((k - 1) as nat));
        lemma_digit_bound(n / 10, (k - 1) as nat);
    }
}

/// A number of 64 bits has at most twenty digits.
pub proof fn lemma_digits(n: nat)
    requires
        n <= u64::MAX,
    ensures
        1 <= decimal(n).len() <= 20,
{
    law_decimal_round_trip(n);
    assert(power10(20) == 100_000_000_000_000_000_000) by {
        reveal_with_fuel(power10, 21);
    }
    lemma_digit_bound(n, 20);
}

/// Appends a number in decimal digits.
pub fn push_decimal(out: &mut Vec<u8>, n: u128)
    ensures
        final(out)@ == old(out)@ + decimal(n as nat),
    decreases n,
{
    let ghost before = out@;
    if n >= 10 {
        push_decimal(out, n / 10);
    }
    out.push((48 + n % 10) as u8);
    assert(out@ =~= before + decimal(n as nat));
}

/// Appends a number in at least `width` decimal digits.
pub fn push_padded(out: &mut Vec<u8>, n: u64, width: usize)
    ensures
        final(out)@ == old(out)@ + padded(n as nat, width as int),
{
    let ghost before = out@;
    let count = digit_count(n);
    let mut i: usize = count;
    while i < width
        invariant
            count == decimal(n as nat).len(),
            count <= i,
            i <= width || i == count,
            out@ == before + zeros(i - count),
        decreases width - i,
    {
        out.push(48);
        i += 1;
        assert(out@ =~= before + zeros(i - count));
    }
    assert(zeros(i - count) =~= zeros(width - count));
    push_decimal(out, n as u128);
    assert(out@ =~= before + padded(n as nat, width as int));
}

/// The hexadecimal digit for a value below 16, in capitals.
pub open spec fn hex_digit(n: int) -> u8 {
    if n < 10 {
        (48 + n) as u8
    } else {
        (55 + n) as u8
    }
}

/// A 16-bit number in four hexadecimal digits.
pub open spec fn hex4(n: u16) -> Seq<u8> {
    seq![
        hex_digit((n / 4096) as int),
        hex_digit(((n / 256) % 16) as int),
        hex_digit(((n / 16) % 16) as int),
        hex_digit((n % 16) as int),
    ]
}

fn hex_char(n: u16) -> (r: u8)
    requires
        n < 16,
    ensures
        r == hex_digit(n as int),
{
    if n < 10 {
        (48 + n) as u8
    } else {
        (55 + n) as u8
    }
}

/// Appends a 16-bit number in four hexadecimal digits.
pub fn push_hex4(out: &mut Vec<u8>, n: u16)
    ensures
        final(out)@ == old(out)@ + hex4(n),
{
    let ghost before = out@;
    out.push(hex_char(n / 4096));
    out.push(hex_char((n / 256) % 16));
    out.push(hex_char((n / 16) % 16));
    out.push(hex_char(n % 16));
    assert(out@ =~= before + hex4(n));
}

} // verus!

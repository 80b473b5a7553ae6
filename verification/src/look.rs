//! Looking values up in a text by what stands before them.

use vstd::prelude::*;
use vstd::utf8::*;

use crate::bytes;

verus! {

/// Where `key` first stands from `i` on, or the end.
pub open spec fn find<A>(s: Seq<A>, key: Seq<A>, i: int) -> int
    decreases s.len() - i,
{
    if i < 0 || i >= s.len() || i + key.len() > s.len() {
        s.len() as int
    } else if s.subrange(i, i + key.len()) == key {
        i
    } else {
        find(s, key, i + 1)
    }
}

/// What follows the first `key`; nothing if there is none.
#[verifier::opaque]
pub open spec fn behind<A>(s: Seq<A>, key: Seq<A>) -> Seq<A> {
    let p = find(s, key, 0);
    if 0 <= p && p + key.len() <= s.len() {
        s.skip(p + key.len())
    } else {
        Seq::empty()
    }
}

/// What stands before the first `key`.
#[verifier::opaque]
pub open spec fn before<A>(s: Seq<A>, key: Seq<A>) -> Seq<A> {
    let p = find(s, key, 0);
    if 0 <= p <= s.len() {
        s.take(p)
    } else {
        s
    }
}

/// No `key` begins in `s`, whatever follows: three elements of it tell.
#[verifier::opaque]
pub open spec fn clear<A>(s: Seq<A>, key: Seq<A>) -> bool {
    forall|i: int|
        0 <= i < s.len() && #[trigger] s[i] == key[0] ==> i + 1 < s.len() && (s[i + 1] != key[1]
            || (i + 2 < s.len() && s[i + 2] != key[2]))
}

pub proof fn lemma_clear<A>(a: Seq<A>, b: Seq<A>, key: Seq<A>)
    requires
        clear(a, key),
        clear(b, key),
    ensures
        clear(a + b, key),
{
    reveal(clear);
    let s = a + b;
    assert forall|i: int| 0 <= i < s.len() && #[trigger] s[i] == key[0] implies i + 1 < s.len() && (
    s[i + 1] != key[1] || (i + 2 < s.len() && s[i + 2] != key[2])) by {
        if i < a.len() {
            assert(a[i] == key[0]);
        } else {
            assert(b[i - a.len()] == key[0]);
        }
    }
}

proof fn lemma_find<A>(pre: Seq<A>, key: Seq<A>, post: Seq<A>, i: int)
    requires
        key.len() >= 3,
        clear(pre, key),
        0 <= i <= pre.len(),
    ensures
        find(pre + key + post, key, i) == pre.len(),
    decreases pre.len() - i,
{
    reveal(clear);
    let s = pre + key + post;
    let here = s.subrange(i, i + key.len());
    if i == pre.len() {
        assert(here =~= key);
    } else {
        lemma_find(pre, key, post, i + 1);
        if here == key {
            assert(here[0] == s[i] && here[1] == s[i + 1] && here[2] == s[i + 2]);
            assert(pre[i] == key[0]);
            assert(pre[i + 1] == s[i + 1]);
            assert(pre[i + 2] == s[i + 2]);
        }
    }
}

pub proof fn lemma_behind<A>(pre: Seq<A>, key: Seq<A>, post: Seq<A>)
    requires
        key.len() >= 3,
        clear(pre, key),
    ensures
        find(pre + key + post, key, 0) == pre.len(),
        behind(pre + key + post, key) == post,
        before(pre + key + post, key) == pre,
{
    reveal(behind);
    reveal(before);
    lemma_find(pre, key, post, 0);
    assert((pre + key + post).skip((pre.len() + key.len()) as int) =~= post);
    assert((pre + key + post).take(pre.len() as int) =~= pre);
}

proof fn lemma_find_one<A>(s: Seq<A>, mark: A, post: Seq<A>, i: int)
    requires
        forall|k: int| 0 <= k < s.len() ==> #[trigger] s[k] != mark,
        0 <= i <= s.len(),
    ensures
        find(s + seq![mark] + post, seq![mark], i) == s.len(),
    decreases s.len() - i,
{
    let all = s + seq![mark] + post;
    let here = all.subrange(i, i + 1);
    if i == s.len() {
        assert(here =~= seq![mark]);
    } else {
        lemma_find_one(s, mark, post, i + 1);
        assert(here[0] == s[i]);
    }
}

/// What stands before the first `mark`.
pub proof fn lemma_before<A>(s: Seq<A>, mark: A, post: Seq<A>)
    requires
        forall|k: int| 0 <= k < s.len() ==> #[trigger] s[k] != mark,
    ensures
        before(s + seq![mark] + post, seq![mark]) == s,
        behind(s + seq![mark] + post, seq![mark]) == post,
{
    reveal(behind);
    reveal(before);
    lemma_find_one(s, mark, post, 0);
    assert((s + seq![mark] + post).take(s.len() as int) =~= s);
    assert((s + seq![mark] + post).skip(s.len() as int + 1) =~= post);
}

/// How many digits `s` begins with.
pub open spec fn digits(s: Seq<u8>) -> int
    decreases s.len(),
{
    if s.len() == 0 || s[0] < 48 || s[0] > 57 {
        0
    } else {
        1 + digits(s.skip(1))
    }
}

/// What digits are worth.
pub open spec fn worth(s: Seq<u8>) -> int
    decreases s.len(),
{
    if s.len() == 0 {
        0
    } else {
        10 * worth(s.drop_last()) + (s.last() - 48)
    }
}

/// The number that `s` begins with, in ten-thousandths, and what follows it:
/// digits, and four more behind a point if there is one.
#[verifier::opaque]
pub open spec fn numeral(s: Seq<u8>) -> Option<(int, Seq<u8>)> {
    let n = digits(s);
    if n == 0 {
        None
    } else if n < s.len() && s[n] == 46 {
        if digits(s.skip(n + 1)) != 4 {
            None
        } else {
            Some(
                (
                    10_000 * worth(s.take(n)) + worth(s.subrange(n + 1, n + 5)),
                    s.skip(n + 5),
                ),
            )
        }
    } else {
        Some((10_000 * worth(s.take(n)), s.skip(n)))
    }
}

/// The `count` numbers that `s` begins with, in ten-thousandths, with a space
/// before each but the first, and what follows them.
#[verifier::opaque]
pub open spec fn numerals(s: Seq<u8>, count: nat) -> Option<(Seq<int>, Seq<u8>)>
    decreases count,
{
    if count == 0 {
        Some((Seq::empty(), s))
    } else if count == 1 {
        match numeral(s) {
            None => None,
            Some((n, rest)) => Some((seq![n], rest)),
        }
    } else {
        match numerals(s, (count - 1) as nat) {
            None => None,
            Some((list, rest)) => if rest.len() == 0 || rest[0] != 32 {
                None
            } else {
                match numeral(rest.skip(1)) {
                    None => None,
                    Some((n, rest)) => Some((list.push(n), rest)),
                }
            },
        }
    }
}

pub open spec fn is_digits(s: Seq<u8>) -> bool {
    forall|i: int| 0 <= i < s.len() ==> 48 <= #[trigger] s[i] <= 57
}

pub proof fn lemma_digits(s: Seq<u8>, rest: Seq<u8>)
    requires
        is_digits(s),
        rest.len() == 0 || rest[0] < 48 || rest[0] > 57,
    ensures
        digits(s + rest) == s.len(),
    decreases s.len(),
{
    if s.len() > 0 {
        assert((s + rest).skip(1) =~= s.skip(1) + rest);
        assert((s + rest)[0] == s[0]);
        assert forall|i: int| 0 <= i < s.skip(1).len() implies 48 <= #[trigger] s.skip(1)[i]
            <= 57 by {
            assert(s[i + 1] >= 48);
        }
        lemma_digits(s.skip(1), rest);
    } else {
        assert(s + rest =~= rest);
    }
}

proof fn lemma_worth(s: Seq<u8>)
    ensures
        worth(s) == bytes::decimal_value(s),
    decreases s.len(),
{
    if s.len() > 0 {
        lemma_worth(s.drop_last());
    }
}

proof fn lemma_worth_of_zeros(count: int, s: Seq<u8>)
    ensures
        worth(bytes::zeros(count) + s) == worth(s),
    decreases s.len(), (if count < 0 { 0 } else { count }),
{
    let all = bytes::zeros(count) + s;
    if s.len() > 0 {
        assert(all.drop_last() =~= bytes::zeros(count) + s.drop_last());
        lemma_worth_of_zeros(count, s.drop_last());
    } else if count > 0 {
        assert(all.drop_last() =~= bytes::zeros(count - 1) + s);
        lemma_worth_of_zeros(count - 1, s);
    } else {
        assert(all =~= s);
    }
}

/// A whole number is read back.
pub proof fn lemma_numeral(n: nat, rest: Seq<u8>)
    requires
        rest.len() == 0 || ((rest[0] < 48 || rest[0] > 57) && rest[0] != 46),
    ensures
        numeral(bytes::decimal(n) + rest) == Some((10_000 * n as int, rest)),
        is_digits(bytes::decimal(n)),
        bytes::decimal(n).len() > 0,
{
    reveal(numeral);
    let s = bytes::decimal(n);
    bytes::law_decimal_round_trip(n);
    lemma_worth(s);
    lemma_digits(s, rest);
    assert((s + rest).take(s.len() as int) =~= s);
    assert((s + rest).skip(s.len() as int) =~= rest);
}

proof fn lemma_four(n: nat)
    requires
        n < 10_000,
    ensures
        bytes::padded(n, 4).len() == 4,
        is_digits(bytes::padded(n, 4)),
        worth(bytes::padded(n, 4)) == n,
{
    bytes::law_decimal_round_trip(n);
    lemma_worth(bytes::decimal(n));
    lemma_worth_of_zeros(4 - bytes::decimal(n).len(), bytes::decimal(n));
    reveal_with_fuel(bytes::decimal, 5);
    assert(bytes::decimal(n).len() <= 4);
    let s = bytes::padded(n, 4);
    let by = bytes::zeros(4 - bytes::decimal(n).len());
    assert forall|i: int| 0 <= i < s.len() implies 48 <= #[trigger] s[i] <= 57 by {
        if i >= by.len() {
            assert(s[i] == bytes::decimal(n)[i - by.len()]);
        }
    }
}

/// A number with four digits behind its point is read back.
pub proof fn lemma_pointed(n: nat, rest: Seq<u8>)
    requires
        rest.len() == 0 || rest[0] < 48 || rest[0] > 57,
    ensures
        ({
            let s = bytes::decimal(n / 10_000) + seq![46u8] + bytes::padded(n % 10_000, 4);
            &&& numeral(s + rest) == Some((n as int, rest))
            &&& forall|i: int| 0 <= i < s.len() ==> (48 <= #[trigger] s[i] <= 57 || s[i] == 46)
        }),
{
    reveal(numeral);
    let a = bytes::decimal(n / 10_000);
    let b = bytes::padded(n % 10_000, 4);
    let s = a + seq![46u8] + b;
    bytes::law_decimal_round_trip(n / 10_000);
    lemma_worth(a);
    lemma_four(n % 10_000);
    assert(s + rest =~= a + (seq![46u8] + b + rest));
    lemma_digits(a, seq![46u8] + b + rest);
    lemma_digits(b, rest);
    assert((s + rest).skip(a.len() as int + 1) =~= b + rest);
    assert((s + rest).take(a.len() as int) =~= a);
    assert((s + rest).subrange(a.len() as int + 1, a.len() as int + 5) =~= b);
    assert((s + rest).skip(a.len() as int + 5) =~= rest);
    assert forall|i: int| 0 <= i < s.len() implies (48 <= #[trigger] s[i] <= 57 || s[i] == 46) by {
        if i < a.len() {
            assert(s[i] == a[i]);
        } else if i > a.len() {
            assert(s[i] == b[i - a.len() - 1]);
        }
    }
}

/// No key that begins with something else begins in digits and points.
pub proof fn lemma_clear_digits(s: Seq<u8>, key: Seq<u8>)
    requires
        forall|i: int| 0 <= i < s.len() ==> (48 <= #[trigger] s[i] <= 57 || s[i] == 46),
        key[0] < 46 || key[0] == 47 || key[0] > 57,
    ensures
        clear(s, key),
{
    reveal(clear);
}

/// The bytes of an ASCII text are its characters.
pub proof fn lemma_ascii(s: Seq<char>)
    requires
        is_ascii_chars(s),
    ensures
        encode_utf8(s).len() == s.len(),
        forall|i: int| 0 <= i < s.len() ==> #[trigger] encode_utf8(s)[i] == s[i] as u8,
{
    is_ascii_chars_encode_utf8(s);
}

/// The first number is read.
pub proof fn lemma_numerals_one(s: Seq<u8>, n: int, rest: Seq<u8>)
    requires
        numeral(s) == Some((n, rest)),
    ensures
        numerals(s, 1) == Some((seq![n], rest)),
{
    reveal_with_fuel(numerals, 1);
}

/// The next number is read.
pub proof fn lemma_numerals_next(
    s: Seq<u8>,
    count: nat,
    list: Seq<int>,
    more: Seq<u8>,
    n: int,
    rest: Seq<u8>,
)
    requires
        count > 0,
        numerals(s, count) == Some((list, seq![32u8] + more)),
        numeral(more) == Some((n, rest)),
    ensures
        numerals(s, count + 1) == Some((list.push(n), rest)),
{
    reveal_with_fuel(numerals, 2);
    assert((seq![32u8] + more).skip(1) =~= more);
}

pub proof fn lemma_ascii_concat(a: Seq<char>, b: Seq<char>)
    requires
        is_ascii_chars(a),
        is_ascii_chars(b),
    ensures
        is_ascii_chars(a + b),
        encode_utf8(a + b) == encode_utf8(a) + encode_utf8(b),
{
    let s = a + b;
    assert forall|i: int| 0 <= i < s.len() implies '\0' <= #[trigger] s[i] <= '\u{7f}' by {
        if i < a.len() {
            assert(s[i] == a[i]);
        } else {
            assert(s[i] == b[i - a.len()]);
        }
    }
    lemma_ascii(a);
    lemma_ascii(b);
    lemma_ascii(s);
    assert(encode_utf8(s) =~= encode_utf8(a) + encode_utf8(b));
}

/// A text without a key has none in its bytes.
pub proof fn lemma_clear_bytes(s: Seq<char>, key: Seq<char>)
    requires
        is_ascii_chars(s),
        is_ascii_chars(key),
        key.len() >= 3,
        clear(s, key),
    ensures
        clear(encode_utf8(s), encode_utf8(key)),
        encode_utf8(key).len() == key.len(),
        encode_utf8(key)[0] == key[0] as u8,
{
    reveal(clear);
    lemma_ascii(s);
    lemma_ascii(key);
    let b = encode_utf8(s);
    let k = encode_utf8(key);
    assert(k[0] == key[0] as u8 && k[1] == key[1] as u8 && k[2] == key[2] as u8);
    assert forall|i: int| 0 <= i < b.len() && #[trigger] b[i] == k[0] implies i + 1 < b.len() && (
    b[i + 1] != k[1] || (i + 2 < b.len() && b[i + 2] != k[2])) by {
        assert(b[i] == s[i] as u8);
        lemma_same_char(s, i, key, 0);
        assert(s[i] == key[0]);
        assert(b[i + 1] == s[i + 1] as u8);
        if b[i + 1] == k[1] {
            lemma_same_char(s, i + 1, key, 1);
            assert(b[i + 2] == s[i + 2] as u8);
            if b[i + 2] == k[2] {
                lemma_same_char(s, i + 2, key, 2);
            }
        }
    }
}

proof fn lemma_same_char(a: Seq<char>, i: int, b: Seq<char>, k: int)
    requires
        is_ascii_chars(a),
        is_ascii_chars(b),
        0 <= i < a.len(),
        0 <= k < b.len(),
        a[i] as u8 == b[k] as u8,
    ensures
        a[i] == b[k],
{
    assert('\0' <= a[i] <= '\u{7f}');
    assert('\0' <= b[k] <= '\u{7f}');
}

/// Parts one behind the other.
pub open spec fn cat<A>(parts: Seq<Seq<A>>) -> Seq<A>
    decreases parts.len(),
{
    if parts.len() == 0 {
        Seq::empty()
    } else {
        cat(parts.drop_last()) + parts.last()
    }
}

pub proof fn lemma_cat_push<A>(parts: Seq<Seq<A>>, part: Seq<A>)
    ensures
        cat(parts.push(part)) == cat(parts) + part,
{
    assert(parts.push(part).drop_last() =~= parts);
}

pub proof fn lemma_cat_concat<A>(a: Seq<Seq<A>>, b: Seq<Seq<A>>)
    ensures
        cat(a + b) == cat(a) + cat(b),
    decreases b.len(),
{
    if b.len() == 0 {
        assert(a + b =~= a);
        assert(cat(a) + cat(b) =~= cat(a));
    } else {
        lemma_cat_concat(a, b.drop_last());
        assert((a + b).drop_last() =~= a + b.drop_last());
        assert(cat(a + b) =~= cat(a) + cat(b));
    }
}

/// The part with an index comes first in what is left from it on.
pub proof fn lemma_cat_first<A>(parts: Seq<Seq<A>>, k: int)
    requires
        0 <= k < parts.len(),
    ensures
        cat(parts.skip(k)) == parts[k] + cat(parts.skip(k + 1)),
        cat(parts) == cat(parts.take(k)) + (parts[k] + cat(parts.skip(k + 1))),
{
    let one = seq![parts[k]];
    lemma_cat_concat(one, parts.skip(k + 1));
    assert(one + parts.skip(k + 1) =~= parts.skip(k));
    assert(one.drop_last() =~= Seq::<Seq<A>>::empty());
    assert(cat(one.drop_last()) =~= Seq::<A>::empty());
    assert(cat(one) =~= parts[k]);
    lemma_cat_concat(parts.take(k), parts.skip(k));
    assert(parts.take(k) + parts.skip(k) =~= parts);
}

pub proof fn lemma_cat_clear<A>(parts: Seq<Seq<A>>, key: Seq<A>)
    requires
        forall|i: int| 0 <= i < parts.len() ==> clear(#[trigger] parts[i], key),
    ensures
        clear(cat(parts), key),
    decreases parts.len(),
{
    if parts.len() == 0 {
        reveal(clear);
    } else {
        let before = parts.drop_last();
        assert forall|i: int| 0 <= i < before.len() implies clear(#[trigger] before[i], key) by {
            assert(before[i] == parts[i]);
        }
        lemma_cat_clear(before, key);
        assert(clear(parts[parts.len() - 1], key));
        lemma_clear(cat(before), parts.last(), key);
    }
}

/// What follows a key is what comes behind its part.
pub proof fn lemma_cat_behind<A>(parts: Seq<Seq<A>>, k: int)
    requires
        0 <= k < parts.len(),
        parts[k].len() >= 3,
        forall|i: int| 0 <= i < k ==> clear(#[trigger] parts[i], parts[k]),
    ensures
        behind(cat(parts), parts[k]) == cat(parts.skip(k + 1)),
        before(cat(parts), parts[k]) == cat(parts.take(k)),
{
    let first = parts.take(k);
    assert forall|i: int| 0 <= i < first.len() implies clear(#[trigger] first[i], parts[k]) by {
        assert(first[i] == parts[i]);
    }
    lemma_cat_clear(first, parts[k]);
    lemma_cat_first(parts, k);
    let rest = cat(parts.skip(k + 1));
    assert(cat(parts) =~= cat(first) + parts[k] + rest);
    lemma_behind(cat(first), parts[k], rest);
}

/// The key of a part is found where the part begins.
pub proof fn lemma_cat_has<A>(parts: Seq<Seq<A>>, k: int)
    requires
        0 <= k < parts.len(),
        parts[k].len() >= 3,
        forall|i: int| 0 <= i < k ==> clear(#[trigger] parts[i], parts[k]),
    ensures
        find(cat(parts), parts[k], 0) == cat(parts.take(k)).len(),
        cat(parts.take(k)).len() < cat(parts).len(),
{
    let first = parts.take(k);
    assert forall|i: int| 0 <= i < first.len() implies clear(#[trigger] first[i], parts[k]) by {
        assert(first[i] == parts[i]);
    }
    lemma_cat_clear(first, parts[k]);
    lemma_cat_first(parts, k);
    let rest = cat(parts.skip(k + 1));
    assert(cat(parts) =~= cat(first) + parts[k] + rest);
    lemma_behind(cat(first), parts[k], rest);
}

/// A key that begins nowhere is not found.
pub proof fn lemma_absent<A>(s: Seq<A>, key: Seq<A>, i: int)
    requires
        key.len() >= 3,
        clear(s, key),
        0 <= i,
    ensures
        find(s, key, i) == s.len(),
    decreases s.len() - i,
{
    reveal(clear);
    if i < s.len() && i + key.len() <= s.len() {
        lemma_absent(s, key, i + 1);
        let here = s.subrange(i, i + key.len());
        if here == key {
            assert(here[0] == s[i] && here[1] == s[i + 1] && here[2] == s[i + 2]);
        }
    }
}

} // verus!

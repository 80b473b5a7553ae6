//! What checksums and line ends come to.

use vstd::prelude::*;

use crate::words::lacks;
use crate::xml;
use crate::zip_store::{checksum, crc_bit, crc_bits, crc_register};

verus! {

/// Eight bits of a checksum.
spec fn eight(crc: u32) -> u32 {
    crc_bit(crc_bit(crc_bit(crc_bit(crc_bit(crc_bit(crc_bit(crc_bit(crc))))))))
}

proof fn lemma_eight(crc: u32)
    ensures
        crc_bits(crc, 8) == eight(crc),
{
    reveal_with_fuel(crc_bits, 9);
}

proof fn lemma_register(b: Seq<u8>, more: Seq<u8>, n: int)
    requires
        n <= b.len(),
    ensures
        crc_register(b + more, n) == crc_register(b, n),
    decreases n,
{
    if n > 0 {
        lemma_register(b, more, n - 1);
        assert((b + more)[n - 1] == b[n - 1]);
    }
}

/// The bytes of a number, the lowest first.
pub open spec fn lowest_first(n: u32) -> Seq<u8> {
    seq![
        (n & 0xff) as u8,
        ((n >> 8) & 0xff) as u8,
        ((n >> 16) & 0xff) as u8,
        ((n >> 24) & 0xff) as u8,
    ]
}

/// The steps from the lowest byte of a register alone.
proof fn lemma_lowest()
    ensures
        eight(0xff) == 0x2d02ef8du32,
        eight(0x72) == 0xbe0b1010u32,
        eight(0x0) == 0x0u32,
        eight(0xed) == 0xdebb9ec5u32,
{
    assert(
        crc_bit(0xffu32) == 0xedb8835fu32
        && crc_bit(0xedb8835fu32) == 0x9b64c28fu32
        && crc_bit(0x9b64c28fu32) == 0xa00ae267u32
        && crc_bit(0xa00ae267u32) == 0xbdbdf213u32
        && crc_bit(0xbdbdf213u32) == 0xb3667a29u32
        && crc_bit(0xb3667a29u32) == 0xb40bbe34u32
        && crc_bit(0xb40bbe34u32) == 0x5a05df1au32
        && crc_bit(0x5a05df1au32) == 0x2d02ef8du32
        && crc_bit(0x72u32) == 0x39u32
        && crc_bit(0x39u32) == 0xedb8833cu32
        && crc_bit(0xedb8833cu32) == 0x76dc419eu32
        && crc_bit(0x76dc419eu32) == 0x3b6e20cfu32
        && crc_bit(0x3b6e20cfu32) == 0xf00f9347u32
        && crc_bit(0xf00f9347u32) == 0x95bf4a83u32
        && crc_bit(0x95bf4a83u32) == 0xa7672661u32
        && crc_bit(0xa7672661u32) == 0xbe0b1010u32
        && crc_bit(0x0u32) == 0x0u32
        && crc_bit(0x0u32) == 0x0u32
        && crc_bit(0x0u32) == 0x0u32
        && crc_bit(0x0u32) == 0x0u32
        && crc_bit(0x0u32) == 0x0u32
        && crc_bit(0x0u32) == 0x0u32
        && crc_bit(0x0u32) == 0x0u32
        && crc_bit(0x0u32) == 0x0u32
        && crc_bit(0xedu32) == 0xedb88356u32
        && crc_bit(0xedb88356u32) == 0x76dc41abu32
        && crc_bit(0x76dc41abu32) == 0xd6d6a3f5u32
        && crc_bit(0xd6d6a3f5u32) == 0x86d3d2dau32
        && crc_bit(0x86d3d2dau32) == 0x4369e96du32
        && crc_bit(0x4369e96du32) == 0xcc0c7796u32
        && crc_bit(0xcc0c7796u32) == 0x66063bcbu32
        && crc_bit(0x66063bcbu32) == 0xdebb9ec5u32
    ) by (bit_vector);
}

/// Eight bits shift the lowest byte out of a register; what it leaves behind
/// does not depend on the others.
proof fn lemma_shifted(a0: u32, t0: u32)
    requires
        a0 & 0xff == t0,
    ensures
        eight(a0) == (a0 >> 8) ^ eight(t0),
{
    let a1 = crc_bit(a0);
    let a2 = crc_bit(a1);
    let a3 = crc_bit(a2);
    let a4 = crc_bit(a3);
    let a5 = crc_bit(a4);
    let a6 = crc_bit(a5);
    let a7 = crc_bit(a6);
    let a8 = crc_bit(a7);
    let t1 = crc_bit(t0);
    let t2 = crc_bit(t1);
    let t3 = crc_bit(t2);
    let t4 = crc_bit(t3);
    let t5 = crc_bit(t4);
    let t6 = crc_bit(t5);
    let t7 = crc_bit(t6);
    let t8 = crc_bit(t7);
    assert(a8 == (a0 >> 8) ^ t8) by (bit_vector)
        requires
            a0 & 0xff == t0,
            a1 == crc_bit(a0),
            a2 == crc_bit(a1),
            a3 == crc_bit(a2),
            a4 == crc_bit(a3),
            a5 == crc_bit(a4),
            a6 == crc_bit(a5),
            a7 == crc_bit(a6),
            a8 == crc_bit(a7),
            t1 == crc_bit(t0),
            t2 == crc_bit(t1),
            t3 == crc_bit(t2),
            t4 == crc_bit(t3),
            t5 == crc_bit(t4),
            t6 == crc_bit(t5),
            t7 == crc_bit(t6),
            t8 == crc_bit(t7),
    ;
}

proof fn lemma_rest(r: u32)
    ensures
        ({
            let c = !r;
            let r1 = eight(r ^ (((c & 0xff) as u8) as u32));
            let r2 = eight(r1 ^ ((((c >> 8) & 0xff) as u8) as u32));
            let r3 = eight(r2 ^ ((((c >> 16) & 0xff) as u8) as u32));
            eight(r3 ^ ((((c >> 24) & 0xff) as u8) as u32)) == 0xdebb20e3u32
        }),
{
    lemma_lowest();
    let c = !r;
    let b0: u32 = ((c & 0xff) as u8) as u32;
    let b1: u32 = (((c >> 8) & 0xff) as u8) as u32;
    let b2: u32 = (((c >> 16) & 0xff) as u8) as u32;
    let b3: u32 = (((c >> 24) & 0xff) as u8) as u32;
    assert(b0 == !r & 0xff && b1 == (!r >> 8) & 0xff && b2 == (!r >> 16) & 0xff && b3 == (!r >> 24)
        & 0xff) by (bit_vector)
        requires
            c == !r,
            b0 == ((c & 0xff) as u8) as u32,
            b1 == (((c >> 8) & 0xff) as u8) as u32,
            b2 == (((c >> 16) & 0xff) as u8) as u32,
            b3 == (((c >> 24) & 0xff) as u8) as u32,
    ;
    let x0 = r ^ b0;
    assert(x0 & 0xff == 0xffu32) by (bit_vector)
        requires
            x0 == r ^ b0,
            b0 == !r & 0xff,
    ;
    lemma_shifted(x0, 0xffu32);
    let r1 = eight(x0);
    let x1 = r1 ^ b1;
    assert(x1 & 0xff == 0x72u32) by (bit_vector)
        requires
            x0 == r ^ b0,
            b0 == !r & 0xff,
            r1 == (x0 >> 8) ^ 0x2d02ef8du32,
            x1 == r1 ^ b1,
            b1 == (!r >> 8) & 0xff,
    ;
    lemma_shifted(x1, 0x72u32);
    let r2 = eight(x1);
    let x2 = r2 ^ b2;
    assert(x2 & 0xff == 0x0u32) by (bit_vector)
        requires
            x0 == r ^ b0,
            b0 == !r & 0xff,
            r1 == (x0 >> 8) ^ 0x2d02ef8du32,
            x1 == r1 ^ b1,
            b1 == (!r >> 8) & 0xff,
            r2 == (x1 >> 8) ^ 0xbe0b1010u32,
            x2 == r2 ^ b2,
            b2 == (!r >> 16) & 0xff,
    ;
    lemma_shifted(x2, 0x0u32);
    let r3 = eight(x2);
    let x3 = r3 ^ b3;
    let r4 = eight(x3);
    assert(x3 & 0xff == 0xedu32 && (x3 >> 8) ^ 0xdebb9ec5u32 == 0xdebb20e3u32) by (bit_vector)
        requires
            x0 == r ^ b0,
            b0 == !r & 0xff,
            r1 == (x0 >> 8) ^ 0x2d02ef8du32,
            x1 == r1 ^ b1,
            b1 == (!r >> 8) & 0xff,
            r2 == (x1 >> 8) ^ 0xbe0b1010u32,
            x2 == r2 ^ b2,
            b2 == (!r >> 16) & 0xff,
            r3 == (x2 >> 8) ^ 0x0u32,
            x3 == r3 ^ b3,
            b3 == (!r >> 24) & 0xff,
    ;
    lemma_shifted(x3, 0xedu32);
}

/// The checksum is that of ZIP packages: data with its checksum behind it, the
/// lowest byte first, leaves the same rest whatever the data is.
pub proof fn law_checksum_leaves_a_fixed_rest(b: Seq<u8>)
    ensures
        crc_register(b + lowest_first(checksum(b)), b.len() as int + 4) == 0xdebb20e3u32,
{
    let r = crc_register(b, b.len() as int);
    let more = lowest_first(!r);
    let all = b + more;
    let n = b.len() as int;
    lemma_register(b, more, n);
    lemma_rest(r);
    assert(all[n] == more[0] && all[n + 1] == more[1] && all[n + 2] == more[2] && all[n + 3]
        == more[3]);
    let r1 = crc_register(all, n + 1);
    let r2 = crc_register(all, n + 2);
    let r3 = crc_register(all, n + 3);
    lemma_eight(r ^ (more[0] as u32));
    lemma_eight(r1 ^ (more[1] as u32));
    lemma_eight(r2 ^ (more[2] as u32));
    lemma_eight(r3 ^ (more[3] as u32));
}

proof fn lemma_line_feeds(before: Seq<char>, line: Seq<char>, rest: Seq<char>)
    requires
        lacks(line, '\r'),
    ensures
        xml::with_line_feeds(before + line + rest, before.len() as int) == line
            + xml::with_line_feeds(before + line + rest, (before.len() + line.len()) as int),
    decreases line.len(),
{
    let s = before + line + rest;
    if line.len() > 0 {
        let head = before.push(line[0]);
        assert(head + line.skip(1) + rest =~= s);
        lemma_line_feeds(head, line.skip(1), rest);
        assert(s[before.len() as int] == line[0]);
        assert(xml::with_line_feeds(s, before.len() as int) =~= line + xml::with_line_feeds(
            s,
            (before.len() + line.len()) as int,
        ));
    } else {
        assert(line + xml::with_line_feeds(s, before.len() as int) =~= xml::with_line_feeds(
            s,
            before.len() as int,
        ));
    }
}

proof fn lemma_shift(a: Seq<char>, b: Seq<char>, i: int)
    requires
        0 <= i <= b.len(),
    ensures
        xml::with_line_feeds(a + b, a.len() + i) == xml::with_line_feeds(b, i),
    decreases b.len() - i,
{
    if i < b.len() {
        assert((a + b)[a.len() + i] == b[i]);
        if b[i] == '\r' && i + 1 < b.len() && b[i + 1] == '\n' {
            assert((a + b)[a.len() + i + 1] == '\n');
            lemma_shift(a, b, i + 2);
        } else {
            if i + 1 < b.len() {
                assert((a + b)[a.len() + i + 1] == b[i + 1]);
            }
            lemma_shift(a, b, i + 1);
        }
    }
}

/// A carriage return is read as a line feed, and so are a carriage return and a
/// line feed behind it; all else is read as it is.
pub proof fn law_line_ends_are_line_feeds(line: Seq<char>, rest: Seq<char>)
    requires
        lacks(line, '\r'),
    ensures
        xml::with_line_feeds(line, 0) == line,
        xml::with_line_feeds(line + seq!['\r', '\n'] + rest, 0) == line + seq!['\n']
            + xml::with_line_feeds(rest, 0),
        rest.len() == 0 || rest[0] != '\n' ==> xml::with_line_feeds(
            line + seq!['\r'] + rest,
            0,
        ) == line + seq!['\n'] + xml::with_line_feeds(rest, 0),
{
    let none = Seq::<char>::empty();
    let n = line.len() as int;
    lemma_line_feeds(none, line, none);
    assert(none + line + none =~= line);
    assert(xml::with_line_feeds(line, n) =~= none);
    let wide = seq!['\r', '\n'] + rest;
    let s = line + seq!['\r', '\n'] + rest;
    lemma_line_feeds(none, line, wide);
    assert(none + line + wide =~= s);
    assert(s[n] == '\r' && s[n + 1] == '\n');
    lemma_shift(line + seq!['\r', '\n'], rest, 0);
    assert(xml::with_line_feeds(s, 0) =~= line + seq!['\n'] + xml::with_line_feeds(rest, 0));
    if rest.len() == 0 || rest[0] != '\n' {
        let t = line + seq!['\r'] + rest;
        lemma_line_feeds(none, line, seq!['\r'] + rest);
        assert(none + line + (seq!['\r'] + rest) =~= t);
        assert(t[n] == '\r');
        if rest.len() > 0 {
            assert(t[n + 1] == rest[0]);
        }
        lemma_shift(line + seq!['\r'], rest, 0);
        assert(xml::with_line_feeds(t, 0) =~= line + seq!['\n'] + xml::with_line_feeds(rest, 0));
    }
}

} // verus!

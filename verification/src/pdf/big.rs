//! Whole numbers of any size.

use vstd::arithmetic::power2::{lemma2_to64, lemma_pow2_adds, pow2};
use vstd::prelude::*;

verus! {

/// What a limb counts to.
pub const BASE: u64 = 0x1_0000_0000;

/// The number that the limbs from `i` on make, the lowest limb first.
pub open spec fn value_from(limbs: Seq<u32>, i: int) -> int
    decreases limbs.len() - i,
{
    if 0 <= i < limbs.len() {
        limbs[i] + BASE * value_from(limbs, i + 1)
    } else {
        0
    }
}

proof fn lemma_not_negative(limbs: Seq<u32>, i: int)
    ensures
        0 <= value_from(limbs, i),
    decreases limbs.len() - i,
{
    if 0 <= i < limbs.len() {
        lemma_not_negative(limbs, i + 1);
    }
}

/// A whole number that is not negative.
#[derive(Debug)]
pub struct Big {
    limbs: Vec<u32>,
}

impl View for Big {
    type V = int;

    closed spec fn view(&self) -> int {
        value_from(self.limbs@, 0)
    }
}

fn limb(limbs: &Vec<u32>, i: usize) -> (r: u32)
    ensures
        r == if i < limbs@.len() {
            limbs@[i as int]
        } else {
            0
        },
{
    if i < limbs.len() {
        limbs[i]
    } else {
        0
    }
}

/// Multiplies the limbs from `i` on and adds `carry` to them.
fn multiply_from(limbs: &mut Vec<u32>, i: usize, factor: u32, carry: u32)
    requires
        i <= old(limbs)@.len(),
    ensures
        value_from(final(limbs)@, i as int) == factor * value_from(old(limbs)@, i as int) + carry,
        final(limbs)@.len() >= old(limbs)@.len(),
        forall|k: int| 0 <= k < i ==> final(limbs)@[k] == old(limbs)@[k],
    decreases old(limbs)@.len() - i,
{
    let ghost before = limbs@;
    if i == limbs.len() {
        if carry > 0 {
            limbs.push(carry);
            assert(value_from(limbs@, i + 1) == 0);
        }
        return;
    }
    assert(before[i as int] * factor <= 0xffff_ffff * 0xffff_ffff) by (nonlinear_arith)
        requires
            before[i as int] <= 0xffff_ffffu32,
            factor <= 0xffff_ffffu32,
    ;
    let product: u64 = limbs[i] as u64 * factor as u64 + carry as u64;
    let low: u32 = (product % BASE) as u32;
    let high: u32 = (product / BASE) as u32;
    limbs.set(i, low);
    let ghost changed = limbs@;
    proof {
        lemma_same_tail(before, changed, i + 1);
    }
    multiply_from(limbs, i + 1, factor, high);
    proof {
        let rest = value_from(before, i + 1);
        assert(limbs@[i as int] == low);
        assert(value_from(limbs@, i as int) == low + BASE * (factor * rest + high));
        assert(low + BASE * (factor * rest + high) == factor * (before[i as int] + BASE * rest)
            + carry) by (nonlinear_arith)
            requires
                low + BASE * high == before[i as int] * factor + carry,
        ;
    }
}

proof fn lemma_same_tail(a: Seq<u32>, b: Seq<u32>, i: int)
    requires
        0 <= i,
        a.len() == b.len(),
        forall|k: int| i <= k < a.len() ==> a[k] == b[k],
    ensures
        value_from(a, i) == value_from(b, i),
    decreases a.len() - i,
{
    if i < a.len() {
        lemma_same_tail(a, b, i + 1);
    }
}

/// Takes the limbs of `other` from `i` on, and `borrow`, away.
fn subtract_from(limbs: &mut Vec<u32>, other: &Vec<u32>, i: usize, borrow: u32)
    requires
        i <= old(limbs)@.len(),
        borrow <= 1,
        value_from(old(limbs)@, i as int) >= value_from(other@, i as int) + borrow,
    ensures
        value_from(final(limbs)@, i as int) == value_from(old(limbs)@, i as int) - value_from(
            other@,
            i as int,
        ) - borrow,
        forall|k: int| 0 <= k < i ==> final(limbs)@[k] == old(limbs)@[k],
        final(limbs)@.len() == old(limbs)@.len(),
    decreases old(limbs)@.len() - i,
{
    let ghost before = limbs@;
    proof {
        lemma_not_negative(other@, i as int);
        lemma_not_negative(other@, i + 1);
        lemma_not_negative(before, i + 1);
    }
    if i == limbs.len() {
        return;
    }
    let subtrahend: u64 = limb(other, i) as u64 + borrow as u64;
    let minuend: u64 = limbs[i] as u64;
    assert(value_from(other@, i as int) + borrow == subtrahend + BASE * value_from(other@, i + 1));
    let (left, next): (u64, u32) = if minuend >= subtrahend {
        (minuend - subtrahend, 0)
    } else {
        (minuend + BASE - subtrahend, 1)
    };
    limbs.set(i, left as u32);
    let ghost changed = limbs@;
    proof {
        lemma_same_tail(before, changed, i + 1);
    }
    subtract_from(limbs, other, i + 1, next);
    assert(limbs@[i as int] == left);
}

/// Adds the limbs of `other` from `i` on, and `carry`.
fn add_from(limbs: &mut Vec<u32>, other: &Vec<u32>, i: usize, carry: u32)
    requires
        i <= old(limbs)@.len(),
        carry <= 1,
    ensures
        value_from(final(limbs)@, i as int) == value_from(old(limbs)@, i as int) + value_from(
            other@,
            i as int,
        ) + carry,
        forall|k: int| 0 <= k < i ==> final(limbs)@[k] == old(limbs)@[k],
        final(limbs)@.len() >= old(limbs)@.len(),
    decreases
            (if old(limbs)@.len() > other@.len() {
                old(limbs)@.len()
            } else {
                other@.len()
            }) - i,
{
    let ghost before = limbs@;
    if i >= limbs.len() && i >= other.len() {
        if carry > 0 {
            limbs.push(carry);
            assert(value_from(limbs@, i + 1) == 0);
        }
        return;
    }
    if i >= limbs.len() {
        limbs.push(0);
        assert(value_from(limbs@, i + 1) == 0);
        assert(value_from(limbs@, i as int) == 0);
    }
    let ghost padded = limbs@;
    let sum: u64 = limbs[i] as u64 + limb(other, i) as u64 + carry as u64;
    let low: u32 = (sum % BASE) as u32;
    let high: u32 = (sum / BASE) as u32;
    limbs.set(i, low);
    let ghost changed = limbs@;
    proof {
        lemma_same_tail(padded, changed, i + 1);
    }
    add_from(limbs, other, i + 1, high);
    proof {
        assert(limbs@[i as int] == low);
        assert(low + BASE * high == sum);
    }
}

impl Big {
    /// A number is not negative.
    pub proof fn lemma_view(self)
        ensures
            0 <= self@,
    {
        lemma_not_negative(self.limbs@, 0);
    }

    pub fn new(n: u64) -> (r: Big)
        ensures
            r@ == n,
    {
        let mut limbs: Vec<u32> = Vec::new();
        limbs.push((n % BASE) as u32);
        limbs.push((n / BASE) as u32);
        reveal_with_fuel(value_from, 3);
        Big { limbs }
    }

    pub fn copied(&self) -> (r: Big)
        ensures
            r@ == self@,
    {
        let mut limbs: Vec<u32> = Vec::new();
        let mut i: usize = 0;
        while i < self.limbs.len()
            invariant
                i <= self.limbs@.len(),
                limbs@ == self.limbs@.take(i as int),
            decreases self.limbs@.len() - i,
        {
            limbs.push(self.limbs[i]);
            i += 1;
            assert(limbs@ =~= self.limbs@.take(i as int));
        }
        assert(limbs@ =~= self.limbs@);
        Big { limbs }
    }

    pub fn multiply_add(&mut self, factor: u32, more: u32)
        ensures
            final(self)@ == factor * old(self)@ + more,
    {
        multiply_from(&mut self.limbs, 0, factor, more);
    }

    /// Multiplies by two `times` times.
    pub fn double(&mut self, times: u32)
        ensures
            final(self)@ == old(self)@ * pow2(times as nat),
    {
        let ghost before = self@;
        let mut i: u32 = 0;
        proof {
            lemma2_to64();
        }
        while i < times
            invariant
                i <= times,
                pow2(16) == 0x1_0000,
                pow2(1) == 2,
                self@ == before * pow2(i as nat),
            decreases times - i,
        {
            let ghost now = self@;
            let step: u32 = if times - i >= 16 {
                16
            } else {
                1
            };
            let factor: u32 = if times - i >= 16 {
                0x1_0000
            } else {
                2
            };
            self.multiply_add(factor, 0);
            proof {
                lemma_pow2_adds(i as nat, step as nat);
                assert(factor * now + 0 == before * (pow2(i as nat) * factor)) by (nonlinear_arith)
                    requires
                        now == before * pow2(i as nat),
                ;
            }
            i += step;
        }
    }

    pub fn subtract(&mut self, other: &Big)
        requires
            old(self)@ >= other@,
        ensures
            final(self)@ == old(self)@ - other@,
    {
        subtract_from(&mut self.limbs, &other.limbs, 0, 0);
    }

    pub fn add_number(&mut self, other: &Big)
        ensures
            final(self)@ == old(self)@ + other@,
    {
        add_from(&mut self.limbs, &other.limbs, 0, 0);
    }

    pub fn is_below(&self, other: &Big) -> (r: bool)
        ensures
            r == (self@ < other@),
    {
        let mut below: bool = false;
        let mut i: usize = 0;
        while i < self.limbs.len() || i < other.limbs.len()
            invariant
                (self@ < other@) == (value_from(self.limbs@, i as int) < value_from(
                    other.limbs@,
                    i as int,
                ) || value_from(self.limbs@, i as int) == value_from(other.limbs@, i as int)
                    && below),
            decreases self.limbs@.len() + other.limbs@.len() - i,
        {
            let a: u32 = limb(&self.limbs, i);
            let b: u32 = limb(&other.limbs, i);
            assert(value_from(self.limbs@, i as int) == a + BASE * value_from(
                self.limbs@,
                i + 1,
            ));
            assert(value_from(other.limbs@, i as int) == b + BASE * value_from(
                other.limbs@,
                i + 1,
            ));
            below = a < b || a == b && below;
            i += 1;
        }
        below
    }
}

} // verus!

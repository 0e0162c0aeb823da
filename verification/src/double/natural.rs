//! Natural numbers of any size, in limbs of 32 bits, the lowest first.

use super::rounding;
use vstd::arithmetic::power2::*;
use vstd::prelude::*;

verus! {

/// The number of values of a limb.
pub const LIMB: u64 = 0x1_0000_0000;

/// The number that limbs stand for.
pub open spec fn limbs_value(limbs: Seq<u32>) -> nat
    decreases limbs.len(),
{
    if limbs.len() == 0 {
        0
    } else {
        limbs[0] as nat + LIMB as nat * limbs_value(limbs.drop_first())
    }
}

/// How two numbers lie to each other.
#[derive(Clone, Copy, Debug, PartialEq, Eq, Structural)]
pub enum Relation {
    Less,
    Same,
    More,
}

/// A natural number.
#[derive(Debug)]
pub struct Natural {
    pub limbs: Vec<u32>,
}

/// The weight of the limb at `k`.
spec fn weight(k: nat) -> nat
    decreases k,
{
    if k == 0 {
        1
    } else {
        LIMB as nat * weight((k - 1) as nat)
    }
}

proof fn lemma_value_push(limbs: Seq<u32>, limb: u32)
    ensures
        limbs_value(limbs.push(limb)) == limbs_value(limbs) + weight(limbs.len()) * limb,
    decreases limbs.len(),
{
    if limbs.len() == 0 {
        assert(limbs.push(limb).drop_first() == Seq::<u32>::empty());
        assert(limbs_value(Seq::<u32>::empty()) == 0);
        assert(weight(0) * limb == limb) by (nonlinear_arith)
            requires
                weight(0) == 1,
        ;
    } else {
        assert(limbs.push(limb).drop_first() == limbs.drop_first().push(limb));
        assert(limbs.push(limb)[0] == limbs[0]);
        lemma_value_push(limbs.drop_first(), limb);
        let w = weight((limbs.len() - 1) as nat) as int;
        let rest = limbs_value(limbs.drop_first()) as int;
        assert(LIMB * (rest + w * limb) == LIMB * rest + (LIMB * w) * limb) by (nonlinear_arith);
    }
}

impl View for Natural {
    type V = nat;

    open spec fn view(&self) -> nat {
        limbs_value(self.limbs@)
    }
}

impl Natural {
    pub fn zero() -> (result: Natural)
        ensures
            result@ == 0,
    {
        Natural { limbs: Vec::new() }
    }

    pub fn one() -> (result: Natural)
        ensures
            result@ == 1,
    {
        let mut limbs: Vec<u32> = Vec::new();
        limbs.push(1);
        proof {
            assert(limbs@.drop_first() == Seq::<u32>::empty());
            assert(limbs_value(Seq::<u32>::empty()) == 0);
        }
        Natural { limbs }
    }

    /// `self * factor + addend`.
    pub fn times_plus(&self, factor: u64, addend: u32) -> (result: Natural)
        ensures
            result@ == self@ * factor + addend,
    {
        let mut limbs: Vec<u32> = Vec::new();
        let mut carry: u128 = addend as u128;
        let mut i: usize = 0;
        proof {
            assert(self.limbs@.skip(0) == self.limbs@);
            assert(weight(0) * (carry + factor * limbs_value(self.limbs@)) == carry + factor
                * limbs_value(self.limbs@)) by (nonlinear_arith)
                requires
                    weight(0) == 1,
            ;
        }
        while i < self.limbs.len()
            invariant
                i <= self.limbs.len(),
                limbs@.len() == i,
                carry <= 0xffff_ffff_ffff_ffff,
                limbs_value(limbs@) + weight(i as nat) * (carry + factor * limbs_value(
                    self.limbs@.skip(i as int),
                )) == factor * self@ + addend,
            decreases self.limbs.len() - i,
        {
            let limb: u32 = self.limbs[i];
            proof {
                assert(0 <= (limb as int) * factor <= 0xffff_ffff * 0xffff_ffff_ffff_ffff)
                    by (nonlinear_arith)
                    requires
                        0 <= limb <= 0xffff_ffff,
                        0 <= factor <= 0xffff_ffff_ffff_ffff,
                ;
            }
            let t: u128 = (limb as u128) * (factor as u128) + carry;
            let low: u32 = (t % 0x1_0000_0000) as u32;
            let high: u128 = t / 0x1_0000_0000;
            proof {
                let w = weight(i as nat) as int;
                let rest = limbs_value(self.limbs@.skip(i + 1)) as int;
                assert(self.limbs@.skip(i as int).drop_first() == self.limbs@.skip(i + 1));
                lemma_value_push(limbs@, low);
                assert(w * (carry + factor * (limb + LIMB * rest)) == w * low + (LIMB * w) * (high
                    + factor * rest)) by (nonlinear_arith)
                    requires
                        limb * factor + carry == low + LIMB * high,
                ;
            }
            limbs.push(low);
            carry = high;
            i = i + 1;
        }
        let low: u32 = (carry % 0x1_0000_0000) as u32;
        let high: u32 = (carry / 0x1_0000_0000) as u32;
        proof {
            assert(self.limbs@.skip(i as int) == Seq::<u32>::empty());
            assert(limbs_value(self.limbs@.skip(i as int)) == 0);
            let w = weight(i as nat) as int;
            lemma_value_push(limbs@, low);
            lemma_value_push(limbs@.push(low), high);
            assert(w * (carry + factor * 0) == w * low + (LIMB * w) * high) by (nonlinear_arith)
                requires
                    carry == low + LIMB * high,
            ;
            assert(self@ * factor == factor * self@) by (nonlinear_arith);
        }
        limbs.push(low);
        limbs.push(high);
        Natural { limbs }
    }

    /// `self * 2^k`.
    pub fn shifted(&self, k: u32) -> (result: Natural)
        ensures
            result@ == self@ * pow2(k as nat),
    {
        let mut left: u32 = k;
        let mut result: Natural = self.times_plus(1, 0);
        proof {
            lemma2_to64();
        }
        let ghost mut done: nat = 0;
        proof {
            assert(self@ * pow2(0) == self@) by (nonlinear_arith)
                requires
                    pow2(0) == 1,
            ;
        }
        while left >= 32
            invariant
                done + left == k,
                result@ == self@ * pow2(done),
            decreases left,
        {
            proof {
                lemma2_to64();
                lemma_pow2_adds(done, 32);
                let p = pow2(done) as int;
                assert((self@ * p) * 0x1_0000_0000 == self@ * (p * 0x1_0000_0000))
                    by (nonlinear_arith);
                done = done + 32;
            }
            result = result.times_plus(0x1_0000_0000, 0);
            left = left - 32;
        }
        let last: u128 = rounding::power_of_two(left);
        proof {
            lemma2_to64();
            lemma_pow2_strictly_increases(left as nat, 32);
            lemma_pow2_adds(done, left as nat);
            let p = pow2(done) as int;
            assert((self@ * p) * last == self@ * (p * last)) by (nonlinear_arith);
        }
        result.times_plus(last as u64, 0)
    }

    fn limb(&self, k: usize) -> (limb: u32)
        ensures
            limb == if k < self.limbs@.len() {
                self.limbs@[k as int]
            } else {
                0
            },
    {
        if k < self.limbs.len() {
            self.limbs[k]
        } else {
            0
        }
    }

    /// How `self` lies to `other`.
    pub fn relation(&self, other: &Natural) -> (relation: Relation)
        ensures
            match relation {
                Relation::Less => self@ < other@,
                Relation::Same => self@ == other@,
                Relation::More => self@ > other@,
            },
    {
        let length: usize = if self.limbs.len() > other.limbs.len() {
            self.limbs.len()
        } else {
            other.limbs.len()
        };
        let ghost a = filled(self.limbs@, length as nat);
        let ghost b = filled(other.limbs@, length as nat);
        proof {
            lemma_filled(self.limbs@, length as nat);
            lemma_filled(other.limbs@, length as nat);
        }
        let mut i: usize = length;
        assert(a.skip(i as int) == b.skip(i as int));
        while i > 0
            invariant
                i <= length,
                a == filled(self.limbs@, length as nat),
                b == filled(other.limbs@, length as nat),
                limbs_value(a) == self@,
                limbs_value(b) == other@,
                a.skip(i as int) == b.skip(i as int),
            decreases i,
        {
            i = i - 1;
            let x: u32 = self.limb(i);
            let y: u32 = other.limb(i);
            assert(a[i as int] == x && b[i as int] == y);
            if x < y {
                proof {
                    lemma_higher_decides(a, b, i as int);
                }
                return Relation::Less;
            }
            if y < x {
                proof {
                    lemma_higher_decides(b, a, i as int);
                }
                return Relation::More;
            }
            proof {
                assert forall|j: int| 0 <= j < a.skip(i as int).len() implies #[trigger] a.skip(
                    i as int,
                )[j] == b.skip(i as int)[j] by {
                    if j > 0 {
                        assert(a.skip(i + 1)[j - 1] == b.skip(i + 1)[j - 1]);
                    }
                }
                assert(a.skip(i as int) == b.skip(i as int));
            }
        }
        assert(a.skip(0) == a && b.skip(0) == b);
        Relation::Same
    }
}

/// Limbs filled with zeros up to a length.
spec fn filled(limbs: Seq<u32>, length: nat) -> Seq<u32> {
    Seq::new(
        length,
        |i: int|
            if i < limbs.len() {
                limbs[i]
            } else {
                0u32
            },
    )
}

proof fn lemma_filled(limbs: Seq<u32>, length: nat)
    requires
        limbs.len() <= length,
    ensures
        limbs_value(filled(limbs, length)) == limbs_value(limbs),
    decreases length,
{
    if length > limbs.len() {
        let shorter = filled(limbs, (length - 1) as nat);
        lemma_filled(limbs, (length - 1) as nat);
        assert(filled(limbs, length) == shorter.push(0));
        lemma_value_push(shorter, 0);
        assert(weight(shorter.len()) * 0 == 0);
    } else {
        assert(filled(limbs, length) == limbs);
    }
}

/// Where all limbs above `i` agree, the limb at `i` decides.
proof fn lemma_higher_decides(a: Seq<u32>, b: Seq<u32>, i: int)
    requires
        a.len() == b.len(),
        0 <= i < a.len(),
        a[i] < b[i],
        a.skip(i + 1) == b.skip(i + 1),
    ensures
        limbs_value(a) < limbs_value(b),
    decreases i,
{
    if i == 0 {
        assert(a.drop_first() == a.skip(1));
        assert(b.drop_first() == b.skip(1));
    } else {
        assert(a.drop_first().skip(i) == a.skip(i + 1));
        assert(b.drop_first().skip(i) == b.skip(i + 1));
        lemma_higher_decides(a.drop_first(), b.drop_first(), i - 1);
    }
}

} // verus!

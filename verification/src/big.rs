//! Natural numbers of any size, for sums of fractions that outgrow every
//! machine integer.
use crate::num::round_even;
use vstd::prelude::*;

verus! {

/// What a limb counts up to.
pub open spec fn limb_base() -> nat {
    0x1_0000_0000_0000_0000
}

/// What one in the limb at `n` stands for.
pub open spec fn weight(n: nat) -> nat
    decreases n,
{
    if n == 0 {
        1
    } else {
        limb_base() * weight((n - 1) as nat)
    }
}

/// The limb at `n`; zero behind the last.
pub open spec fn limb_at(s: Seq<u64>, n: int) -> u64 {
    if 0 <= n < s.len() {
        s[n]
    } else {
        0
    }
}

/// The number that the lowest `n` limbs stand for.
pub open spec fn low_part(s: Seq<u64>, n: nat) -> nat
    decreases n,
{
    if n == 0 {
        0
    } else {
        low_part(s, (n - 1) as nat) + limb_at(s, n - 1) as nat * weight((n - 1) as nat)
    }
}

/// A natural number, the lowest limb first.
pub struct Big {
    limbs: Vec<u64>,
}

impl View for Big {
    type V = nat;

    closed spec fn view(&self) -> nat {
        low_part(self.limbs@, self.limbs@.len())
    }
}

proof fn lemma_weight_pos(n: nat)
    ensures
        weight(n) > 0,
    decreases n,
{
    if n > 0 {
        lemma_weight_pos((n - 1) as nat);
    }
}

/// Limbs behind the last add nothing.
proof fn lemma_above(s: Seq<u64>, n: nat)
    requires
        n >= s.len(),
    ensures
        low_part(s, n) == low_part(s, s.len()),
    decreases n,
{
    if n > s.len() {
        lemma_above(s, (n - 1) as nat);
        assert(0 * weight((n - 1) as nat) == 0);
    }
}

/// The low part speaks of the lowest limbs only.
proof fn lemma_push(s: Seq<u64>, x: u64, n: nat)
    requires
        n <= s.len(),
    ensures
        low_part(s.push(x), n) == low_part(s, n),
    decreases n,
{
    if n > 0 {
        lemma_push(s, x, (n - 1) as nat);
    }
}

proof fn lemma_below(s: Seq<u64>, n: nat)
    ensures
        low_part(s, n) < weight(n),
    decreases n,
{
    if n > 0 {
        let w = weight((n - 1) as nat);
        let l = limb_at(s, n - 1) as nat;
        lemma_below(s, (n - 1) as nat);
        assert(l * w + w <= limb_base() * w) by (nonlinear_arith)
            requires
                l < limb_base(),
        ;
    }
}

/// One more limb of a product, or of a sum.
proof fn lemma_carried(done: nat, low: nat, high: nat, carry: nat, more: nat, w: nat)
    by (nonlinear_arith)
    requires
        low + high * limb_base() == more + carry,
    ensures
        done + low * w + high * (limb_base() * w) == done + carry * w + more * w,
{
}

fn limb(s: &Vec<u64>, i: usize) -> (r: u64)
    ensures
        r == limb_at(s@, i as int),
{
    if i < s.len() {
        s[i]
    } else {
        0
    }
}

impl Big {
    pub fn of(n: u64) -> (r: Big)
        ensures
            r@ == n,
    {
        let limbs: Vec<u64> = vec![n];
        proof {
            reveal_with_fuel(low_part, 2);
            assert(weight(0) == 1);
            assert(n as nat * 1 == n as nat);
        }
        Big { limbs }
    }

    /// The number, `f` times.
    pub fn times(&self, f: u64) -> (r: Big)
        ensures
            r@ == self@ * f as nat,
    {
        let ghost s = self.limbs@;
        let mut out: Vec<u64> = Vec::new();
        let mut carry: u64 = 0;
        let mut i: usize = 0;
        assert(0 * weight(0) == 0 && 0 * f as nat == 0);
        while i < self.limbs.len()
            invariant
                i <= self.limbs.len(),
                s == self.limbs@,
                out@.len() == i,
                low_part(out@, i as nat) + carry as nat * weight(i as nat) == low_part(s, i as nat)
                    * f as nat,
            decreases self.limbs.len() - i,
        {
            let l = self.limbs[i];
            assert(l * f + carry <= 0xffff_ffff_ffff_ffff * 0xffff_ffff_ffff_ffff
                + 0xffff_ffff_ffff_ffff) by (nonlinear_arith);
            let t: u128 = l as u128 * f as u128 + carry as u128;
            let low: u64 = (t % 0x1_0000_0000_0000_0000) as u64;
            let high: u64 = (t / 0x1_0000_0000_0000_0000) as u64;
            let ghost before = out@;
            out.push(low);
            proof {
                let w = weight(i as nat);
                let p = low_part(s, i as nat);
                lemma_push(before, low, i as nat);
                lemma_carried(
                    low_part(before, i as nat),
                    low as nat,
                    high as nat,
                    carry as nat,
                    l as nat * f as nat,
                    w,
                );
                assert((p + l as nat * w) * f as nat == p * f as nat + (l as nat * f as nat) * w)
                    by (nonlinear_arith);
            }
            carry = high;
            i += 1;
        }
        let ghost before = out@;
        out.push(carry);
        proof {
            lemma_push(before, carry, i as nat);
        }
        Big { limbs: out }
    }

    /// The sum of two numbers.
    pub fn plus(&self, other: &Big) -> (r: Big)
        ensures
            r@ == self@ + other@,
    {
        let ghost s = self.limbs@;
        let ghost o = other.limbs@;
        let n = if self.limbs.len() < other.limbs.len() {
            other.limbs.len()
        } else {
            self.limbs.len()
        };
        let mut out: Vec<u64> = Vec::new();
        let mut carry: u64 = 0;
        let mut i: usize = 0;
        assert(0 * weight(0) == 0);
        while i < n
            invariant
                i <= n,
                s == self.limbs@,
                o == other.limbs@,
                out@.len() == i,
                carry <= 1,
                low_part(out@, i as nat) + carry as nat * weight(i as nat) == low_part(s, i as nat)
                    + low_part(o, i as nat),
            decreases n - i,
        {
            let a = limb(&self.limbs, i);
            let b = limb(&other.limbs, i);
            let t: u128 = a as u128 + b as u128 + carry as u128;
            let low: u64 = (t % 0x1_0000_0000_0000_0000) as u64;
            let high: u64 = (t / 0x1_0000_0000_0000_0000) as u64;
            let ghost before = out@;
            out.push(low);
            proof {
                let w = weight(i as nat);
                lemma_push(before, low, i as nat);
                lemma_carried(
                    low_part(before, i as nat),
                    low as nat,
                    high as nat,
                    carry as nat,
                    a as nat + b as nat,
                    w,
                );
                assert((a as nat + b as nat) * w == a as nat * w + b as nat * w)
                    by (nonlinear_arith);
            }
            carry = high;
            i += 1;
        }
        let ghost before = out@;
        out.push(carry);
        proof {
            lemma_push(before, carry, i as nat);
            lemma_above(s, n as nat);
            lemma_above(o, n as nat);
        }
        Big { limbs: out }
    }

    /// Whether the number is no larger than the other.
    pub fn at_most(&self, other: &Big) -> (r: bool)
        ensures
            r == (self@ <= other@),
    {
        let ghost s = self.limbs@;
        let ghost o = other.limbs@;
        let n = if self.limbs.len() < other.limbs.len() {
            other.limbs.len()
        } else {
            self.limbs.len()
        };
        let mut holds = true;
        let mut i: usize = 0;
        while i < n
            invariant
                i <= n,
                s == self.limbs@,
                o == other.limbs@,
                holds == (low_part(s, i as nat) <= low_part(o, i as nat)),
            decreases n - i,
        {
            let a = limb(&self.limbs, i);
            let b = limb(&other.limbs, i);
            proof {
                let w = weight(i as nat);
                lemma_below(s, i as nat);
                lemma_below(o, i as nat);
                if a < b {
                    assert(a as nat * w + w <= b as nat * w) by (nonlinear_arith)
                        requires
                            a < b,
                    ;
                } else if b < a {
                    assert(b as nat * w + w <= a as nat * w) by (nonlinear_arith)
                        requires
                            b < a,
                    ;
                }
            }
            if a != b {
                holds = a < b;
            }
            i += 1;
        }
        proof {
            lemma_above(s, n as nat);
            lemma_above(o, n as nat);
        }
        holds
    }
}

/// The largest quotient that is asked for.
pub open spec fn quotient_limit() -> nat {
    0x100_0000_0000_0000_0000_0000_0000_0000
}

/// How often `d` fits between `from` and `to`, and where that leads.
fn steps(from: Big, to: &Big, d: &Big) -> (r: (u128, Big))
    requires
        d@ > 0,
        from@ <= to@,
        to@ - from@ < d@ * quotient_limit(),
    ensures
        r.1@ == from@ + r.0 as nat * d@,
        r.1@ <= to@ < r.1@ + d@,
        r.0 < quotient_limit(),
    decreases
            if from@ + d@ <= to@ {
                to@ - from@ - d@ + 1
            } else {
                0
            },
{
    if !from.plus(d).at_most(to) {
        assert(0 * d@ == 0);
        return (0, from);
    }
    let twice = d.times(2);
    let ghost start = from@;
    assert(d@ * quotient_limit() <= (d@ * 2) * quotient_limit()) by (nonlinear_arith);
    let (q, at) = steps(from, to, &twice);
    let next = at.plus(d);
    assert(q as nat * (d@ * 2) == (2 * q) as nat * d@) by (nonlinear_arith);
    assert(((2 * q) + 1) as nat * d@ == (2 * q) as nat * d@ + d@) by (nonlinear_arith);
    assert(2 * q < quotient_limit()) by (nonlinear_arith)
        requires
            (2 * q) as nat * d@ < d@ * quotient_limit(),
    ;
    if next.at_most(to) {
        assert(2 * q + 1 < quotient_limit()) by (nonlinear_arith)
            requires
                ((2 * q) + 1) as nat * d@ < d@ * quotient_limit(),
        ;
        (2 * q + 1, next)
    } else {
        (2 * q, at)
    }
}

/// `(to - from) / d`, to the nearest integer; the even one of two that are as
/// near.
pub fn rounded_between(from: Big, to: &Big, d: &Big) -> (r: u128)
    requires
        d@ > 0,
        from@ <= to@,
        to@ - from@ < d@ * quotient_limit(),
    ensures
        r as nat == round_even((to@ - from@) as nat, d@),
{
    let ghost num = (to@ - from@) as nat;
    let (q, at) = steps(from, to, d);
    let ghost rest = (to@ - at@) as nat;
    proof {
        vstd::arithmetic::div_mod::lemma_fundamental_div_mod_converse(
            num as int,
            d@ as int,
            q as int,
            rest as int,
        );
    }
    let middle = at.times(2).plus(d);
    let double = to.times(2);
    if !middle.at_most(&double) {
        q
    } else if double.at_most(&middle) && q % 2 == 0 {
        q
    } else {
        q + 1
    }
}

} // verus!

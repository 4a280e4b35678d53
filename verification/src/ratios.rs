//! The mean of ratios, exact: each ratio is a fraction, and so is their sum.
use crate::big::{quotient_limit, rounded_between, Big};
use crate::num::{push_dec, signed0};
use vstd::prelude::*;
use vstd::string::*;

verus! {

/// The sum of the ratios of what came after to what was before, as a
/// fraction: its numerator and its denominator.
pub open spec fn ratio_sum(v: Seq<(i128, i128)>) -> (int, int)
    decreases v.len(),
{
    if v.len() == 0 {
        (0, 1)
    } else {
        let (n, d) = ratio_sum(v.drop_last());
        let (before, after) = v.last();
        (n * before + after * d, d * before)
    }
}

/// Nothing was zero or less before, so that every ratio is a number of the
/// sign of what came after.
pub open spec fn all_based(v: Seq<(i128, i128)>) -> bool {
    forall|i: int| 0 <= i < v.len() ==> (#[trigger] v[i]).0 > 0
}

/// No number is larger than what is measured can be.
pub open spec fn all_bounded(v: Seq<(i128, i128)>) -> bool {
    forall|i: int|
        0 <= i < v.len() ==> (#[trigger] v[i]).0 <= u64::MAX && -(u64::MAX as int) <= v[i].1
            <= u64::MAX
}

/// The mean change in percent, without decimals and with its sign.
pub open spec fn mean_percent(v: Seq<(i128, i128)>) -> Seq<char> {
    let (n, d) = ratio_sum(v);
    signed0(n * 100 - d * v.len() * 100, (d * v.len()) as nat)
}

/// On average no more than so many percent are left.
pub open spec fn mean_within(v: Seq<(i128, i128)>, percent: nat) -> bool {
    let (n, d) = ratio_sum(v);
    n * 100 <= d * v.len() * percent
}

/// The magnitude of a number of one sign; zero of the other.
pub open spec fn part(a: i128, negative: bool) -> nat {
    if negative && a < 0 {
        (-a) as nat
    } else if !negative && a > 0 {
        a as nat
    } else {
        0
    }
}

/// The sum over the numbers of one sign.
pub open spec fn part_sum(v: Seq<(i128, i128)>, negative: bool) -> (nat, nat)
    decreases v.len(),
{
    if v.len() == 0 {
        (0, 1)
    } else {
        let (n, d) = part_sum(v.drop_last(), negative);
        let (before, after) = v.last();
        (n * before as nat + part(after, negative) * d, d * before as nat)
    }
}

proof fn lemma_shorter(v: Seq<(i128, i128)>)
    requires
        v.len() > 0,
        all_based(v),
        all_bounded(v),
    ensures
        all_based(v.drop_last()),
        all_bounded(v.drop_last()),
        v.last().0 > 0,
        v.last().0 <= u64::MAX,
        -(u64::MAX as int) <= v.last().1 <= u64::MAX,
{
    let w = v.drop_last();
    assert(v[v.len() - 1] == v.last());
    assert forall|i: int| 0 <= i < w.len() implies (#[trigger] w[i]).0 > 0 && w[i].0 <= u64::MAX
        && -(u64::MAX as int) <= w[i].1 <= u64::MAX by {
        assert(w[i] == v[i]);
    }
}

/// The two parts make up the whole.
proof fn lemma_parts(v: Seq<(i128, i128)>)
    requires
        all_based(v),
        all_bounded(v),
    ensures
        ratio_sum(v).0 == part_sum(v, false).0 - part_sum(v, true).0,
        ratio_sum(v).1 == part_sum(v, false).1,
        ratio_sum(v).1 == part_sum(v, true).1,
    decreases v.len(),
{
    if v.len() > 0 {
        lemma_shorter(v);
        let w = v.drop_last();
        lemma_parts(w);
        let (b, a) = (v.last().0 as int, v.last().1);
        let (n, d) = ratio_sum(w);
        let (p, q) = (part_sum(w, false).0, part_sum(w, true).0);
        let (x, y) = (part(a, false), part(a, true));
        assert(n * b + a * d == (p * b + x * d) - (q * b + y * d)) by (nonlinear_arith)
            requires
                n == p - q,
                a == x - y,
        ;
    }
}

/// A part is bounded by what the numbers can be.
proof fn lemma_bounded(v: Seq<(i128, i128)>, negative: bool)
    requires
        all_based(v),
        all_bounded(v),
    ensures
        part_sum(v, negative).1 > 0,
        part_sum(v, negative).0 <= part_sum(v, negative).1 * v.len() * u64::MAX,
    decreases v.len(),
{
    if v.len() > 0 {
        lemma_shorter(v);
        let w = v.drop_last();
        lemma_bounded(w, negative);
        let (n, d) = part_sum(w, negative);
        let b = v.last().0 as nat;
        let a = part(v.last().1, negative);
        let k = w.len();
        assert(d * b > 0 && n * b + a * d <= d * b * (k + 1) * u64::MAX) by (nonlinear_arith)
            requires
                d > 0,
                b > 0,
                a <= u64::MAX,
                n <= d * k * u64::MAX,
        {
            assert(n * b <= (d * k * u64::MAX) * b);
            assert(a * d <= u64::MAX * d);
            assert(u64::MAX * d <= u64::MAX * (d * b));
        }
    } else {
        assert(1 * 0 * u64::MAX == 0);
    }
}

/// The numerator and the denominator of one part.
fn add_parts(v: &[(i128, i128)], negative: bool) -> (r: (Big, Big))
    requires
        all_based(v@),
        all_bounded(v@),
    ensures
        (r.0@, r.1@) == part_sum(v@, negative),
{
    let mut n = Big::of(0);
    let mut d = Big::of(1);
    let mut i: usize = 0;
    assert(v@.take(0).len() == 0);
    while i < v.len()
        invariant
            i <= v.len(),
            all_based(v@),
            all_bounded(v@),
            (n@, d@) == part_sum(v@.take(i as int), negative),
        decreases v.len() - i,
    {
        assert(v@.take(i + 1).drop_last() =~= v@.take(i as int));
        let (before, after) = v[i];
        assert(v@[i as int].0 > 0);
        let share: u64 = if negative && after < 0 {
            (-after) as u64
        } else if !negative && after > 0 {
            after as u64
        } else {
            0
        };
        assert(share as nat == part(after, negative));
        assert(share as nat * d@ == d@ * share as nat) by (nonlinear_arith);
        n = n.times(before as u64).plus(&d.times(share));
        d = d.times(before as u64);
        i += 1;
    }
    assert(v@.take(i as int) =~= v@);
    (n, d)
}

/// `mean_percent`.
pub fn mean_percent_text(v: &[(i128, i128)]) -> (r: String)
    requires
        v@.len() > 0,
        all_based(v@),
        all_bounded(v@),
    ensures
        r@ == mean_percent(v@),
{
    let (up, d) = add_parts(v, false);
    let (down, _) = add_parts(v, true);
    let whole = d.times(v.len() as u64);
    let ratio = up.times(100);
    let same = whole.plus(&down).times(100);
    proof {
        lemma_parts(v@);
        lemma_bounded(v@, false);
        lemma_bounded(v@, true);
        let k = v@.len();
        let w = d@ * k;
        assert(w > 0 && up@ * 100 < w * quotient_limit() && (w + down@) * 100 < w
            * quotient_limit()) by (nonlinear_arith)
            requires
                w == d@ * k,
                d@ > 0,
                k > 0,
                up@ <= d@ * k * u64::MAX,
                down@ <= d@ * k * u64::MAX,
        {
            assert(w > 0);
            assert(up@ * 100 <= w * (u64::MAX * 100));
            assert((w + down@) * 100 <= w * (u64::MAX * 100 + 100));
            assert(w * (u64::MAX * 100 + 100) < w * quotient_limit());
        }
    }
    let mut t = String::new();
    if same.at_most(&ratio) {
        t.append("+");
        push_dec(&mut t, rounded_between(same, &ratio, &whole));
    } else {
        t.append("-");
        push_dec(&mut t, rounded_between(ratio, &same, &whole));
    }
    assert(t@ =~= mean_percent(v@));
    t
}

/// `mean_within`.
pub fn is_mean_within(v: &[(i128, i128)], percent: u64) -> (r: bool)
    requires
        all_based(v@),
        all_bounded(v@),
    ensures
        r == mean_within(v@, percent as nat),
{
    let (up, d) = add_parts(v, false);
    let (down, _) = add_parts(v, true);
    proof {
        lemma_parts(v@);
    }
    up.times(100).at_most(&d.times(v.len() as u64).times(percent).plus(&down.times(100)))
}

/// One more ratio adds itself to the sum of the others.
pub proof fn one_more_ratio_adds_itself(v: Seq<(i128, i128)>, before: i128, after: i128)
    requires
        all_based(v),
        before > 0,
    ensures
        ratio_sum(Seq::empty()) == (0int, 1int),
        ratio_sum(v).1 > 0,
        ({
            let (n, d) = ratio_sum(v);
            let (m, e) = ratio_sum(v.push((before, after)));
            // m / e == n / d + after / before
            m * (d * before) == e * (n * before + after * d)
        }),
{
    lemma_sum_is_based(v);
    let w = v.push((before, after));
    assert(w.drop_last() =~= v);
    let (n, d) = ratio_sum(v);
    assert((n * before + after * d) * (d * before) == (d * before) * (n * before + after * d))
        by (nonlinear_arith);
}

proof fn lemma_sum_is_based(v: Seq<(i128, i128)>)
    requires
        all_based(v),
    ensures
        ratio_sum(v).1 > 0,
    decreases v.len(),
{
    if v.len() > 0 {
        let s = v.drop_last();
        assert forall|i: int| 0 <= i < s.len() implies (#[trigger] s[i]).0 > 0 by {
            assert(s[i] == v[i]);
        }
        lemma_sum_is_based(s);
        let d = ratio_sum(s).1;
        let b = v.last().0;
        assert(v[v.len() - 1].0 > 0);
        assert(d * b > 0) by (nonlinear_arith)
            requires
                d > 0,
                b > 0,
        ;
    }
}

/// With one ratio, the mean is that ratio.
pub proof fn one_ratio_is_its_own_mean(before: i128, after: i128, percent: nat)
    requires
        before > 0,
    ensures
        mean_within(seq![(before, after)], percent) <==> after * 100 <= before * percent,
        mean_percent(seq![(before, after)]) == signed0((after - before) * 100, before as nat),
{
    let v = seq![(before, after)];
    reveal_with_fuel(ratio_sum, 2);
    assert(v.drop_last() =~= Seq::<(i128, i128)>::empty());
    assert(ratio_sum(v) == (after as int, before as int)) by {
        assert(0 * before + after * 1 == after);
    }
}

/// Where each ratio is no more than so many percent, so is their mean; where each is more,
/// so is their mean.
pub proof fn the_mean_lies_among_the_ratios(v: Seq<(i128, i128)>, percent: nat)
    requires
        all_based(v),
        v.len() > 0,
    ensures
        (forall|i: int|
            0 <= i < v.len() ==> (#[trigger] v[i]).1 * 100 <= v[i].0 * percent) ==> mean_within(
            v,
            percent,
        ),
        (forall|i: int|
            0 <= i < v.len() ==> (#[trigger] v[i]).1 * 100 > v[i].0 * percent) ==> !mean_within(
            v,
            percent,
        ),
    decreases v.len(),
{
    let s = v.drop_last();
    let k = v.len() - 1;
    assert(all_based(s)) by {
        assert forall|i: int| 0 <= i < s.len() implies (#[trigger] s[i]).0 > 0 by {
            assert(s[i] == v[i]);
        }
    }
    lemma_sum_is_based(s);
    let (n, d) = ratio_sum(s);
    let (b, a) = v.last();
    assert(v[k] == (b, a));
    if s.len() > 0 {
        the_mean_lies_among_the_ratios(s, percent);
    } else {
        assert(n == 0 && d == 1);
    }
    assert forall|i: int| 0 <= i < s.len() implies #[trigger] s[i] == v[i] by {}
    if forall|i: int| 0 <= i < v.len() ==> (#[trigger] v[i]).1 * 100 <= v[i].0 * percent {
        assert(v[k].1 * 100 <= v[k].0 * percent);
        lemma_one_more(n, d, k, a as int, b as int, percent as int);
    }
    if forall|i: int| 0 <= i < v.len() ==> (#[trigger] v[i]).1 * 100 > v[i].0 * percent {
        assert(v[k].1 * 100 > v[k].0 * percent);
        if s.len() > 0 {
            assert(n * 100 > d * k * percent);
        } else {
            assert(d * k * percent == 0) by (nonlinear_arith)
                requires
                    k == 0,
            ;
        }
        lemma_one_more_above(n, d, k, a as int, b as int, percent as int);
    }
}

proof fn lemma_one_more(n: int, d: int, k: int, a: int, b: int, q: int)
    requires
        d > 0,
        b > 0,
        a * 100 <= b * q,
        n * 100 <= d * k * q,
    ensures
        (n * b + a * d) * 100 <= (d * b) * (k + 1) * q,
{
    assert((n * b + a * d) * 100 == (n * 100) * b + (a * 100) * d) by (nonlinear_arith);
    assert((n * 100) * b <= (d * k * q) * b) by (nonlinear_arith)
        requires
            n * 100 <= d * k * q,
            b > 0,
    ;
    assert((a * 100) * d <= (b * q) * d) by (nonlinear_arith)
        requires
            a * 100 <= b * q,
            d > 0,
    ;
    assert((d * k * q) * b + (b * q) * d == (d * b) * (k + 1) * q) by (nonlinear_arith);
}

proof fn lemma_one_more_above(n: int, d: int, k: int, a: int, b: int, q: int)
    requires
        d > 0,
        b > 0,
        a * 100 > b * q,
        n * 100 >= d * k * q,
    ensures
        (n * b + a * d) * 100 > (d * b) * (k + 1) * q,
{
    assert((n * b + a * d) * 100 == (n * 100) * b + (a * 100) * d) by (nonlinear_arith);
    assert((n * 100) * b >= (d * k * q) * b) by (nonlinear_arith)
        requires
            n * 100 >= d * k * q,
            b > 0,
    ;
    assert((a * 100) * d > (b * q) * d) by (nonlinear_arith)
        requires
            a * 100 > b * q,
            d > 0,
    ;
    assert((d * k * q) * b + (b * q) * d == (d * b) * (k + 1) * q) by (nonlinear_arith);
}

/// The mean change is told in percent, to the nearest one: with the sum of the ratios as
/// `n / d`, it is what `n / d`, over how many they are, is above or below one.
pub proof fn the_mean_change_is_told_in_percent(v: Seq<(i128, i128)>)
    requires
        all_based(v),
        v.len() > 0,
    ensures
        ({
            let (n, d) = ratio_sum(v);
            let base = d * v.len();
            let gain = n - base;
            exists|t: nat|
                #![trigger crate::num::dec(t)]
                mean_percent(v) == (if gain < 0 {
                    "-"@
                } else {
                    "+"@
                }) + crate::num::dec(t) && 2 * (t * base - (if gain < 0 {
                    -gain
                } else {
                    gain
                }) * 100) <= base && 2 * ((if gain < 0 {
                    -gain
                } else {
                    gain
                }) * 100 - t * base) <= base
        }),
{
    lemma_sum_is_based(v);
    let (n, d) = ratio_sum(v);
    let base = d * v.len();
    assert(base > 0) by (nonlinear_arith)
        requires
            d > 0,
            v.len() > 0,
            base == d * v.len(),
    ;
    assert(d * v.len() * 100 == base * 100);
    crate::num::no_decimals_tell_the_nearest(n * 100 - base * 100, base as nat);
}

} // verus!

//! Numbers and their decimal texts.
//!
//! Measured quantities are held in millionths, as integers, so that every
//! comparison and every rounding below is exact.
use crate::text::{digit, equal_ignoring_case, is_digit, same_ignoring_case};
use vstd::prelude::*;
use vstd::string::*;

verus! {

/// One unit of a quantity that is held in millionths.
pub const UNIT: u64 = 1_000_000;

// ------------------------------------------------------------------- decimals

/// The character of a decimal digit.
pub open spec fn digit_char(d: nat) -> char {
    (48 + d) as char
}

/// The decimal text of a number, without leading zeros.
pub open spec fn dec(n: nat) -> Seq<char>
    decreases n,
{
    if n < 10 {
        seq![digit_char(n)]
    } else {
        dec(n / 10).push(digit_char(n % 10))
    }
}

/// The decimal text of an integer, with a minus sign where it is negative.
pub open spec fn dec_int(n: int) -> Seq<char> {
    if n < 0 {
        seq!['-'] + dec((-n) as nat)
    } else {
        dec(n as nat)
    }
}

fn to_digit_char(d: u8) -> (r: char)
    requires
        d < 10,
    ensures
        r == digit_char(d as nat),
{
    (48u8 + d) as char
}

/// Appends the decimal text of `n`.
pub fn push_dec(out: &mut String, n: u128)
    ensures
        final(out)@ == old(out)@ + dec(n as nat),
    decreases n,
{
    if n >= 10 {
        push_dec(out, n / 10);
    }
    let d = to_digit_char((n % 10) as u8);
    let ghost before = out@;
    out.push(d);
    proof {
        if n >= 10 {
            assert(out@ =~= old(out)@ + dec(n as nat));
        } else {
            assert(out@ =~= old(out)@ + dec(n as nat));
        }
    }
}

/// The decimal text of `n`.
pub fn dec_text(n: u64) -> (r: String)
    ensures
        r@ == dec(n as nat),
{
    let mut out = String::new();
    push_dec(&mut out, n as u128);
    assert(out@ =~= dec(n as nat));
    out
}

/// The decimal text of a count.
pub fn dec_len(n: usize) -> (r: String)
    ensures
        r@ == dec(n as nat),
{
    dec_text(n as u64)
}

/// The decimal text of `n`, with a minus sign where it is negative.
pub fn dec_int_text(n: i64) -> (r: String)
    ensures
        r@ == dec_int(n as int),
{
    let mut out = String::new();
    if n < 0 {
        out.push('-');
        push_dec(&mut out, (-(n as i128)) as u128);
        assert(out@ =~= dec_int(n as int));
    } else {
        push_dec(&mut out, n as u128);
        assert(out@ =~= dec_int(n as int));
    }
    out
}

// -------------------------------------------------------------------- parsing

/// The number that a run of decimal digits stands for.
pub open spec fn digits_value(s: Seq<char>) -> nat
    decreases s.len(),
{
    if s.len() == 0 {
        0
    } else {
        digits_value(s.drop_last()) * 10 + (s.last() as u32 - 48) as nat
    }
}

pub open spec fn all_digits(s: Seq<char>) -> bool {
    forall|i: int| 0 <= i < s.len() ==> is_digit(#[trigger] s[i])
}

/// What std's integer parsing accepts: an optional plus sign and at least one
/// digit, and no more than `max`.
pub open spec fn parse_nat(s: Seq<char>, max: nat) -> Option<nat> {
    let d = if s.len() > 0 && s[0] == '+' {
        s.skip(1)
    } else {
        s
    };
    if d.len() > 0 && all_digits(d) && digits_value(d) <= max {
        Some(digits_value(d))
    } else {
        None
    }
}

/// `parse_nat` for `u64`.
pub open spec fn parse_u64(s: Seq<char>) -> Option<u64> {
    match parse_nat(s, u64::MAX as nat) {
        Some(n) => Some(n as u64),
        None => None,
    }
}

/// `parse_nat` for `u32`.
pub open spec fn parse_u32(s: Seq<char>) -> Option<u32> {
    match parse_nat(s, u32::MAX as nat) {
        Some(n) => Some(n as u32),
        None => None,
    }
}

/// `parse_nat` for `u16`.
pub open spec fn parse_u16(s: Seq<char>) -> Option<u16> {
    match parse_nat(s, u16::MAX as nat) {
        Some(n) => Some(n as u16),
        None => None,
    }
}

/// The value of a run of digits, where it is one and fits.
pub fn parse_digits(s: &[char]) -> (r: Option<u64>)
    ensures
        match r {
            Some(n) => s@.len() > 0 && all_digits(s@) && digits_value(s@) == n,
            None => s@.len() == 0 || !all_digits(s@) || digits_value(s@) > u64::MAX,
        },
{
    if s.len() == 0 {
        return None;
    }
    let mut bad = false;
    let mut over = false;
    let mut v: u64 = 0;
    let mut i: usize = 0;
    while i < s.len()
        invariant
            i <= s.len(),
            bad <==> !all_digits(s@.take(i as int)),
            !bad && !over ==> v as nat == digits_value(s@.take(i as int)),
            !bad && over ==> digits_value(s@.take(i as int)) > u64::MAX,
        decreases s.len() - i,
    {
        let ghost sofar = s@.take(i + 1);
        assert(sofar.drop_last() =~= s@.take(i as int));
        assert(sofar.last() == s@[i as int]);
        let c = s[i];
        if !digit(c) {
            assert(!is_digit(sofar[i as int]));
            bad = true;
        } else {
            assert(all_digits(sofar) <==> all_digits(s@.take(i as int))) by {
                assert(forall|k: int| 0 <= k < i ==> sofar[k] == s@.take(i as int)[k]);
                if all_digits(sofar) {
                    assert forall|k: int| 0 <= k < i implies is_digit(s@.take(i as int)[k]) by {
                        assert(is_digit(sofar[k]));
                    }
                }
            }
            if !over {
                let d: u64 = (c as u32 - 48) as u64;
                match v.checked_mul(10) {
                    Some(t) => {
                        match t.checked_add(d) {
                            Some(u) => {
                                v = u;
                            },
                            None => {
                                over = true;
                            },
                        }
                    },
                    None => {
                        over = true;
                    },
                }
            }
        }
        i += 1;
    }
    assert(s@.take(i as int) =~= s@);
    if bad || over {
        None
    } else {
        Some(v)
    }
}

/// Parses an unsigned number as std does.
pub fn parse_number(s: &[char]) -> (r: Option<u64>)
    ensures
        r == parse_u64(s@),
{
    if s.len() > 0 && s[0] == '+' {
        parse_digits(crate::text::tail(s, 1))
    } else {
        parse_digits(s)
    }
}

/// Parses a number of 32 bits as std does.
pub fn parse_number32(s: &[char]) -> (r: Option<u32>)
    ensures
        r == parse_u32(s@),
{
    match parse_number(s) {
        Some(n) => if n <= u32::MAX as u64 {
            Some(n as u32)
        } else {
            None
        },
        None => None,
    }
}

/// Parses a number of 16 bits as std does.
pub fn parse_number16(s: &[char]) -> (r: Option<u16>)
    ensures
        r == parse_u16(s@),
{
    match parse_number(s) {
        Some(n) => if n <= u16::MAX as u64 {
            Some(n as u16)
        } else {
            None
        },
        None => None,
    }
}

/// Where the run of digits that begins the text ends.
pub open spec fn digits_end(s: Seq<char>, from: int) -> int
    decreases s.len() - from,
{
    if from < 0 || from >= s.len() || !is_digit(s[from]) {
        from
    } else {
        digits_end(s, from + 1)
    }
}

/// The run of digits that begins the text, as a number.
pub open spec fn leading_number(s: Seq<char>) -> Option<u64> {
    parse_u64(s.take(digits_end(s, 0)))
}

pub fn parse_leading(s: &[char]) -> (r: Option<u64>)
    ensures
        r == leading_number(s@),
{
    let mut i: usize = 0;
    while i < s.len() && digit(s[i])
        invariant
            i <= s.len(),
            digits_end(s@, 0) == digits_end(s@, i as int),
        decreases s.len() - i,
    {
        i += 1;
    }
    parse_number(crate::text::head(s, i))
}

/// The decimal text of a number parses back to it.
pub proof fn lemma_dec_parses(n: nat)
    ensures
        dec(n).len() > 0,
        all_digits(dec(n)),
        digits_value(dec(n)) == n,
    decreases n,
{
    assert(forall|d: nat| d < 10 ==> is_digit(#[trigger] digit_char(d)) && digit_char(d) as u32
        == 48 + d);
    if n < 10 {
        assert(dec(n).drop_last() =~= Seq::<char>::empty());
        assert(digits_value(Seq::<char>::empty()) == 0);
    } else {
        lemma_dec_parses(n / 10);
        let p = dec(n / 10);
        assert(dec(n).drop_last() =~= p);
        assert forall|i: int| 0 <= i < dec(n).len() implies is_digit(#[trigger] dec(n)[i]) by {
            if i < p.len() {
                assert(is_digit(p[i]));
            }
        }
    }
}

/// A number written in decimal is read back unchanged.
pub proof fn decimal_round_trip(n: u64)
    ensures
        parse_u64(dec(n as nat)) == Some(n),
{
    lemma_dec_parses(n as nat);
    assert(is_digit(dec(n as nat)[0]));
}

// ------------------------------------------------------------------- rounding

/// The integer nearest to `num / den`; the even one of two that are as near.
pub open spec fn round_even(num: nat, den: nat) -> nat
    recommends
        den > 0,
{
    let q = num / den;
    let r = num % den;
    if 2 * r < den || (2 * r == den && q % 2 == 0) {
        q
    } else {
        q + 1
    }
}

/// `round_even`.
pub fn rounded(num: u128, den: u128) -> (r: u128)
    requires
        0 < den,
    ensures
        r as nat == round_even(num as nat, den as nat),
        r <= num / den + 1,
{
    let q = num / den;
    let rem = num % den;
    assert(rem < den) by (nonlinear_arith)
        requires
            rem == num % den,
            den > 0,
    ;
    let rest = den - rem;
    if rem < rest || (rem == rest && q % 2 == 0) {
        q
    } else {
        assert(q < u128::MAX) by (nonlinear_arith)
            requires
                q == num / den,
                rem == num % den,
                rem >= den - rem,
                den > 0,
                num <= u128::MAX,
        {
            assert(num == q * den + rem);
            if den == 1 {
                assert(rem == 0);
            } else {
                assert(q * 2 <= q * den);
            }
        }
        q + 1
    }
}

/// `round_even` of a number with a sign: as near above zero as below it.
pub open spec fn round_even_int(num: int, den: nat) -> int {
    if num < 0 {
        -(round_even((-num) as nat, den) as int)
    } else {
        round_even(num as nat, den) as int
    }
}

/// `round_even_int`.
pub fn rounded_int(num: i128, den: u128) -> (r: i128)
    requires
        1 < den,
        num > i128::MIN,
    ensures
        r as int == round_even_int(num as int, den as nat),
{
    let magnitude: u128 = if num < 0 {
        (-num) as u128
    } else {
        num as u128
    };
    let q = rounded(magnitude, den);
    assert(q <= i128::MAX) by {
        assert(magnitude / den <= magnitude / 2) by (nonlinear_arith)
            requires
                den >= 2,
        ;
    }
    if num < 0 {
        -(q as i128)
    } else {
        q as i128
    }
}

/// `num / den` without decimals: `{:.0}`.
pub open spec fn fixed0(num: nat, den: nat) -> Seq<char> {
    dec(round_even(num, den))
}

/// `num / den` with one decimal: `{:.1}`.
pub open spec fn fixed1(num: nat, den: nat) -> Seq<char> {
    let q = round_even(num * 10, den);
    dec(q / 10) + "."@ + dec(q % 10)
}

/// `num / den` without decimals and with its sign: `{:+.0}`.
pub open spec fn signed0(num: int, den: nat) -> Seq<char> {
    if num < 0 {
        "-"@ + fixed0((-num) as nat, den)
    } else {
        "+"@ + fixed0(num as nat, den)
    }
}

/// `num / den` without decimals, with a minus sign where it is negative.
pub open spec fn fixed0_int(num: int, den: nat) -> Seq<char> {
    if num < 0 {
        "-"@ + fixed0((-num) as nat, den)
    } else {
        fixed0(num as nat, den)
    }
}

/// `num / den` with one decimal, and a minus sign where it is negative.
pub open spec fn fixed1_int(num: int, den: nat) -> Seq<char> {
    if num < 0 {
        "-"@ + fixed1((-num) as nat, den)
    } else {
        fixed1(num as nat, den)
    }
}

pub fn fixed0_int_text(num: i128, den: u128) -> (r: String)
    requires
        0 < den,
        num > i128::MIN,
    ensures
        r@ == fixed0_int(num as int, den as nat),
{
    if num < 0 {
        let mut out = String::new();
        out.append("-");
        out.append(fixed0_text((-num) as u128, den).as_str());
        assert(out@ =~= fixed0_int(num as int, den as nat));
        out
    } else {
        fixed0_text(num as u128, den)
    }
}

pub fn fixed1_int_text(num: i128, den: u128) -> (r: String)
    requires
        0 < den,
        -0x10_0000_0000_0000_0000_0000_0000 <= num <= 0x10_0000_0000_0000_0000_0000_0000,
    ensures
        r@ == fixed1_int(num as int, den as nat),
{
    if num < 0 {
        let mut out = String::new();
        out.append("-");
        out.append(fixed1_text((-num) as u128, den).as_str());
        assert(out@ =~= fixed1_int(num as int, den as nat));
        out
    } else {
        fixed1_text(num as u128, den)
    }
}

pub fn fixed0_text(num: u128, den: u128) -> (r: String)
    requires
        0 < den,
    ensures
        r@ == fixed0(num as nat, den as nat),
{
    let mut out = String::new();
    push_dec(&mut out, rounded(num, den));
    assert(out@ =~= fixed0(num as nat, den as nat));
    out
}

pub fn fixed1_text(num: u128, den: u128) -> (r: String)
    requires
        0 < den,
        num * 10 <= u128::MAX,
    ensures
        r@ == fixed1(num as nat, den as nat),
{
    let mut out = String::new();
    let q = rounded(num * 10, den);
    push_dec(&mut out, q / 10);
    assert(out@ =~= dec((q / 10) as nat));
    out.append(".");
    push_dec(&mut out, q % 10);
    out
}

pub fn signed0_text(num: i128, den: u128) -> (r: String)
    requires
        0 < den,
        num > i128::MIN,
    ensures
        r@ == signed0(num as int, den as nat),
{
    let mut out = String::new();
    if num < 0 {
        out.append("-");
        let t = fixed0_text((-num) as u128, den);
        out.append(t.as_str());
        assert(out@ =~= signed0(num as int, den as nat));
    } else {
        out.append("+");
        let t = fixed0_text(num as u128, den);
        out.append(t.as_str());
        assert(out@ =~= signed0(num as int, den as nat));
    }
    out
}

// ------------------------------------------------------------ decimal fractions

/// Ten to the power of `n`.
pub open spec fn pow10(n: nat) -> nat
    decreases n,
{
    if n == 0 {
        1
    } else {
        10 * pow10((n - 1) as nat)
    }
}

/// A decimal number without its sign: its digits, and how far the point
/// stands behind the last of them.
pub struct Decimal {
    pub digits: Seq<char>,
    pub exponent: int,
}

pub open spec fn has_sign(s: Seq<char>) -> bool {
    s.len() > 0 && (s[0] == '+' || s[0] == '-')
}

pub open spec fn without_sign(s: Seq<char>) -> Seq<char> {
    if has_sign(s) {
        s.skip(1)
    } else {
        s
    }
}

pub open spec fn is_negative(s: Seq<char>) -> bool {
    s.len() > 0 && s[0] == '-'
}

/// The exponent that an optional sign and digits stand for.
pub open spec fn exponent_value(s: Seq<char>) -> Option<int> {
    let d = without_sign(s);
    if d.len() > 0 && all_digits(d) {
        if is_negative(s) {
            Some(-(digits_value(d) as int))
        } else {
            Some(digits_value(d) as int)
        }
    } else {
        None
    }
}

/// The digits before and behind the point.
pub open spec fn point_parts(s: Seq<char>) -> (Seq<char>, Seq<char>) {
    let k = crate::text::next_of(s, seq!['.'], 0);
    if k < s.len() {
        (s.take(k), s.skip(k + 1))
    } else {
        (s, Seq::empty())
    }
}

/// The decimal number that a text without a sign writes: digits with an
/// optional point among them, and an optional exponent.
pub open spec fn decimal(u: Seq<char>) -> Option<Decimal> {
    let k = crate::text::next_of(u, seq!['e', 'E'], 0);
    let body = u.take(k);
    let exp = if k < u.len() {
        exponent_value(u.skip(k + 1))
    } else {
        Some(0int)
    };
    let (i, f) = point_parts(body);
    match exp {
        Some(e) => if all_digits(i + f) && (i + f).len() > 0 {
            Some(Decimal { digits: i + f, exponent: e - f.len() })
        } else {
            None
        },
        None => None,
    }
}

/// `m * 10^e`, rounded down.
pub open spec fn scaled(m: nat, e: int) -> nat {
    if e >= 0 {
        m * pow10(e as nat)
    } else {
        m / pow10((-e) as nat)
    }
}

/// The largest magnitude, in millionths, that is held: what is larger counts
/// as this.
pub const MICRO_MAX: u128 = 0x4000_0000_0000_0000;

/// The magnitude of a decimal in millionths, rounded down.
pub open spec fn micro_of(d: Decimal) -> nat {
    let v = scaled(digits_value(d.digits), d.exponent + 6);
    if v <= MICRO_MAX {
        v
    } else {
        MICRO_MAX as nat
    }
}

/// `inf` or `infinity`, in whatever case and with or without a sign.
pub open spec fn is_infinite(s: Seq<char>) -> bool {
    same_ignoring_case(without_sign(s), "inf"@) || same_ignoring_case(
        without_sign(s),
        "infinity"@,
    )
}

/// The millionths that the text of a number stands for.
pub open spec fn parse_micro_of(s: Seq<char>) -> Option<int> {
    let magnitude = if is_infinite(s) {
        Some(MICRO_MAX as nat)
    } else {
        match decimal(without_sign(s)) {
            Some(d) => Some(micro_of(d)),
            None => None,
        }
    };
    match magnitude {
        Some(v) => Some(
            if is_negative(s) {
                -(v as int)
            } else {
                v as int
            },
        ),
        None => None,
    }
}

proof fn lemma_pow10_pos(n: nat)
    ensures
        pow10(n) > 0,
    decreases n,
{
    if n > 0 {
        lemma_pow10_pos((n - 1) as nat);
    }
}

/// Twenty digits are more than any number that is read has.
proof fn lemma_pow10_20()
    ensures
        pow10(20) == 100_000_000_000_000_000_000,
{
    reveal_with_fuel(pow10, 21);
}

proof fn lemma_pow10_grows(a: nat, b: nat)
    requires
        a <= b,
    ensures
        pow10(a) <= pow10(b),
    decreases b - a,
{
    if a < b {
        lemma_pow10_grows(a, (b - 1) as nat);
        lemma_pow10_pos((b - 1) as nat);
    }
}

/// Leaving out the last `n` digits divides by ten as often.
proof fn lemma_dropped(s: Seq<char>, n: nat)
    requires
        all_digits(s),
    ensures
        digits_value(s) / pow10(n) == (if n <= s.len() {
            digits_value(s.take(s.len() - n))
        } else {
            0
        }),
    decreases n,
{
    let v = digits_value(s);
    if n == 0 {
        assert(s.take(s.len() as int) =~= s);
        assert(v / 1 == v);
    } else if s.len() == 0 {
        lemma_pow10_pos(n);
        vstd::arithmetic::div_mod::lemma_basic_div(0, pow10(n) as int);
    } else {
        let t = s.drop_last();
        let p = pow10((n - 1) as nat) as int;
        assert(is_digit(s[s.len() - 1]));
        assert forall|i: int| 0 <= i < t.len() implies is_digit(#[trigger] t[i]) by {
            assert(is_digit(s[i]));
        }
        lemma_dropped(t, (n - 1) as nat);
        lemma_pow10_pos((n - 1) as nat);
        vstd::arithmetic::div_mod::lemma_div_denominator(v as int, 10, p);
        assert(v / 10 == digits_value(t));
        if n <= s.len() {
            assert(t.take(t.len() - (n - 1)) =~= s.take(s.len() - n));
        }
    }
}

/// The bound that a run of digits is read up to.
const CAP: u128 = 0x40_0000_0000_0000_0000;

/// The value of a run of digits, or the bound, which is far beyond what is
/// held.
fn parse_capped(s: &[char]) -> (r: Option<u128>)
    ensures
        match r {
            Some(v) => s@.len() > 0 && all_digits(s@) && v as nat == (if digits_value(s@) <= CAP {
                digits_value(s@)
            } else {
                CAP as nat
            }),
            None => s@.len() == 0 || !all_digits(s@),
        },
{
    if s.len() == 0 {
        return None;
    }
    let mut v: u128 = 0;
    let mut i: usize = 0;
    while i < s.len()
        invariant
            i <= s.len(),
            all_digits(s@.take(i as int)),
            v as nat == (if digits_value(s@.take(i as int)) <= CAP {
                digits_value(s@.take(i as int))
            } else {
                CAP as nat
            }),
        decreases s.len() - i,
    {
        let ghost before = s@.take(i as int);
        let ghost sofar = s@.take(i + 1);
        assert(sofar.drop_last() =~= before);
        assert(sofar.last() == s@[i as int]);
        let c = s[i];
        if !digit(c) {
            return None;
        }
        assert forall|k: int| 0 <= k < sofar.len() implies is_digit(#[trigger] sofar[k]) by {
            if k < i {
                assert(is_digit(before[k]));
            }
        }
        let t: u128 = v * 10 + (c as u32 - 48) as u128;
        v = if t <= CAP {
            t
        } else {
            CAP
        };
        i += 1;
    }
    assert(s@.take(i as int) =~= s@);
    Some(v)
}

/// `m * 10^n`, as far as it is held.
fn times_pow10(m: u128, n: u128) -> (r: u128)
    requires
        m <= CAP,
    ensures
        r as nat == (if m as nat * pow10(n as nat) <= MICRO_MAX {
            m as nat * pow10(n as nat)
        } else {
            MICRO_MAX as nat
        }),
{
    let mut v: u128 = m;
    let mut i: u128 = 0;
    if m == 0 {
        assert(m as nat * pow10(n as nat) == 0) by (nonlinear_arith)
            requires
                m == 0,
        ;
        return 0;
    }
    assert(pow10(0) == 1);
    assert(m as nat * 1 == m as nat);
    while i < n && v <= MICRO_MAX
        invariant
            i <= n,
            v as nat == m as nat * pow10(i as nat),
            v <= CAP,
        decreases n - i,
    {
        assert(10 * (m as nat * pow10(i as nat)) == m as nat * (10 * pow10(i as nat)))
            by (nonlinear_arith);
        v = v * 10;
        i += 1;
    }
    if v > MICRO_MAX {
        proof {
            lemma_pow10_grows(i as nat, n as nat);
            assert(m as nat * pow10(i as nat) <= m as nat * pow10(n as nat)) by (nonlinear_arith)
                requires
                    pow10(i as nat) <= pow10(n as nat),
            ;
        }
        MICRO_MAX
    } else {
        v
    }
}

/// A magnitude that is `CAP` or more is more than is held, whatever it is
/// multiplied by.
proof fn lemma_capped(m: nat, c: nat, n: nat)
    requires
        c == if m <= CAP {
            m
        } else {
            CAP as nat
        },
    ensures
        m * pow10(n) <= MICRO_MAX <==> c * pow10(n) <= MICRO_MAX,
        m * pow10(n) <= MICRO_MAX ==> m == c,
{
    lemma_pow10_pos(n);
    let p = pow10(n);
    if m > CAP {
        assert(m * p >= CAP && c * p >= CAP) by (nonlinear_arith)
            requires
                m >= CAP,
                c == CAP,
                p >= 1,
        ;
    }
}

/// The magnitude of a run of digits, scaled by a power of ten, as far as it is
/// held.
fn scale_digits(digits: &[char], shift: i128) -> (r: Option<u128>)
    requires
        -0x80_0000_0000_0000_0000 <= shift <= 0x80_0000_0000_0000_0000,
    ensures
        match r {
            Some(v) => digits@.len() > 0 && all_digits(digits@) && v as nat == (if scaled(
                digits_value(digits@),
                shift as int,
            ) <= MICRO_MAX {
                scaled(digits_value(digits@), shift as int)
            } else {
                MICRO_MAX as nat
            }),
            None => digits@.len() == 0 || !all_digits(digits@),
        },
{
    let m = match parse_capped(digits) {
        Some(m) => m,
        None => {
            return None;
        },
    };
    if shift >= 0 {
        proof {
            lemma_capped(digits_value(digits@), m as nat, shift as nat);
        }
        return Some(times_pow10(m, shift as u128));
    }
    let drop: u128 = (-shift) as u128;
    proof {
        lemma_dropped(digits@, drop as nat);
    }
    if drop >= digits.len() as u128 {
        assert(drop == digits@.len() ==> digits@.take(0) =~= Seq::empty());
        return Some(0);
    }
    let kept = crate::text::head(digits, digits.len() - drop as usize);
    assert(kept@ =~= digits@.take(digits@.len() - drop));
    assert forall|k: int| 0 <= k < kept@.len() implies is_digit(#[trigger] kept@[k]) by {
        assert(is_digit(digits@[k]));
    }
    match parse_capped(kept) {
        Some(v) => Some(
            if v <= MICRO_MAX {
                v
            } else {
                MICRO_MAX
            },
        ),
        None => None,
    }
}

/// The magnitude of an unsigned decimal in millionths.
fn magnitude(u: &[char]) -> (r: Option<u128>)
    ensures
        match r {
            Some(v) => decimal(u@) is Some && v as nat == micro_of(decimal(u@)->0),
            None => decimal(u@) is None,
        },
{
    let es: [char; 2] = ['e', 'E'];
    let dot: [char; 1] = ['.'];
    assert(es@ =~= seq!['e', 'E']);
    assert(dot@ =~= seq!['.']);
    let k = crate::text::next_index_of(u, &es, 0);
    let body = crate::text::head(u, k);
    let d = crate::text::next_index_of(body, &dot, 0);
    let int_part = crate::text::head(body, d);
    let mut digits: Vec<char> = vstd::slice::slice_to_vec(int_part);
    let mut frac_len: usize = 0;
    if d < body.len() {
        let frac = crate::text::tail(body, d + 1);
        frac_len = frac.len();
        let mut more = vstd::slice::slice_to_vec(frac);
        digits.append(&mut more);
    } else {
        assert(int_part@ + Seq::<char>::empty() =~= int_part@);
        assert(int_part@ =~= body@);
    }
    let ghost parts = point_parts(body@);
    assert(digits@ =~= parts.0 + parts.1);
    let mut exp: u128 = 0;
    let mut small = false;
    if k < u.len() {
        let e = crate::text::tail(u, k + 1);
        small = e.len() > 0 && e[0] == '-';
        let ed = if e.len() > 0 && (e[0] == '+' || e[0] == '-') {
            crate::text::tail(e, 1)
        } else {
            e
        };
        exp = match parse_capped(ed) {
            Some(n) => n,
            None => {
                return None;
            },
        };
    }
    let shift: i128 = if small {
        -(exp as i128) - frac_len as i128 + 6
    } else {
        exp as i128 - frac_len as i128 + 6
    };
    let r = scale_digits(&digits, shift);
    proof {
        if exp == CAP && decimal(u@) is Some {
            let want = decimal(u@)->0;
            let m = digits_value(want.digits);
            let e = want.exponent + 6;
            if small {
                lemma_dropped(want.digits, (-e) as nat);
                lemma_dropped(want.digits, (-shift) as nat);
            } else {
                lemma_pow10_20();
                lemma_pow10_grows(20, e as nat);
                lemma_pow10_grows(20, shift as nat);
                let (p, q) = (pow10(e as nat), pow10(shift as nat));
                assert(m == 0 ==> m * p == 0 && m * q == 0) by (nonlinear_arith);
                assert(m > 0 ==> m * p >= p && m * q >= q) by (nonlinear_arith);
            }
        }
    }
    r
}

/// Reads a number in millionths.
pub fn parse_micro(s: &[char]) -> (r: Option<i128>)
    ensures
        match r {
            Some(v) => parse_micro_of(s@) == Some(v as int) && -(MICRO_MAX as int) <= v <= MICRO_MAX,
            None => parse_micro_of(s@) is None,
        },
{
    let negative = s.len() > 0 && s[0] == '-';
    let u = if s.len() > 0 && (s[0] == '+' || s[0] == '-') {
        crate::text::tail(s, 1)
    } else {
        s
    };
    let inf = crate::text::chars_of("inf");
    let infinity = crate::text::chars_of("infinity");
    let v: u128 = if equal_ignoring_case(u, &inf) || equal_ignoring_case(u, &infinity) {
        MICRO_MAX
    } else {
        match magnitude(u) {
            Some(v) => v,
            None => {
                return None;
            },
        }
    };
    if negative {
        Some(-(v as i128))
    } else {
        Some(v as i128)
    }
}

/// Where the run of digits and points that begins the text ends.
pub open spec fn decimal_end(s: Seq<char>, from: int) -> int
    decreases s.len() - from,
{
    if from < 0 || from >= s.len() || !(is_digit(s[from]) || s[from] == '.') {
        from
    } else {
        decimal_end(s, from + 1)
    }
}

/// The decimal that begins the text, in millionths.
pub open spec fn leading_micro(s: Seq<char>) -> Option<int> {
    parse_micro_of(s.take(decimal_end(s, 0)))
}

pub fn parse_leading_micro(s: &[char]) -> (r: Option<u128>)
    ensures
        match r {
            Some(v) => leading_micro(s@) == Some(v as int) && v <= MICRO_MAX,
            None => leading_micro(s@) is None,
        },
{
    let mut i: usize = 0;
    while i < s.len() && (digit(s[i]) || s[i] == '.')
        invariant
            i <= s.len(),
            decimal_end(s@, 0) == decimal_end(s@, i as int),
            forall|k: int| 0 <= k < i ==> is_digit(#[trigger] s@[k]) || s@[k] == '.',
        decreases s.len() - i,
    {
        i += 1;
    }
    let run = crate::text::head(s, i);
    assert(run@.len() > 0 ==> run@[0] == s@[0]);
    match parse_micro(run) {
        Some(v) => Some(v as u128),
        None => None,
    }
}

/// What is rounded is off by no more than half of the divisor, and an even number where it
/// is off by just that much.
pub proof fn rounding_is_to_the_nearest(num: int, den: nat)
    requires
        den > 0,
    ensures
        2 * (round_even_int(num, den) * den - num) <= den,
        2 * (num - round_even_int(num, den) * den) <= den,
        2 * (round_even_int(num, den) * den - num) == den ==> round_even_int(num, den) % 2 == 0,
        2 * (num - round_even_int(num, den) * den) == den ==> round_even_int(num, den) % 2 == 0,
{
    let m = if num < 0 {
        (-num) as nat
    } else {
        num as nat
    };
    let q = m / den;
    let r = m % den;
    vstd::arithmetic::div_mod::lemma_fundamental_div_mod(m as int, den as int);
    vstd::arithmetic::div_mod::lemma_mod_bound(m as int, den as int);
    assert(den * q == q * den) by (nonlinear_arith);
    assert((q + 1) * den == q * den + den) by (nonlinear_arith);
    let k = round_even(m, den);
    assert((-(k as int)) * den == -(k * den)) by (nonlinear_arith);
}

/// A number with one decimal tells the tenths that are nearest to it.
pub proof fn one_decimal_tells_the_tenths(num: nat, den: nat)
    requires
        den > 0,
    ensures
        exists|t: nat|
            #![trigger dec(t / 10)]
            fixed1(num, den) == dec(t / 10) + "."@ + dec(t % 10) && 2 * (t * den - num * 10) <= den
                && 2 * (num * 10 - t * den) <= den,
{
    let t = round_even(num * 10, den);
    rounding_is_to_the_nearest((num * 10) as int, den);
    assert(fixed1(num, den) == dec(t / 10) + "."@ + dec(t % 10));
}

/// A number without decimals is told by the integer that is nearest to it, and by its sign
/// where a change is told.
pub proof fn no_decimals_tell_the_nearest(num: int, den: nat)
    requires
        den > 0,
    ensures
        exists|t: nat|
            #![trigger dec(t)]
            {
                let size = if num < 0 {
                    -num
                } else {
                    num
                };
                &&& 2 * (t * den - size) <= den
                &&& 2 * (size - t * den) <= den
                &&& signed0(num, den) == (if num < 0 {
                    "-"@
                } else {
                    "+"@
                }) + dec(t)
                &&& num >= 0 ==> fixed0_int(num, den) == dec(t)
            },
{
    let size = if num < 0 {
        (-num) as nat
    } else {
        num as nat
    };
    rounding_is_to_the_nearest(size as int, den);
    let t = round_even(size, den);
    assert(dec(t) == fixed0(size, den));
}

/// The number of digits that are put together: those in front stand higher by as many
/// places as there are behind.
pub proof fn digits_stand_in_their_places(a: Seq<char>, b: Seq<char>)
    ensures
        digits_value(a + b) == digits_value(a) * pow10(b.len()) + digits_value(b),
    decreases b.len(),
{
    if b.len() == 0 {
        assert(a + b =~= a);
        assert(digits_value(a) * 1 == digits_value(a));
    } else {
        let c = b.drop_last();
        digits_stand_in_their_places(a, c);
        assert((a + b).drop_last() =~= a + c);
        assert((a + b).last() == b.last());
        let x = digits_value(a);
        let p = pow10(c.len());
        assert(pow10(b.len()) == 10 * p);
        assert((x * p + digits_value(c)) * 10 == x * (10 * p) + digits_value(c) * 10)
            by (nonlinear_arith);
    }
}

/// A decimal is read in millionths: its whole part a million times, and of its fraction
/// each digit at its place. A minus sign before it makes it negative.
pub proof fn a_decimal_is_read_in_millionths(whole: Seq<char>, part: Seq<char>)
    requires
        all_digits(whole),
        all_digits(part),
        whole.len() > 0,
        part.len() <= 6,
        digits_value(whole) <= 1_000_000_000_000,
    ensures
        ({
            let v = digits_value(whole) * 1_000_000 + digits_value(part) * pow10(
                (6 - part.len()) as nat,
            );
            let text = whole + seq!['.'] + part;
            &&& v <= 0x4000_0000_0000_0000 ==> parse_micro_of(text) == Some(v as int)
            &&& v <= 0x4000_0000_0000_0000 ==> parse_micro_of(seq!['-'] + text) == Some(-(v as int))
        }),
        parse_micro_of(whole) == Some((digits_value(whole) * 1_000_000) as int),
{
    let text = whole + seq!['.'] + part;
    let minus = seq!['-'] + text;
    reveal_strlit("inf");
    reveal_strlit("infinity");
    assert(is_digit(whole[0]));
    assert(text[0] == whole[0]);
    assert(without_sign(text) == text);
    assert(without_sign(whole) == whole);
    assert(minus[0] == '-');
    assert(minus.skip(1) =~= text);
    assert(!is_infinite(text)) by {
        assert("inf"@[0] == 'i' && "infinity"@[0] == 'i');
        assert(crate::text::ascii_lower(text[0]) == text[0]);
    }
    assert(!is_infinite(minus));
    assert(!is_infinite(whole)) by {
        assert("inf"@[0] == 'i' && "infinity"@[0] == 'i');
        assert(crate::text::ascii_lower(whole[0]) == whole[0]);
    }
    lemma_plain_decimal(whole, part);
    lemma_whole_decimal(whole);
    digits_stand_in_their_places(whole, part);
    let n = part.len();
    let w = digits_value(whole);
    let f = digits_value(part);
    let k = (6 - n) as nat;
    lemma_pow10_sum(n, k);
    assert(n + k == 6);
    reveal_with_fuel(pow10, 7);
    assert(pow10(6) == 1_000_000);
    let p = pow10(n);
    let q = pow10(k);
    assert((w * p + f) * q == w * (p * q) + f * q) by (nonlinear_arith);
    assert(p * q == 1_000_000);
    let d = decimal(text)->0;
    assert(d.exponent + 6 == k);
    assert(scaled(digits_value(d.digits), d.exponent + 6) == (w * p + f) * q);
    let e = decimal(whole)->0;
    assert(scaled(digits_value(e.digits), e.exponent + 6) == w * 1_000_000);
}

proof fn lemma_pow10_sum(a: nat, b: nat)
    ensures
        pow10(a + b) == pow10(a) * pow10(b),
    decreases a,
{
    if a > 0 {
        let c = (a - 1) as nat;
        lemma_pow10_sum(c, b);
        let x = pow10(c);
        let y = pow10(b);
        assert(10 * (x * y) == (10 * x) * y) by (nonlinear_arith);
        assert((a + b - 1) as nat == c + b);
    } else {
        assert(1 * pow10(b) == pow10(b));
    }
}

proof fn lemma_no_letter(s: Seq<char>, from: int)
    requires
        0 <= from <= s.len(),
        forall|i: int| 0 <= i < s.len() ==> is_digit(#[trigger] s[i]) || s[i] == '.',
    ensures
        crate::text::next_of(s, seq!['e', 'E'], from) == s.len(),
    decreases s.len() - from,
{
    let set = seq!['e', 'E'];
    if from < s.len() {
        assert(is_digit(s[from]) || s[from] == '.');
        assert(!set.contains(s[from])) by {
            assert(set[0] == 'e' && set[1] == 'E');
        }
        lemma_no_letter(s, from + 1);
    }
}

proof fn lemma_point_at(s: Seq<char>, from: int, k: int)
    requires
        0 <= from <= k <= s.len(),
        forall|i: int| 0 <= i < k ==> is_digit(#[trigger] s[i]),
        k < s.len() ==> s[k] == '.',
    ensures
        crate::text::next_of(s, seq!['.'], from) == k,
    decreases k - from,
{
    let set = seq!['.'];
    assert(set[0] == '.');
    if from < k {
        assert(is_digit(s[from]));
        assert(!set.contains(s[from]));
        lemma_point_at(s, from + 1, k);
    } else if k < s.len() {
        assert(set.contains(s[k]));
    }
}

proof fn lemma_plain_decimal(whole: Seq<char>, part: Seq<char>)
    requires
        all_digits(whole),
        all_digits(part),
        whole.len() > 0,
    ensures
        decimal(whole + seq!['.'] + part) == Some(
            Decimal { digits: whole + part, exponent: -(part.len() as int) },
        ),
{
    let s = whole + seq!['.'] + part;
    assert forall|i: int| 0 <= i < s.len() implies is_digit(#[trigger] s[i]) || s[i] == '.' by {
        if i < whole.len() {
            assert(s[i] == whole[i]);
        } else if i > whole.len() {
            assert(s[i] == part[i - whole.len() - 1]);
        }
    }
    lemma_no_letter(s, 0);
    assert(s.take(s.len() as int) =~= s);
    let k = whole.len() as int;
    assert forall|i: int| 0 <= i < k implies is_digit(#[trigger] s[i]) by {
        assert(s[i] == whole[i]);
    }
    lemma_point_at(s, 0, k);
    assert(s.take(k) =~= whole);
    assert(s.skip(k + 1) =~= part);
    let both = whole + part;
    assert forall|i: int| 0 <= i < both.len() implies is_digit(#[trigger] both[i]) by {
        if i < whole.len() {
            assert(both[i] == whole[i]);
        } else {
            assert(both[i] == part[i - whole.len()]);
        }
    }
}

proof fn lemma_whole_decimal(whole: Seq<char>)
    requires
        all_digits(whole),
        whole.len() > 0,
    ensures
        decimal(whole) == Some(Decimal { digits: whole, exponent: 0 }),
{
    lemma_no_letter(whole, 0);
    assert(whole.take(whole.len() as int) =~= whole);
    lemma_point_at(whole, 0, whole.len() as int);
    assert(whole + Seq::<char>::empty() =~= whole);
}

/// A number that begins a text is read up to the first character that is no digit.
pub proof fn a_leading_number_is_read(n: u64, rest: Seq<char>)
    requires
        rest.len() > 0 ==> !is_digit(rest[0]),
    ensures
        leading_number(dec(n as nat) + rest) == Some(n),
{
    let d = dec(n as nat);
    let s = d + rest;
    lemma_dec_parses(n as nat);
    decimal_round_trip(n);
    lemma_digits_end(s, 0, d.len() as int);
    assert(s.take(d.len() as int) =~= d);
}

proof fn lemma_digits_end(s: Seq<char>, from: int, k: int)
    requires
        0 <= from <= k <= s.len(),
        forall|i: int| 0 <= i < k ==> is_digit(#[trigger] s[i]),
        k < s.len() ==> !is_digit(s[k]),
    ensures
        digits_end(s, from) == k,
    decreases k - from,
{
    if from < k {
        lemma_digits_end(s, from + 1, k);
    }
}

} // verus!

//! Calendar dates of UTC epochs.
use crate::num::{dec, push_dec};
use vstd::prelude::*;
use vstd::string::*;

verus! {

pub open spec fn is_leap(y: nat) -> bool {
    y % 4 == 0 && (y % 100 != 0 || y % 400 == 0)
}

pub open spec fn year_len(y: nat) -> nat {
    if is_leap(y) {
        366
    } else {
        365
    }
}

pub open spec fn month_len(y: nat, m: nat) -> nat {
    if m == 2 {
        if is_leap(y) {
            29
        } else {
            28
        }
    } else if m == 4 || m == 6 || m == 9 || m == 11 {
        30
    } else {
        31
    }
}

/// The year that is reached when whole years are counted off from `y` on, and
/// the days that are left.
pub open spec fn year_of(days: nat, y: nat) -> (nat, nat)
    decreases days,
{
    if days < year_len(y) {
        (y, days)
    } else {
        year_of((days - year_len(y)) as nat, y + 1)
    }
}

/// The month that is reached when whole months are counted off from `m` on,
/// and the days that are left.
pub open spec fn month_of(days: nat, y: nat, m: nat) -> (nat, nat)
    decreases days,
{
    if m >= 12 || days < month_len(y, m) {
        (m, days)
    } else {
        month_of((days - month_len(y, m)) as nat, y, m + 1)
    }
}

/// At least two digits.
pub open spec fn two(n: nat) -> Seq<char> {
    if n < 10 {
        "0"@ + dec(n)
    } else {
        dec(n)
    }
}

/// At least four digits.
pub open spec fn four(n: nat) -> Seq<char> {
    if n < 10 {
        "000"@ + dec(n)
    } else if n < 100 {
        "00"@ + dec(n)
    } else if n < 1000 {
        "0"@ + dec(n)
    } else {
        dec(n)
    }
}

/// The date of an epoch, `YYYY-MM-DD`.
pub open spec fn date_of(epoch: u64) -> Seq<char> {
    let y = year_of((epoch / 86_400) as nat, 1970);
    let m = month_of(y.1, y.0, 1);
    four(y.0) + "-"@ + two(m.0) + "-"@ + two(m.1 + 1)
}

/// The days of `n` years from `y` on.
spec fn days_of_years(y: nat, n: nat) -> nat
    decreases n,
{
    if n == 0 {
        0
    } else {
        days_of_years(y, (n - 1) as nat) + year_len((y + n - 1) as nat)
    }
}

/// The leap years before `y`.
spec fn leaps_before(y: nat) -> int {
    (y + 3) / 4 - (y + 99) / 100 + (y + 399) / 400
}

proof fn lemma_leaps_step(y: nat)
    ensures
        leaps_before(y + 1) == leaps_before(y) + if is_leap(y) {
            1int
        } else {
            0int
        },
{
    assert((y + 4) / 4 == (y + 3) / 4 + if y % 4 == 0 {
        1int
    } else {
        0int
    });
    assert((y + 100) / 100 == (y + 99) / 100 + if y % 100 == 0 {
        1int
    } else {
        0int
    });
    assert((y + 400) / 400 == (y + 399) / 400 + if y % 400 == 0 {
        1int
    } else {
        0int
    });
    assert(y % 100 == 0 ==> y % 4 == 0) by {
        if y % 100 == 0 {
            assert(y == 4 * (25 * (y / 100)));
        }
    }
    assert(y % 400 == 0 ==> y % 100 == 0) by {
        if y % 400 == 0 {
            assert(y == 100 * (4 * (y / 400)));
        }
    }
}

proof fn lemma_days_of_years(y: nat, n: nat)
    ensures
        days_of_years(y, n) == 365 * n + leaps_before(y + n) - leaps_before(y),
    decreases n,
{
    if n > 0 {
        lemma_days_of_years(y, (n - 1) as nat);
        lemma_leaps_step((y + n - 1) as nat);
    }
}

proof fn lemma_cycle(y: nat)
    ensures
        days_of_years(y, 400) == 146_097,
{
    lemma_days_of_years(y, 400);
    assert((y + 403) / 4 == (y + 3) / 4 + 100);
    assert((y + 499) / 100 == (y + 99) / 100 + 4);
    assert((y + 799) / 400 == (y + 399) / 400 + 1);
}

proof fn lemma_skip_years(days: nat, y: nat, n: nat)
    requires
        days >= days_of_years(y, n),
    ensures
        year_of(days, y) == year_of((days - days_of_years(y, n)) as nat, y + n),
    decreases n,
{
    if n > 0 {
        lemma_skip_years(days, y, (n - 1) as nat);
    }
}

proof fn lemma_skip_cycles(days: nat, y: nat, k: nat)
    requires
        days >= 146_097 * k,
    ensures
        year_of(days, y) == year_of((days - 146_097 * k) as nat, y + 400 * k),
    decreases k,
{
    if k > 0 {
        lemma_cycle(y);
        lemma_skip_years(days, y, 400);
        lemma_skip_cycles((days - 146_097) as nat, y + 400, (k - 1) as nat);
    }
}

proof fn lemma_year_bound(days: nat, y: nat)
    ensures
        year_of(days, y).1 < 366,
        year_of(days, y).0 <= y + days / 365,
    decreases days,
{
    if days >= year_len(y) {
        lemma_year_bound((days - year_len(y)) as nat, y + 1);
    }
}

fn leap(y: u64) -> (r: bool)
    ensures
        r == is_leap(y as nat),
{
    y % 4 == 0 && (y % 100 != 0 || y % 400 == 0)
}

fn days_in_month(y: u64, m: u64) -> (r: u64)
    ensures
        r as nat == month_len(y as nat, m as nat),
{
    if m == 2 {
        if leap(y) {
            29
        } else {
            28
        }
    } else if m == 4 || m == 6 || m == 9 || m == 11 {
        30
    } else {
        31
    }
}

fn push_two(out: &mut String, n: u64)
    ensures
        final(out)@ == old(out)@ + two(n as nat),
{
    let ghost before = out@;
    if n < 10 {
        out.append("0");
    }
    push_dec(out, n as u128);
    assert(out@ =~= before + two(n as nat));
}

fn push_four(out: &mut String, n: u64)
    ensures
        final(out)@ == old(out)@ + four(n as nat),
{
    let ghost before = out@;
    if n < 10 {
        out.append("000");
    } else if n < 100 {
        out.append("00");
    } else if n < 1000 {
        out.append("0");
    }
    push_dec(out, n as u128);
    assert(out@ =~= before + four(n as nat));
}

/// The date of an epoch, `YYYY-MM-DD`.
pub fn date_from_epoch(epoch: u64) -> (r: String)
    ensures
        r@ == date_of(epoch),
{
    let all = epoch / 86_400;
    let cycles = all / 146_097;
    let mut days = all % 146_097;
    let mut y: u64 = 1970 + 400 * cycles;
    proof {
        assert(all - 146_097 * cycles == days);
        lemma_skip_cycles(all as nat, 1970, cycles as nat);
        lemma_year_bound(days as nat, y as nat);
    }
    let ghost top = y + days / 365;
    loop
        invariant
            year_of(all as nat, 1970) == year_of(days as nat, y as nat),
            days < 146_097,
            y + days / 365 <= top,
            top < 0x1000_0000_0000_0000,
        ensures
            year_of(all as nat, 1970) == (y as nat, days as nat),
            days < 366,
        decreases days,
    {
        let len: u64 = if leap(y) {
            366
        } else {
            365
        };
        if days < len {
            break;
        }
        days -= len;
        y += 1;
    }
    let mut m: u64 = 1;
    while m < 12 && days >= days_in_month(y, m)
        invariant
            1 <= m <= 12,
            days < 366,
            month_of(year_of(all as nat, 1970).1, y as nat, 1) == month_of(
                days as nat,
                y as nat,
                m as nat,
            ),
        decreases 12 - m,
    {
        days -= days_in_month(y, m);
        m += 1;
    }
    let mut out = String::new();
    push_four(&mut out, y);
    assert(out@ =~= four(y as nat));
    out.append("-");
    push_two(&mut out, m);
    out.append("-");
    push_two(&mut out, days + 1);
    out
}

// ------------------------------------------------------------------------- laws

/// The days from 1970 to the start of a year.
pub open spec fn days_to_year(y: nat) -> nat
    decreases y,
{
    if y <= 1970 {
        0
    } else {
        days_to_year((y - 1) as nat) + year_len((y - 1) as nat)
    }
}

/// Counting back from the year and the day in it gives the day again.
pub proof fn years_add_up(days: nat, y: nat)
    requires
        y >= 1970,
    ensures
        days_to_year(year_of(days, y).0) + year_of(days, y).1 == days_to_year(y) + days,
        year_of(days, y).0 >= y,
        year_of(days, y).1 < year_len(year_of(days, y).0),
    decreases days,
{
    if days >= year_len(y) {
        years_add_up((days - year_len(y)) as nat, y + 1);
    }
}

/// A year begins as many days after 1970 as the calendar has it: 365 for each year between,
/// and one more for each leap year, of which each fourth is one, but for those of whole
/// centuries that four hundred does not divide.
pub proof fn a_year_begins_where_the_calendar_has_it(y: nat)
    requires
        y >= 1970,
    ensures
        days_to_year(y) == 365 * (y - 1970) + (y - 1) / 4 - (y - 1) / 100 + (y - 1) / 400 - 477,
    decreases y,
{
    if y > 1970 {
        let x = (y - 1) as nat;
        a_year_begins_where_the_calendar_has_it(x);
        lemma_each_fourth(x as int);
        lemma_each_hundredth(x as int);
        lemma_each_four_hundredth(x as int);
        lemma_leap(x);
        assert(days_to_year(y) == days_to_year(x) + year_len(x));
    }
}

proof fn lemma_each_fourth(x: int)
    requires
        x > 0,
    ensures
        x / 4 == (x - 1) / 4 + (if x % 4 == 0 {
            1int
        } else {
            0
        }),
{
}

proof fn lemma_each_hundredth(x: int)
    requires
        x > 0,
    ensures
        x / 100 == (x - 1) / 100 + (if x % 100 == 0 {
            1int
        } else {
            0
        }),
{
}

proof fn lemma_each_four_hundredth(x: int)
    requires
        x > 0,
    ensures
        x / 400 == (x - 1) / 400 + (if x % 400 == 0 {
            1int
        } else {
            0
        }),
{
}

/// A year is longer by a day where it is divided by four, but for one divided by a hundred
/// and not by four hundred.
proof fn lemma_leap(x: nat)
    ensures
        year_len(x) == 365 + (if x % 4 == 0 {
            1int
        } else {
            0
        }) - (if x % 100 == 0 {
            1int
        } else {
            0
        }) + (if x % 400 == 0 {
            1int
        } else {
            0
        }),
{
    if x % 400 == 0 {
        assert(x % 100 == 0) by (nonlinear_arith)
            requires
                x % 400 == 0,
        ;
    }
    if x % 100 == 0 {
        assert(x % 4 == 0) by (nonlinear_arith)
            requires
                x % 100 == 0,
        ;
    }
}

/// The days of a year before a month, leap day left out.
pub open spec fn days_before_month(m: nat) -> nat {
    seq![0nat, 31, 59, 90, 120, 151, 181, 212, 243, 273, 304, 334][m - 1]
}

/// A day of a year is the days before its month, with the leap day where it is past, and the
/// day of the month.
pub proof fn a_day_falls_in_its_month(days: nat, y: nat)
    requires
        days < year_len(y),
    ensures
        ({
            let (m, d) = month_of(days, y, 1);
            let leap = y % 4 == 0 && (y % 100 != 0 || y % 400 == 0);
            let extra = if leap && m > 2 {
                1nat
            } else {
                0
            };
            &&& 1 <= m <= 12
            &&& days == days_before_month(m) + extra + d
            &&& m < 12 ==> days < days_before_month(m + 1) + (if leap && m >= 2 {
                1nat
            } else {
                0
            })
            &&& d < 31
        }),
{
    reveal_with_fuel(month_of, 13);
}

} // verus!

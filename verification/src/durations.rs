//! Short texts for spans of time: `18s`, `4m 6s`, `8h 15m`, `125d 18h`.
use vstd::prelude::*;

use crate::text::{chars_of, decimal, decimal_chars, string_from_chars};

verus! {

#[verifier::external_type_specification]
#[verifier::external_body]
pub struct ExTimeDelta(chrono::TimeDelta);

/// The whole seconds of a span, as `chrono::TimeDelta::num_seconds` counts
/// them (rounded toward zero): a function of the span alone.
pub uninterp spec fn spec_num_seconds(td: chrono::TimeDelta) -> i64;

/// `chrono::TimeDelta::num_seconds`: the whole seconds of the span. The
/// contract claims only that the result is determined by the span, which
/// chrono's source shows (it reads the span's seconds field and adjusts it
/// by the sign of the nanoseconds); what that number is stays unproved.
#[verifier::external_body]
fn whole_seconds(td: &chrono::TimeDelta) -> (r: i64)
    ensures
        r == spec_num_seconds(*td),
{
    td.num_seconds()
}

/// `a / b` as Rust divides integers: rounded toward zero.
pub open spec fn div_toward_zero(a: int, b: int) -> int {
    if a >= 0 {
        a / b
    } else {
        -((-a) / b)
    }
}

/// The decimal numeral of `n`, with a minus sign when it is negative.
pub open spec fn signed_decimal(n: int) -> Seq<char> {
    if n < 0 {
        "-"@ + decimal((-n) as nat)
    } else {
        decimal(n as nat)
    }
}

/// The text of a span of `seconds` seconds: days and hours, hours and
/// minutes, minutes and seconds (or minutes alone when asked to leave out
/// the seconds), or seconds. The whole days, hours and minutes are those
/// of `chrono::TimeDelta` (`num_days` is the whole seconds divided by
/// 86400, rounded toward zero, and so on).
pub open spec fn duration_text(seconds: int, try_to_exclude_seconds: bool) -> Seq<char> {
    let days = div_toward_zero(seconds, 86400);
    let hours = div_toward_zero(seconds, 3600);
    let minutes = div_toward_zero(seconds, 60);
    if days > 0 {
        signed_decimal(days) + "d "@ + signed_decimal(hours - days * 24) + "h"@
    } else if hours > 0 {
        signed_decimal(hours) + "h "@ + signed_decimal(minutes - hours * 60) + "m"@
    } else if minutes > 0 {
        if try_to_exclude_seconds {
            signed_decimal(minutes) + "m"@
        } else {
            signed_decimal(minutes) + "m "@ + signed_decimal(seconds - minutes * 60) + "s"@
        }
    } else {
        signed_decimal(seconds) + "s"@
    }
}

fn div_toward_zero_exec(a: i128, b: i128) -> (r: i128)
    requires
        b > 0,
        -0x1_0000_0000_0000_0000 <= a <= 0x1_0000_0000_0000_0000,
    ensures
        r == div_toward_zero(a as int, b as int),
        -0x1_0000_0000_0000_0000 <= r <= 0x1_0000_0000_0000_0000,
{
    if a >= 0 {
        a / b
    } else {
        let q = (-a) / b;
        -q
    }
}

fn signed_decimal_chars(n: i128) -> (r: Vec<char>)
    requires
        -0x1_0000_0000_0000_0000 <= n <= 0x1_0000_0000_0000_0000,
    ensures
        r@ == signed_decimal(n as int),
{
    if n < 0 {
        let mut r = chars_of("-");
        let digits = decimal_chars((-n) as u128);
        let mut i: usize = 0;
        let ghost start = r@;
        while i < digits.len()
            invariant
                i <= digits@.len(),
                r@ == start + digits@.take(i as int),
            decreases digits.len() - i,
        {
            r.push(digits[i]);
            proof {
                assert(digits@.take(i + 1) =~= digits@.take(i as int).push(digits@[i as int]));
            }
            i = i + 1;
        }
        proof {
            assert(digits@.take(digits@.len() as int) =~= digits@);
        }
        r
    } else {
        decimal_chars(n as u128)
    }
}

/// Append the characters of `tail` to `r`.
fn push_all(r: &mut Vec<char>, tail: Vec<char>)
    ensures
        final(r)@ == old(r)@ + tail@,
{
    let mut i: usize = 0;
    while i < tail.len()
        invariant
            i <= tail@.len(),
            r@ == old(r)@ + tail@.take(i as int),
        decreases tail.len() - i,
    {
        r.push(tail[i]);
        proof {
            assert(tail@.take(i + 1) =~= tail@.take(i as int).push(tail@[i as int]));
        }
        i = i + 1;
    }
    proof {
        assert(tail@.take(tail@.len() as int) =~= tail@);
    }
}

/// The text of a span of `seconds` whole seconds, as `duration_text` gives
/// it: `18s`, `4m 6s` (or `4m` when asked to leave out the seconds),
/// `8h 15m`, `125d 18h`.
pub fn format_seconds(seconds: i64, try_to_exclude_seconds: bool) -> (r: String)
    ensures
        r@ == duration_text(seconds as int, try_to_exclude_seconds),
{
    let s = seconds as i128;
    let days = div_toward_zero_exec(s, 86400);
    let hours = div_toward_zero_exec(s, 3600);
    let minutes = div_toward_zero_exec(s, 60);
    let mut r: Vec<char>;
    if days > 0 {
        assert(days <= 0x1_0000_0000_0000 && hours <= 0x1_0000_0000_0000_0000);
        r = signed_decimal_chars(days);
        push_all(&mut r, chars_of("d "));
        push_all(&mut r, signed_decimal_chars(hours - days * 24));
        push_all(&mut r, chars_of("h"));
    } else if hours > 0 {
        r = signed_decimal_chars(hours);
        push_all(&mut r, chars_of("h "));
        push_all(&mut r, signed_decimal_chars(minutes - hours * 60));
        push_all(&mut r, chars_of("m"));
    } else if minutes > 0 {
        r = signed_decimal_chars(minutes);
        if try_to_exclude_seconds {
            push_all(&mut r, chars_of("m"));
        } else {
            push_all(&mut r, chars_of("m "));
            push_all(&mut r, signed_decimal_chars(s - minutes * 60));
            push_all(&mut r, chars_of("s"));
        }
    } else {
        r = signed_decimal_chars(s);
        push_all(&mut r, chars_of("s"));
    }
    string_from_chars(&r)
}

/// Format a duration like one of these: `18s`, `4m 6s`, `5m 0s`, `8h 15m`,
/// `3d 4h`, `125d 18h`. The text is that of the span's whole seconds (as
/// chrono counts them), as `format_seconds` gives it.
pub fn format_duration(td: &chrono::TimeDelta, try_to_exclude_seconds: bool) -> (r: String)
    ensures
        r@ == duration_text(spec_num_seconds(*td) as int, try_to_exclude_seconds),
{
    let seconds = whole_seconds(td);
    format_seconds(seconds, try_to_exclude_seconds)
}

} // verus!

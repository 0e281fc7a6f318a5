//! The clock text shown on screen, and the wait until the next full second.
use vstd::prelude::*;
use crate::text::{
    all_digits, decimal, decimal_text, digits_value, lemma_decimal_reads_back, lemma_decimal_shape,
    lemma_zero_padded_reads_back, two_digit_text, zero_padded,
};

verus! {

/// A wall-clock time of day.
#[derive(Debug, Clone, Copy, PartialEq, Eq, Structural)]
pub struct ClockTime {
    pub hour: u32,
    pub minute: u32,
    pub second: u32,
}

/// The clock text: hours without padding, minutes and seconds in two digits.
pub struct DatetimeState {
    pub h: String,
    pub m: String,
    pub s: String,
}

/// The clock text of a time of day.
pub fn to_ui_datetime(time: ClockTime) -> (state: DatetimeState)
    ensures
        state.h@ == decimal(time.hour as nat),
        state.m@ == zero_padded(time.minute as nat, 2),
        state.s@ == zero_padded(time.second as nat, 2),
        all_digits(state.h@) && digits_value(state.h@) == time.hour,
        all_digits(state.m@) && digits_value(state.m@) == time.minute,
        all_digits(state.s@) && digits_value(state.s@) == time.second,
        time.hour > 0 ==> state.h@[0] != '0',
        time.minute < 100 ==> state.m@.len() == 2,
        time.second < 100 ==> state.s@.len() == 2,
{
    proof {
        lemma_clock_text(time);
    }
    DatetimeState {
        h: decimal_text(time.hour),
        m: two_digit_text(time.minute),
        s: two_digit_text(time.second),
    }
}

/// The clock text reads back as the time: each text is made of decimal digits and
/// denotes its number; the hour has no leading zero, and minutes and seconds below 100
/// take exactly two characters.
pub proof fn lemma_clock_text(time: ClockTime)
    ensures
        all_digits(decimal(time.hour as nat)) && digits_value(decimal(time.hour as nat)) == time.hour,
        time.hour > 0 ==> decimal(time.hour as nat)[0] != '0',
        all_digits(zero_padded(time.minute as nat, 2)) && digits_value(zero_padded(time.minute as nat, 2)) == time.minute,
        all_digits(zero_padded(time.second as nat, 2)) && digits_value(zero_padded(time.second as nat, 2)) == time.second,
        time.minute < 100 ==> zero_padded(time.minute as nat, 2).len() == 2,
        time.second < 100 ==> zero_padded(time.second as nat, 2).len() == 2,
{
    lemma_decimal_reads_back(time.hour as nat);
    lemma_decimal_shape(time.hour as nat);
    lemma_zero_padded_reads_back(time.minute as nat, 2);
    lemma_zero_padded_reads_back(time.second as nat, 2);
    lemma_decimal_shape(time.minute as nat);
    lemma_decimal_shape(time.second as nat);
}

/// The whole milliseconds left until the next full second when the clock stands at
/// `nanosecond` nanoseconds past a second; `None` when none are left.
pub fn wait_millis(nanosecond: u32) -> (ms: Option<u64>)
    requires
        nanosecond <= 1_000_000_000,
    ensures
        ms is None <==> (1_000_000_000 - nanosecond) / 1_000_000 == 0,
        ms matches Some(v) ==> v == (1_000_000_000 - nanosecond) / 1_000_000,
{
    let sleep_ms = (1_000_000_000 - nanosecond) / 1_000_000;
    if sleep_ms > 0 {
        Some(sleep_ms as u64)
    } else {
        None
    }
}

/// The wait never exceeds a second and ends within the last millisecond before the
/// next full second.
pub proof fn lemma_wait_reaches_next_second(nanosecond: u32)
    requires
        nanosecond <= 1_000_000_000,
    ensures
        ({
            let ms = (1_000_000_000 - nanosecond) / 1_000_000;
            &&& 0 <= ms <= 1000
            &&& nanosecond + ms * 1_000_000 <= 1_000_000_000
            &&& 1_000_000_000 < nanosecond + (ms + 1) * 1_000_000
        }),
{
    let r = 1_000_000_000 - nanosecond;
    assert(r / 1_000_000 * 1_000_000 <= r < (r / 1_000_000 + 1) * 1_000_000) by (nonlinear_arith)
        requires r >= 0;
}

} // verus!

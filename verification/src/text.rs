//! Decimal text of numbers, and the text of a date and time.
use vstd::prelude::*;
use vstd::string::*;
use crate::calendar::CivilTime;

verus! {

/// The character of a decimal digit.
pub open spec fn digit_char(n: int) -> char {
    if n == 0 { '0' }
    else if n == 1 { '1' }
    else if n == 2 { '2' }
    else if n == 3 { '3' }
    else if n == 4 { '4' }
    else if n == 5 { '5' }
    else if n == 6 { '6' }
    else if n == 7 { '7' }
    else if n == 8 { '8' }
    else { '9' }
}

/// The decimal digits of `n`, without leading zeros.
pub open spec fn decimal(n: nat) -> Seq<char>
    decreases n,
{
    if n < 10 {
        seq![digit_char(n as int)]
    } else {
        decimal(n / 10).push(digit_char((n % 10) as int))
    }
}

/// The decimal digits of `n`, with zeros in front up to `width` characters.
pub open spec fn zero_padded(n: nat, width: nat) -> Seq<char> {
    let digits = decimal(n);
    if digits.len() < width {
        Seq::new((width - digits.len()) as nat, |i: int| '0') + digits
    } else {
        digits
    }
}

/// A year as `%Y` writes it: four digits with leading zeros for years 0 to 9999, and
/// otherwise a sign followed by at least four digits.
pub open spec fn year_text(y: int) -> Seq<char> {
    if 0 <= y <= 9999 {
        zero_padded(y as nat, 4)
    } else if y > 9999 {
        seq!['+'] + zero_padded(y as nat, 4)
    } else {
        seq!['-'] + zero_padded((-y) as nat, 4)
    }
}

/// Two decimal digits of a number below 100.
pub open spec fn two_digits(n: int) -> Seq<char> {
    seq![digit_char(n / 10), digit_char(n % 10)]
}

/// The text `YYYY-MM-DD HH:MM:SS` of a date and time.
pub open spec fn datetime_text(t: CivilTime) -> Seq<char> {
    year_text(t.year) + seq!['-'] + two_digits(t.month) + seq!['-'] + two_digits(t.day)
        + seq![' '] + two_digits(t.hour) + seq![':'] + two_digits(t.minute) + seq![':']
        + two_digits(t.second)
}

/// The pattern `%Y-%m-%d %H:%M:%S`.
pub open spec fn datetime_pattern() -> Seq<char> {
    seq!['%', 'Y', '-', '%', 'm', '-', '%', 'd', ' ', '%', 'H', ':', '%', 'M', ':', '%', 'S']
}

fn append_digit(s: &mut String, d: u32)
    requires
        d < 10,
    ensures
        final(s)@ == old(s)@.push(digit_char(d as int)),
{
    proof {
        reveal_strlit("0");
        reveal_strlit("1");
        reveal_strlit("2");
        reveal_strlit("3");
        reveal_strlit("4");
        reveal_strlit("5");
        reveal_strlit("6");
        reveal_strlit("7");
        reveal_strlit("8");
        reveal_strlit("9");
    }
    let digit = if d == 0 { "0" }
        else if d == 1 { "1" }
        else if d == 2 { "2" }
        else if d == 3 { "3" }
        else if d == 4 { "4" }
        else if d == 5 { "5" }
        else if d == 6 { "6" }
        else if d == 7 { "7" }
        else if d == 8 { "8" }
        else { "9" };
    assert(digit@ == seq![digit_char(d as int)]);
    s.append(digit);
}

/// Appends the decimal digits of `n`.
pub fn append_decimal(s: &mut String, n: u32)
    ensures
        final(s)@ == old(s)@ + decimal(n as nat),
    decreases n,
{
    if n >= 10 {
        append_decimal(s, n / 10);
        append_digit(s, n % 10);
        assert(old(s)@ + decimal(n as nat) =~= old(s)@ + decimal((n / 10) as nat) + seq![digit_char((n % 10) as int)]);
    } else {
        append_digit(s, n);
        assert(old(s)@ + decimal(n as nat) =~= old(s)@.push(digit_char(n as int)));
    }
}

proof fn lemma_decimal_short(n: nat)
    ensures
        n < 10 ==> decimal(n).len() == 1,
        n >= 10 ==> decimal(n).len() >= 2,
    decreases n,
{
    if n >= 10 {
        lemma_decimal_short(n / 10);
    }
}

/// The decimal digits of `n`, with a leading zero when `n` is below 10.
pub fn two_digit_text(n: u32) -> (s: String)
    ensures
        s@ == zero_padded(n as nat, 2),
{
    let mut s = String::new();
    proof {
        lemma_decimal_short(n as nat);
    }
    if n < 10 {
        append_digit(&mut s, 0);
    }
    append_decimal(&mut s, n);
    proof {
        if n < 10 {
            assert(Seq::new(1nat, |i: int| '0') =~= seq!['0']);
            assert(s@ =~= zero_padded(n as nat, 2));
        } else {
            assert(s@ =~= zero_padded(n as nat, 2));
        }
    }
    s
}

/// The decimal digits of `n`.
pub fn decimal_text(n: u32) -> (s: String)
    ensures
        s@ == decimal(n as nat),
{
    let mut s = String::new();
    append_decimal(&mut s, n);
    assert(s@ =~= decimal(n as nat));
    s
}

/// The number a string of decimal digits denotes, reading each character by its code:
/// the character `c` stands for the digit `c - '0'`.
pub open spec fn digits_value(s: Seq<char>) -> int
    decreases s.len(),
{
    if s.len() == 0 {
        0
    } else {
        digits_value(s.drop_last()) * 10 + (s.last() as int - '0' as int)
    }
}

/// Every character is a decimal digit, `'0'` to `'9'`.
pub open spec fn all_digits(s: Seq<char>) -> bool {
    forall|i: int| 0 <= i < s.len() ==> '0' as int <= #[trigger] s[i] as int <= '9' as int
}

/// The character written for digit `d` is the character `d` places after `'0'`.
pub proof fn lemma_digit_char_code(d: int)
    requires
        0 <= d <= 9,
    ensures
        digit_char(d) as int == '0' as int + d,
{
    assert('0' as int == 48 && '1' as int == 49 && '2' as int == 50 && '3' as int == 51
        && '4' as int == 52 && '5' as int == 53 && '6' as int == 54 && '7' as int == 55
        && '8' as int == 56 && '9' as int == 57);
}

/// The decimal text of `n` is made of digits and reads back as `n`.
pub proof fn lemma_decimal_reads_back(n: nat)
    ensures
        all_digits(decimal(n)),
        digits_value(decimal(n)) == n,
        decimal(n).len() >= 1,
    decreases n,
{
    if n < 10 {
        lemma_digit_char_code(n as int);
        assert(decimal(n).drop_last() =~= Seq::<char>::empty());
        assert(digits_value(Seq::<char>::empty()) == 0);
        assert(decimal(n).last() == digit_char(n as int));
        assert(digits_value(decimal(n)) == digits_value(decimal(n).drop_last()) * 10 + (decimal(n).last() as int - '0' as int));
    } else {
        lemma_decimal_reads_back(n / 10);
        lemma_digit_char_code((n % 10) as int);
        assert(decimal(n).drop_last() =~= decimal(n / 10));
        assert(decimal(n).last() == digit_char((n % 10) as int));
        assert(digits_value(decimal(n)) == digits_value(decimal(n).drop_last()) * 10 + (decimal(n).last() as int - '0' as int));
        assert(n == (n / 10) * 10 + n % 10);
        assert forall|i: int| 0 <= i < decimal(n).len() implies '0' as int <= #[trigger] decimal(n)[i] as int <= '9' as int by {
            if i < decimal(n).len() - 1 {
                assert(decimal(n)[i] == decimal(n / 10)[i]);
            }
        }
    }
}

proof fn lemma_leading_zeros(k: nat, s: Seq<char>)
    ensures
        digits_value(Seq::new(k, |i: int| '0') + s) == digits_value(s) + digits_value(Seq::new(k, |i: int| '0')) * pow10(s.len()),
        digits_value(Seq::new(k, |i: int| '0')) == 0,
    decreases s.len() + k,
{
    let z = Seq::new(k, |i: int| '0');
    if k > 0 {
        lemma_leading_zeros((k - 1) as nat, seq![]);
        assert(z.drop_last() =~= Seq::new((k - 1) as nat, |i: int| '0'));
        assert(Seq::new((k - 1) as nat, |i: int| '0') + Seq::<char>::empty() =~= Seq::new((k - 1) as nat, |i: int| '0'));
    }
    if s.len() > 0 {
        lemma_leading_zeros(k, s.drop_last());
        assert((z + s).drop_last() =~= z + s.drop_last());
    } else {
        assert(z + s =~= z);
    }
}

spec fn pow10(n: nat) -> int
    decreases n,
{
    if n == 0 { 1 } else { 10 * pow10((n - 1) as nat) }
}

/// Padding with zeros keeps a decimal text made of digits, reading back as the number.
pub proof fn lemma_zero_padded_reads_back(n: nat, width: nat)
    ensures
        all_digits(zero_padded(n, width)),
        digits_value(zero_padded(n, width)) == n,
        zero_padded(n, width).len() >= width,
{
    lemma_decimal_reads_back(n);
    let d = decimal(n);
    if d.len() < width {
        let k = (width - d.len()) as nat;
        lemma_leading_zeros(k, d);
        assert forall|i: int| 0 <= i < zero_padded(n, width).len() implies
            '0' as int <= #[trigger] zero_padded(n, width)[i] as int <= '9' as int by {
            if i >= k {
                assert(zero_padded(n, width)[i] == d[i - k]);
            }
        }
    }
}

/// The decimal text of a number has no leading zero, and a number below 100 padded to
/// two places has exactly two characters.
pub proof fn lemma_decimal_shape(n: nat)
    ensures
        n > 0 ==> decimal(n)[0] != '0',
        n < 100 ==> zero_padded(n, 2).len() == 2,
    decreases n,
{
    lemma_decimal_reads_back(n);
    if n >= 10 {
        lemma_decimal_shape(n / 10);
        assert(decimal(n)[0] == decimal(n / 10)[0]);
        if n < 100 {
            lemma_decimal_reads_back(n / 10);
            assert(decimal(n / 10).len() == 1);
        }
    } else {
        lemma_digit_char_code(n as int);
    }
}

proof fn lemma_decimal_len_bound(n: nat, k: nat)
    requires
        k >= 1,
        n < pow10(k),
    ensures
        decimal(n).len() <= k,
    decreases k,
{
    if n >= 10 {
        if k == 1 {
            assert(pow10(1) == 10);
        } else {
            assert(n / 10 < pow10((k - 1) as nat));
            lemma_decimal_len_bound(n / 10, (k - 1) as nat);
        }
    }
}

/// Two digits of a number below 100 read back as the number.
pub proof fn lemma_two_digits_read_back(n: int)
    requires
        0 <= n < 100,
    ensures
        two_digits(n).len() == 2,
        all_digits(two_digits(n)),
        digits_value(two_digits(n)) == n,
{
    lemma_digit_char_code(n / 10);
    lemma_digit_char_code(n % 10);
    let t = two_digits(n);
    assert(t.drop_last() =~= seq![digit_char(n / 10)]);
    assert(seq![digit_char(n / 10)].drop_last() =~= Seq::<char>::empty());
    assert(digits_value(Seq::<char>::empty()) == 0);
    assert(digits_value(seq![digit_char(n / 10)]) == n / 10);
}

/// The text of a date and time in the years 0 to 9999 is `YYYY-MM-DD HH:MM:SS`: 19
/// characters, with the year, month, day, hour, minute and second reading back from
/// their places between the separators.
pub proof fn lemma_datetime_text_fields(t: CivilTime)
    requires
        0 <= t.year <= 9999,
        0 <= t.month < 100,
        0 <= t.day < 100,
        0 <= t.hour < 100,
        0 <= t.minute < 100,
        0 <= t.second < 100,
    ensures
        datetime_text(t).len() == 19,
        datetime_text(t)[4] == '-' && datetime_text(t)[7] == '-' && datetime_text(t)[10] == ' '
            && datetime_text(t)[13] == ':' && datetime_text(t)[16] == ':',
        all_digits(datetime_text(t).subrange(0, 4)) && digits_value(datetime_text(t).subrange(0, 4)) == t.year,
        all_digits(datetime_text(t).subrange(5, 7)) && digits_value(datetime_text(t).subrange(5, 7)) == t.month,
        all_digits(datetime_text(t).subrange(8, 10)) && digits_value(datetime_text(t).subrange(8, 10)) == t.day,
        all_digits(datetime_text(t).subrange(11, 13)) && digits_value(datetime_text(t).subrange(11, 13)) == t.hour,
        all_digits(datetime_text(t).subrange(14, 16)) && digits_value(datetime_text(t).subrange(14, 16)) == t.minute,
        all_digits(datetime_text(t).subrange(17, 19)) && digits_value(datetime_text(t).subrange(17, 19)) == t.second,
{
    let y = year_text(t.year);
    lemma_zero_padded_reads_back(t.year as nat, 4);
    assert(pow10(4) == 10000) by {
        assert(pow10(0) == 1);
        assert(pow10(1) == 10);
        assert(pow10(2) == 100);
        assert(pow10(3) == 1000);
    }
    lemma_decimal_len_bound(t.year as nat, 4);
    assert(y.len() == 4);
    lemma_two_digits_read_back(t.month);
    lemma_two_digits_read_back(t.day);
    lemma_two_digits_read_back(t.hour);
    lemma_two_digits_read_back(t.minute);
    lemma_two_digits_read_back(t.second);
    let s = datetime_text(t);
    assert(s.subrange(0, 4) =~= y);
    assert(s.subrange(5, 7) =~= two_digits(t.month));
    assert(s.subrange(8, 10) =~= two_digits(t.day));
    assert(s.subrange(11, 13) =~= two_digits(t.hour));
    assert(s.subrange(14, 16) =~= two_digits(t.minute));
    assert(s.subrange(17, 19) =~= two_digits(t.second));
}

} // verus!

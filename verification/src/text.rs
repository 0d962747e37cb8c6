//! Text made of literals and numbers.
use vstd::prelude::*;
use vstd::string::*;

verus! {

/// The digit of a number below ten.
pub open spec fn digit(d: nat) -> char {
    seq!['0', '1', '2', '3', '4', '5', '6', '7', '8', '9'][d as int]
}

/// A number written in decimal, without leading zeros.
pub open spec fn decimal(n: nat) -> Seq<char>
    decreases n,
{
    if n < 10 {
        seq![digit(n)]
    } else {
        decimal(n / 10).push(digit(n % 10))
    }
}

/// A number is written digit by digit from the most significant one, which is
/// no zero unless the number is zero.
pub proof fn law_a_number_is_written_digit_by_digit(n: nat, d: nat)
    requires
        d < 10,
    ensures
        decimal(d) == seq![digit(d)],
        n > 0 ==> decimal(10 * n + d) == decimal(n).push(digit(d)),
        n > 0 ==> decimal(n)[0] != '0',
        digit(d) as u32 == '0' as u32 + d,
        decimal(n).len() > 0,
    decreases n,
{
    if n > 0 {
        assert((10 * n + d) / 10 == n);
        assert((10 * n + d) % 10 == d);
        if n >= 10 {
            law_a_number_is_written_digit_by_digit(n / 10, d);
        }
    }
}

/// A range is written as its start, two dots and its end.
pub proof fn law_a_range_is_written_with_two_dots(start: u64, end: u64)
    ensures
        range_chars(start, end) == decimal(start as nat) + seq!['.', '.'] + decimal(end as nat),
{
    reveal_strlit("..");
    assert(".."@ =~= seq!['.', '.']);
}

/// The digit of a number below ten.
fn digit_text(d: u64) -> (text: &'static str)
    requires
        d < 10,
    ensures
        text@ == seq![digit(d as nat)],
{
    proof {
        reveal_strlit("0");
        reveal_strlit("1");
        reveal_strlit("2");
        reveal_strlit("3");
        reveal_strlit("4");
        reveal_strlit("5");
        reveal_strlit("6");
        reveal_strlit("7");
        reveal_strlit("8");
        reveal_strlit("9");
    }
    let text: &'static str = match d {
        0 => "0",
        1 => "1",
        2 => "2",
        3 => "3",
        4 => "4",
        5 => "5",
        6 => "6",
        7 => "7",
        8 => "8",
        _ => "9",
    };
    assert(text@ =~= seq![digit(d as nat)]);
    text
}

/// Writes a number in decimal.
pub fn decimal_text(n: u64) -> (text: String)
    ensures
        text@ == decimal(n as nat),
    decreases n,
{
    if n < 10 {
        digit_text(n).to_owned()
    } else {
        let mut text = decimal_text(n / 10);
        text.append(digit_text(n % 10));
        assert(text@ =~= decimal((n / 10) as nat).push(digit((n % 10) as nat)));
        text
    }
}

/// Whether two texts are the same.
pub fn text_is(text: &str, other: &str) -> (same: bool)
    ensures
        same == (text@ == other@),
{
    let text: String = text.to_owned();
    let other: String = other.to_owned();
    text.eq(&other)
}

/// A half-open range of numbers as text: its bounds with two dots between.
pub open spec fn range_chars(start: u64, end: u64) -> Seq<char> {
    decimal(start as nat) + ".."@ + decimal(end as nat)
}

/// Writes a half-open range of numbers as text.
pub fn range_text(start: u64, end: u64) -> (text: String)
    ensures
        text@ == range_chars(start, end),
{
    let mut text = decimal_text(start);
    text.append("..");
    text.append(decimal_text(end).as_str());
    text
}

} // verus!

use vstd::prelude::*;

verus! {

/// The ten decimal digits; a digit's position is its value.
pub const DECIMALS: &'static str = "0123456789";

/// A number in base ten, most significant digit first, without leading
/// zeros; zero is written as one digit.
pub open spec fn decimal_text(n: nat) -> Seq<char>
    decreases n,
{
    if n < 10 {
        seq![DECIMALS@[n as int]]
    } else {
        decimal_text(n / 10).push(DECIMALS@[(n % 10) as int])
    }
}

/// The last `width` digits of a number in base ten, with zeros in front
/// where the number is short.
pub open spec fn fixed_text(n: nat, width: nat) -> Seq<char>
    decreases width,
{
    if width == 0 {
        Seq::empty()
    } else {
        fixed_text(n / 10, (width - 1) as nat).push(DECIMALS@[(n % 10) as int])
    }
}

/// A coordinate field, which counts units of 1e-7 degree, as text in
/// degrees, rounded to six decimals, halves away from zero: a minus sign where
/// the value is negative, the whole degrees, a point, and six decimals.
pub open spec fn degrees_text(value: int) -> Seq<char> {
    let size = if value < 0 { -value } else { value };
    let millionths = (size + 5) / 10;
    let sign = if value < 0 { seq!['-'] } else { Seq::<char>::empty() };
    sign + decimal_text((millionths / 1_000_000) as nat) + seq!['.'] + fixed_text(
        (millionths % 1_000_000) as nat,
        6,
    )
}

/// Writes a number in base ten at the end of a text.
pub fn push_decimal(text: &mut String, n: u64)
    ensures
        final(text)@ == old(text)@ + decimal_text(n as nat),
    decreases n,
{
    proof {
        reveal_strlit("0123456789");
    }
    if n >= 10 {
        push_decimal(text, n / 10);
    }
    text.push(DECIMALS.get_char((n % 10) as usize));
    assert(text@ =~= old(text)@ + decimal_text(n as nat));
}

/// Writes the last `width` digits of a number at the end of a text.
pub fn push_fixed(text: &mut String, n: u64, width: usize)
    ensures
        final(text)@ == old(text)@ + fixed_text(n as nat, width as nat),
    decreases width,
{
    proof {
        reveal_strlit("0123456789");
    }
    if width > 0 {
        push_fixed(text, n / 10, width - 1);
        text.push(DECIMALS.get_char((n % 10) as usize));
    }
    assert(text@ =~= old(text)@ + fixed_text(n as nat, width as nat));
}

/// A coordinate field as text, in degrees with six decimals.
pub fn format_degrees(value: i64) -> (text: String)
    ensures
        text@ == degrees_text(value as int),
{
    let size: u64 = if value < 0 { (-(value + 1)) as u64 + 1 } else { value as u64 };
    let millionths = (size + 5) / 10;
    let mut text = String::new();
    if value < 0 {
        text.push('-');
    }
    push_decimal(&mut text, millionths / 1_000_000);
    text.push('.');
    push_fixed(&mut text, millionths % 1_000_000, 6);
    assert(text@ =~= degrees_text(value as int));
    text
}

} // verus!

//! Rendering a length of time as text.
use vstd::prelude::*;
use vstd::string::StringExecFns;

verus! {

/// The character of the decimal digit `d`.
pub open spec fn digit(d: int) -> char {
    if d == 0 {
        '0'
    } else if d == 1 {
        '1'
    } else if d == 2 {
        '2'
    } else if d == 3 {
        '3'
    } else if d == 4 {
        '4'
    } else if d == 5 {
        '5'
    } else if d == 6 {
        '6'
    } else if d == 7 {
        '7'
    } else if d == 8 {
        '8'
    } else {
        '9'
    }
}

/// The decimal numeral of `n`, without leading zeros.
pub open spec fn decimal(n: nat) -> Seq<char>
    decreases n,
{
    if n < 10 {
        seq![digit(n as int)]
    } else {
        decimal(n / 10).push(digit((n % 10) as int))
    }
}

/// The decimal numeral of `n` in at least two digits.
pub open spec fn two_digits(n: nat) -> Seq<char> {
    if n < 10 {
        seq!['0'] + decimal(n)
    } else {
        decimal(n)
    }
}

/// A length of time as `hours:minutes:seconds.nanoseconds`, the minutes and
/// seconds in two digits.
pub open spec fn pretty_time_spec(seconds: u64, nanos: u32) -> Seq<char> {
    decimal((seconds / 3600) as nat) + seq![':'] + two_digits(((seconds / 60) % 60) as nat)
        + seq![':'] + two_digits((seconds % 60) as nat) + seq!['.'] + decimal(nanos as nat)
}

fn digit_text(d: u64) -> (r: &'static str)
    requires
        d < 10,
    ensures
        r@ == seq![digit(d as int)],
{
    proof {
        reveal_strlit("0");
        reveal_strlit("1");
        reveal_strlit("2");
        reveal_strlit("3");
        reveal_strlit("4");
        reveal_strlit("5");
        reveal_strlit("6");
        reveal_strlit("7");
        reveal_strlit("8");
        reveal_strlit("9");
    }
    let r = if d == 0 {
        "0"
    } else if d == 1 {
        "1"
    } else if d == 2 {
        "2"
    } else if d == 3 {
        "3"
    } else if d == 4 {
        "4"
    } else if d == 5 {
        "5"
    } else if d == 6 {
        "6"
    } else if d == 7 {
        "7"
    } else if d == 8 {
        "8"
    } else {
        "9"
    };
    assert(r@ =~= seq![digit(d as int)]);
    r
}

/// Appends the decimal numeral of `n` to `text`.
fn push_decimal(text: &mut String, n: u64)
    ensures
        final(text)@ == old(text)@ + decimal(n as nat),
    decreases n,
{
    if n >= 10 {
        push_decimal(text, n / 10);
    }
    text.append(digit_text(n % 10));
    proof {
        if n >= 10 {
            assert(final(text)@ =~= old(text)@ + decimal(n as nat));
        } else {
            assert(final(text)@ =~= old(text)@ + decimal(n as nat));
        }
    }
}

/// Appends the decimal numeral of `n` in at least two digits to `text`.
fn push_two_digits(text: &mut String, n: u64)
    ensures
        final(text)@ == old(text)@ + two_digits(n as nat),
{
    if n < 10 {
        proof {
            reveal_strlit("0");
        }
        text.append("0");
    }
    push_decimal(text, n);
    proof {
        assert(final(text)@ =~= old(text)@ + two_digits(n as nat));
    }
}

/// Renders a length of time, given in whole seconds and the nanoseconds
/// beyond them, as `hours:minutes:seconds.nanoseconds`.
pub fn pretty_time(seconds: u64, nanos: u32) -> (r: String)
    ensures
        r@ == pretty_time_spec(seconds, nanos),
{
    let whole_minutes = seconds / 60;
    let second = seconds % 60;
    let hours = whole_minutes / 60;
    let minute = whole_minutes % 60;
    proof {
        reveal_strlit(":");
        reveal_strlit(".");
    }
    let mut text = String::new();
    push_decimal(&mut text, hours);
    text.append(":");
    push_two_digits(&mut text, minute);
    text.append(":");
    push_two_digits(&mut text, second);
    text.append(".");
    push_decimal(&mut text, nanos as u64);
    proof {
        assert(text@ =~= pretty_time_spec(seconds, nanos)) by {
            assert(":"@ =~= seq![':']);
            assert("."@ =~= seq!['.']);
        }
    }
    text
}

} // verus!

//! Decimal rendering of signed 64-bit values, proved against a
//! digit-by-digit specification of the decimal numeral.

use vstd::prelude::*;
use vstd::string::StringExecFns;

verus! {

pub open spec fn digit_char(d: int) -> char
    recommends
        0 <= d < 10,
{
    if d == 0 {
        '0'
    } else if d == 1 {
        '1'
    } else if d == 2 {
        '2'
    } else if d == 3 {
        '3'
    } else if d == 4 {
        '4'
    } else if d == 5 {
        '5'
    } else if d == 6 {
        '6'
    } else if d == 7 {
        '7'
    } else if d == 8 {
        '8'
    } else {
        '9'
    }
}

/// The decimal digits of a non-negative value, most significant first,
/// without leading zeros (zero itself is the single digit `0`).
pub open spec fn spec_digits(n: nat) -> Seq<char>
    decreases n,
{
    if n < 10 {
        seq![digit_char(n as int)]
    } else {
        spec_digits(n / 10).push(digit_char((n % 10) as int))
    }
}

/// The decimal numeral of a signed value: a minus sign for negative values,
/// then the digits of the magnitude.
pub open spec fn spec_decimal(v: int) -> Seq<char> {
    if v >= 0 {
        spec_digits(v as nat)
    } else {
        seq!['-'] + spec_digits((-v) as nat)
    }
}

fn digit_str(d: u64) -> (r: &'static str)
    requires
        d < 10,
    ensures
        r@ == seq![digit_char(d as int)],
{
    if d == 0 {
        proof {
            reveal_strlit("0");
            assert("0"@ =~= seq![digit_char(0)]);
        }
        "0"
    } else if d == 1 {
        proof {
            reveal_strlit("1");
            assert("1"@ =~= seq![digit_char(1)]);
        }
        "1"
    } else if d == 2 {
        proof {
            reveal_strlit("2");
            assert("2"@ =~= seq![digit_char(2)]);
        }
        "2"
    } else if d == 3 {
        proof {
            reveal_strlit("3");
            assert("3"@ =~= seq![digit_char(3)]);
        }
        "3"
    } else if d == 4 {
        proof {
            reveal_strlit("4");
            assert("4"@ =~= seq![digit_char(4)]);
        }
        "4"
    } else if d == 5 {
        proof {
            reveal_strlit("5");
            assert("5"@ =~= seq![digit_char(5)]);
        }
        "5"
    } else if d == 6 {
        proof {
            reveal_strlit("6");
            assert("6"@ =~= seq![digit_char(6)]);
        }
        "6"
    } else if d == 7 {
        proof {
            reveal_strlit("7");
            assert("7"@ =~= seq![digit_char(7)]);
        }
        "7"
    } else if d == 8 {
        proof {
            reveal_strlit("8");
            assert("8"@ =~= seq![digit_char(8)]);
        }
        "8"
    } else {
        proof {
            reveal_strlit("9");
            assert("9"@ =~= seq![digit_char(9)]);
        }
        "9"
    }
}

/// Append the decimal digits of `n` to `out`, most significant first.
pub fn push_digits(n: u64, out: &mut String)
    ensures
        final(out)@ == old(out)@ + spec_digits(n as nat),
    decreases n,
{
    if n >= 10 {
        push_digits(n / 10, out);
    }
    let d: u64 = n % 10;
    out.append(digit_str(d));
    proof {
        if n < 10 {
            assert(d == n);
            assert(old(out)@ + seq![digit_char(d as int)] =~= old(out)@ + spec_digits(n as nat));
        } else {
            assert((n / 10) as nat == (n as nat) / 10);
            assert((old(out)@ + spec_digits((n as nat) / 10)) + seq![digit_char(d as int)] =~= old(
                out,
            )@ + spec_digits(n as nat));
        }
    }
}

/// The decimal numeral of `v`, as a string.
pub fn decimal_string(v: i64) -> (r: String)
    ensures
        r@ == spec_decimal(v as int),
{
    let mut s = String::new();
    if v >= 0 {
        push_digits(v as u64, &mut s);
        proof {
            assert(Seq::<char>::empty() + spec_digits(v as nat) =~= spec_decimal(v as int));
        }
    } else {
        s.append("-");
        let m: u64 = ((-(v + 1)) as u64) + 1;
        proof {
            assert(m as int == -(v as int));
            reveal_strlit("-");
            assert("-"@ =~= seq!['-']);
        }
        push_digits(m, &mut s);
        proof {
            assert((Seq::<char>::empty() + "-"@) + spec_digits(m as nat) =~= spec_decimal(
                v as int,
            ));
        }
    }
    s
}

} // verus!

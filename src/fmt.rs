//! Decimal and hexadecimal text for numbers.

use vstd::prelude::*;
use vstd::string::StringExecFns;

verus! {

/// The lower-case digit for `d` in base sixteen (or ten).
pub open spec fn digit_char(d: nat) -> char {
    if d < 10 {
        ((48 + d) as u8) as char
    } else {
        ((87 + d) as u8) as char
    }
}

/// `v` written in base `b`, most significant digit first, without leading zeros.
pub open spec fn digits(v: nat, b: nat) -> Seq<char>
    decreases v via digits_decreases
{
    if b < 2 || v < b {
        seq![digit_char(v)]
    } else {
        digits(v / b, b) + seq![digit_char(v % b)]
    }
}

#[via_fn]
proof fn digits_decreases(v: nat, b: nat) {
    if !(b < 2 || v < b) {
        assert(v / b < v) by (nonlinear_arith)
            requires
                b >= 2,
                v >= b,
        ;
    }
}

/// The one-character text of digit `d`.
fn digit_str(d: u64) -> (r: &'static str)
    requires
        d < 16,
    ensures
        r@ == seq![digit_char(d as nat)],
{
    if d == 0 {
        proof {
            reveal_strlit("0");
        }
        "0"
    } else if d == 1 {
        proof {
            reveal_strlit("1");
        }
        "1"
    } else if d == 2 {
        proof {
            reveal_strlit("2");
        }
        "2"
    } else if d == 3 {
        proof {
            reveal_strlit("3");
        }
        "3"
    } else if d == 4 {
        proof {
            reveal_strlit("4");
        }
        "4"
    } else if d == 5 {
        proof {
            reveal_strlit("5");
        }
        "5"
    } else if d == 6 {
        proof {
            reveal_strlit("6");
        }
        "6"
    } else if d == 7 {
        proof {
            reveal_strlit("7");
        }
        "7"
    } else if d == 8 {
        proof {
            reveal_strlit("8");
        }
        "8"
    } else if d == 9 {
        proof {
            reveal_strlit("9");
        }
        "9"
    } else if d == 10 {
        proof {
            reveal_strlit("a");
        }
        "a"
    } else if d == 11 {
        proof {
            reveal_strlit("b");
        }
        "b"
    } else if d == 12 {
        proof {
            reveal_strlit("c");
        }
        "c"
    } else if d == 13 {
        proof {
            reveal_strlit("d");
        }
        "d"
    } else if d == 14 {
        proof {
            reveal_strlit("e");
        }
        "e"
    } else if d == 15 {
        proof {
            reveal_strlit("f");
        }
        "f"
    } else {
        proof {
            reveal_strlit("f");
        }
        "f"
    }
}

/// Appends `v` written in base `base` (10 or 16).
pub fn append_digits(s: &mut String, v: u64, base: u64)
    requires
        base == 10 || base == 16,
    ensures
        final(s)@ == old(s)@ + digits(v as nat, base as nat),
    decreases v,
{
    if v >= base {
        append_digits(s, v / base, base);
    }
    let ghost mid = s@;
    s.append(digit_str(v % base));
    proof {
        if v >= base {
            assert(s@ =~= old(s)@ + digits(v as nat, base as nat));
        } else {
            assert(v % base == v);
            assert(s@ =~= old(s)@ + digits(v as nat, base as nat));
        }
    }
}

} // verus!

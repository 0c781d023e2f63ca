//! Decimal formatting of numbers.

use vstd::prelude::*;
use vstd::string::StringExecFns;

verus! {

/// The character of decimal digit `d`.
pub open spec fn digit_char(d: nat) -> char {
    (48 + d) as char
}

/// Decimal digits of `n`, most significant first, without leading zeros.
pub open spec fn decimal(n: nat) -> Seq<char>
    decreases n,
{
    if n < 10 {
        seq![digit_char(n)]
    } else {
        decimal(n / 10).push(digit_char(n % 10))
    }
}

/// The one-character string of decimal digit `d`.
fn digit_str(d: u64) -> (s: &'static str)
    requires
        d < 10,
    ensures
        s@ == seq![digit_char(d as nat)],
{
    match d {
        0 => {
            proof {
                reveal_strlit("0");
            }
            "0"
        },
        1 => {
            proof {
                reveal_strlit("1");
            }
            "1"
        },
        2 => {
            proof {
                reveal_strlit("2");
            }
            "2"
        },
        3 => {
            proof {
                reveal_strlit("3");
            }
            "3"
        },
        4 => {
            proof {
                reveal_strlit("4");
            }
            "4"
        },
        5 => {
            proof {
                reveal_strlit("5");
            }
            "5"
        },
        6 => {
            proof {
                reveal_strlit("6");
            }
            "6"
        },
        7 => {
            proof {
                reveal_strlit("7");
            }
            "7"
        },
        8 => {
            proof {
                reveal_strlit("8");
            }
            "8"
        },
        _ => {
            proof {
                reveal_strlit("9");
            }
            "9"
        },
    }
}

/// Appends the decimal digits of `n` to `s`.
pub fn push_decimal(s: &mut String, n: u64)
    ensures
        final(s)@ == old(s)@ + decimal(n as nat),
    decreases n,
{
    if n >= 10 {
        push_decimal(s, n / 10);
    }
    s.append(digit_str(n % 10));
    assert(s@ =~= old(s)@ + decimal(n as nat));
}

/// Digits grouped in threes from the right, groups separated by commas.
pub open spec fn group_thousands(d: Seq<char>) -> Seq<char>
    decreases d.len(),
{
    if d.len() <= 3 {
        d
    } else {
        group_thousands(d.take(d.len() - 3)) + seq![','] + d.skip(d.len() - 3)
    }
}

/// The digits of `n` are those of `n / 1000` followed by its last three.
proof fn lemma_decimal_split(n: nat)
    requires
        n >= 1000,
    ensures
        decimal(n) == decimal(n / 1000) + seq![
            digit_char((n / 100) % 10),
            digit_char((n / 10) % 10),
            digit_char(n % 10),
        ],
        decimal(n / 1000).len() >= 1,
{
    assert(n / 10 / 10 == n / 100);
    assert(n / 100 / 10 == n / 1000);
    assert(decimal(n) == decimal(n / 10).push(digit_char(n % 10)));
    assert(decimal(n / 10) == decimal(n / 100).push(digit_char((n / 10) % 10)));
    assert(decimal(n / 100) == decimal(n / 1000).push(digit_char((n / 100) % 10)));
    assert(decimal(n) =~= decimal(n / 1000) + seq![
        digit_char((n / 100) % 10),
        digit_char((n / 10) % 10),
        digit_char(n % 10),
    ]);
    lemma_decimal_nonempty(n / 1000);
}

/// Every number has at least one digit.
proof fn lemma_decimal_nonempty(n: nat)
    ensures
        decimal(n).len() >= 1,
    decreases n,
{
    if n >= 10 {
        lemma_decimal_nonempty(n / 10);
    }
}

/// Appends the digits of `n` grouped by thousands.
fn push_grouped(s: &mut String, n: u64)
    ensures
        final(s)@ == old(s)@ + group_thousands(decimal(n as nat)),
    decreases n,
{
    if n < 1000 {
        push_decimal(s, n);
        proof {
            lemma_decimal_nonempty(n as nat);
            assert(decimal(n as nat).len() <= 3) by {
                if n >= 10 {
                    assert(decimal(n as nat) == decimal((n / 10) as nat).push(digit_char((n % 10) as nat)));
                    if n >= 100 {
                        assert(decimal((n / 10) as nat) == decimal((n / 100) as nat).push(
                            digit_char(((n / 10) % 10) as nat),
                        ));
                    }
                }
            }
        }
    } else {
        push_grouped(s, n / 1000);
        proof {
            reveal_strlit(",");
        }
        s.append(",");
        s.append(digit_str((n / 100) % 10));
        s.append(digit_str((n / 10) % 10));
        s.append(digit_str(n % 10));
        proof {
            lemma_decimal_split(n as nat);
            let d = decimal(n as nat);
            assert(d.take(d.len() - 3) =~= decimal((n / 1000) as nat));
            assert(s@ =~= old(s)@ + group_thousands(d));
        }
    }
}

/// Formats `n` with a comma between groups of three digits, e.g.
/// `1234567` as `1,234,567`.
pub fn format_number(n: u64) -> (r: String)
    ensures
        r@ == group_thousands(decimal(n as nat)),
{
    let mut out = String::new();
    push_grouped(&mut out, n);
    assert(out@ =~= group_thousands(decimal(n as nat)));
    out
}

} // verus!

//! Text in packets and in error messages.

use vstd::prelude::*;
use vstd::string::*;
use vstd::utf8::*;

verus! {

/// What `String::from_utf8_lossy` makes of `bytes` that are not UTF-8.
pub uninterp spec fn lossy_text(bytes: Seq<u8>) -> Seq<char>;

/// The text that `bytes` encode, with replacement characters for what is not UTF-8.
pub open spec fn decoded(bytes: Seq<u8>) -> Seq<char> {
    if valid_utf8(bytes) {
        decode_utf8(bytes)
    } else {
        lossy_text(bytes)
    }
}

/// The decimal digits of `n`.
pub open spec fn decimal(n: nat) -> Seq<char>
    decreases n,
{
    let digit = ('0' as nat + n % 10) as char;
    if n < 10 {
        seq![digit]
    } else {
        decimal(n / 10).push(digit)
    }
}

/// `String::from_utf8_lossy`: the text that `bytes` encode, with replacement
/// characters for what is not UTF-8. For bytes that are, it is the text they
/// encode; which replacements stand for other bytes is not stated.
#[verifier::external_body]
pub(crate) fn text_of(bytes: &[u8]) -> (t: String)
    ensures
        t@ == (if valid_utf8(bytes@) {
            decode_utf8(bytes@)
        } else {
            lossy_text(bytes@)
        }),
{
    String::from_utf8_lossy(bytes).into_owned()
}

/// The decimal digit `d`.
fn digit_text(d: u8) -> (t: &'static str)
    requires
        d < 10,
    ensures
        t@ == seq![('0' as nat + d as nat) as char],
{
    let t: &'static str = match d {
        0 => {
            proof {
                reveal_strlit("0");
            }
            "0"
        },
        1 => {
            proof {
                reveal_strlit("1");
            }
            "1"
        },
        2 => {
            proof {
                reveal_strlit("2");
            }
            "2"
        },
        3 => {
            proof {
                reveal_strlit("3");
            }
            "3"
        },
        4 => {
            proof {
                reveal_strlit("4");
            }
            "4"
        },
        5 => {
            proof {
                reveal_strlit("5");
            }
            "5"
        },
        6 => {
            proof {
                reveal_strlit("6");
            }
            "6"
        },
        7 => {
            proof {
                reveal_strlit("7");
            }
            "7"
        },
        8 => {
            proof {
                reveal_strlit("8");
            }
            "8"
        },
        _ => {
            proof {
                reveal_strlit("9");
            }
            "9"
        },
    };
    assert(t@ =~= seq![('0' as nat + d as nat) as char]);
    t
}

/// The decimal digits of `n`.
pub(crate) fn decimal_text(n: u8) -> (t: String)
    ensures
        t@ == decimal(n as nat),
    decreases n,
{
    let last: &'static str = digit_text(n % 10);
    if n < 10 {
        return String::from_str(last);
    }
    let t = decimal_text(n / 10).concat(last);
    assert(t@ =~= decimal(n as nat));
    t
}

/// `prefix` followed by the decimal digits of `n`.
pub fn with_number(prefix: &str, n: u8) -> (t: String)
    ensures
        t@ == prefix@ + decimal(n as nat),
{
    let digits = decimal_text(n);
    let text = String::from_str(prefix);
    text.concat(digits.as_str())
}

/// The number that decimal digits stand for.
pub open spec fn digits_value(digits: Seq<char>) -> int
    decreases digits.len(),
{
    if digits.len() == 0 {
        0
    } else {
        digits_value(digits.drop_last()) * 10 + (digits.last() as int - 48)
    }
}

/// The decimal digits of a number stand for it, without a zero in front.
pub proof fn law_decimal_stands_for_the_number(n: nat)
    ensures
        digits_value(decimal(n)) == n,
        decimal(n).len() > 0,
        n > 0 ==> decimal(n)[0] != '0',
        forall|i: int| 0 <= i < decimal(n).len() ==> 48 <= #[trigger] decimal(n)[i] as int <= 57,
    decreases n,
{
    let d = decimal(n);
    if n >= 10 {
        law_decimal_stands_for_the_number(n / 10);
        assert(d.drop_last() =~= decimal(n / 10));
    } else {
        assert(d.drop_last().len() == 0);
        assert(digits_value(d.drop_last()) == 0);
        assert(d.last() as int == 48 + n);
    }
}

} // verus!

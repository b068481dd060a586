//! Locale-independent number text: decimal integers, and fixed-point values
//! in thousandths printed with up to three decimals and no trailing zeros
//! (the SVG and JSON number format).

use vstd::prelude::*;

use crate::text::push_char;

verus! {

/// The ASCII digit of `d` (`d < 10`).
pub open spec fn digit_char(d: int) -> char {
    (d + 48) as char
}

/// The decimal digits of `n`, most significant first, without leading
/// zeros (`"0"` for zero).
pub open spec fn decimal_digits(n: nat) -> Seq<char>
    decreases n,
{
    if n < 10 {
        seq![digit_char(n as int)]
    } else {
        decimal_digits(n / 10).push(digit_char((n % 10) as int))
    }
}

/// The decimal text of an integer, with a leading `-` when negative.
pub open spec fn integer_text(v: int) -> Seq<char> {
    if v < 0 {
        seq!['-'] + decimal_digits((-v) as nat)
    } else {
        decimal_digits(v as nat)
    }
}

fn push_digit(out: &mut String, d: u64)
    requires
        d < 10,
    ensures
        final(out)@ == old(out)@.push(digit_char(d as int)),
{
    let b: u8 = (d as u8) + 48;
    push_char(out, b as char);
}

/// Append the decimal digits of `n`.
pub fn push_decimal(out: &mut String, n: u64)
    ensures
        final(out)@ == old(out)@ + decimal_digits(n as nat),
    decreases n,
{
    if n >= 10 {
        push_decimal(out, n / 10);
    }
    push_digit(out, n % 10);
    proof {
        if n < 10 {
            assert(final(out)@ =~= old(out)@ + decimal_digits(n as nat));
        } else {
            assert(final(out)@ =~= old(out)@ + decimal_digits(n as nat));
        }
    }
}

/// The magnitude of an `i64` as a `u64`.
fn magnitude(v: i64) -> (m: u64)
    ensures
        m == (if v < 0 {
            -v
        } else {
            v as int
        }),
{
    if v < 0 {
        if v == i64::MIN {
            9_223_372_036_854_775_808u64
        } else {
            (-v) as u64
        }
    } else {
        v as u64
    }
}

/// Append the decimal text of an integer.
pub fn push_integer(out: &mut String, v: i64)
    ensures
        final(out)@ == old(out)@ + integer_text(v as int),
{
    let ghost start = out@;
    if v < 0 {
        push_char(out, '-');
    }
    push_decimal(out, magnitude(v));
    assert(out@ =~= start + integer_text(v as int));
}

/// The decimal text of an integer.
pub fn integer_string(v: i64) -> (s: String)
    ensures
        s@ == integer_text(v as int),
{
    let mut s = String::new();
    push_integer(&mut s, v);
    s
}

/// The digits of a fraction in thousandths (`1 <= f < 1000`), trailing
/// zeros dropped.
pub open spec fn fraction_digits(f: int) -> Seq<char> {
    let d1 = f / 100;
    let d2 = (f / 10) % 10;
    let d3 = f % 10;
    if d3 != 0 {
        seq![digit_char(d1), digit_char(d2), digit_char(d3)]
    } else if d2 != 0 {
        seq![digit_char(d1), digit_char(d2)]
    } else {
        seq![digit_char(d1)]
    }
}

/// The text of a value given in thousandths: an optional `-`, the integer
/// part, and for a non-zero fraction a `.` and up to three digits without
/// trailing zeros.
pub open spec fn thousandths_text(k: int) -> Seq<char> {
    let m = if k < 0 {
        -k
    } else {
        k
    };
    let sign = if k < 0 {
        seq!['-']
    } else {
        Seq::<char>::empty()
    };
    let f = m % 1000;
    sign + decimal_digits((m / 1000) as nat) + (if f == 0 {
        Seq::<char>::empty()
    } else {
        seq!['.'] + fraction_digits(f)
    })
}

/// Append the text of a value given in thousandths.
pub fn push_thousandths(out: &mut String, k: i64)
    ensures
        final(out)@ == old(out)@ + thousandths_text(k as int),
{
    let ghost start = out@;
    if k < 0 {
        push_char(out, '-');
    }
    let m = magnitude(k);
    push_decimal(out, m / 1000);
    let f = m % 1000;
    if f != 0 {
        push_char(out, '.');
        let d1 = f / 100;
        let d2 = (f / 10) % 10;
        let d3 = f % 10;
        push_digit(out, d1);
        if d3 != 0 {
            push_digit(out, d2);
            push_digit(out, d3);
        } else if d2 != 0 {
            push_digit(out, d2);
        }
    }
    assert(out@ =~= start + thousandths_text(k as int));
}

/// The text of a value given in thousandths (for example `1500` reads
/// `1.5` and `-250` reads `-0.25`).
pub fn format_thousandths(k: i64) -> (s: String)
    ensures
        s@ == thousandths_text(k as int),
{
    let mut s = String::new();
    push_thousandths(&mut s, k);
    s
}

/// The decimal digits of a number are ASCII digits and do not start with a
/// zero unless the number is zero.
pub proof fn lemma_decimal_digits_shape(n: nat)
    ensures
        decimal_digits(n).len() >= 1,
        forall|i: int|
            0 <= i < decimal_digits(n).len() ==> '0' <= #[trigger] decimal_digits(n)[i] <= '9',
        n >= 10 ==> decimal_digits(n)[0] != '0',
    decreases n,
{
    if n >= 10 {
        lemma_decimal_digits_shape(n / 10);
        let p = decimal_digits(n / 10);
        assert forall|i: int|
            0 <= i < decimal_digits(n).len() implies '0' <= #[trigger] decimal_digits(n)[i] <= '9' by {
            if i < p.len() {
                assert(decimal_digits(n)[i] == p[i]);
            }
        }
        assert(decimal_digits(n)[0] == p[0]);
    }
}

/// Number text never ends in a decimal point or in a zero after one: a
/// fraction is printed only when non-zero, with trailing zeros trimmed.
pub proof fn lemma_thousandths_text_is_trimmed(k: int)
    ensures
        thousandths_text(k).last() != '.',
        (k % 1000 != 0) ==> thousandths_text(k).last() != '0',
        (k % 1000 == 0) ==> !thousandths_text(k).contains('.'),
{
    let m = if k < 0 {
        -k
    } else {
        k
    };
    lemma_decimal_digits_shape((m / 1000) as nat);
    let f = m % 1000;
    if k % 1000 != 0 {
        assert(f != 0) by {
            if k < 0 {
                vstd::arithmetic::div_mod::lemma_fundamental_div_mod(k, 1000);
                vstd::arithmetic::div_mod::lemma_fundamental_div_mod(-k, 1000);
                if f == 0 {
                    vstd::arithmetic::div_mod::lemma_fundamental_div_mod_converse(
                        k,
                        1000,
                        -((-k) / 1000),
                        0,
                    );
                }
            }
        }
    }
    if k % 1000 == 0 {
        assert(f == 0) by {
            if k < 0 {
                vstd::arithmetic::div_mod::lemma_fundamental_div_mod(k, 1000);
                vstd::arithmetic::div_mod::lemma_fundamental_div_mod_converse(-k, 1000, -(k / 1000), 0);
            }
        }
        let t = thousandths_text(k);
        let sign = if k < 0 {
            seq!['-']
        } else {
            Seq::<char>::empty()
        };
        let digits = decimal_digits((m / 1000) as nat);
        assert(t =~= sign + digits);
        assert forall|i: int| 0 <= i < t.len() implies t[i] != '.' by {
            if k < 0 && i == 0 {
            } else {
                let j = if k < 0 {
                    i - 1
                } else {
                    i
                };
                assert(t[i] == digits[j]);
            }
        }
    }
}

} // verus!

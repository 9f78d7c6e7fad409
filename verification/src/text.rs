//! Decimal text: writing and reading integers digit by digit.

use vstd::prelude::*;

verus! {

/// `String::push` appends one character to the string.
pub assume_specification[ String::push ](s: &mut String, ch: char)
    ensures
        final(s)@ == old(s)@.push(ch),
;

/// Whether `c` is one of the ten ASCII digits.
pub open spec fn is_digit(c: char) -> bool {
    '0' <= c <= '9'
}

/// The digit that stands for `d`, for `d` below ten.
pub open spec fn digit_char(d: nat) -> char {
    ('0' as nat + d) as char
}

/// The number that the digit `c` stands for.
pub open spec fn digit_value(c: char) -> nat {
    (c as nat - '0' as nat) as nat
}

/// The decimal digits of `n`, most significant first, without leading zeros.
pub open spec fn digits(n: nat) -> Seq<char>
    decreases n,
{
    if n < 10 {
        seq![digit_char(n)]
    } else {
        digits(n / 10).push(digit_char(n % 10))
    }
}

/// The decimal text of `n`: a minus sign where `n` is negative, then the
/// digits of its magnitude.
pub open spec fn decimal(n: int) -> Seq<char> {
    if n < 0 {
        seq!['-'] + digits((-n) as nat)
    } else {
        digits(n as nat)
    }
}

/// The number that a run of digits writes, read most significant first. The
/// empty run writes zero.
pub open spec fn number_of(run: Seq<char>) -> nat
    decreases run.len(),
{
    if run.len() == 0 {
        0
    } else {
        number_of(run.drop_last()) * 10 + digit_value(run.last())
    }
}

/// The digits written so far, while `rest` is still to be split: nothing
/// once `rest` is used up.
spec fn leading(rest: nat) -> Seq<char> {
    if rest == 0 {
        Seq::empty()
    } else {
        digits(rest)
    }
}

/// The last digit of what is still to be split is the next to split off.
proof fn lemma_leading_step(rest: nat)
    requires
        rest > 0,
    ensures
        leading(rest) == leading(rest / 10).push(digit_char(rest % 10)),
{
    if rest < 10 {
        assert(rest / 10 == 0);
        assert(rest % 10 == rest);
        assert(seq![digit_char(rest)] =~= Seq::<char>::empty().push(digit_char(rest)));
    }
}

/// The character for one decimal digit.
fn digit(d: u8) -> (c: char)
    requires
        d < 10,
    ensures
        c == digit_char(d as nat),
{
    match d {
        0 => '0',
        1 => '1',
        2 => '2',
        3 => '3',
        4 => '4',
        5 => '5',
        6 => '6',
        7 => '7',
        8 => '8',
        _ => '9',
    }
}

/// Appends the decimal text of `n` to `out`.
pub fn push_decimal(out: &mut String, n: i128)
    ensures
        final(out)@ == old(out)@ + decimal(n as int),
{
    let ghost before = out@;
    let mut rest: u128 = if n < 0 {
        out.push('-');
        (-(n + 1)) as u128 + 1
    } else {
        n as u128
    };
    let ghost magnitude: nat = rest as nat;
    let ghost signed = out@;
    let mut low: Vec<char> = Vec::new();
    low.push(digit((rest % 10) as u8));
    rest = rest / 10;
    proof {
        if magnitude >= 10 {
            assert(digits(magnitude) == leading(rest as nat) + low@.reverse());
        } else {
            assert(digits(magnitude) =~= leading(rest as nat) + low@.reverse());
        }
    }
    while rest > 0
        invariant
            digits(magnitude) == leading(rest as nat) + low@.reverse(),
        decreases rest,
    {
        proof {
            lemma_leading_step(rest as nat);
        }
        let ghost prior = low@;
        low.push(digit((rest % 10) as u8));
        proof {
            assert(low@.reverse() =~= seq![digit_char((rest % 10) as nat)] + prior.reverse());
            assert(leading(rest as nat) + prior.reverse() =~= leading((rest / 10) as nat)
                + low@.reverse());
        }
        rest = rest / 10;
    }
    assert(digits(magnitude) =~= low@.reverse());
    let mut k: usize = low.len();
    while k > 0
        invariant
            k <= low.len(),
            out@ == signed + low@.reverse().take(low.len() - k),
        decreases k,
    {
        k = k - 1;
        out.push(low[k]);
        proof {
            let r = low@.reverse();
            let done = low.len() - k;
            assert(r.take(done as int) =~= r.take(done - 1).push(r[done - 1]));
        }
    }
    proof {
        assert(low@.reverse().take(low.len() as int) =~= low@.reverse());
        if n < 0 {
            assert(signed == before.push('-'));
            assert(before.push('-') + digits(magnitude) =~= before + (seq!['-'] + digits(
                magnitude,
            )));
        }
    }
}

/// The decimal text of `n`.
pub fn decimal_text(n: i128) -> (s: String)
    ensures
        s@ == decimal(n as int),
{
    let mut s = String::new();
    push_decimal(&mut s, n);
    assert(Seq::<char>::empty() + decimal(n as int) =~= decimal(n as int));
    s
}

} // verus!

//! Decimal rendering of integers and the messages of the library's errors.
use vstd::prelude::*;
use vstd::string::StringExecFns;

verus! {

/// The ASCII digit of `d < 10`.
pub open spec fn digit_char(d: nat) -> char {
    (48 + d) as char
}

/// `n` in decimal, most significant digit first, without leading zeros.
pub open spec fn decimal(n: nat) -> Seq<char>
    decreases n,
{
    if n < 10 {
        seq![digit_char(n)]
    } else {
        decimal(n / 10).push(digit_char(n % 10))
    }
}

/// `x` in decimal, with a leading `-` when it is negative.
pub open spec fn signed_decimal(x: int) -> Seq<char> {
    if x < 0 {
        seq!['-'] + decimal((-x) as nat)
    } else {
        decimal(x as nat)
    }
}

/// Appends the digit `d`.
fn push_digit(s: &mut String, d: u8)
    requires
        d < 10,
    ensures
        final(s)@ == old(s)@.push(digit_char(d as nat)),
{
    proof {
        reveal_strlit("0");
        reveal_strlit("1");
        reveal_strlit("2");
        reveal_strlit("3");
        reveal_strlit("4");
        reveal_strlit("5");
        reveal_strlit("6");
        reveal_strlit("7");
        reveal_strlit("8");
        reveal_strlit("9");
    }
    let digit: &str = match d {
        0 => "0",
        1 => "1",
        2 => "2",
        3 => "3",
        4 => "4",
        5 => "5",
        6 => "6",
        7 => "7",
        8 => "8",
        _ => "9",
    };
    assert(digit@ =~= seq![digit_char(d as nat)]);
    s.append(digit);
}

/// Appends `n` in decimal.
pub fn push_decimal(s: &mut String, n: u64)
    ensures
        final(s)@ == old(s)@ + decimal(n as nat),
{
    let mut digits: Vec<u8> = Vec::new();
    let mut x = n;
    while x >= 10
        invariant
            decimal(n as nat) == decimal(x as nat) + Seq::new(
                digits@.len(),
                |i: int| digit_char(digits@[digits@.len() - 1 - i] as nat),
            ),
            forall|i: int| 0 <= i < digits@.len() ==> digits@[i] < 10,
        decreases x,
    {
        let ghost before = digits@;
        digits.push((x % 10) as u8);
        proof {
            assert(Seq::new(
                digits@.len(),
                |i: int| digit_char(digits@[digits@.len() - 1 - i] as nat),
            ) =~= seq![digit_char((x % 10) as nat)] + Seq::new(
                before.len(),
                |i: int| digit_char(before[before.len() - 1 - i] as nat),
            ));
        }
        x = x / 10;
    }
    push_digit(s, x as u8);
    let n_digits = digits.len();
    let mut k: usize = 0;
    while k < n_digits
        invariant
            n_digits == digits@.len(),
            0 <= k <= n_digits,
            forall|i: int| 0 <= i < digits@.len() ==> digits@[i] < 10,
            decimal(n as nat) == decimal(x as nat) + Seq::new(
                digits@.len(),
                |i: int| digit_char(digits@[digits@.len() - 1 - i] as nat),
            ),
            x < 10,
            s@ == old(s)@ + seq![digit_char(x as nat)] + Seq::new(
                k as nat,
                |i: int| digit_char(digits@[digits@.len() - 1 - i] as nat),
            ),
        decreases n_digits - k,
    {
        push_digit(s, digits[n_digits - 1 - k]);
        k = k + 1;
        assert(s@ =~= old(s)@ + seq![digit_char(x as nat)] + Seq::new(
            k as nat,
            |i: int| digit_char(digits@[digits@.len() - 1 - i] as nat),
        ));
    }
    assert(s@ =~= old(s)@ + decimal(n as nat));
}

/// Appends `x` in decimal, with a leading `-` when it is negative.
pub fn push_signed_decimal(s: &mut String, x: i64)
    ensures
        final(s)@ == old(s)@ + signed_decimal(x as int),
{
    if x < 0 {
        proof {
            reveal_strlit("-");
        }
        s.append("-");
        let m: u64 = (-(x as i128)) as u64;
        push_decimal(s, m);
        assert(s@ =~= old(s)@ + signed_decimal(x as int));
    } else {
        push_decimal(s, x as u64);
    }
}

} // verus!

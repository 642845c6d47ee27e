//! Whole numbers in decimal, plain and padded with zeros.

use vstd::prelude::*;

verus! {

/// The digit that stands for `d`.
pub open spec fn digit(d: nat) -> char {
    (d + 48) as char
}

/// `n` in decimal.
pub open spec fn decimal(n: nat) -> Seq<char>
    decreases n,
{
    if n < 10 {
        seq![digit(n)]
    } else {
        decimal(n / 10).push(digit(n % 10))
    }
}

/// `count` zeros.
pub open spec fn zeros(count: int) -> Seq<char> {
    Seq::new(if count > 0 { count as nat } else { 0 }, |i: int| '0')
}

/// `n` in decimal, with zeros in front up to `width` characters.
pub open spec fn padded(n: nat, width: int) -> Seq<char> {
    zeros(width - decimal(n).len()) + decimal(n)
}

/// `n` in decimal, with zeros behind the sign up to `width` characters.
pub open spec fn signed_padded(n: int, width: int) -> Seq<char> {
    if n < 0 {
        seq!['-'] + padded((-n) as nat, width - 1)
    } else {
        padded(n as nat, width)
    }
}

/// The number that digits stand for.
pub open spec fn value(digits: Seq<char>) -> int
    decreases digits.len(),
{
    if digits.len() == 0 {
        0
    } else {
        10 * value(digits.drop_last()) + (digits.last() as int - 48)
    }
}

/// Reading a number back gives the number.
pub proof fn lemma_value_of_decimal(n: nat)
    ensures
        value(decimal(n)) == n,
        decimal(n).len() > 0,
        forall|i: int| 0 <= i < decimal(n).len() ==> '0' <= #[trigger] decimal(n)[i] <= '9',
    decreases n,
{
    reveal_with_fuel(value, 2);
    if n >= 10 {
        lemma_value_of_decimal(n / 10);
        let d = decimal(n / 10);
        assert(decimal(n) == d.push(digit(n % 10)));
        assert(decimal(n).drop_last() == d);
        assert forall|i: int| 0 <= i < decimal(n).len() implies '0' <= #[trigger] decimal(n)[i]
            <= '9' by {
            if i < d.len() {
                assert(decimal(n)[i] == d[i]);
            }
        }
    } else {
        assert(decimal(n).drop_last() == Seq::<char>::empty());
    }
}

/// Different numbers are written differently.
pub proof fn lemma_decimal_injective(a: nat, b: nat)
    requires
        decimal(a) == decimal(b),
    ensures
        a == b,
{
    lemma_value_of_decimal(a);
    lemma_value_of_decimal(b);
}

/// The digit that stands for `d`.
pub fn digit_of(d: u64) -> (r: char)
    requires
        d < 10,
    ensures
        r == digit(d as nat),
{
    let code: u8 = 48 + d as u8;
    code as char
}

/// How many digits `n` has.
pub fn digit_count(n: u64) -> (r: usize)
    ensures
        r == decimal(n as nat).len(),
        1 <= r <= 20,
    decreases n,
{
    proof {
        assert(power_of_ten(20) == 100_000_000_000_000_000_000) by {
            reveal_with_fuel(power_of_ten, 21);
        }
        lemma_digit_bound(n as nat, 20);
    }
    if n < 10 {
        1
    } else {
        digit_count(n / 10) + 1
    }
}

/// A number below a power of ten has no more digits than the exponent.
pub proof fn lemma_digit_bound(n: nat, k: nat)
    requires
        k > 0,
        n < power_of_ten(k),
    ensures
        decimal(n).len() <= k,
    decreases k,
{
    if n >= 10 {
        if k > 1 {
            assert(n / 10 < power_of_ten((k - 1) as nat));
            lemma_digit_bound(n / 10, (k - 1) as nat);
        } else {
            reveal_with_fuel(power_of_ten, 2);
        }
    }
}

/// Ten to the `k`.
pub open spec fn power_of_ten(k: nat) -> nat
    decreases k,
{
    if k == 0 {
        1
    } else {
        10 * power_of_ten((k - 1) as nat)
    }
}

/// Puts `n` in decimal at the end of `out`.
pub fn push_number(out: &mut String, n: u64)
    ensures
        final(out)@ == old(out)@ + decimal(n as nat),
    decreases n,
{
    if n >= 10 {
        push_number(out, n / 10);
    }
    out.push(digit_of(n % 10));
    proof {
        if n < 10 {
            assert(out@ == old(out)@ + decimal(n as nat));
        } else {
            assert(out@ == old(out)@ + decimal(n as nat / 10).push(digit(n as nat % 10)));
        }
    }
}

/// Puts `n` at the end of `out`, with zeros in front up to `width` characters.
pub fn push_padded(out: &mut String, n: u64, width: usize)
    ensures
        final(out)@ == old(out)@ + padded(n as nat, width as int),
{
    let count = digit_count(n);
    let mut have: usize = count;
    while have < width
        invariant
            count <= have,
            have <= width || have == count,
            out@ == old(out)@ + zeros(have - count),
        decreases width - have,
    {
        out.push('0');
        have += 1;
        proof {
            assert(zeros(have - count) == zeros(have - 1 - count).push('0'));
        }
    }
    let ghost with_zeros = out@;
    push_number(out, n);
    proof {
        assert(zeros(have - count) == zeros(width - count));
        assert(with_zeros + decimal(n as nat) == old(out)@ + padded(n as nat, width as int));
    }
}

/// Puts `n` at the end of `out`, with zeros behind the sign up to `width`
/// characters.
pub fn push_signed_padded(out: &mut String, n: i64, width: usize)
    requires
        width > 0,
    ensures
        final(out)@ == old(out)@ + signed_padded(n as int, width as int),
{
    if n < 0 {
        let magnitude: u64 = (-(n + 1)) as u64 + 1;
        out.push('-');
        push_padded(out, magnitude, width - 1);
        proof {
            assert(out@ == old(out)@ + (seq!['-'] + padded((-n) as nat, width - 1)));
        }
    } else {
        push_padded(out, n as u64, width);
    }
}

/// `n` divided by `d`, rounded toward zero.
pub open spec fn quotient(n: int, d: int) -> int {
    if n < 0 {
        -((-n) / d)
    } else {
        n / d
    }
}

/// What remains of `n` when it is divided by `d`, with the sign of `n`.
pub open spec fn remainder(n: int, d: int) -> int {
    if n < 0 {
        -((-n) % d)
    } else {
        n % d
    }
}

/// What is written is digits that stand for the number, as many as are asked for
/// at least, and no zero in front beyond those.
pub proof fn law_numbers_read_back(n: nat, width: int)
    ensures
        value(padded(n, width)) == n,
        forall|i: int| 0 <= i < padded(n, width).len() ==> '0' <= #[trigger] padded(n, width)[i] <= '9',
        padded(n, width).len() >= width,
        padded(n, width).len() > width && n > 0 ==> padded(n, width)[0] != '0',
        n == 0 && width <= 1 ==> padded(n, width).len() == 1,
{
    lemma_value_of_decimal(n);
    let count = width - decimal(n).len();
    let front = zeros(count);
    lemma_value_behind_zeros(if count > 0 {
        count as nat
    } else {
        0
    }, decimal(n));
    assert forall|i: int| 0 <= i < padded(n, width).len() implies '0' <= #[trigger] padded(
        n,
        width,
    )[i] <= '9' by {
        if i >= front.len() {
            assert(padded(n, width)[i] == decimal(n)[i - front.len()]);
        }
    }
    if n > 0 {
        lemma_decimal_first(n);
    }
}

/// Zeros in front change no value.
proof fn lemma_value_behind_zeros(count: nat, digits: Seq<char>)
    ensures
        value(zeros(count as int) + digits) == value(digits),
    decreases digits.len(), count,
{
    let all = zeros(count as int) + digits;
    if digits.len() > 0 {
        lemma_value_behind_zeros(count, digits.drop_last());
        assert(all.drop_last() =~= zeros(count as int) + digits.drop_last());
        assert(all.last() == digits.last());
    } else if count > 0 {
        lemma_value_behind_zeros((count - 1) as nat, digits);
        assert(all.drop_last() =~= zeros(count - 1) + digits);
        assert(all.last() == '0');
    } else {
        assert(all =~= digits);
    }
}

/// A number other than zero starts with no zero.
proof fn lemma_decimal_first(n: nat)
    requires
        n > 0,
    ensures
        decimal(n).len() > 0,
        decimal(n)[0] != '0',
    decreases n,
{
    if n >= 10 {
        lemma_decimal_first(n / 10);
        assert(decimal(n)[0] == decimal(n / 10)[0]);
    }
}

} // verus!

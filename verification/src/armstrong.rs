//! Armstrong numbers: a number that equals the sum of its digits, each raised
//! to the power of the number of digits.
use vstd::prelude::*;

verus! {

pub open spec fn pow_nat(b: int, e: nat) -> int
    decreases e,
{
    if e == 0 {
        1
    } else {
        b * pow_nat(b, (e - 1) as nat)
    }
}

/// How many decimal digits `n` has; zero for 0, as a digit-peeling loop sees
/// it.
pub open spec fn digits_count(n: int) -> nat
    decreases n,
{
    if n <= 0 {
        0
    } else {
        1 + digits_count(n / 10)
    }
}

/// The sum of the decimal digits of `n`, each raised to the power `k`.
pub open spec fn digit_pow_sum(n: int, k: nat) -> int
    decreases n,
{
    if n <= 0 {
        0
    } else {
        pow_nat(n % 10, k) + digit_pow_sum(n / 10, k)
    }
}

/// Whether `n` is an Armstrong number.
pub open spec fn spec_is_armstrong(n: int) -> bool {
    digit_pow_sum(n, digits_count(n)) == n
}

proof fn lemma_pow_mono_base(a: int, b: int, e: nat)
    requires
        0 <= a <= b,
    ensures
        0 <= pow_nat(a, e) <= pow_nat(b, e),
    decreases e,
{
    if e > 0 {
        lemma_pow_mono_base(a, b, (e - 1) as nat);
        assert(a * pow_nat(a, (e - 1) as nat) <= b * pow_nat(b, (e - 1) as nat))
            by (nonlinear_arith)
            requires
                0 <= a <= b,
                0 <= pow_nat(a, (e - 1) as nat) <= pow_nat(b, (e - 1) as nat),
        ;
    }
}

proof fn lemma_pow_mono_exp(b: int, e1: nat, e2: nat)
    requires
        b >= 1,
        e1 <= e2,
    ensures
        1 <= pow_nat(b, e1) <= pow_nat(b, e2),
    decreases e2,
{
    if e2 > 0 {
        if e1 == 0 {
            lemma_pow_mono_exp(b, 0, (e2 - 1) as nat);
            assert(pow_nat(b, e2) == b * pow_nat(b, (e2 - 1) as nat));
            assert(b * pow_nat(b, (e2 - 1) as nat) >= 1 * pow_nat(b, (e2 - 1) as nat))
                by (nonlinear_arith)
                requires
                    b >= 1,
                    pow_nat(b, (e2 - 1) as nat) >= 1,
            ;
        } else {
            lemma_pow_mono_exp(b, (e1 - 1) as nat, (e2 - 1) as nat);
            assert(1 <= b * pow_nat(b, (e1 - 1) as nat) <= b * pow_nat(b, (e2 - 1) as nat))
                by (nonlinear_arith)
                requires
                    b >= 1,
                    1 <= pow_nat(b, (e1 - 1) as nat) <= pow_nat(b, (e2 - 1) as nat),
            ;
        }
    }
}

proof fn lemma_digits_count_le(n: int, b: nat)
    requires
        0 <= n < pow_nat(10, b),
    ensures
        digits_count(n) <= b,
    decreases b,
{
    if n > 0 {
        assert(b > 0) by {
            if b == 0 {
                assert(pow_nat(10, 0) == 1);
            }
        }
        assert(pow_nat(10, b) == 10 * pow_nat(10, (b - 1) as nat));
        assert(n / 10 < pow_nat(10, (b - 1) as nat)) by (nonlinear_arith)
            requires
                n < 10 * pow_nat(10, (b - 1) as nat),
                n >= 0,
        ;
        lemma_digits_count_le(n / 10, (b - 1) as nat);
    }
}

proof fn lemma_digit_pow_sum_bound(n: int, k: nat)
    requires
        n >= 0,
        k <= 10,
    ensures
        0 <= digit_pow_sum(n, k) <= digits_count(n) * 3486784401,
    decreases n,
{
    if n > 0 {
        lemma_digit_pow_sum_bound(n / 10, k);
        lemma_pow_mono_base(n % 10, 9, k);
        lemma_pow_mono_exp(9, k, 10);
        assert(pow_nat(9, 10) == 3486784401) by {
            reveal_with_fuel(pow_nat, 11);
        }
        assert(digits_count(n) * 3486784401 == (1 + digits_count(n / 10)) * 3486784401);
        assert((1 + digits_count(n / 10)) * 3486784401 == 3486784401 + digits_count(n / 10)
            * 3486784401) by (nonlinear_arith);
    }
}

/// One digit raised to the power `k`.
fn pow_digit(base: u32, k: u32) -> (r: u64)
    requires
        base <= 9,
        k <= 10,
    ensures
        r == pow_nat(base as int, k as nat),
        r <= 3486784401,
{
    proof {
        lemma_pow_mono_base(base as int, 9, k as nat);
        lemma_pow_mono_exp(9, k as nat, 10);
        assert(pow_nat(9, 10) == 3486784401) by {
            reveal_with_fuel(pow_nat, 11);
        }
    }
    let mut r: u64 = 1;
    let mut i: u32 = 0;
    while i < k
        invariant
            i <= k,
            k <= 10,
            base <= 9,
            r == pow_nat(base as int, i as nat),
            r <= 3486784401,
        decreases k - i,
    {
        proof {
            lemma_pow_mono_base(base as int, 9, (i + 1) as nat);
            lemma_pow_mono_exp(9, (i + 1) as nat, 10);
            assert(pow_nat(9, 10) == 3486784401) by {
                reveal_with_fuel(pow_nat, 11);
            }
            assert(pow_nat(base as int, (i + 1) as nat) == base * pow_nat(base as int, i as nat));
            assert((r as int) * (base as int) <= 3486784401) by (nonlinear_arith)
                requires
                    r == pow_nat(base as int, i as nat),
                    base * pow_nat(base as int, i as nat) <= 3486784401,
                    r >= 0,
                    base >= 0,
            ;
        }
        r = r * (base as u64);
        proof {
            assert(r == pow_nat(base as int, (i + 1) as nat)) by (nonlinear_arith)
                requires
                    r == pow_nat(base as int, i as nat) * base,
                    pow_nat(base as int, (i + 1) as nat) == base * pow_nat(base as int, i as nat),
            ;
        }
        i = i + 1;
    }
    r
}

/// Whether `num` equals the sum of its digits, each raised to the power of
/// the number of its digits.
pub fn is_armstrong_number(num: u32) -> (r: bool)
    ensures
        r == spec_is_armstrong(num as int),
{
    proof {
        assert(pow_nat(10, 10) == 10000000000) by {
            reveal_with_fuel(pow_nat, 11);
        }
        lemma_digits_count_le(num as int, 10);
    }
    // count the digits
    let mut number_of_digits: u32 = 0;
    let mut number: u32 = num;
    while number > 0
        invariant
            number_of_digits == digits_count(num as int) - digits_count(number as int),
            digits_count(number as int) <= digits_count(num as int),
            digits_count(num as int) <= 10,
        decreases number,
    {
        proof {
            assert(digits_count(number as int) == 1 + digits_count(number as int / 10));
        }
        number_of_digits = number_of_digits + 1;
        number = number / 10;
    }
    proof {
        assert(digits_count(0) == 0);
    }
    // sum each digit raised to that count
    let k = number_of_digits;
    let mut sum: u64 = 0;
    let mut number: u32 = num;
    while number > 0
        invariant
            k == digits_count(num as int),
            k <= 10,
            sum + digit_pow_sum(number as int, k as nat) == digit_pow_sum(num as int, k as nat),
            sum <= 34867844010,
        decreases number,
    {
        proof {
            lemma_digit_pow_sum_bound(number as int, k as nat);
            lemma_digit_pow_sum_bound(number as int / 10, k as nat);
            lemma_pow_mono_base(number as int % 10, 9, k as nat);
            lemma_pow_mono_exp(9, k as nat, 10);
            assert(pow_nat(9, 10) == 3486784401) by {
                reveal_with_fuel(pow_nat, 11);
            }
            lemma_digit_pow_sum_bound(num as int, k as nat);
            assert(pow_nat(10, 10) == 10000000000) by {
                reveal_with_fuel(pow_nat, 11);
            }
            lemma_digits_count_le(num as int, 10);
            assert(digits_count(num as int) * 3486784401 <= 34867844010) by (nonlinear_arith)
                requires
                    digits_count(num as int) <= 10,
            ;
        }
        let digit = number % 10;
        sum = sum + pow_digit(digit, k);
        number = number / 10;
    }
    proof {
        assert(digit_pow_sum(0, k as nat) == 0);
    }
    sum == num as u64
}

} // verus!

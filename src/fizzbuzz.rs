//! FizzBuzz lines.
use vstd::prelude::*;
use vstd::string::*;
use crate::text::{signed_decimal, signed_decimal_of};

verus! {

/// The word that FizzBuzz appends to `n`, with its leading space, or nothing.
pub open spec fn fizzbuzz_suffix(n: int) -> Seq<char> {
    if n % 3 == 0 && n % 5 == 0 {
        " FizzBuzz"@
    } else if n % 3 == 0 {
        " Fizz"@
    } else if n % 5 == 0 {
        " Buzz"@
    } else {
        Seq::empty()
    }
}

proof fn lemma_divisible_by_magnitude(n: int, d: int)
    requires
        d > 0,
    ensures
        (n % d == 0) == ((if n < 0 { -n } else { n }) % d == 0),
{
    if n < 0 {
        if n % d == 0 {
            assert(n == d * (n / d)) by (nonlinear_arith)
                requires n % d == 0, d > 0;
            assert((-n) == d * (-(n / d))) by (nonlinear_arith)
                requires n == d * (n / d);
            vstd::arithmetic::div_mod::lemma_mod_multiples_basic(-(n / d), d);
            assert(d * (-(n / d)) == (-(n / d)) * d) by (nonlinear_arith);
        }
        if (-n) % d == 0 {
            assert(-n == d * ((-n) / d)) by (nonlinear_arith)
                requires (-n) % d == 0, d > 0;
            assert(n == (-((-n) / d)) * d) by (nonlinear_arith)
                requires -n == d * ((-n) / d);
            vstd::arithmetic::div_mod::lemma_mod_multiples_basic(-((-n) / d), d);
        }
    }
}

/// The FizzBuzz line for `n`: the number itself, followed by ` Fizz` when it
/// is a multiple of 3, ` Buzz` when it is a multiple of 5, and ` FizzBuzz`
/// when it is a multiple of both.
pub fn fizzbuzz_output(n: i32) -> (r: String)
    ensures
        r@ == signed_decimal_of(n as int) + fizzbuzz_suffix(n as int),
{
    let mut output = signed_decimal(n as i64);
    let m: i64 = if n < 0 { -(n as i64) } else { n as i64 };
    let by3 = m % 3 == 0;
    let by5 = m % 5 == 0;
    proof {
        lemma_divisible_by_magnitude(n as int, 3);
        lemma_divisible_by_magnitude(n as int, 5);
    }
    if by3 && by5 {
        output.append(" FizzBuzz");
    } else if by3 {
        output.append(" Fizz");
    } else if by5 {
        output.append(" Buzz");
    } else {
        assert(output@ =~= output@ + Seq::<char>::empty());
    }
    output
}

} // verus!

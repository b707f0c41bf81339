//! Prime numbers, and the prime factors of a number.

use std::collections::VecDeque;

use vstd::prelude::*;

use crate::numerals::{decimal, numeral_value, parse_numeral, to_decimal};

verus! {

/// Whether a positive number divides another without rest.
pub open spec fn divides(d: int, n: int) -> bool {
    n % d == 0
}

/// Whether a number is prime.
pub open spec fn prime(n: int) -> bool {
    &&& n >= 2
    &&& forall|d: int| 2 <= d < n ==> !#[trigger] divides(d, n)
}

/// The product of a list of numbers.
pub open spec fn product(numbers: Seq<u32>) -> nat
    decreases numbers.len(),
{
    if numbers.len() == 0 {
        1
    } else {
        product(numbers.drop_last()) * (numbers.last() as nat)
    }
}

/// Whether a list holds the prime factors of a number, in ascending order.
pub open spec fn factorization(n: nat, factors: Seq<u32>) -> bool {
    &&& product(factors) == n
    &&& forall|i: int| 0 <= i < factors.len() ==> prime(#[trigger] factors[i] as int)
    &&& forall|i: int, j: int| 0 <= i <= j < factors.len() ==> factors[i] <= factors[j]
}

/// Determines whether a number is prime.
pub fn is_prime(num: u32) -> (r: bool)
    ensures
        r == prime(num as int),
{
    if num <= 1 {
        return false;
    }
    let mut factor: u32 = 2;
    while factor <= num / factor
        invariant
            2 <= factor <= num,
            forall|d: int| 2 <= d < factor ==> !#[trigger] divides(d, num as int),
        decreases num - factor,
    {
        if num % factor == 0 {
            assert(factor < num) by (nonlinear_arith)
                requires
                    factor <= num / factor,
                    factor >= 2,
            ;
            assert(divides(factor as int, num as int));
            return false;
        }
        assert(!divides(factor as int, num as int));
        assert(factor < num) by (nonlinear_arith)
            requires
                factor <= num / factor,
                factor >= 2,
        ;
        factor = factor + 1;
    }
    assert forall|d: int| 2 <= d < num implies !#[trigger] divides(d, num as int) by {
        if divides(d, num as int) && d >= factor {
            let other = num as int / d;
            assert(2 <= other < factor && num as int % other == 0) by (nonlinear_arith)
                requires
                    other == num as int / d,
                    num as int % d == 0,
                    2 <= factor <= d < num,
                    factor > num / factor,
            ;
            assert(divides(other, num as int));
        }
    }
    true
}

/// The prime factors of a number in ascending order, each as often as it
/// divides the number. One is its own only factor, and zero has none.
pub fn factor_number(num: u32) -> (r: Vec<u32>)
    ensures
        num >= 2 ==> factorization(num as nat, r@),
        num == 1 ==> r@ == seq![1u32],
        num == 0 ==> r@ == Seq::<u32>::empty(),
{
    let mut factors: Vec<u32> = Vec::new();
    if num == 1 || is_prime(num) {
        factors.push(num);
        assert(factors@ =~= seq![num]);
        assert(factors@.drop_last() =~= Seq::empty());
        assert(product(Seq::<u32>::empty()) == 1);
        assert(product(factors@) == num) by (nonlinear_arith)
            requires
                product(factors@) == 1nat * (num as nat),
        ;
        return factors;
    }
    let mut curr_num: u32 = num;
    let mut factor: u32 = 2;
    assert(product(factors@) * curr_num == num) by (nonlinear_arith)
        requires
            product(factors@) == 1,
            curr_num == num,
    ;
    while factor < num && curr_num > 1
        invariant
            !prime(num as int),
            num != 1,
            factor >= 2,
            num >= 2 ==> curr_num >= 1,
            product(factors@) * curr_num == num,
            num < 2 ==> factors@.len() == 0,
            forall|i: int|
                0 <= i < factors@.len() ==> prime(#[trigger] factors@[i] as int) && factors@[i]
                    < factor,
            forall|i: int, j: int| 0 <= i <= j < factors@.len() ==> factors@[i] <= factors@[j],
            forall|d: int| 2 <= d < factor ==> !#[trigger] divides(d, curr_num as int),
            factor <= num || num < 2,
        decreases num - factor,
    {
        while curr_num % factor == 0
            invariant
                2 <= factor < num,
                curr_num >= 1,
                product(factors@) * curr_num == num,
                forall|i: int|
                    0 <= i < factors@.len() ==> prime(#[trigger] factors@[i] as int) && factors@[i]
                        <= factor,
                forall|i: int, j: int| 0 <= i <= j < factors@.len() ==> factors@[i] <= factors@[j],
                forall|d: int| 2 <= d < factor ==> !#[trigger] divides(d, curr_num as int),
            decreases curr_num,
        {
            let rest: u32 = curr_num / factor;
            proof {
                assert(rest >= 1 && rest < curr_num && curr_num == rest * factor)
                    by (nonlinear_arith)
                    requires
                        rest == curr_num / factor,
                        curr_num % factor == 0,
                        curr_num >= 1,
                        factor >= 2,
                ;
                assert forall|d: int| 2 <= d < factor implies !#[trigger] divides(
                    d,
                    factor as int,
                ) by {
                    if divides(d, factor as int) {
                        lemma_divides_multiple(d, factor as int, rest as int);
                        assert(divides(d, curr_num as int)) by {
                            assert(rest * factor == factor * rest) by (nonlinear_arith);
                        }
                    }
                }
                assert forall|d: int| 2 <= d < factor implies !#[trigger] divides(
                    d,
                    rest as int,
                ) by {
                    if divides(d, rest as int) {
                        lemma_divides_multiple(d, rest as int, factor as int);
                        assert(divides(d, curr_num as int));
                    }
                }
            }
            let ghost before = factors@;
            factors.push(factor);
            proof {
                assert(factors@.drop_last() =~= before);
                assert(product(factors@) == product(before) * (factor as nat));
                assert(product(factors@) * rest == num) by (nonlinear_arith)
                    requires
                        product(factors@) == product(before) * (factor as nat),
                        product(before) * curr_num == num,
                        curr_num == rest * factor,
                ;
            }
            curr_num = rest;
        }
        assert(!divides(factor as int, curr_num as int));
        factor = factor + 1;
    }
    proof {
        if num >= 2 {
            if curr_num > 1 {
                lemma_divides_multiple(curr_num as int, curr_num as int, product(factors@) as int);
                assert(curr_num as int % curr_num as int == 0) by (nonlinear_arith)
                    requires
                        curr_num > 1,
                ;
                assert(divides(curr_num as int, curr_num as int));
                assert(curr_num >= num);
                assert(curr_num == num) by (nonlinear_arith)
                    requires
                        curr_num >= num,
                        product(factors@) * curr_num == num,
                        num >= 2,
                ;
                assert(exists|d: int| 2 <= d < num && #[trigger] divides(d, num as int));
                assert(false);
            }
            assert(product(factors@) == num) by (nonlinear_arith)
                requires
                    curr_num == 1,
                    product(factors@) * curr_num == num,
            ;
        } else {
            assert(factors@ =~= Seq::<u32>::empty());
        }
    }
    factors
}

/// What divides a number divides its multiples.
proof fn lemma_divides_multiple(d: int, n: int, k: int)
    requires
        d > 0,
        divides(d, n),
    ensures
        divides(d, n * k),
{
    let q = n / d;
    assert(n == d * q) by (nonlinear_arith)
        requires
            d > 0,
            n % d == 0,
            q == n / d,
    ;
    assert(n * k == d * (q * k)) by (nonlinear_arith)
        requires
            n == d * q,
    ;
    vstd::arithmetic::div_mod::lemma_mod_multiples_basic(q * k, d);
    assert((q * k) * d == d * (q * k)) by (nonlinear_arith);
}

/// The rest of a product that a prime divides, after the first factor was
/// taken modulo the prime.
proof fn lemma_prime_divides_rest(p: int, r: int, b: int)
    requires
        prime(p),
        0 < r < p,
        divides(p, r * b),
    ensures
        divides(p, b),
    decreases r,
{
    if r == 1 {
        assert(r * b == b) by (nonlinear_arith)
            requires
                r == 1,
        ;
    } else {
        let q = p / r;
        let s = p % r;
        assert(!divides(r, p));
        assert(0 < s < r && s == p - q * r) by (nonlinear_arith)
            requires
                r > 1,
                q == p / r,
                s == p % r,
                p % r != 0,
        ;
        let m = (r * b) / p;
        assert(r * b == p * m) by (nonlinear_arith)
            requires
                p > 0,
                (r * b) % p == 0,
                m == (r * b) / p,
        ;
        assert(s * b == (b - q * m) * p) by (nonlinear_arith)
            requires
                s == p - q * r,
                r * b == p * m,
        ;
        vstd::arithmetic::div_mod::lemma_mod_multiples_basic(b - q * m, p);
        lemma_prime_divides_rest(p, s, b);
    }
}

/// A prime that divides a product divides one of its factors.
pub proof fn lemma_prime_divides_factor(p: int, a: int, b: int)
    requires
        prime(p),
        divides(p, a * b),
    ensures
        divides(p, a) || divides(p, b),
{
    if !divides(p, a) {
        let q = a / p;
        let r = a % p;
        assert(0 < r < p && r == a - q * p) by (nonlinear_arith)
            requires
                p > 1,
                q == a / p,
                r == a % p,
                a % p != 0,
        ;
        let m = (a * b) / p;
        assert(a * b == p * m) by (nonlinear_arith)
            requires
                p > 0,
                (a * b) % p == 0,
                m == (a * b) / p,
        ;
        assert(r * b == (m - q * b) * p) by (nonlinear_arith)
            requires
                r == a - q * p,
                a * b == p * m,
        ;
        vstd::arithmetic::div_mod::lemma_mod_multiples_basic(m - q * b, p);
        lemma_prime_divides_rest(p, r, b);
    }
}

/// A prime that divides a product of primes is one of them.
proof fn lemma_prime_among_factors(p: int, factors: Seq<u32>)
    requires
        prime(p),
        divides(p, product(factors) as int),
        forall|i: int| 0 <= i < factors.len() ==> prime(#[trigger] factors[i] as int),
    ensures
        exists|i: int| 0 <= i < factors.len() && #[trigger] factors[i] == p,
    decreases factors.len(),
{
    if factors.len() == 0 {
        assert(1int % p == 1) by (nonlinear_arith)
            requires
                p >= 2,
        ;
    } else {
        let rest = factors.drop_last();
        let last = factors.last() as int;
        lemma_prime_divides_factor(p, product(rest) as int, last);
        assert(factors[factors.len() - 1] == last);
        if divides(p, last) {
            assert(p <= last) by (nonlinear_arith)
                requires
                    last % p == 0,
                    last >= 2,
                    p >= 2,
            ;
        } else {
            lemma_prime_among_factors(p, rest);
            let i = choose|i: int| 0 <= i < rest.len() && #[trigger] rest[i] == p;
            assert(factors[i] == p);
        }
    }
}

/// The last factor divides the product, and the product is at least one.
proof fn lemma_last_divides_product(factors: Seq<u32>)
    requires
        factors.len() > 0,
        forall|i: int| 0 <= i < factors.len() ==> prime(#[trigger] factors[i] as int),
    ensures
        divides(factors.last() as int, product(factors) as int),
        product(factors) >= 2,
    decreases factors.len(),
{
    let rest = factors.drop_last();
    let last = factors.last() as int;
    assert(prime(factors[factors.len() - 1] as int));
    vstd::arithmetic::div_mod::lemma_mod_multiples_basic(product(rest) as int, last);
    if rest.len() > 0 {
        lemma_last_divides_product(rest);
    }
    assert(product(factors) >= 2) by (nonlinear_arith)
        requires
            product(factors) == product(rest) * last,
            product(rest) >= 1,
            last >= 2,
    ;
}

/// The law of the farm: a number has one list of prime factors in ascending
/// order, and no other.
pub proof fn lemma_factorization_is_unique(n: nat, one: Seq<u32>, other: Seq<u32>)
    requires
        factorization(n, one),
        factorization(n, other),
    ensures
        one == other,
    decreases one.len(),
{
    if one.len() == 0 || other.len() == 0 {
        if one.len() > 0 {
            lemma_last_divides_product(one);
        }
        if other.len() > 0 {
            lemma_last_divides_product(other);
        }
        assert(one =~= other);
    } else {
        let p = one.last();
        let q = other.last();
        assert(prime(one[one.len() - 1] as int) && prime(other[other.len() - 1] as int));
        lemma_last_divides_product(one);
        lemma_last_divides_product(other);
        lemma_prime_among_factors(p as int, other);
        lemma_prime_among_factors(q as int, one);
        let i = choose|i: int| 0 <= i < other.len() && #[trigger] other[i] == p;
        let j = choose|j: int| 0 <= j < one.len() && #[trigger] one[j] == q;
        assert(other[i] <= other[other.len() - 1]);
        assert(one[j] <= one[one.len() - 1]);
        let one_rest = one.drop_last();
        let other_rest = other.drop_last();
        assert(product(one_rest) == product(other_rest)) by (nonlinear_arith)
            requires
                product(one_rest) * (p as nat) == product(other_rest) * (q as nat),
                p == q,
                p >= 2,
        ;
        assert forall|k: int| 0 <= k < one_rest.len() implies prime(
            #[trigger] one_rest[k] as int,
        ) by {
            assert(one_rest[k] == one[k]);
        }
        assert forall|k: int| 0 <= k < other_rest.len() implies prime(
            #[trigger] other_rest[k] as int,
        ) by {
            assert(other_rest[k] == other[k]);
        }
        lemma_factorization_is_unique(product(one_rest), one_rest, other_rest);
        assert(one =~= one_rest.push(p));
        assert(other =~= other_rest.push(q));
    }
}

/// A list of numbers in decimal, with a separator between them.
pub open spec fn listed(numbers: Seq<u32>, separator: Seq<char>) -> Seq<char>
    decreases numbers.len(),
{
    if numbers.len() == 0 {
        Seq::empty()
    } else if numbers.len() == 1 {
        decimal(numbers[0] as int)
    } else {
        listed(numbers.drop_last(), separator) + separator + decimal(numbers.last() as int)
    }
}

/// A number and its factors, as an equation.
pub open spec fn equation(num: u32, factors: Seq<u32>) -> Seq<char> {
    decimal(num as int) + " = "@ + listed(factors, " * "@)
}

/// Writes a number and its factors as an equation.
pub fn write_equation(num: u32, factors: &Vec<u32>) -> (r: String)
    ensures
        r@ == equation(num, factors@),
{
    let mut text = to_decimal(num as u64);
    text.append(" = ");
    let ghost start = text@;
    for i in 0..factors.len()
        invariant
            text@ == start + listed(factors@.take(i as int), " * "@),
    {
        let ghost upto = factors@.take(i + 1);
        assert(upto.drop_last() =~= factors@.take(i as int));
        assert(upto.last() == factors@[i as int]);
        if i > 0 {
            text.append(" * ");
        }
        text.append(to_decimal(factors[i] as u64).as_str());
        assert(text@ =~= start + listed(upto, " * "@));
    }
    assert(factors@.take(factors@.len() as int) =~= factors@);
    text
}

/// The number that an argument denotes.
pub open spec fn argument_value(arg: Seq<char>) -> Option<nat> {
    numeral_value(arg, 10, u32::MAX as nat)
}

/// What is said of an argument that is not a number.
pub open spec fn invalid_text(arg: Seq<char>) -> Seq<char> {
    arg + " is not a valid number\n"@
}

/// The numbers that the arguments denote, in order. Where an argument is not a
/// number, what is to be said of the first such argument.
pub fn get_input_numbers(args: &Vec<String>) -> (r: Result<VecDeque<u32>, String>)
    ensures
        r matches Ok(numbers) ==> {
            &&& numbers@.len() == args@.len()
            &&& forall|i: int|
                0 <= i < args@.len() ==> argument_value(args@[i]@) == Some(
                    #[trigger] numbers@[i] as nat,
                )
        },
        r matches Err(text) ==> exists|i: int|
            {
                &&& 0 <= i < args@.len()
                &&& text@ == invalid_text(#[trigger] args@[i]@)
                &&& argument_value(args@[i]@) is None
                &&& forall|j: int| 0 <= j < i ==> argument_value(#[trigger] args@[j]@) is Some
            },
{
    let mut numbers: VecDeque<u32> = VecDeque::new();
    for i in 0..args.len()
        invariant
            numbers@.len() == i,
            forall|j: int|
                0 <= j < i ==> argument_value(args@[j]@) == Some(#[trigger] numbers@[j] as nat),
    {
        match parse_numeral(args[i].as_str(), 10, u32::MAX as u64) {
            Some(val) => numbers.push_back(val as u32),
            None => {
                let mut text = args[i].clone();
                text.append(" is not a valid number\n");
                proof {
                    assert forall|j: int| 0 <= j < i implies argument_value(
                        #[trigger] args@[j]@,
                    ) is Some by {
                        assert(argument_value(args@[j]@) == Some(numbers@[j] as nat));
                    }
                    assert(text@ == invalid_text(args@[i as int]@));
                }
                return Err(text);
            },
        }
    }
    Ok(numbers)
}

/// Takes a number off the end of the ones that are left.
pub fn take_number(numbers: &mut Vec<u32>) -> (r: Option<u32>)
    ensures
        old(numbers)@.len() == 0 ==> r is None && final(numbers)@ == old(numbers)@,
        old(numbers)@.len() > 0 ==> r == Some(old(numbers)@.last()) && final(numbers)@ == old(
            numbers,
        )@.drop_last(),
{
    numbers.pop()
}

/// A number is prime exactly if it is at least two and no product of two
/// numbers that are.
pub proof fn lemma_primes_have_no_parts(n: int)
    ensures
        prime(n) <==> n >= 2 && forall|a: int, b: int| a >= 2 && b >= 2 ==> #[trigger] (a * b) != n,
{
    if prime(n) {
        assert forall|a: int, b: int| a >= 2 && b >= 2 implies #[trigger] (a * b) != n by {
            if a * b == n {
                assert(a < n) by (nonlinear_arith)
                    requires
                        a * b == n,
                        a >= 2,
                        b >= 2,
                ;
                vstd::arithmetic::div_mod::lemma_mod_multiples_basic(b, a);
                assert(b * a == a * b) by (nonlinear_arith);
                assert(divides(a, n));
            }
        }
    } else if n >= 2 {
        let d = choose|d: int| 2 <= d < n && #[trigger] divides(d, n);
        let q = n / d;
        assert(d * q == n && q >= 2) by (nonlinear_arith)
            requires
                2 <= d < n,
                n % d == 0,
                q == n / d,
        ;
    }
}

/// The product of numbers is what comes of multiplying them one after the
/// other, from one on.
pub proof fn lemma_product_multiplies(numbers: Seq<u32>)
    ensures
        product(numbers) == numbers.fold_left(1nat, |so_far: nat, n: u32| so_far * (n as nat)),
    decreases numbers.len(),
{
    reveal(Seq::fold_left);
    if numbers.len() > 0 {
        lemma_product_multiplies(numbers.drop_last());
    }
}

/// What `factor_number` gives for a number from two on multiplies to it, is in
/// ascending order, and is made up of the primes that divide it. What
/// `is_prime` says is whether that is the number itself and nothing else.
pub proof fn lemma_factors(num: u32, factors: Vec<u32>, alone: bool, p: int)
    requires
        num >= 2,
        call_ensures(factor_number, (num,), factors),
        call_ensures(is_prime, (num,), alone),
        prime(p),
    ensures
        factors@.fold_left(1nat, |so_far: nat, n: u32| so_far * (n as nat)) == num,
        forall|i: int, j: int| 0 <= i <= j < factors@.len() ==> factors@[i] <= factors@[j],
        forall|i: int| 0 <= i < factors@.len() ==> prime(#[trigger] factors@[i] as int),
        divides(p, num as int) <==> exists|i: int|
            0 <= i < factors@.len() && #[trigger] factors@[i] == p,
        alone <==> factors@ == seq![num],
{
    lemma_product_multiplies(factors@);
    if divides(p, num as int) {
        lemma_prime_among_factors(p, factors@);
    }
    if exists|i: int| 0 <= i < factors@.len() && #[trigger] factors@[i] == p {
        let i = choose|i: int| 0 <= i < factors@.len() && #[trigger] factors@[i] == p;
        lemma_factor_divides_product(factors@, i);
    }
    let only = seq![num];
    assert(only.drop_last() =~= Seq::empty());
    assert(product(Seq::<u32>::empty()) == 1);
    assert(product(only) == num) by (nonlinear_arith)
        requires
            product(only) == 1nat * (num as nat),
    ;
    if alone {
        assert(factorization(num as nat, only));
        lemma_factorization_is_unique(num as nat, factors@, only);
    }
    if factors@ == only {
        assert(factors@[0] == num);
        assert(prime(factors@[0] as int));
    }
}

/// Every factor divides the product.
proof fn lemma_factor_divides_product(numbers: Seq<u32>, i: int)
    requires
        0 <= i < numbers.len(),
        numbers[i] > 0,
    ensures
        divides(numbers[i] as int, product(numbers) as int),
    decreases numbers.len(),
{
    let rest = numbers.drop_last();
    let last = numbers.last() as int;
    if i == numbers.len() - 1 {
        vstd::arithmetic::div_mod::lemma_mod_multiples_basic(product(rest) as int, last);
    } else {
        lemma_factor_divides_product(rest, i);
        lemma_divides_multiple(numbers[i] as int, product(rest) as int, last);
    }
}

/// Of the two numbers below two, one is its own factor and zero has none.
pub proof fn lemma_factors_of_small_numbers(num: u32, factors: Vec<u32>)
    requires
        num < 2,
        call_ensures(factor_number, (num,), factors),
    ensures
        factors@.len() == num,
        num == 1 ==> factors@[0] == 1,
{
}

/// One number is listed in decimal. Lists are put together with the separator
/// between them.
pub proof fn lemma_lists_are_put_together(
    one: Seq<u32>,
    other: Seq<u32>,
    n: u32,
    separator: Seq<char>,
)
    requires
        one.len() > 0,
        other.len() > 0,
    ensures
        listed(Seq::empty(), separator).len() == 0,
        listed(seq![n], separator) == decimal(n as int),
        listed(one + other, separator) == listed(one, separator) + separator + listed(
            other,
            separator,
        ),
    decreases other.len(),
{
    let all = one + other;
    assert(all.last() == other.last());
    if other.len() == 1 {
        assert(all.drop_last() =~= one);
    } else {
        let fewer = other.drop_last();
        lemma_lists_are_put_together(one, fewer, n, separator);
        assert(all.drop_last() =~= one + fewer);
        assert(listed(all, separator) =~= listed(one, separator) + separator + listed(
            other,
            separator,
        ));
    }
}

/// An equation starts with the number, and goes on with one factor after the
/// other, with a sign between them.
pub proof fn lemma_equations(num: u32, factors: Seq<u32>, factor: u32)
    ensures
        equation(num, seq![factor]) == decimal(num as int) + " = "@ + decimal(factor as int),
        equation(num, Seq::empty()) == decimal(num as int) + " = "@,
        factors.len() > 0 ==> equation(num, factors.push(factor)) == equation(num, factors)
            + " * "@ + decimal(factor as int),
{
    assert(equation(num, Seq::empty()) =~= decimal(num as int) + " = "@);
    if factors.len() > 0 {
        lemma_lists_are_put_together(factors, seq![factor], factor, " * "@);
        assert(factors.push(factor) =~= factors + seq![factor]);
        assert(equation(num, factors.push(factor)) =~= equation(num, factors) + " * "@ + decimal(
            factor as int,
        ));
    }
}

/// An argument denotes the number that its decimal numeral does, if that is
/// one of the numbers to factor. So a number reads back as it was written.
pub proof fn lemma_arguments(arg: Seq<char>, n: nat)
    ensures
        argument_value(arg) == numeral_value(arg, 10, 0xffff_ffff),
        argument_value(decimal(n as int)) == if n <= 0xffff_ffff {
            Some(n)
        } else {
            None
        },
{
    crate::numerals::lemma_numeral_round_trip(n, 10, 0xffff_ffff);
}

/// What `get_input_numbers` gives for arguments: their numbers, one for each,
/// if all of them denote one. Otherwise the first that does not is named.
pub proof fn lemma_input_numbers(args: Vec<String>, r: Result<VecDeque<u32>, String>)
    requires
        call_ensures(get_input_numbers, (&args,), r),
    ensures
        r is Ok <==> forall|i: int|
            0 <= i < args@.len() ==> numeral_value(#[trigger] args@[i]@, 10, 0xffff_ffff) is Some,
        r matches Ok(numbers) ==> numbers@.len() == args@.len() && forall|i: int|
            0 <= i < args@.len() ==> numeral_value(args@[i]@, 10, 0xffff_ffff) == Some(
                #[trigger] numbers@[i] as nat,
            ),
        r matches Err(said) ==> exists|i: int|
            {
                &&& 0 <= i < args@.len()
                &&& numeral_value(#[trigger] args@[i]@, 10, 0xffff_ffff) is None
                &&& said@ == args@[i]@ + " is not a valid number\n"@
                &&& forall|j: int|
                    0 <= j < i ==> numeral_value(#[trigger] args@[j]@, 10, 0xffff_ffff) is Some
            },
{
    if let Ok(numbers) = r {
        assert forall|i: int| 0 <= i < args@.len() implies numeral_value(
            #[trigger] args@[i]@,
            10,
            0xffff_ffff,
        ) is Some by {
            assert(argument_value(args@[i]@) == Some(numbers@[i] as nat));
        }
        assert forall|i: int| 0 <= i < args@.len() implies numeral_value(args@[i]@, 10, 0xffff_ffff)
            == Some(#[trigger] numbers@[i] as nat) by {
            assert(argument_value(args@[i]@) == Some(numbers@[i] as nat));
        }
    }
    if let Err(said) = r {
        let i = choose|i: int|
            {
                &&& 0 <= i < args@.len()
                &&& said@ == invalid_text(#[trigger] args@[i]@)
                &&& argument_value(args@[i]@) is None
                &&& forall|j: int| 0 <= j < i ==> argument_value(#[trigger] args@[j]@) is Some
            };
        assert(numeral_value(args@[i]@, 10, 0xffff_ffff) is None);
        assert(said@ == args@[i]@ + " is not a valid number\n"@);
        assert forall|j: int| 0 <= j < i implies numeral_value(
            #[trigger] args@[j]@,
            10,
            0xffff_ffff,
        ) is Some by {
            assert(argument_value(args@[j]@) is Some);
        }
    }
}

} // verus!

//! Numbers written in digits, and read back.

use vstd::arithmetic::power::{lemma_pow0, pow};
use vstd::prelude::*;

use crate::text::chars_of;

verus! {

/// The digit of a value, in lower case.
pub open spec fn digit_char(value: nat) -> char {
    if value < 10 {
        ('0' as u8 + value) as char
    } else {
        ('a' as u8 + (value - 10)) as char
    }
}

/// The value of a digit, in either case.
pub open spec fn digit_value(c: char) -> Option<nat> {
    if '0' <= c <= '9' {
        Some((c as u32 - '0' as u32) as nat)
    } else if 'a' <= c <= 'z' {
        Some((c as u32 - 'a' as u32 + 10) as nat)
    } else if 'A' <= c <= 'Z' {
        Some((c as u32 - 'A' as u32 + 10) as nat)
    } else {
        None
    }
}

/// A number in the digits of a base, without leading zeros.
pub open spec fn numeral(n: nat, base: nat) -> Seq<char>
    decreases n,
{
    if base < 2 || n < base {
        seq![digit_char(n)]
    } else {
        proof {
            assert(n / base < n) by (nonlinear_arith)
                requires
                    n >= base >= 2,
            ;
        }
        numeral(n / base, base).push(digit_char(n % base))
    }
}

/// A number in decimal, with a sign where it is negative.
pub open spec fn decimal(n: int) -> Seq<char> {
    if n < 0 {
        seq!['-'] + numeral((-n) as nat, 10)
    } else {
        numeral(n as nat, 10)
    }
}

/// A number in hexadecimal, with its prefix.
pub open spec fn hexadecimal(n: nat) -> Seq<char> {
    seq!['0', 'x'] + numeral(n, 16)
}

/// The number that a sequence of digits denotes. There is none where a
/// character is not a digit of the base.
pub open spec fn digits_value(digits: Seq<char>, base: nat) -> Option<nat>
    decreases digits.len(),
{
    if digits.len() == 0 {
        Some(0)
    } else {
        match (digits_value(digits.drop_last(), base), digit_value(digits.last())) {
            (Some(high), Some(low)) => if low < base {
                Some(high * base + low)
            } else {
                None
            },
            _ => None,
        }
    }
}

/// The digits of a numeral that may start with a plus sign.
pub open spec fn without_plus(s: Seq<char>) -> Seq<char> {
    if s.len() > 0 && s[0] == '+' {
        s.skip(1)
    } else {
        s
    }
}

/// The number that a numeral denotes: an optional plus sign and at least one
/// digit. There is none where the numeral is ill-formed or the number exceeds
/// `max`.
pub open spec fn numeral_value(s: Seq<char>, base: nat, max: nat) -> Option<nat> {
    let digits = without_plus(s);
    match digits_value(digits, base) {
        Some(n) => if digits.len() > 0 && n <= max {
            Some(n)
        } else {
            None
        },
        None => None,
    }
}

/// A hexadecimal numeral without the prefix that it may have, in either case.
pub open spec fn without_prefix(s: Seq<char>) -> Seq<char> {
    if s.len() >= 2 && s[0] == '0' && (s[1] == 'x' || s[1] == 'X') {
        s.skip(2)
    } else {
        s
    }
}

/// The address that a text denotes: a hexadecimal numeral with or without its
/// prefix.
pub open spec fn address_value(s: Seq<char>) -> Option<nat> {
    numeral_value(without_prefix(s), 16, usize::MAX as nat)
}

/// The digit of a value.
fn to_digit(value: u64) -> (r: char)
    requires
        value < 36,
    ensures
        r == digit_char(value as nat),
{
    if value < 10 {
        ('0' as u8 + value as u8) as char
    } else {
        ('a' as u8 + (value as u8 - 10)) as char
    }
}

/// The value of a digit.
fn from_digit(c: char) -> (r: Option<u64>)
    ensures
        r matches Some(d) ==> digit_value(c) == Some(d as nat) && d < 36,
        r is None ==> digit_value(c) is None,
{
    if '0' <= c && c <= '9' {
        Some((c as u32 - '0' as u32) as u64)
    } else if 'a' <= c && c <= 'z' {
        Some((c as u32 - 'a' as u32 + 10) as u64)
    } else if 'A' <= c && c <= 'Z' {
        Some((c as u32 - 'A' as u32 + 10) as u64)
    } else {
        None
    }
}

/// Appends a number in the digits of a base.
fn push_numeral(out: &mut String, n: u64, base: u64)
    requires
        2 <= base <= 36,
    ensures
        final(out)@ == old(out)@ + numeral(n as nat, base as nat),
    decreases n,
{
    if n < base {
        out.push(to_digit(n));
        assert(out@ =~= old(out)@ + numeral(n as nat, base as nat));
    } else {
        assert(n / base < n) by (nonlinear_arith)
            requires
                n >= base,
                base >= 2,
        ;
        push_numeral(out, n / base, base);
        assert(n % base < base) by (nonlinear_arith)
            requires
                base >= 2,
        ;
        out.push(to_digit(n % base));
        assert(out@ =~= old(out)@ + numeral(n as nat, base as nat));
    }
}

/// Writes a number in decimal.
pub fn to_decimal(n: u64) -> (r: String)
    ensures
        r@ == decimal(n as int),
{
    let mut out = String::new();
    push_numeral(&mut out, n, 10);
    assert(out@ =~= numeral(n as nat, 10));
    out
}

/// Writes a number in decimal, with a sign where it is negative.
pub fn to_signed_decimal(n: i32) -> (r: String)
    ensures
        r@ == decimal(n as int),
{
    let mut out = String::new();
    let wide: i64 = n as i64;
    if wide < 0 {
        out.push('-');
        push_numeral(&mut out, (-wide) as u64, 10);
        assert(out@ =~= seq!['-'] + numeral((-n) as nat, 10));
    } else {
        push_numeral(&mut out, wide as u64, 10);
        assert(out@ =~= numeral(n as nat, 10));
    }
    out
}

/// Writes a number in hexadecimal, with its prefix.
pub fn to_hexadecimal(n: u64) -> (r: String)
    ensures
        r@ == hexadecimal(n as nat),
{
    let mut out = String::new();
    out.push('0');
    out.push('x');
    push_numeral(&mut out, n, 16);
    assert(out@ =~= hexadecimal(n as nat));
    out
}

/// Reads a numeral in a base, for a number that is no larger than `max`.
pub fn parse_numeral(s: &str, base: u64, max: u64) -> (r: Option<u64>)
    requires
        2 <= base <= 36,
    ensures
        r matches Some(n) ==> numeral_value(s@, base as nat, max as nat) == Some(n as nat),
        r is None ==> numeral_value(s@, base as nat, max as nat) is None,
{
    let chars = chars_of(s);
    assert(chars@.skip(0) =~= s@);
    parse_chars(&chars, 0, base, max)
}

/// Reads a numeral that starts at an index.
fn parse_chars(chars: &Vec<char>, from: usize, base: u64, max: u64) -> (r: Option<u64>)
    requires
        from <= chars@.len(),
        2 <= base <= 36,
    ensures
        r matches Some(n) ==> numeral_value(chars@.skip(from as int), base as nat, max as nat)
            == Some(n as nat),
        r is None ==> numeral_value(chars@.skip(from as int), base as nat, max as nat) is None,
{
    let ghost s = chars@.skip(from as int);
    let mut start: usize = from;
    if start < chars.len() && chars[start] == '+' {
        start = start + 1;
    }
    let ghost digits = without_plus(s);
    assert(digits =~= chars@.skip(start as int));
    if start == chars.len() {
        return None;
    }
    let mut value: u64 = 0;
    let mut i: usize = start;
    while i < chars.len()
        invariant
            start <= i <= chars@.len(),
            2 <= base <= 36,
            s == chars@.skip(from as int),
            digits == without_plus(s),
            digits == chars@.skip(start as int),
            value <= max,
            digits_value(digits.take(i - start), base as nat) == Some(value as nat),
        decreases chars@.len() - i,
    {
        let ghost upto = digits.take(i - start + 1);
        proof {
            assert(upto.drop_last() =~= digits.take(i - start));
            assert(upto.last() == chars@[i as int]);
        }
        let low: u64 = match from_digit(chars[i]) {
            Some(d) => d,
            None => {
                proof {
                    lemma_bad_prefix(digits, i - start + 1, base as nat);
                }
                return None;
            },
        };
        if low >= base {
            proof {
                lemma_bad_prefix(digits, i - start + 1, base as nat);
            }
            return None;
        }
        assert(value * base <= u64::MAX * 36) by (nonlinear_arith)
            requires
                value <= u64::MAX,
                base <= 36,
        ;
        let wide: u128 = value as u128 * base as u128;
        if wide + low as u128 > max as u128 {
            proof {
                lemma_large_prefix(digits, i - start + 1, base as nat);
            }
            return None;
        }
        value = (wide + low as u128) as u64;
        i = i + 1;
    }
    assert(digits.take(i - start) =~= digits);
    Some(value)
}

/// A sequence of digits with an ill-formed prefix is ill-formed.
proof fn lemma_bad_prefix(digits: Seq<char>, len: int, base: nat)
    requires
        0 <= len <= digits.len(),
        digits_value(digits.take(len), base) is None,
    ensures
        digits_value(digits, base) is None,
    decreases digits.len(),
{
    if len < digits.len() {
        assert(digits.drop_last().take(len) =~= digits.take(len));
        lemma_bad_prefix(digits.drop_last(), len, base);
    } else {
        assert(digits.take(len) =~= digits);
    }
}

/// A sequence of digits denotes no less than a prefix of it.
proof fn lemma_large_prefix(digits: Seq<char>, len: int, base: nat)
    requires
        0 <= len <= digits.len(),
        base >= 1,
        digits_value(digits.take(len), base) is Some,
    ensures
        digits_value(digits, base) matches Some(n) ==> n >= digits_value(
            digits.take(len),
            base,
        )->0,
    decreases digits.len(),
{
    if len < digits.len() {
        let shorter = digits.drop_last();
        assert(shorter.take(len) =~= digits.take(len));
        lemma_large_prefix(shorter, len, base);
        if digits_value(digits, base) is Some {
            let high = digits_value(shorter, base)->0;
            assert(high * base >= high) by (nonlinear_arith)
                requires
                    base >= 1,
            ;
        }
    } else {
        assert(digits.take(len) =~= digits);
    }
}

/// Reads an address: a hexadecimal numeral with or without its prefix.
pub fn parse_address(addr: &str) -> (r: Option<usize>)
    ensures
        r matches Some(n) ==> address_value(addr@) == Some(n as nat),
        r is None ==> address_value(addr@) is None,
{
    let chars = chars_of(addr);
    let mut from: usize = 0;
    if chars.len() >= 2 && chars[0] == '0' && (chars[1] == 'x' || chars[1] == 'X') {
        from = 2;
    }
    assert(chars@.skip(from as int) =~= without_prefix(addr@));
    match parse_chars(&chars, from, 16, usize::MAX as u64) {
        Some(n) => Some(n as usize),
        None => None,
    }
}

/// What follows the first character of a text.
pub fn get_addr_str(s: &String) -> (r: String)
    requires
        s@.len() >= 1,
    ensures
        r@ == s@.skip(1),
{
    let chars = chars_of(s.as_str());
    let mut rest = String::new();
    for i in 1..chars.len()
        invariant
            chars@ == s@,
            rest@ == s@.subrange(1, i as int),
    {
        rest.push(chars[i]);
        assert(rest@ =~= s@.subrange(1, i + 1));
    }
    assert(s@.subrange(1, s@.len() as int) =~= s@.skip(1));
    rest
}

/// The digit of a value has that value.
proof fn lemma_digit_round_trip(value: nat)
    requires
        value < 36,
    ensures
        digit_value(digit_char(value)) == Some(value),
        digit_char(value) != '+',
        value < 16 ==> digit_char(value) != 'x' && digit_char(value) != 'X',
{
}

/// The digits of a number denote it, and there is at least one.
proof fn lemma_digits_of_numeral(n: nat, base: nat)
    requires
        2 <= base <= 36,
    ensures
        numeral(n, base).len() > 0,
        digits_value(numeral(n, base), base) == Some(n),
        numeral(n, base)[0] != '+',
        base <= 16 ==> forall|i: int|
            0 <= i < numeral(n, base).len() ==> #[trigger] numeral(n, base)[i] != 'x' && numeral(
                n,
                base,
            )[i] != 'X',
    decreases n,
{
    if n < base {
        lemma_digit_round_trip(n);
        let digits = numeral(n, base);
        assert(digits == seq![digit_char(n)]);
        assert(digits.drop_last() =~= Seq::empty());
        assert(digits_value(Seq::empty(), base) == Some(0nat));
        assert(0 * base == 0) by (nonlinear_arith);
    } else {
        let high = n / base;
        let low = n % base;
        assert(high < n && low < base && high * base + low == n) by (nonlinear_arith)
            requires
                n >= base >= 2,
                high == n / base,
                low == n % base,
        ;
        lemma_digits_of_numeral(high, base);
        lemma_digit_round_trip(low);
        let digits = numeral(n, base);
        assert(digits.drop_last() =~= numeral(high, base));
        assert forall|i: int| base <= 16 && 0 <= i < digits.len() implies #[trigger] digits[i]
            != 'x' && digits[i] != 'X' by {
            if i < digits.len() - 1 {
                assert(digits[i] == numeral(high, base)[i]);
            }
        }
    }
}

/// What was written in a base reads back as the number it was.
pub proof fn lemma_numeral_round_trip(n: nat, base: nat, max: nat)
    requires
        2 <= base <= 36,
    ensures
        n <= max ==> numeral_value(numeral(n, base), base, max) == Some(n),
        n > max ==> numeral_value(numeral(n, base), base, max) is None,
{
    lemma_digits_of_numeral(n, base);
}

/// An address that was written in hexadecimal reads back as it was, with the
/// prefix and without it.
pub proof fn lemma_address_round_trip(addr: usize)
    ensures
        address_value(hexadecimal(addr as nat)) == Some(addr as nat),
        address_value(numeral(addr as nat, 16)) == Some(addr as nat),
{
    let n = addr as nat;
    lemma_digits_of_numeral(n, 16);
    assert(without_prefix(hexadecimal(n)) =~= numeral(n, 16));
    assert(without_prefix(numeral(n, 16)) =~= numeral(n, 16));
}

/// The digits are the decimal ones and then the letters. They are written in
/// lower case, and read in either case. Nothing else is a digit.
pub proof fn lemma_digits(value: nat, c: char)
    ensures
        value < 36 ==> digit_char(value) == "0123456789abcdefghijklmnopqrstuvwxyz"@[value as int],
        digit_value(c) == Some(value) <==> value < 36 && (c
            == "0123456789abcdefghijklmnopqrstuvwxyz"@[value as int] || c
            == "0123456789ABCDEFGHIJKLMNOPQRSTUVWXYZ"@[value as int]),
        digit_value(c) matches Some(v) ==> v < 36,
{
    reveal_strlit("0123456789abcdefghijklmnopqrstuvwxyz");
    reveal_strlit("0123456789ABCDEFGHIJKLMNOPQRSTUVWXYZ");
}

/// No digits denote zero, and one digit denotes its value.
pub proof fn lemma_few_digits(c: char, base: nat)
    ensures
        digits_value(Seq::empty(), base) == Some(0nat),
        digits_value(seq![c], base) == match digit_value(c) {
            Some(value) => if value < base {
                Some(value)
            } else {
                None
            },
            None => None,
        },
{
    assert(seq![c].drop_last() =~= Seq::empty());
    assert(0 * base == 0) by (nonlinear_arith);
}

/// Digits are positional: put before others, they count for as many powers of
/// the base as there are others.
pub proof fn lemma_digits_are_positional(high: Seq<char>, low: Seq<char>, base: nat)
    ensures
        digits_value(high + low, base) == match (
            digits_value(high, base),
            digits_value(low, base),
        ) {
            (Some(h), Some(l)) => Some((h * pow(base as int, low.len()) + l) as nat),
            _ => None,
        },
    decreases low.len(),
{
    let h = digits_value(high, base)->0;
    if low.len() == 0 {
        assert(high + low =~= high);
        lemma_pow0(base as int);
        assert(h * 1 == h) by (nonlinear_arith);
    } else {
        let rest = low.drop_last();
        lemma_digits_are_positional(high, rest, base);
        assert((high + low).drop_last() =~= high + rest);
        assert((high + low).last() == low.last());
        reveal(pow);
        let p = pow(base as int, rest.len());
        let l = digits_value(rest, base)->0;
        lemma_pow_nonnegative(base, rest.len());
        if digits_value(high, base) is Some && digits_value(low, base) is Some {
            let d = digit_value(low.last())->0;
            assert(pow(base as int, low.len()) == base * p);
            assert((h * p + l) * base + d == h * (base * p) + (l * base + d)) by (nonlinear_arith);
            assert(h * p + l >= 0) by (nonlinear_arith)
                requires
                    p >= 0,
                    h >= 0,
                    l >= 0,
            ;
        }
    }
}

/// Powers of natural numbers are natural.
proof fn lemma_pow_nonnegative(base: nat, exponent: nat)
    ensures
        pow(base as int, exponent) >= 0,
    decreases exponent,
{
    reveal(pow);
    if exponent > 0 {
        lemma_pow_nonnegative(base, (exponent - 1) as nat);
        let p = pow(base as int, (exponent - 1) as nat);
        assert(base * p >= 0) by (nonlinear_arith)
            requires
                p >= 0,
        ;
    }
}

/// Digits of a base, at least one of them, denote their number, with a plus
/// sign or without it, up to the largest number that is wanted. With anything
/// else among them they denote none, and neither do no digits.
pub proof fn lemma_what_numerals_denote(digits: Seq<char>, base: nat, max: nat)
    requires
        digits.len() == 0 || digits[0] != '+',
    ensures
        numeral_value(seq!['+'] + digits, base, max) == numeral_value(digits, base, max),
        numeral_value(seq!['+', '+'] + digits, base, max) is None,
        numeral_value(digits, base, max) is Some <==> {
            &&& digits.len() > 0
            &&& forall|i: int|
                0 <= i < digits.len() ==> digit_value(#[trigger] digits[i]) is Some && digit_value(
                    digits[i],
                )->0 < base
            &&& digits_value(digits, base)->0 <= max
        },
        numeral_value(digits, base, max) matches Some(n) ==> digits_value(digits, base) == Some(n),
{
    assert((seq!['+'] + digits).skip(1) =~= digits);
    assert((seq!['+', '+'] + digits).skip(1) =~= seq!['+'] + digits);
    lemma_all_are_digits(digits, base);
    lemma_all_are_digits(seq!['+'] + digits, base);
    assert((seq!['+'] + digits)[0] == '+');
}

/// A sequence denotes a number exactly if all its characters are digits.
proof fn lemma_all_are_digits(digits: Seq<char>, base: nat)
    ensures
        digits_value(digits, base) is Some <==> forall|i: int|
            0 <= i < digits.len() ==> digit_value(#[trigger] digits[i]) is Some && digit_value(
                digits[i],
            )->0 < base,
    decreases digits.len(),
{
    if digits.len() > 0 {
        let shorter = digits.drop_last();
        lemma_all_are_digits(shorter, base);
        assert(forall|i: int| 0 <= i < shorter.len() ==> #[trigger] shorter[i] == digits[i]);
        assert(digits.last() == digits[digits.len() - 1]);
        if digits_value(digits, base) is Some {
            assert forall|i: int| 0 <= i < digits.len() implies digit_value(
                #[trigger] digits[i],
            ) is Some && digit_value(digits[i])->0 < base by {
                if i < shorter.len() {
                    assert(shorter[i] == digits[i]);
                }
            }
        }
    }
}

/// An address is a hexadecimal numeral that fits. A prefix before it, in
/// either case, makes no difference.
pub proof fn lemma_what_addresses_denote(s: Seq<char>)
    ensures
        address_value("0x"@ + s) == numeral_value(s, 16, usize::MAX as nat),
        address_value("0X"@ + s) == numeral_value(s, 16, usize::MAX as nat),
        s.len() < 2 || s.take(2) != "0x"@ && s.take(2) != "0X"@ ==> address_value(s)
            == numeral_value(s, 16, usize::MAX as nat),
{
    reveal_strlit("0x");
    reveal_strlit("0X");
    assert(("0x"@ + s).skip(2) =~= s);
    assert(("0X"@ + s).skip(2) =~= s);
    if s.len() >= 2 && s[0] == '0' && s[1] == 'x' {
        assert(s.take(2) =~= "0x"@);
    }
    if s.len() >= 2 && s[0] == '0' && s[1] == 'X' {
        assert(s.take(2) =~= "0X"@);
    }
}

/// A number is written in digits of the base, in lower case, and starts with a
/// zero only if it is zero. The digits denote it, so there is no other way to
/// write it like that.
pub proof fn lemma_how_numbers_are_written(n: nat, base: nat)
    requires
        2 <= base <= 36,
    ensures
        numeral(n, base).len() > 0,
        digits_value(numeral(n, base), base) == Some(n),
        forall|i: int|
            0 <= i < numeral(n, base).len() ==> "0123456789abcdefghijklmnopqrstuvwxyz"@.take(
                base as int,
            ).contains(#[trigger] numeral(n, base)[i]),
        numeral(n, base)[0] == '0' <==> n == 0,
        n == 0 ==> numeral(n, base).len() == 1,
    decreases n,
{
    let table = "0123456789abcdefghijklmnopqrstuvwxyz"@;
    reveal_strlit("0123456789abcdefghijklmnopqrstuvwxyz");
    lemma_digits_of_numeral(n, base);
    let digits = numeral(n, base);
    if n < base {
        assert(table.take(base as int)[n as int] == digit_char(n));
        assert(digits[0] == digit_char(n));
    } else {
        let high = n / base;
        let low = n % base;
        assert(0 < high < n && low < base) by (nonlinear_arith)
            requires
                n >= base >= 2,
                high == n / base,
                low == n % base,
        ;
        lemma_how_numbers_are_written(high, base);
        assert(table.take(base as int)[low as int] == digit_char(low));
        assert forall|i: int| 0 <= i < digits.len() implies table.take(base as int).contains(
            #[trigger] digits[i],
        ) by {
            if i < digits.len() - 1 {
                assert(digits[i] == numeral(high, base)[i]);
            }
        }
        assert(digits[0] == numeral(high, base)[0]);
    }
}

/// Decimal numbers are numerals, with a sign before them where they are
/// negative. Hexadecimal numbers are numerals behind a prefix.
pub proof fn lemma_decimal_and_hexadecimal(n: nat)
    ensures
        decimal(n as int) == numeral(n, 10),
        n > 0 ==> decimal(-n) == "-"@ + decimal(n as int),
        hexadecimal(n) == "0x"@ + numeral(n, 16),
{
    reveal_strlit("-");
    reveal_strlit("0x");
    assert("-"@ =~= seq!['-']);
    assert("0x"@ =~= seq!['0', 'x']);
}

/// What is written by `to_decimal`, `to_signed_decimal` and `to_hexadecimal`
/// reads back as the number it was, by `parse_numeral` and `parse_address`.
pub proof fn lemma_written_numbers_read_back(
    n: u64,
    signed: i32,
    addr: usize,
    in_decimal: String,
    with_sign: String,
    in_hexadecimal: String,
    text: &str,
    number: Option<u64>,
    address: Option<usize>,
)
    requires
        call_ensures(to_decimal, (n,), in_decimal),
        call_ensures(to_signed_decimal, (signed,), with_sign),
        call_ensures(to_hexadecimal, (addr as u64,), in_hexadecimal),
        call_ensures(parse_numeral, (text, 10u64, u64::MAX), number),
        call_ensures(parse_address, (text,), address),
    ensures
        text@ == in_decimal@ ==> number == Some(n),
        text@ == with_sign@ && signed >= 0 ==> number == Some(signed as u64),
        "-"@ + text@ == with_sign@ && signed < 0 ==> number == Some((-signed) as u64),
        text@ == in_hexadecimal@ ==> address == Some(addr),
{
    lemma_numeral_round_trip(n as nat, 10, u64::MAX as nat);
    lemma_address_round_trip(addr);
    if signed >= 0 {
        lemma_numeral_round_trip(signed as nat, 10, u64::MAX as nat);
    } else {
        lemma_numeral_round_trip((-signed) as nat, 10, u64::MAX as nat);
        reveal_strlit("-");
        if "-"@ + text@ == with_sign@ {
            assert(text@ =~= ("-"@ + text@).skip(1));
            assert(numeral((-signed) as nat, 10) =~= with_sign@.skip(1));
        }
    }
}

/// What follows the first character of a text, put behind that character, is
/// the text.
pub proof fn lemma_get_addr_str(s: String, rest: String)
    requires
        s@.len() >= 1,
        call_ensures(get_addr_str, (&s,), rest),
    ensures
        seq![s@[0]] + rest@ == s@,
{
    assert(seq![s@[0]] + rest@ =~= s@);
}

} // verus!

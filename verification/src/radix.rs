use vstd::prelude::*;

verus! {

use crate::stdlib::push_char;

/// The character of digit `d`: `0`-`9`, then lower-case `a`-`f`.
pub open spec fn digit_char(d: nat) -> char {
    if d < 10 {
        (d + 48) as char
    } else {
        (d + 87) as char
    }
}

/// The numeral of `n` in base `b` (2 or more), most significant digit first,
/// with no leading zeros.
pub open spec fn radix_text(n: nat, b: nat) -> Seq<char>
    decreases n,
{
    if b < 2 || n < b {
        seq![digit_char(n)]
    } else {
        proof {
            vstd::arithmetic::div_mod::lemma_div_decreases(n as int, b as int);
        }
        radix_text(n / b, b).push(digit_char(n % b))
    }
}

/// Decimal numeral of `n`.
pub open spec fn dec_text(n: nat) -> Seq<char> {
    radix_text(n, 10)
}

/// Lower-case hexadecimal numeral of `n`.
pub open spec fn hex_text(n: nat) -> Seq<char> {
    radix_text(n, 16)
}

/// The base-`b` numerals of a sequence of numbers.
pub open spec fn numerals(ds: Seq<u128>, b: nat) -> Seq<Seq<char>> {
    ds.map_values(|x: u128| radix_text(x as nat, b))
}

fn digit_char_exec(d: u128) -> (c: char)
    requires
        d < 16,
    ensures
        c == digit_char(d as nat),
{
    let small = d as u8;
    if small < 10 {
        (small + 48) as char
    } else {
        (small + 87) as char
    }
}

/// Appends the numeral of `n` in base `b` to `out`.
pub fn push_radix(out: &mut String, n: u128, b: u128)
    requires
        b == 10 || b == 16,
    ensures
        final(out)@ == old(out)@ + radix_text(n as nat, b as nat),
    decreases n,
{
    if n >= b {
        push_radix(out, n / b, b);
    }
    let d = digit_char_exec(n % b);
    push_char(out, d);
    proof {
        assert(old(out)@ + radix_text(n as nat, b as nat) =~= final(out)@) by {
            if n >= b {
                assert(radix_text(n as nat, b as nat) == radix_text((n / b) as nat, b as nat).push(
                    digit_char((n % b) as nat),
                ));
            }
        }
    }
}


/// The numbers of a sequence of u128, as naturals.
pub open spec fn as_nats(ds: Seq<u128>) -> Seq<nat> {
    ds.map_values(|x: u128| x as nat)
}

/// The base-`b` digits of `v`, `n` of them, most significant first (the
/// digits above the `n` lowest are dropped).
pub open spec fn base_digits(v: nat, b: nat, n: nat) -> Seq<nat>
    decreases n,
{
    if n == 0 {
        Seq::empty()
    } else {
        base_digits(v / b, b, (n - 1) as nat).push(v % b)
    }
}

/// `b` to the power `n`.
pub open spec fn power(b: nat, n: nat) -> nat
    decreases n,
{
    if n == 0 {
        1
    } else {
        b * power(b, (n - 1) as nat)
    }
}

/// The number whose base-`b` digits are `ds`, most significant first.
pub open spec fn digits_value(ds: Seq<nat>, b: nat) -> nat
    decreases ds.len(),
{
    if ds.len() == 0 {
        0
    } else {
        digits_value(ds.drop_last(), b) * b + ds.last()
    }
}

/// A decimal digit `0`-`9`.
pub open spec fn is_dec_digit(c: char) -> bool {
    48 <= c as u32 <= 57
}

/// A hexadecimal digit, in either case.
pub open spec fn is_hex_digit(c: char) -> bool {
    is_dec_digit(c) || (97 <= c as u32 <= 102) || (65 <= c as u32 <= 70)
}

/// The value of a (hexadecimal or decimal) digit character.
pub open spec fn digit_value(c: char) -> nat {
    if is_dec_digit(c) {
        (c as u32 - 48) as nat
    } else if 97 <= c as u32 <= 102 {
        (c as u32 - 87) as nat
    } else {
        (c as u32 - 55) as nat
    }
}

/// The value of a numeral in base `b`, most significant digit first.
pub open spec fn numeral_value(t: Seq<char>, b: nat) -> nat
    decreases t.len(),
{
    if t.len() == 0 {
        0
    } else {
        numeral_value(t.drop_last(), b) * b + digit_value(t.last())
    }
}

/// A decimal octet as dotted-quad text writes it: one to three decimal
/// digits, no leading zero, value at most 255.
pub open spec fn is_dec_octet(t: Seq<char>) -> bool {
    &&& 1 <= t.len() <= 3
    &&& forall|i: int| 0 <= i < t.len() ==> is_dec_digit(#[trigger] t[i])
    &&& (t.len() > 1 ==> t[0] != '0')
    &&& numeral_value(t, 10) <= 255
}

/// An IPv6 group: one to four hexadecimal digits, in either case.
pub open spec fn is_hex_group(t: Seq<char>) -> bool {
    &&& 1 <= t.len() <= 4
    &&& forall|i: int| 0 <= i < t.len() ==> is_hex_digit(#[trigger] t[i])
}

/// What `u8::from_str` accepts: an optional `+` sign, then one or more
/// decimal digits with a value of at most 255.
pub open spec fn u8_from_text(t: Seq<char>) -> Option<u8> {
    let digits = if t.len() > 0 && t[0] == '+' {
        t.drop_first()
    } else {
        t
    };
    if digits.len() > 0 && (forall|i: int| 0 <= i < digits.len() ==> is_dec_digit(#[trigger] digits[i]))
        && numeral_value(digits, 10) <= 255 {
        Some(numeral_value(digits, 10) as u8)
    } else {
        None
    }
}

fn is_dec_digit_exec(c: char) -> (r: bool)
    ensures
        r == is_dec_digit(c),
{
    let x = c as u32;
    48 <= x && x <= 57
}

fn digit_value_exec(c: char) -> (r: u128)
    requires
        is_hex_digit(c),
    ensures
        r as nat == digit_value(c),
        r < 16,
{
    let x = c as u32;
    if 48 <= x && x <= 57 {
        (x - 48) as u128
    } else if 97 <= x && x <= 102 {
        (x - 87) as u128
    } else {
        (x - 55) as u128
    }
}

/// The value of the numeral `t` (at most four digits, all below `b`),
/// accumulated digit by digit.
fn numeral_value_exec(t: &Vec<char>, b: u128) -> (r: u128)
    requires
        b == 10 || b == 16,
        t@.len() <= 4,
        forall|i: int| 0 <= i < t@.len() ==> is_hex_digit(#[trigger] t@[i]) && digit_value(t@[i]) < b,
    ensures
        r as nat == numeral_value(t@, b as nat),
        r < power(b as nat, t@.len()),
{
    let mut acc: u128 = 0;
    let mut i: usize = 0;
    while i < t.len()
        invariant
            b == 10 || b == 16,
            t@.len() <= 4,
            forall|i: int| 0 <= i < t@.len() ==> is_hex_digit(#[trigger] t@[i]) && digit_value(t@[i]) < b,
            i <= t@.len(),
            acc as nat == numeral_value(t@.take(i as int), b as nat),
            acc < power(b as nat, i as nat),
            power(b as nat, i as nat) <= 65536,
        decreases t@.len() - i,
    {
        let d = digit_value_exec(t[i]);
        proof {
            assert(t@.take(i + 1 as int).drop_last() =~= t@.take(i as int));
            let p = power(b as nat, i as nat);
            assert(acc * b + d < p * b) by (nonlinear_arith)
                requires
                    acc < p,
                    d < b,
            ;
            assert(power(b as nat, (i + 1) as nat) == b * p);
            if i + 1 <= 4 {
                reveal_with_fuel(power, 5);
            }
        }
        acc = acc * b + d;
        i += 1;
    }
    proof {
        assert(t@.take(t@.len() as int) =~= t@);
    }
    acc
}

/// Reads a decimal octet as dotted-quad text writes it.
pub fn parse_dec_octet(t: &Vec<char>) -> (r: Option<u128>)
    ensures
        r is Some <==> is_dec_octet(t@),
        r matches Some(v) ==> v as nat == numeral_value(t@, 10),
{
    if t.len() < 1 || t.len() > 3 {
        return None;
    }
    let mut i: usize = 0;
    while i < t.len()
        invariant
            i <= t@.len(),
            forall|j: int| 0 <= j < i ==> is_dec_digit(#[trigger] t@[j]),
        decreases t@.len() - i,
    {
        if !is_dec_digit_exec(t[i]) {
            return None;
        }
        i += 1;
    }
    if t.len() > 1 && t[0] == '0' {
        return None;
    }
    let v = numeral_value_exec(t, 10);
    if v > 255 {
        None
    } else {
        Some(v)
    }
}

/// Reads an IPv6 group: one to four hexadecimal digits.
pub fn parse_hex_group(t: &Vec<char>) -> (r: Option<u128>)
    ensures
        r is Some <==> is_hex_group(t@),
        r matches Some(v) ==> v as nat == numeral_value(t@, 16) && v < 65536,
{
    if t.len() < 1 || t.len() > 4 {
        return None;
    }
    let mut i: usize = 0;
    while i < t.len()
        invariant
            i <= t@.len(),
            forall|j: int| 0 <= j < i ==> is_hex_digit(#[trigger] t@[j]),
        decreases t@.len() - i,
    {
        let x = t[i] as u32;
        if !((48 <= x && x <= 57) || (97 <= x && x <= 102) || (65 <= x && x <= 70)) {
            return None;
        }
        i += 1;
    }
    let v = numeral_value_exec(t, 16);
    proof {
        reveal_with_fuel(power, 5);
    }
    Some(v)
}


/// There are `n` base-`b` digits, each below `b`.
pub proof fn lemma_base_digits_bound(v: nat, b: nat, n: nat)
    requires
        b >= 2,
    ensures
        base_digits(v, b, n).len() == n,
        forall|i: int| 0 <= i < n ==> #[trigger] base_digits(v, b, n)[i] < b,
    decreases n,
{
    if n > 0 {
        lemma_base_digits_bound(v / b, b, (n - 1) as nat);
        vstd::arithmetic::div_mod::lemma_mod_bound(v as int, b as int);
        let ds = base_digits(v, b, n);
        assert forall|i: int| 0 <= i < n implies #[trigger] ds[i] < b by {
            if i < n - 1 {
                assert(ds[i] == base_digits(v / b, b, (n - 1) as nat)[i]);
            }
        }
    }
}

/// Reading back the low `n` base-`b` digits of `v` gives `v` modulo `b^n`.
pub proof fn lemma_digits_value_of_base_digits(v: nat, b: nat, n: nat)
    requires
        b >= 2,
    ensures
        digits_value(base_digits(v, b, n), b) == v % power(b, n),
        power(b, n) > 0,
    decreases n,
{
    if n == 0 {
        assert(v % 1 == 0);
    } else {
        lemma_digits_value_of_base_digits(v / b, b, (n - 1) as nat);
        let ds = base_digits(v, b, n);
        assert(ds.drop_last() == base_digits(v / b, b, (n - 1) as nat));
        let p = power(b, (n - 1) as nat);
        assert(power(b, n) == b * p);
        vstd::arithmetic::div_mod::lemma_mod_breakdown(v as int, b as int, p as int);
        assert(power(b, n) > 0) by (nonlinear_arith)
            requires
                b >= 2,
                p > 0,
                power(b, n) == b * p,
        ;
        vstd::arithmetic::mul::lemma_mul_is_commutative(b as int, (v as int / b as int) % p as int);
    }
}

/// The base-`b` digits of the number with digits `ds` are `ds` again, and
/// that number is below `b^|ds|`.
pub proof fn lemma_base_digits_of_digits_value(ds: Seq<nat>, b: nat)
    requires
        b >= 2,
        forall|i: int| 0 <= i < ds.len() ==> #[trigger] ds[i] < b,
    ensures
        base_digits(digits_value(ds, b), b, ds.len()) == ds,
        digits_value(ds, b) < power(b, ds.len()),
    decreases ds.len(),
{
    if ds.len() == 0 {
        assert(base_digits(0, b, 0) =~= ds);
    } else {
        let init = ds.drop_last();
        lemma_base_digits_of_digits_value(init, b);
        let vi = digits_value(init, b);
        let v = digits_value(ds, b);
        assert(v == vi * b + ds.last());
        vstd::arithmetic::div_mod::lemma_fundamental_div_mod_converse(
            v as int,
            b as int,
            vi as int,
            ds.last() as int,
        );
        assert(base_digits(v, b, ds.len()) =~= ds);
        let p = power(b, init.len());
        assert(power(b, ds.len()) == b * p);
        assert(v < power(b, ds.len())) by (nonlinear_arith)
            requires
                v == vi * b + ds.last(),
                vi < p,
                ds.last() < b,
                power(b, ds.len()) == b * p,
        ;
    }
}

/// A digit character reads back as its digit.
pub proof fn lemma_digit_char(d: nat)
    requires
        d < 16,
    ensures
        digit_value(digit_char(d)) == d,
        is_hex_digit(digit_char(d)),
        d < 10 <==> is_dec_digit(digit_char(d)),
        digit_char(d) != '.',
        digit_char(d) != ':',
        digit_char(d) == '0' <==> d == 0,
{
    if d < 10 {
        assert(((d + 48) as char) as u32 == d + 48);
    } else {
        assert(((d + 87) as char) as u32 == d + 87);
    }
}

/// A decimal digit character is the digit character of its value.
pub proof fn lemma_dec_digit_char(c: char)
    requires
        is_dec_digit(c),
    ensures
        digit_value(c) < 10,
        digit_char(digit_value(c)) == c,
{
    assert(((c as u32) as int) as char == c);
}

/// The numeral of `n` in base `b` (10 or 16) is made of digits below `b`,
/// reads back as `n`, starts with `0` only when it is `0` itself, and has at
/// most `k` digits when `n < b^k`.
pub proof fn lemma_radix_text_reads_back(n: nat, b: nat)
    requires
        b == 10 || b == 16,
    ensures
        radix_text(n, b).len() >= 1,
        forall|i: int|
            0 <= i < radix_text(n, b).len() ==> is_hex_digit(#[trigger] radix_text(n, b)[i])
                && digit_value(radix_text(n, b)[i]) < b && (b == 10 ==> is_dec_digit(
                radix_text(n, b)[i],
            )) && radix_text(n, b)[i] != '.' && radix_text(n, b)[i] != ':',
        numeral_value(radix_text(n, b), b) == n,
        radix_text(n, b).len() > 1 ==> radix_text(n, b)[0] != '0',
        n > 0 ==> radix_text(n, b)[0] != '0',
    decreases n,
{
    let t = radix_text(n, b);
    assert(numeral_value(Seq::<char>::empty(), b) == 0);
    if n < b {
        lemma_digit_char(n);
        assert(t == seq![digit_char(n)]);
        assert(t.drop_last() =~= Seq::<char>::empty());
    } else {
        vstd::arithmetic::div_mod::lemma_mod_bound(n as int, b as int);
        lemma_digit_char(n % b);
        vstd::arithmetic::div_mod::lemma_div_decreases(n as int, b as int);
        lemma_radix_text_reads_back(n / b, b);
        let t0 = radix_text(n / b, b);
        assert(t == t0.push(digit_char(n % b)));
        assert(t.drop_last() == t0);
        vstd::arithmetic::div_mod::lemma_fundamental_div_mod(n as int, b as int);
        vstd::arithmetic::div_mod::lemma_mod_bound(n as int, b as int);
        assert(n / b >= 1) by {
            vstd::arithmetic::div_mod::lemma_div_is_ordered(b as int, n as int, b as int);
            vstd::arithmetic::div_mod::lemma_div_by_self(b as int);
        }
        assert(t[0] == t0[0]);
    }
}

/// The numeral has at most `k` digits when the number is below `b^k`.
pub proof fn lemma_radix_text_len(n: nat, b: nat, k: nat)
    requires
        b == 10 || b == 16,
        k >= 1,
        n < power(b, k),
    ensures
        radix_text(n, b).len() <= k,
    decreases n,
{
    if n >= b {
        vstd::arithmetic::div_mod::lemma_div_decreases(n as int, b as int);
        let p = power(b, (k - 1) as nat);
        assert(power(b, k) == b * p);
        if k == 1 {
            assert(p == 1);
        } else {
            assert(n / b < p) by {
                let bi = b as int;
                let pi = p as int;
                let ni = n as int;
                vstd::arithmetic::div_mod::lemma_fundamental_div_mod(ni, bi);
                vstd::arithmetic::div_mod::lemma_mod_bound(ni, bi);
                let q = ni / bi;
                let r = ni % bi;
                assert(q < pi) by (nonlinear_arith)
                    requires
                        ni == bi * q + r,
                        0 <= r,
                        ni < bi * pi,
                        bi > 0,
                ;
            }
            lemma_radix_text_len(n / b, b, (k - 1) as nat);
        }
    }
}

/// A numeral of digits below `b` with no leading zero is the numeral
/// `radix_text` writes for its value.
pub proof fn lemma_canonical_numeral(t: Seq<char>, b: nat)
    requires
        b == 10,
        t.len() >= 1,
        forall|i: int| 0 <= i < t.len() ==> is_dec_digit(#[trigger] t[i]),
        t.len() > 1 ==> t[0] != '0',
    ensures
        radix_text(numeral_value(t, b), b) == t,
        t[0] != '0' ==> numeral_value(t, b) >= 1,
    decreases t.len(),
{
    let v = numeral_value(t, b);
    let c = t.last();
    let d = digit_value(c);
    assert(is_dec_digit(t[t.len() - 1]));
    lemma_dec_digit_char(c);
    assert(numeral_value(Seq::<char>::empty(), b) == 0);
    if t.len() == 1 {
        assert(t.drop_last() =~= Seq::<char>::empty());
        assert(is_dec_digit(t[0]));
        lemma_digit_char(d);
        assert(v == d);
        assert(radix_text(v, b) =~= t);
    } else {
        let t0 = t.drop_last();
        assert(t0[0] == t[0]);
        assert forall|i: int| 0 <= i < t0.len() implies is_dec_digit(#[trigger] t0[i]) by {
            assert(t0[i] == t[i]);
        }
        lemma_canonical_numeral(t0, b);
        let v0 = numeral_value(t0, b);
        assert(v == v0 * 10 + d);
        assert(v / 10 == v0 && v % 10 == d) by {
            vstd::arithmetic::div_mod::lemma_fundamental_div_mod_converse(v as int, 10, v0 as int, d as int);
        }
        assert(radix_text(v, b) =~= t);
    }
}

} // verus!

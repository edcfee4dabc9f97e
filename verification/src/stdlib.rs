use vstd::prelude::*;

verus! {

use vstd::arithmetic::power2::pow2;
use crate::radix::u8_from_text;

/// Calls `String::push`, which appends one character to the end of the string.
#[verifier::external_body]
pub(crate) fn push_char(s: &mut String, c: char)
    ensures
        final(s)@ == old(s)@.push(c),
{
    s.push(c);
}


/// Calls `u64::is_power_of_two`, which is true exactly when `n` is `2^k` for
/// some natural `k`.
#[verifier::external_body]
pub(crate) fn u64_is_power_of_two(n: u64) -> (r: bool)
    ensures
        r == exists|k: nat| n as nat == #[trigger] pow2(k),
{
    n.is_power_of_two()
}

/// Calls `u64::next_power_of_two`, which returns the smallest power of two
/// that is greater than or equal to `n`. It panics (in debug builds) when
/// that power does not fit in a u64, that is when `n > 2^63`.
#[verifier::external_body]
pub(crate) fn u64_next_power_of_two(n: u64) -> (r: u64)
    requires
        n <= 0x8000_0000_0000_0000u64,
    ensures
        exists|k: nat| r as nat == #[trigger] pow2(k),
        r >= n,
        forall|k: nat| #[trigger] pow2(k) >= n ==> r <= pow2(k),
{
    n.next_power_of_two()
}


/// Calls `u128::checked_shl`, which computes `x << rhs`, or gives `None` when
/// `rhs` is not below the bit width, 128.
#[verifier::external_body]
pub(crate) fn u128_checked_shl(x: u128, rhs: u32) -> (r: Option<u128>)
    ensures
        rhs < 128 ==> r == Some(x << rhs),
        rhs >= 128 ==> r is None,
{
    x.checked_shl(rhs)
}


/// Calls `str::split_once` with a `char` pattern, which splits `s` on the
/// first occurrence of `c`: the text before it and the text after it, or
/// `None` when `c` does not occur.
#[verifier::external_body]
pub(crate) fn split_once_char<'a>(s: &'a str, c: char) -> (r: Option<(&'a str, &'a str)>)
    ensures
        r is None <==> !s@.contains(c),
        r matches Some(p) ==> s@ == p.0@ + seq![c] + p.1@ && !p.0@.contains(c),
{
    s.split_once(c)
}

/// Calls `str::parse::<u8>`, that is `u8::from_str`, which reads an optional
/// `+` sign followed by one or more decimal digits whose value is at most
/// 255; any other text is an error.
#[verifier::external_body]
pub(crate) fn parse_u8(s: &str) -> (r: Option<u8>)
    ensures
        r == u8_from_text(s@),
{
    s.parse::<u8>().ok()
}

/// What the `Debug` formatting of a string slice writes for the text `s`.
pub uninterp spec fn debug_text(s: Seq<char>) -> Seq<char>;

/// Calls the `Debug` formatting of `str` (as `format!("{s:?}")` does), which
/// writes the text in double quotes with special characters escaped. The
/// contract names its result and states nothing more of it.
#[verifier::external_body]
pub(crate) fn debug_quoted(s: &str) -> (r: String)
    ensures
        r@ == debug_text(s@),
{
    format!("{s:?}")
}

} // verus!

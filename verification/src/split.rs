use vstd::prelude::*;

verus! {

use vstd::arithmetic::power2::{pow2, lemma_pow2_pos, lemma_pow2_adds, lemma2_to64};
use crate::bits::{lemma_one_shl, lemma_pow2_128};
use crate::cidr::Cidr;
use crate::radix::{dec_text, push_radix};
use crate::stdlib::{u64_is_power_of_two, u64_next_power_of_two};
use vstd::std_specs::bits::{u64_trailing_zeros, axiom_u64_trailing_zeros};

/// Message for a target prefix shorter than the block's own prefix.
pub open spec fn shorter_prefix_message(new_prefix: nat, prefix: nat) -> Seq<char> {
    "new prefix /"@ + dec_text(new_prefix) + " is shorter than /"@ + dec_text(prefix)
        + "; splitting only widens the prefix"@
}

/// Message for a target prefix beyond the address width.
pub open spec fn prefix_beyond_width_message(new_prefix: nat, width: nat) -> Seq<char> {
    "/"@ + dec_text(new_prefix) + " exceeds /"@ + dec_text(width)
        + ", the max for this address family"@
}

/// Message for a split into 2^64 or more subnets.
pub open spec fn too_many_subnets_message(extra_bits: nat) -> Seq<char> {
    "splitting into 2^"@ + dec_text(extra_bits)
        + " subnets is not supported (too many to enumerate)"@
}

/// Splitting `c` into subnets of prefix `new_prefix` is possible: the new
/// prefix is no shorter than the block's, no longer than the family's width,
/// and adds fewer than 64 bits.
pub open spec fn split_allowed(c: Cidr, new_prefix: nat) -> bool {
    &&& c.spec_prefix() <= new_prefix
    &&& new_prefix <= c.spec_width()
    &&& new_prefix - c.spec_prefix() < 64
}

/// The message that a refused split is answered with.
pub open spec fn split_error_message(c: Cidr, new_prefix: nat) -> Seq<char> {
    if new_prefix < c.spec_prefix() {
        shorter_prefix_message(new_prefix, c.spec_prefix())
    } else if new_prefix > c.spec_width() {
        prefix_beyond_width_message(new_prefix, c.spec_width())
    } else {
        too_many_subnets_message((new_prefix - c.spec_prefix()) as nat)
    }
}

/// `subnets` is the split of `c` into blocks of prefix `new_prefix`: all
/// `2^(new_prefix - prefix)` of them, in address order, the i-th starting
/// `i` blocks past the network address of `c`.
pub open spec fn is_split_of(c: Cidr, new_prefix: nat, subnets: Seq<Cidr>) -> bool {
    &&& subnets.len() == pow2((new_prefix - c.spec_prefix()) as nat)
    &&& forall|i: int|
        0 <= i < subnets.len() ==> {
            &&& (#[trigger] subnets[i]).spec_prefix() == new_prefix
            &&& subnets[i].spec_width() == c.spec_width()
            &&& subnets[i].spec_addr() == c.network_value() + i * pow2(
                (c.spec_width() - new_prefix) as nat,
            )
        }
}

fn shorter_prefix_error(new_prefix: u8, prefix: u8) -> (e: String)
    ensures
        e@ == shorter_prefix_message(new_prefix as nat, prefix as nat),
{
    let mut e = String::new();
    e.append("new prefix /");
    push_radix(&mut e, new_prefix as u128, 10);
    e.append(" is shorter than /");
    push_radix(&mut e, prefix as u128, 10);
    e.append("; splitting only widens the prefix");
    e
}

fn beyond_width_error(new_prefix: u8, width: u8) -> (e: String)
    ensures
        e@ == prefix_beyond_width_message(new_prefix as nat, width as nat),
{
    let mut e = String::new();
    e.append("/");
    push_radix(&mut e, new_prefix as u128, 10);
    e.append(" exceeds /");
    push_radix(&mut e, width as u128, 10);
    e.append(", the max for this address family");
    e
}

fn too_many_error(extra_bits: u8) -> (e: String)
    ensures
        e@ == too_many_subnets_message(extra_bits as nat),
{
    let mut e = String::new();
    e.append("splitting into 2^");
    push_radix(&mut e, extra_bits as u128, 10);
    e.append(" subnets is not supported (too many to enumerate)");
    e
}

/// Split `c` into equal-sized subnets, each with `new_prefix` as its prefix
/// length. `new_prefix` must be at least as long as `c`'s own prefix (you
/// can only make a block *smaller*, splitting it into more pieces) and no
/// longer than the address family's width.
pub fn split_by_prefix(c: &Cidr, new_prefix: u8) -> (r: Result<Vec<Cidr>, String>)
    ensures
        r is Ok <==> split_allowed(*c, new_prefix as nat),
        r matches Ok(v) ==> is_split_of(*c, new_prefix as nat, v@),
        r matches Err(e) ==> e@ == split_error_message(*c, new_prefix as nat),
{
    proof {
        use_type_invariant(c);
    }
    if new_prefix < c.prefix() {
        return Err(shorter_prefix_error(new_prefix, c.prefix()));
    }
    if new_prefix > c.width() {
        return Err(beyond_width_error(new_prefix, c.width()));
    }
    let extra_bits = new_prefix - c.prefix();
    if extra_bits >= 64 {
        return Err(too_many_error(extra_bits));
    }
    proof {
        lemma_one_shl(extra_bits as u32);
        let e = extra_bits;
        assert((1u128 << e) == (1u128 << (e as u32))) by (bit_vector);
    }
    let count: u128 = 1u128 << extra_bits;
    let block_shift = c.width() - new_prefix;
    // block_shift can be up to 128 only when count == 1 (extra_bits == 0),
    // in which case the block_size value below is never actually used as a
    // per-iteration multiplier for anything past i=0, so 0 is a safe stand-in
    // that avoids a shift-by-128 overflow.
    let block_size: u128 = if block_shift >= 128 {
        0
    } else {
        proof {
            lemma_one_shl(block_shift as u32);
            let b = block_shift;
            assert((1u128 << b) == (1u128 << (b as u32))) by (bit_vector);
        }
        1u128 << block_shift
    };
    let base = c.network_bits();
    let ghost bs = pow2(block_shift as nat);
    proof {
        c.lemma_network_room();
        lemma_pow2_adds(extra_bits as nat, block_shift as nat);
        lemma_pow2_pos(block_shift as nat);
        lemma_pow2_pos(extra_bits as nat);
        lemma_pow2_128();
        assert(count * bs == c.block_size());
        lemma2_to64();
        assert(pow2(c.spec_width()) <= u128::MAX + 1);
    }
    let mut out: Vec<Cidr> = Vec::with_capacity(#[verifier::truncate] (count as usize));
    let mut i: u128 = 0;
    while i < count
        invariant
            c.is_valid(),
            split_allowed(*c, new_prefix as nat),
            count as nat == pow2(extra_bits as nat),
            extra_bits == new_prefix - c.spec_prefix(),
            block_shift == c.spec_width() - new_prefix,
            bs == pow2(block_shift as nat),
            bs > 0,
            block_shift < 128 ==> block_size == bs,
            block_shift >= 128 ==> count == 1,
            base as nat == c.network_value(),
            c.network_value() + count * bs <= pow2(c.spec_width()),
            pow2(c.spec_width()) <= u128::MAX + 1,
            i <= count,
            out@.len() == i,
            forall|j: int|
                0 <= j < i ==> {
                    &&& (#[trigger] out@[j]).spec_prefix() == new_prefix
                    &&& out@[j].spec_width() == c.spec_width()
                    &&& out@[j].spec_addr() == c.network_value() + j * bs
                },
        decreases count - i,
    {
        proof {
            assert(i * bs + bs <= count * bs) by (nonlinear_arith)
                requires
                    i < count,
                    bs > 0,
            ;
            if block_shift >= 128 {
                assert(i == 0);
            }
        }
        let addr = base + i * block_size;
        out.push(Cidr::from_raw(addr, new_prefix, c.width()));
        i += 1;
    }
    Ok(out)
}


/// `p` is the smallest power of two that is at least `n`.
pub open spec fn is_least_pow2_at_least(n: nat, p: nat) -> bool {
    &&& exists|k: nat| p == #[trigger] pow2(k)
    &&& p >= n
    &&& forall|k: nat| #[trigger] pow2(k) >= n ==> p <= pow2(k)
}

/// The smallest power of two that is at least `n`.
pub open spec fn least_pow2_at_least(n: nat) -> nat {
    choose|p: nat| is_least_pow2_at_least(n, p)
}

/// `n` is a power of two.
pub open spec fn is_power_of_two(n: nat) -> bool {
    exists|k: nat| n == #[trigger] pow2(k)
}

/// Message for a split into zero subnets.
pub open spec fn zero_subnets_message() -> Seq<char> {
    "cannot split into 0 subnets"@
}

/// Message for a subnet count that is not a power of two, with the next
/// power of two as a suggestion.
pub open spec fn not_power_of_two_message(n: nat) -> Seq<char> {
    dec_text(n) + " is not a power of two; CIDR splitting only produces power-of-two subnet counts (try "@
        + dec_text(least_pow2_at_least(n)) + ")"@
}

/// There is at most one smallest power of two at or above `n`.
proof fn lemma_least_pow2_unique(n: nat, p: nat, q: nat)
    requires
        is_least_pow2_at_least(n, p),
        is_least_pow2_at_least(n, q),
    ensures
        p == q,
{
    let kp = choose|k: nat| p == #[trigger] pow2(k);
    let kq = choose|k: nat| q == #[trigger] pow2(k);
    assert(p <= pow2(kq));
    assert(q <= pow2(kp));
}

/// Above `2^63` the smallest power of two at or above `n` is `2^64`.
proof fn lemma_least_pow2_above_2_63(n: nat)
    requires
        0x8000_0000_0000_0000 < n <= 0xffff_ffff_ffff_ffff,
    ensures
        is_least_pow2_at_least(n, pow2(64)),
{
    lemma2_to64();
    vstd::arithmetic::power2::lemma2_to64_rest();
    assert(pow2(64) == 0x1_0000_0000_0000_0000nat);
    assert(pow2(63) == 0x8000_0000_0000_0000nat);
    assert forall|k: nat| #[trigger] pow2(k) >= n implies pow2(64) <= pow2(k) by {
        if k < 63 {
            vstd::arithmetic::power2::lemma_pow2_strictly_increases(k, 63);
        } else if k == 63 {
        } else if k > 64 {
            vstd::arithmetic::power2::lemma_pow2_strictly_increases(64, k);
        }
    }
}

fn not_power_of_two_error(n: u64) -> (e: String)
    ensures
        e@ == not_power_of_two_message(n as nat),
{
    let mut e = String::new();
    push_radix(&mut e, n as u128, 10);
    e.append(" is not a power of two; CIDR splitting only produces power-of-two subnet counts (try ");
    if n <= 0x8000_0000_0000_0000u64 {
        let next = u64_next_power_of_two(n);
        proof {
            assert(is_least_pow2_at_least(n as nat, next as nat));
            lemma_least_pow2_unique(n as nat, next as nat, least_pow2_at_least(n as nat));
        }
        push_radix(&mut e, next as u128, 10);
    } else {
        // The next power of two, 2^64, does not fit in a u64; write it from a u128.
        proof {
            lemma_least_pow2_above_2_63(n as nat);
            lemma_least_pow2_unique(n as nat, pow2(64), least_pow2_at_least(n as nat));
            lemma2_to64();
        }
        push_radix(&mut e, 0x1_0000_0000_0000_0000u128, 10);
    }
    e.append(")");
    assert(e@ =~= not_power_of_two_message(n as nat));
    e
}

/// The number of trailing zeros of `2^k` is `k`.
proof fn lemma_trailing_zeros_of_pow2(n: u64, k: nat)
    requires
        n as nat == pow2(k),
    ensures
        k < 64,
        u64_trailing_zeros(n) as nat == k,
{
    lemma2_to64();
    if k >= 64 {
        vstd::arithmetic::power2::lemma_pow2_strictly_increases(63, k);
        if k > 64 {
            vstd::arithmetic::power2::lemma_pow2_strictly_increases(64, k);
        }
    }
    let kk = k as u64;
    vstd::bits::lemma_u64_shl_is_mul(1, kk);
    assert(n == 1u64 << kk);
    axiom_u64_trailing_zeros(n);
    let t = u64_trailing_zeros(n) as u64;
    assert(forall|j: u64| j < 64 ==> (((1u64 << kk) >> j) & 1u64 == 1u64 <==> j == kk)) by (bit_vector)
        requires
            kk < 64,
    ;
    if t < kk {
        assert(((n >> t) & 1u64) == 1u64);
    } else if t > kk {
        assert(((n >> kk) & 1u64) == 0u64);
    }
}

/// Split `c` into exactly `n` equal-sized subnets. `n` must be a power of
/// two: CIDR splitting only ever produces power-of-two subnet counts, so
/// asking for e.g. 3 is rejected with a suggestion (4) rather than silently
/// rounding. A count above 2^63 is never a power of two; its suggestion is
/// 2^64.
pub fn split_by_count(c: &Cidr, n: u64) -> (r: Result<Vec<Cidr>, String>)
    ensures
        n == 0 ==> (r matches Err(e) && e@ == zero_subnets_message()),
        n != 0 && !is_power_of_two(n as nat) ==> (r matches Err(e) && e@
            == not_power_of_two_message(n as nat)),
        forall|k: nat|
            #[trigger] pow2(k) == n ==> {
                &&& (r is Ok <==> split_allowed(*c, c.spec_prefix() + k))
                &&& (r matches Ok(v) ==> is_split_of(*c, c.spec_prefix() + k, v@))
                &&& (r matches Err(e) ==> e@ == split_error_message(*c, c.spec_prefix() + k))
            },
{
    proof {
        use_type_invariant(c);
        vstd::arithmetic::power2::lemma_pow2_pos(0);
    }
    if n == 0 {
        proof {
            assert forall|k: nat| #[trigger] pow2(k) == n implies false by {
                lemma_pow2_pos(k);
            }
        }
        let mut e = String::new();
        e.append("cannot split into 0 subnets");
        return Err(e);
    }
    if !u64_is_power_of_two(n) {
        proof {
            assert forall|k: nat| #[trigger] pow2(k) == n implies false by {
                assert(is_power_of_two(n as nat));
            }
        }
        return Err(not_power_of_two_error(n));
    }
    let ghost k = choose|k: nat| n as nat == #[trigger] pow2(k);
    proof {
        lemma_trailing_zeros_of_pow2(n, k);
        assert forall|j: nat| #[trigger] pow2(j) == n implies j == k by {
            if j < k {
                vstd::arithmetic::power2::lemma_pow2_strictly_increases(j, k);
            } else if j > k {
                vstd::arithmetic::power2::lemma_pow2_strictly_increases(k, j);
            }
        }
    }
    let extra_bits = n.trailing_zeros() as u8;
    split_by_prefix(c, c.prefix() + extra_bits)
}


/// A split of a block tiles it exactly: there is at least one subnet, each
/// subnet is stored as its own network address, the first starts at the
/// block's network address, each next one starts right after the previous
/// one's highest address (no gap, no overlap), and the last one ends at the
/// block's highest address.
pub proof fn lemma_split_tiles_block(c: Cidr, new_prefix: nat, subnets: Seq<Cidr>)
    requires
        c.is_valid(),
        split_allowed(c, new_prefix),
        is_split_of(c, new_prefix, subnets),
    ensures
        subnets.len() >= 1,
        forall|i: int|
            0 <= i < subnets.len() ==> (#[trigger] subnets[i]).network_value()
                == subnets[i].spec_addr(),
        subnets[0].network_value() == c.network_value(),
        forall|i: int|
            0 <= i < subnets.len() - 1 ==> (#[trigger] subnets[i + 1]).network_value()
                == subnets[i].highest_value() + 1,
        subnets.last().highest_value() == c.highest_value(),
{
    let e = (new_prefix - c.spec_prefix()) as nat;
    let h = (c.spec_width() - new_prefix) as nat;
    let bs = pow2(h);
    let count = pow2(e);
    let big = c.block_size();
    let n = c.network_value();
    let q = c.spec_addr() as nat / big;
    lemma_pow2_pos(h);
    lemma_pow2_pos(e);
    lemma_pow2_adds(e, h);
    assert(big == count * bs);
    assert(n == q * big);
    assert forall|i: int| 0 <= i < subnets.len() implies (#[trigger] subnets[i]).network_value()
        == subnets[i].spec_addr() && subnets[i].block_size() == bs by {
        let s = subnets[i];
        assert(s.host_bits() == h);
        let m = q * count + i;
        assert(s.spec_addr() == m * bs) by (nonlinear_arith)
            requires
                s.spec_addr() == n + i * bs,
                n == q * big,
                big == count * bs,
                m == q * count + i,
        ;
        vstd::arithmetic::div_mod::lemma_div_multiples_vanish(m, bs as int);
    }
    assert(subnets.len() >= 1);
    assert(subnets[0].network_value() == n);
    assert forall|i: int| 0 <= i < subnets.len() - 1 implies (#[trigger] subnets[i + 1]).network_value()
        == subnets[i].highest_value() + 1 by {
        assert(subnets[i + 1].spec_addr() == n + (i + 1) * bs);
        assert(subnets[i].spec_addr() == n + i * bs);
        assert((i + 1) * bs == i * bs + bs) by (nonlinear_arith);
    }
    let last = subnets.len() - 1;
    assert(subnets[last].spec_addr() == n + last * bs);
    assert(last * bs + bs == big) by (nonlinear_arith)
        requires
            last == count - 1,
            big == count * bs,
    ;
}

/// Splitting a block into its own prefix gives the block alone, in its
/// normalized form; for a block written at its network address that is
/// the block itself.
pub proof fn lemma_split_same_prefix(c: Cidr, subnets: Seq<Cidr>)
    requires
        c.is_valid(),
        is_split_of(c, c.spec_prefix(), subnets),
    ensures
        subnets.len() == 1,
        subnets[0].spec_addr() == c.network_value(),
        subnets[0].spec_prefix() == c.spec_prefix(),
        subnets[0].spec_width() == c.spec_width(),
        c.spec_addr() == c.network_value() ==> subnets[0] == c,
{
    lemma2_to64();
    assert(subnets[0].spec_addr() == c.network_value() + 0 * pow2(c.host_bits()));
    if c.spec_addr() == c.network_value() {
        subnets[0].lemma_same_parts(c);
    }
}

/// Rows of equal length `m` flatten row by row: element `j` of row `i`
/// lands at `i * m + j`.
proof fn lemma_flatten_rows(b: Seq<Seq<Cidr>>, m: nat)
    requires
        forall|i: int| 0 <= i < b.len() ==> (#[trigger] b[i]).len() == m,
    ensures
        b.flatten().len() == b.len() * m,
        forall|i: int, j: int|
            0 <= i < b.len() && 0 <= j < m ==> b.flatten()[i * m + j] == #[trigger] b[i][j],
    decreases b.len(),
{
    if b.len() > 0 {
        let rest = b.drop_first();
        assert forall|i: int| 0 <= i < rest.len() implies (#[trigger] rest[i]).len() == m by {
            assert(rest[i] == b[i + 1]);
        }
        lemma_flatten_rows(rest, m);
        assert(b.flatten() == b[0] + rest.flatten());
        assert(b.len() * m == m + rest.len() * m) by (nonlinear_arith)
            requires
                rest.len() == b.len() - 1,
        ;
        assert forall|i: int, j: int| 0 <= i < b.len() && 0 <= j < m implies b.flatten()[i * m
            + j] == #[trigger] b[i][j] by {
            if i > 0 {
                assert(b[i] == rest[i - 1]);
                assert(i * m + j == m + ((i - 1) * m + j)) by (nonlinear_arith);
                assert(0 <= (i - 1) * m + j < rest.len() * m) by (nonlinear_arith)
                    requires
                        1 <= i < b.len(),
                        0 <= j < m,
                        rest.len() == b.len() - 1,
                ;
                assert(rest.flatten()[(i - 1) * m + j] == rest[i - 1][j]);
            }
        }
    }
}

/// Splitting in two steps gives the same subnets, in the same order, as
/// splitting at once: when `a` splits `c` into prefix `q` and each `b[i]`
/// splits `a[i]` into prefix `p`, every inner split is allowed and the
/// inner splits, one after another, are the split of `c` into prefix `p`.
pub proof fn lemma_split_in_two_steps(
    c: Cidr,
    q: nat,
    p: nat,
    a: Seq<Cidr>,
    b: Seq<Seq<Cidr>>,
)
    requires
        c.is_valid(),
        c.spec_prefix() <= q <= p <= c.spec_width(),
        p - c.spec_prefix() < 64,
        is_split_of(c, q, a),
        b.len() == a.len(),
        forall|i: int| 0 <= i < a.len() ==> is_split_of(a[i], p, #[trigger] b[i]),
    ensures
        forall|i: int| 0 <= i < a.len() ==> split_allowed(#[trigger] a[i], p),
        is_split_of(c, p, b.flatten()),
{
    lemma_split_tiles_block(c, q, a);
    let w = c.spec_width();
    let m = pow2((p - q) as nat);
    let bs = pow2((w - p) as nat);
    let outer = pow2((w - q) as nat);
    lemma_pow2_adds((p - q) as nat, (w - p) as nat);
    assert(outer == m * bs);
    lemma_pow2_adds((q - c.spec_prefix()) as nat, (p - q) as nat);
    assert forall|i: int| 0 <= i < b.len() implies (#[trigger] b[i]).len() == m by {
        assert(a[i].spec_prefix() == q);
    }
    lemma_flatten_rows(b, m);
    lemma_pow2_pos((p - q) as nat);
    let f = b.flatten();
    assert(f.len() == pow2((p - c.spec_prefix()) as nat));
    assert forall|k: int| 0 <= k < f.len() implies {
        &&& (#[trigger] f[k]).spec_prefix() == p
        &&& f[k].spec_width() == c.spec_width()
        &&& f[k].spec_addr() == c.network_value() + k * bs
    } by {
        let i = k / m as int;
        let j = k % m as int;
        vstd::arithmetic::div_mod::lemma_fundamental_div_mod(k, m as int);
        vstd::arithmetic::div_mod::lemma_mod_bound(k, m as int);
        assert(0 <= i < a.len()) by (nonlinear_arith)
            requires
                k == m * i + j,
                0 <= j < m,
                0 <= k < a.len() * m,
                m > 0,
        ;
        assert(k == i * m + j) by (nonlinear_arith)
            requires
                k == m * i + j,
        ;
        assert(f[k] == b[i][j]);
        assert(a[i].network_value() == a[i].spec_addr());
        assert(a[i].spec_addr() == c.network_value() + i * outer);
        assert(b[i][j].spec_addr() == a[i].network_value() + j * pow2((a[i].spec_width() - p) as nat));
        assert(i * outer + j * bs == k * bs) by (nonlinear_arith)
            requires
                outer == m * bs,
                k == i * m + j,
        ;
    }
}

/// The split of a block into a given prefix is unique: two results that
/// both satisfy the split contract are equal, so a split by count and a split
/// by the matching prefix give the same subnets.
pub proof fn lemma_split_unique(c: Cidr, new_prefix: nat, a: Seq<Cidr>, b: Seq<Cidr>)
    requires
        is_split_of(c, new_prefix, a),
        is_split_of(c, new_prefix, b),
    ensures
        a == b,
{
    assert forall|i: int| 0 <= i < a.len() implies a[i] == b[i] by {
        a[i].lemma_same_parts(b[i]);
    }
    assert(a =~= b);
}

} // verus!

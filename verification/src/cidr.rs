use vstd::prelude::*;

verus! {

use vstd::arithmetic::power2::{pow2, lemma_pow2_pos, lemma2_to64, lemma_pow2_adds};
use crate::ipaddr::IpAddr;
use crate::radix::{dec_text, push_radix};
use crate::stdlib::{push_char, u128_checked_shl, split_once_char, parse_u8, debug_quoted, debug_text};
use crate::ipparse::{parse_ip, parse_ip_str, lemma_ip_text_reads_back};
use crate::radix::u8_from_text;
use crate::bits::{
    low_mask, width_ones, lemma_one_shl, lemma_low_mask_is_mod, lemma_pow2_128, lemma_prefix_ones,
    lemma_and_netmask,
};

/// `a` rounded down to a multiple of `2^k`.
pub open spec fn align_down(a: nat, k: nat) -> nat {
    (a / pow2(k)) * pow2(k)
}

/// A parsed CIDR block: an address plus a prefix length. IPv4 and IPv6 share
/// this one representation: the address is stored zero-extended into a
/// u128 and `width` (32 or 128) records which family it came from, so the
/// bit arithmetic below is written once instead of twice.
#[derive(Debug, Clone, Copy, PartialEq, Eq, Structural)]
pub struct Cidr {
    pub(crate) addr: u128,
    pub(crate) prefix: u8,
    pub(crate) width: u8,
}

impl Cidr {
    /// The stored address bits.
    pub closed spec fn spec_addr(self) -> u128 {
        self.addr
    }

    /// The prefix length.
    pub closed spec fn spec_prefix(self) -> nat {
        self.prefix as nat
    }

    /// The address width of the family: 32 for IPv4, 128 for IPv6.
    pub closed spec fn spec_width(self) -> nat {
        self.width as nat
    }

    /// Every block is IPv4 or IPv6, its prefix fits the family, and its
    /// address fits the family's width.
    #[verifier::type_invariant]
    pub open spec fn is_valid(self) -> bool {
        &&& (self.spec_width() == 32 || self.spec_width() == 128)
        &&& self.spec_prefix() <= self.spec_width()
        &&& (self.spec_addr() as nat) < pow2(self.spec_width())
    }

    /// Number of host bits: the bits below the prefix.
    pub open spec fn host_bits(self) -> nat {
        (self.spec_width() - self.spec_prefix()) as nat
    }

    /// Number of addresses in the block.
    pub open spec fn block_size(self) -> nat {
        pow2(self.host_bits())
    }

    /// The network address: the stored address with its host bits cleared.
    pub open spec fn network_value(self) -> nat {
        align_down(self.spec_addr() as nat, self.host_bits())
    }

    /// The highest address of the block (the broadcast address for IPv4).
    pub open spec fn highest_value(self) -> nat {
        (self.network_value() + self.block_size() - 1) as nat
    }

    /// The netmask: the prefix bits set, the host bits clear.
    pub open spec fn netmask_value(self) -> nat {
        (pow2(self.spec_width()) - self.block_size()) as nat
    }

    /// The wildcard (host) mask: the host bits set.
    pub open spec fn wildcard_value(self) -> nat {
        (self.block_size() - 1) as nat
    }

    /// Two blocks with the same address, prefix and width are the same block.
    pub proof fn lemma_same_parts(self, other: Cidr)
        requires
            self.spec_addr() == other.spec_addr(),
            self.spec_prefix() == other.spec_prefix(),
            self.spec_width() == other.spec_width(),
        ensures
            self == other,
    {
    }

    pub(crate) fn from_raw(addr: u128, prefix: u8, width: u8) -> (r: Self)
        requires
            width == 32 || width == 128,
            prefix <= width,
            (addr as nat) < pow2(width as nat),
        ensures
            r.spec_addr() == addr,
            r.spec_prefix() == prefix as nat,
            r.spec_width() == width as nat,
    {
        Cidr { addr, prefix, width }
    }

    pub fn is_v4(&self) -> (r: bool)
        ensures
            r == (self.spec_width() == 32),
    {
        self.width == 32
    }

    pub fn prefix(&self) -> (r: u8)
        ensures
            r as nat == self.spec_prefix(),
    {
        self.prefix
    }

    pub(crate) fn width(&self) -> (r: u8)
        ensures
            r as nat == self.spec_width(),
    {
        self.width
    }

    pub(crate) fn width_mask(&self) -> (r: u128)
        ensures
            r as nat == pow2(self.spec_width()) - 1,
    {
        proof {
            use_type_invariant(self);
            lemma2_to64();
            lemma_pow2_128();
        }
        if self.width == 128 {
            u128::MAX
        } else {
            assert((1u128 << 32u8) - 1 == 0xffff_ffffu128) by (bit_vector);
            (1u128 << self.width) - 1
        }
    }
}


impl Cidr {
    /// Facts about the family width that every bit computation below uses.
    proof fn lemma_width_facts(self)
        requires
            self.is_valid(),
        ensures
            width_ones(self.width) as nat == pow2(self.spec_width()) - 1,
            self.addr <= width_ones(self.width),
            self.host_bits() < 128 ==> low_mask(self.host_bits() as u32) as nat == self.block_size()
                - 1,
            self.block_size() > 0,
            self.block_size() <= pow2(self.spec_width()),
    {
        lemma2_to64();
        lemma_pow2_128();
        lemma_pow2_pos(self.host_bits());
        if self.host_bits() < 128 {
            lemma_one_shl(self.host_bits() as u32);
        }
        if self.host_bits() < self.spec_width() {
            vstd::arithmetic::power2::lemma_pow2_strictly_increases(
                self.host_bits(),
                self.spec_width(),
            );
        }
    }

    pub(crate) fn netmask_bits(&self) -> (r: u128)
        ensures
            r as nat == self.netmask_value(),
    {
        proof {
            use_type_invariant(self);
            self.lemma_width_facts();
            lemma2_to64();
        }
        if self.prefix == 0 {
            0
        } else if self.prefix >= self.width {
            self.width_mask()
        } else {
            proof {
                lemma_one_shl(self.prefix as u32);
                lemma_pow2_pos(self.prefix as nat);
                let p = self.prefix;
                assert((1u128 << p) == (1u128 << (p as u32))) by (bit_vector);
            }
            let ones = (1u128 << self.prefix) - 1;
            let r = ones << (self.width - self.prefix);
            proof {
                lemma_prefix_ones(self.prefix, self.width);
            }
            r
        }
    }

    pub(crate) fn network_bits(&self) -> (r: u128)
        ensures
            r as nat == self.network_value(),
    {
        proof {
            use_type_invariant(self);
        }
        let nm = self.netmask_bits();
        let r = self.addr & nm;
        proof {
            self.lemma_network_bits(nm);
        }
        r
    }

    proof fn lemma_network_bits(self, nm: u128)
        requires
            self.is_valid(),
            nm as nat == self.netmask_value(),
        ensures
            (self.addr & nm) as nat == self.network_value(),
            self.network_value() + self.block_size() <= pow2(self.spec_width()),
            self.host_bits() < self.spec_width() ==> nm == width_ones(self.width) - low_mask(
                self.host_bits() as u32,
            ),
    {
        self.lemma_width_facts();
        let a = self.addr as nat;
        let m = self.block_size();
        let k = self.host_bits();
        vstd::arithmetic::div_mod::lemma_fundamental_div_mod(a as int, m as int);
        if self.prefix == 0 {
            assert(nm == 0);
            assert(self.addr & 0 == 0) by (bit_vector);
            vstd::arithmetic::div_mod::lemma_basic_div(a as int, m as int);
            assert(self.network_value() == 0) by {
                vstd::arithmetic::mul::lemma_mul_basics(m as int);
            }
            assert(k == self.spec_width());
            assert(m == pow2(self.spec_width()));
        } else {
            lemma_low_mask_is_mod(self.addr, k as u32);
            lemma_and_netmask(self.addr, self.width, k as u32, nm);
            vstd::arithmetic::div_mod::lemma_mod_bound(a as int, m as int);
            let big = pow2(self.spec_width()) as int;
            let pp = pow2(self.spec_prefix()) as int;
            let q = a as int / m as int;
            lemma_pow2_adds(k, self.spec_prefix());
            assert(big == m * pp);
            assert(q * m + m <= big) by (nonlinear_arith)
                requires
                    big == m * pp,
                    q * m <= a,
                    (a as int) < big,
                    m > 0,
                    q >= 0,
            ;
            assert(self.network_value() == q * m);
        }
    }

    /// The whole block fits below `2^width`.
    pub proof fn lemma_network_room(self)
        requires
            self.is_valid(),
        ensures
            self.network_value() + self.block_size() <= pow2(self.spec_width()),
    {
        lemma2_to64();
        lemma_pow2_128();
        let nm = self.netmask_value();
        self.lemma_width_facts();
        self.lemma_network_bits(nm as u128);
    }

    pub(crate) fn highest_bits(&self) -> (r: u128)
        ensures
            r as nat == self.highest_value(),
    {
        proof {
            use_type_invariant(self);
            self.lemma_width_facts();
        }
        let nm = self.netmask_bits();
        proof {
            self.lemma_network_bits(nm);
        }
        let wm = self.width_mask();
        let net = self.network_bits();
        let r = net | (wm & !nm);
        proof {
            let k = self.host_bits();
            if self.prefix == 0 {
                assert(nm == 0);
                assert(net | (wm & !0u128) == wm) by (bit_vector)
                    requires
                        net == 0,
                ;
            } else if k == 0 {
                lemma2_to64();
                assert(wm == nm);
                assert(net | (wm & !wm) == net) by (bit_vector);
            } else {
                lemma_and_netmask(self.addr, self.width, k as u32, nm);
            }
        }
        r
    }
}


impl Cidr {
    /// The address with the given bits, in this block's family.
    pub open spec fn address(self, bits: nat) -> IpAddr {
        if self.spec_width() == 32 {
            IpAddr::V4(bits as u32)
        } else {
            IpAddr::V6(bits as u128)
        }
    }

    /// First usable host address: per RFC 3021 a /31 (or IPv6 /127) uses both
    /// of its addresses and a /32 (or /128) its one address; larger blocks
    /// reserve the network address.
    pub open spec fn usable_first_value(self) -> nat {
        if self.host_bits() <= 1 {
            self.network_value()
        } else {
            self.network_value() + 1
        }
    }

    /// Last usable host address: larger blocks reserve the highest
    /// (broadcast) address; a /31 and a /32 do not.
    pub open spec fn usable_last_value(self) -> nat {
        if self.host_bits() <= 1 {
            self.highest_value()
        } else {
            (self.highest_value() - 1) as nat
        }
    }

    /// Number of usable host addresses: 1 for a single address, 2 for a
    /// two-address block, and two fewer than the block size otherwise.
    pub open spec fn usable_hosts(self) -> nat {
        if self.host_bits() == 0 {
            1
        } else if self.host_bits() == 1 {
            2
        } else {
            (self.block_size() - 2) as nat
        }
    }

    /// The block as text: its network address, `/`, and its prefix.
    pub open spec fn text(self) -> Seq<char> {
        self.address(self.network_value()).text() + "/"@ + dec_text(self.spec_prefix())
    }

    fn addr_from_bits(&self, bits: u128) -> (r: IpAddr)
        ensures
            r == self.address(bits as nat),
    {
        if self.is_v4() {
            IpAddr::V4(bits as u32)
        } else {
            IpAddr::V6(bits)
        }
    }

    pub fn network(&self) -> (r: IpAddr)
        ensures
            r == self.address(self.network_value()),
    {
        self.addr_from_bits(self.network_bits())
    }

    pub fn netmask(&self) -> (r: IpAddr)
        ensures
            r == self.address(self.netmask_value()),
    {
        self.addr_from_bits(self.netmask_bits())
    }

    pub fn wildcard(&self) -> (r: IpAddr)
        ensures
            r == self.address(self.wildcard_value()),
    {
        proof {
            use_type_invariant(self);
            self.lemma_width_facts();
            lemma2_to64();
        }
        let wm = self.width_mask();
        let nm = self.netmask_bits();
        proof {
            self.lemma_network_bits(nm);
            let k = self.host_bits();
            if self.prefix == 0 {
                assert(wm & !0u128 == wm) by (bit_vector);
            } else if k == 0 {
                assert(wm & !wm == 0) by (bit_vector);
            } else {
                lemma_and_netmask(0, self.width, k as u32, nm);
                assert(0u128 & nm == 0) by (bit_vector);
                assert(0u128 | (wm & !nm) == wm & !nm) by (bit_vector);
            }
        }
        self.addr_from_bits(wm & !nm)
    }

    /// Highest address in the block: the broadcast address, for IPv4.
    /// IPv6 has no broadcast concept, but the highest address is still a
    /// meaningful boundary to report.
    pub fn highest(&self) -> (r: IpAddr)
        ensures
            r == self.address(self.highest_value()),
    {
        self.addr_from_bits(self.highest_bits())
    }

    /// Total number of addresses in the block, as a decimal string since
    /// an IPv6 /0 (2^128 addresses) doesn't fit in a u128.
    pub fn total_addresses(&self) -> (r: String)
        ensures
            r@ == dec_text(self.block_size()),
    {
        proof {
            use_type_invariant(self);
        }
        let shift = self.width - self.prefix;
        let mut out = String::new();
        match u128_checked_shl(1, shift as u32) {
            Some(n) => {
                proof {
                    lemma_one_shl(shift as u32);
                }
                push_radix(&mut out, n, 10);
            },
            None => {
                push_two_pow_128(&mut out);
            },
        }
        out
    }

    /// Usable host range, per RFC 3021 rules for /31 (both addresses
    /// usable, no network/broadcast reserved) and the single-address /32
    /// (and their IPv6 /127, /128 equivalents).
    pub fn usable_range(&self) -> (r: (IpAddr, IpAddr))
        ensures
            r.0 == self.address(self.usable_first_value()),
            r.1 == self.address(self.usable_last_value()),
            self.host_bits() >= 2 ==> r.0 == self.address(self.network_value() + 1) && r.1
                == self.address((self.highest_value() - 1) as nat),
            self.host_bits() == 1 ==> r.0 == self.address(self.network_value()) && r.1
                == self.address(self.network_value() + 1),
            self.host_bits() == 0 ==> r.0 == self.address(self.network_value()) && r.1
                == self.address(self.network_value()),
    {
        proof {
            use_type_invariant(self);
            lemma_usable_by_host_bits(*self);
            self.lemma_width_facts();
            self.lemma_network_room();
            lemma2_to64();
        }
        let host_bits = self.width - self.prefix;
        match host_bits {
            0 => (
                self.addr_from_bits(self.network_bits()),
                self.addr_from_bits(self.network_bits()),
            ),
            1 => (
                self.addr_from_bits(self.network_bits()),
                self.addr_from_bits(self.highest_bits()),
            ),
            _ => {
                proof {
                    vstd::arithmetic::power2::lemma_pow2_strictly_increases(1, self.host_bits());
                }
                (
                    self.addr_from_bits(self.network_bits() + 1),
                    self.addr_from_bits(self.highest_bits() - 1),
                )
            },
        }
    }

    pub fn usable_count(&self) -> (r: String)
        ensures
            r@ == dec_text(self.usable_hosts()),
            self.host_bits() >= 2 ==> r@ == dec_text((pow2(self.host_bits()) - 2) as nat),
            self.host_bits() == 1 ==> r@ == dec_text(2),
            self.host_bits() == 0 ==> r@ == dec_text(1),
    {
        proof {
            use_type_invariant(self);
            lemma_usable_by_host_bits(*self);
            lemma2_to64();
        }
        let host_bits = self.width - self.prefix;
        let mut out = String::new();
        match host_bits {
            0 => {
                out.append("1");
                proof {
                    reveal_strlit("1");
                    assert(out@ =~= dec_text(1));
                }
            },
            1 => {
                out.append("2");
                proof {
                    reveal_strlit("2");
                    assert(out@ =~= dec_text(2));
                }
            },
            _ => match u128_checked_shl(1, host_bits as u32) {
                Some(n) => {
                    proof {
                        lemma_one_shl(host_bits as u32);
                        vstd::arithmetic::power2::lemma_pow2_strictly_increases(1, host_bits as nat);
                    }
                    push_radix(&mut out, n - 2, 10);
                },
                None => {
                    proof {
                        lemma_pow2_128();
                    }
                    push_radix(&mut out, u128::MAX - 1, 10);
                },
            },
        }
        out
    }

    /// The block as text, `network/prefix`: the address is shown with its
    /// host bits cleared.
    pub fn to_string(&self) -> (r: String)
        ensures
            r@ == self.text(),
    {
        let mut out = self.network().to_string();
        push_char(&mut out, '/');
        push_radix(&mut out, self.prefix as u128, 10);
        proof {
            reveal_strlit("/");
            assert(out@ =~= self.text());
        }
        out
    }
}

/// The block holds its own address: the network address is a multiple of
/// the block size, at or below the stored address, and the highest address
/// is at or above it and below `2^width`.
pub proof fn lemma_block_contains_address(c: Cidr)
    requires
        c.is_valid(),
    ensures
        c.network_value() % c.block_size() == 0,
        c.network_value() <= c.spec_addr() as nat <= c.highest_value(),
        c.highest_value() < pow2(c.spec_width()),
{
    c.lemma_width_facts();
    c.lemma_network_room();
    let a = c.spec_addr() as nat;
    let m = c.block_size();
    let q = a / m;
    vstd::arithmetic::div_mod::lemma_fundamental_div_mod(a as int, m as int);
    vstd::arithmetic::div_mod::lemma_mod_bound(a as int, m as int);
    vstd::arithmetic::div_mod::lemma_mod_multiples_basic(q as int, m as int);
    assert(c.network_value() == q * m);
    vstd::arithmetic::mul::lemma_mul_is_commutative(q as int, m as int);
    assert(a == q * m + a % m);
    assert(c.highest_value() == q * m + m - 1);
}

/// The usable range lies inside the block and holds exactly as many
/// addresses as the usable count says; the total count is the number of
/// addresses from the network address to the highest one.
pub proof fn lemma_usable_range_matches_count(c: Cidr)
    requires
        c.is_valid(),
    ensures
        c.network_value() <= c.usable_first_value(),
        c.usable_first_value() <= c.usable_last_value(),
        c.usable_last_value() <= c.highest_value(),
        c.usable_last_value() - c.usable_first_value() + 1 == c.usable_hosts(),
        c.highest_value() - c.network_value() + 1 == c.block_size(),
{
    c.lemma_width_facts();
    lemma2_to64();
    if c.host_bits() >= 2 {
        vstd::arithmetic::power2::lemma_pow2_strictly_increases(1, c.host_bits());
    } else if c.host_bits() == 1 {
        assert(c.block_size() == 2);
    } else {
        assert(c.block_size() == 1);
    }
}

/// The RFC 3021 cases are decided by the number of host bits (width minus
/// prefix), in both families: a block with no host bits is one usable
/// address, a block with one host bit uses both its addresses, and a block
/// with two or more host bits reserves its network and highest addresses,
/// leaving `2^host_bits - 2` usable ones from network + 1 to highest - 1.
pub proof fn lemma_usable_by_host_bits(c: Cidr)
    requires
        c.is_valid(),
    ensures
        c.spec_width() - c.spec_prefix() >= 2 ==> {
            &&& c.usable_first_value() == c.network_value() + 1
            &&& c.usable_last_value() == c.highest_value() - 1
            &&& c.usable_hosts() == pow2((c.spec_width() - c.spec_prefix()) as nat) - 2
            &&& c.highest_value() - 1 - (c.network_value() + 1) + 1 == pow2(
                (c.spec_width() - c.spec_prefix()) as nat,
            ) - 2
        },
        c.spec_width() - c.spec_prefix() == 1 ==> {
            &&& c.usable_first_value() == c.network_value()
            &&& c.usable_last_value() == c.network_value() + 1
            &&& c.highest_value() == c.network_value() + 1
            &&& c.usable_hosts() == 2
        },
        c.spec_width() - c.spec_prefix() == 0 ==> {
            &&& c.usable_first_value() == c.network_value()
            &&& c.usable_last_value() == c.network_value()
            &&& c.highest_value() == c.network_value()
            &&& c.usable_hosts() == 1
        },
{
    c.lemma_width_facts();
    lemma2_to64();
    if c.host_bits() >= 2 {
        vstd::arithmetic::power2::lemma_pow2_strictly_increases(1, c.host_bits());
    }
}

/// The netmask and the wildcard mask split the width between them: they add
/// up to all ones over the width, and the network address is the stored
/// address with the wildcard bits dropped.
pub proof fn lemma_masks_complement(c: Cidr)
    requires
        c.is_valid(),
    ensures
        c.netmask_value() + c.wildcard_value() == pow2(c.spec_width()) - 1,
        c.network_value() == c.spec_addr() as nat - c.spec_addr() as nat % (c.wildcard_value() + 1),
{
    c.lemma_width_facts();
    let a = c.spec_addr() as nat;
    let m = c.block_size();
    vstd::arithmetic::div_mod::lemma_fundamental_div_mod(a as int, m as int);
}

/// Reading the text of a block gives back the block in its normalized form:
/// its network address, its prefix and its family.
pub proof fn lemma_text_parses_back(c: Cidr)
    requires
        c.is_valid(),
    ensures
        parse_outcome(c.text()) == Ok::<(u128, nat, nat), Seq<char>>(
            (c.network_value() as u128, c.spec_prefix(), c.spec_width()),
        ),
{
    reveal_strlit("/");
    lemma_block_contains_address(c);
    lemma2_to64();
    lemma_pow2_128();
    let ip = c.address(c.network_value());
    let a = ip.text();
    let p = dec_text(c.spec_prefix());
    let t = c.text();
    lemma_ip_text_reads_back(ip);
    assert(t =~= a + seq!['/'] + p);
    let i = a.len() as int;
    assert(t.take(i) =~= a);
    assert(t.skip(i + 1) =~= p);
    assert(t[i] == '/');
    assert(is_first_slash(t, i));
    let f = first_slash(t);
    assert(is_first_slash(t, f));
    if f < i {
        assert(a[f] == '/');
    } else if f > i {
        assert(t.take(f)[i] == '/');
    }
    crate::radix::lemma_radix_text_reads_back(c.spec_prefix(), 10);
    assert(p[0] != '+') by {
        assert(crate::radix::is_dec_digit(p[0]));
    }
    assert(crate::radix::u8_from_text(p) == Some(c.spec_prefix() as u8));
}

/// Appends the decimal numeral of 2^128, one more than the largest u128.
fn push_two_pow_128(out: &mut String)
    ensures
        final(out)@ == old(out)@ + dec_text(pow2(128)),
{
    proof {
        lemma_pow2_128();
    }
    push_radix(out, u128::MAX / 10, 10);
    push_char(out, '6');
    proof {
        let n = pow2(128);
        assert(n / 10 == u128::MAX / 10);
        assert(n % 10 == 6);
        assert(crate::radix::radix_text(n, 10) == crate::radix::radix_text(n / 10, 10).push(
            crate::radix::digit_char(n % 10),
        ));
        assert(final(out)@ =~= old(out)@ + dec_text(pow2(128)));
    }
}


/// `i` is the position of the first `/` in `s`.
pub open spec fn is_first_slash(s: Seq<char>, i: int) -> bool {
    &&& 0 <= i < s.len()
    &&& s[i] == '/'
    &&& !s.take(i).contains('/')
}

/// The position of the first `/` in `s`.
pub open spec fn first_slash(s: Seq<char>) -> int {
    choose|i: int| is_first_slash(s, i)
}

/// The bits and the width of an address.
pub open spec fn ip_bits(ip: IpAddr) -> (u128, nat) {
    match ip {
        IpAddr::V4(v) => (v as u128, 32),
        IpAddr::V6(v) => (v, 128),
    }
}

/// Message for CIDR text without a `/`, from the quoted text.
pub open spec fn missing_prefix_text(quoted: Seq<char>) -> Seq<char> {
    quoted + ": missing \"/prefix\" (expected e.g. 10.0.0.0/24)"@
}

/// Message for an address part that is not an IP address, from the quoted part.
pub open spec fn invalid_ip_text(quoted: Seq<char>) -> Seq<char> {
    quoted + ": not a valid IP address"@
}

/// Message for a prefix part that is not a prefix length, from the quoted part.
pub open spec fn invalid_prefix_text(quoted: Seq<char>) -> Seq<char> {
    quoted + ": not a valid prefix length"@
}

/// Message for a prefix longer than the family's width.
pub open spec fn prefix_too_long_text(prefix: nat, width: nat) -> Seq<char> {
    "/"@ + dec_text(prefix) + ": prefix exceeds /"@ + dec_text(width) + ", the max for "@ + (if width
        == 32 {
        "IPv4"@
    } else {
        "IPv6"@
    })
}

/// What reading CIDR text `s` gives: the address bits, prefix and width of
/// the block, or the message that refuses the text. The text is an IP
/// address, `/`, and a prefix length (as `u8::from_str` reads it) that does
/// not exceed the family's width.
pub open spec fn parse_outcome(s: Seq<char>) -> Result<(u128, nat, nat), Seq<char>> {
    if !s.contains('/') {
        Err(missing_prefix_text(debug_text(s)))
    } else {
        let i = first_slash(s);
        let ip_part = s.take(i);
        let prefix_part = s.skip(i + 1);
        match parse_ip(ip_part) {
            None => Err(invalid_ip_text(debug_text(ip_part))),
            Some(ip) => {
                let (bits, width) = ip_bits(ip);
                match u8_from_text(prefix_part) {
                    None => Err(invalid_prefix_text(debug_text(prefix_part))),
                    Some(p) => if p > width {
                        Err(prefix_too_long_text(p as nat, width))
                    } else {
                        Ok((bits, p as nat, width))
                    },
                }
            },
        }
    }
}

/// The message for CIDR text without a `/`, from its quoted form.
pub fn missing_prefix_message(quoted: String) -> (e: String)
    ensures
        e@ == missing_prefix_text(quoted@),
{
    let mut e = quoted;
    e.append(": missing \"/prefix\" (expected e.g. 10.0.0.0/24)");
    e
}

/// The message for an address part that is not an IP address, from its
/// quoted form.
pub fn invalid_ip_message(quoted: String) -> (e: String)
    ensures
        e@ == invalid_ip_text(quoted@),
{
    let mut e = quoted;
    e.append(": not a valid IP address");
    e
}

/// The message for a prefix part that is not a prefix length, from its
/// quoted form.
pub fn invalid_prefix_message(quoted: String) -> (e: String)
    ensures
        e@ == invalid_prefix_text(quoted@),
{
    let mut e = quoted;
    e.append(": not a valid prefix length");
    e
}

fn prefix_too_long_message(prefix: u8, width: u8) -> (e: String)
    ensures
        e@ == prefix_too_long_text(prefix as nat, width as nat),
{
    let mut e = String::new();
    e.append("/");
    push_radix(&mut e, prefix as u128, 10);
    e.append(": prefix exceeds /");
    push_radix(&mut e, width as u128, 10);
    e.append(", the max for ");
    if width == 32 {
        e.append("IPv4");
    } else {
        e.append("IPv6");
    }
    e
}

impl Cidr {
    /// Reads CIDR text: an IPv4 or IPv6 address, `/`, and a prefix length no
    /// longer than the address family's width. The address need not be the
    /// network address; it is kept as written.
    pub fn parse(s: &str) -> (r: Result<Self, String>)
        ensures
            match (r, parse_outcome(s@)) {
                (Ok(c), Ok((bits, prefix, width))) => c.spec_addr() == bits && c.spec_prefix()
                    == prefix && c.spec_width() == width,
                (Err(e), Err(m)) => e@ == m,
                _ => false,
            },
    {
        let (ip_part, prefix_part) = match split_once_char(s, '/') {
            Some(parts) => parts,
            None => {
                return Err(missing_prefix_message(debug_quoted(s)));
            },
        };
        proof {
            let i = ip_part@.len() as int;
            assert(s@.take(i) =~= ip_part@);
            assert(s@.skip(i + 1) =~= prefix_part@);
            assert(is_first_slash(s@, i));
            let f = first_slash(s@);
            assert(is_first_slash(s@, f));
            if f < i {
                assert(ip_part@[f] == '/');
                assert(ip_part@.contains('/'));
            } else if f > i {
                assert(s@.take(f)[i] == '/');
                assert(s@.take(f).contains('/'));
            }
        }
        let ip = match parse_ip_str(ip_part) {
            Some(ip) => ip,
            None => {
                return Err(invalid_ip_message(debug_quoted(ip_part)));
            },
        };
        let width: u8 = match ip {
            IpAddr::V4(_) => 32,
            IpAddr::V6(_) => 128,
        };
        let prefix: u8 = match parse_u8(prefix_part) {
            Some(p) => p,
            None => {
                return Err(invalid_prefix_message(debug_quoted(prefix_part)));
            },
        };
        if prefix > width {
            return Err(prefix_too_long_message(prefix, width));
        }
        let addr = match ip {
            IpAddr::V4(v4) => v4 as u128,
            IpAddr::V6(v6) => v6,
        };
        proof {
            lemma2_to64();
            lemma_pow2_128();
        }
        Ok(Cidr { addr, prefix, width })
    }
}

} // verus!

use vstd::prelude::*;

verus! {

use crate::radix::{dec_text, hex_text, push_radix, radix_text, numerals, as_nats, base_digits};
use crate::text::{join, lemma_join_push};
use crate::stdlib::push_char;

/// The four octets of an IPv4 address, most significant first.
pub open spec fn ipv4_octets(v: u32) -> Seq<nat> {
    base_digits(v as nat, 256, 4)
}

/// Dotted-quad text of an IPv4 address: four decimal octets joined by `.`.
pub open spec fn ipv4_text(v: u32) -> Seq<char> {
    join(ipv4_octets(v).map_values(|o: nat| dec_text(o)), '.')
}

/// The eight 16-bit groups of an IPv6 address, most significant first.
pub open spec fn ipv6_groups(v: u128) -> Seq<nat> {
    base_digits(v as nat, 65536, 8)
}

/// The groups of an IPv4-mapped IPv6 address: `::ffff:a.b.c.d`.
pub open spec fn is_ipv4_mapped(g: Seq<nat>) -> bool {
    g[0] == 0 && g[1] == 0 && g[2] == 0 && g[3] == 0 && g[4] == 0 && g[5] == 0xffff
}

/// Groups `s .. s + l` of `g` exist and are all zero.
pub open spec fn is_zero_run(g: Seq<nat>, s: int, l: int) -> bool {
    &&& 0 <= s
    &&& 0 <= l
    &&& s + l <= g.len()
    &&& forall|i: int| s <= i < s + l ==> g[i] == 0
}

/// `(s, l)` is the longest run of zero groups, the first one among the
/// longest; with no zero group it is the empty run at 0.
pub open spec fn is_longest_zero_run(g: Seq<nat>, s: int, l: int) -> bool {
    &&& is_zero_run(g, s, l)
    &&& forall|s2: int, l2: int|
        #[trigger] is_zero_run(g, s2, l2) ==> l2 < l || (l2 == l && s <= s2)
}

/// The longest run of zero groups (the first of the longest).
pub open spec fn longest_zero_run(g: Seq<nat>) -> (int, int) {
    choose|s: int, l: int| is_longest_zero_run(g, s, l)
}

/// Groups written as lower-case hex without leading zeros, joined by `:`.
pub open spec fn hex_groups_text(g: Seq<nat>) -> Seq<char> {
    join(g.map_values(|x: nat| hex_text(x)), ':')
}

/// Text of an IPv6 address: an IPv4-mapped address as `::ffff:` and its
/// dotted quad; otherwise the hex groups, with the longest run of two or
/// more zero groups (the first such run on a tie) written as `::`.
pub open spec fn ipv6_text(v: u128) -> Seq<char> {
    let g = ipv6_groups(v);
    if is_ipv4_mapped(g) {
        "::ffff:"@ + ipv4_text((v as nat % 0x1_0000_0000) as u32)
    } else {
        let (s, l) = longest_zero_run(g);
        if l > 1 {
            hex_groups_text(g.subrange(0, s)) + "::"@ + hex_groups_text(g.subrange(s + l, 8))
        } else {
            hex_groups_text(g)
        }
    }
}

/// An IPv4 or IPv6 address, by its bits.
#[derive(Debug, Clone, Copy, PartialEq, Eq, Structural)]
pub enum IpAddr {
    V4(u32),
    V6(u128),
}

impl IpAddr {
    /// The text the address is written as.
    pub open spec fn text(self) -> Seq<char> {
        match self {
            IpAddr::V4(v) => ipv4_text(v),
            IpAddr::V6(v) => ipv6_text(v),
        }
    }

    /// The address as text: dotted quad for IPv4, the compressed form for
    /// IPv6.
    pub fn to_string(&self) -> (s: String)
        ensures
            s@ == self.text(),
    {
        let mut s = String::new();
        self.push_to(&mut s);
        s
    }

    /// Appends the address's text to `out`.
    pub fn push_to(&self, out: &mut String)
        ensures
            final(out)@ == old(out)@ + self.text(),
    {
        match self {
            IpAddr::V4(v) => push_ipv4(out, *v),
            IpAddr::V6(v) => push_ipv6(out, *v),
        }
    }
}

/// The hex numerals of a run of groups are the hex numerals of their values.
proof fn lemma_hex_numerals(ds: Seq<u128>, a: int, b: int)
    requires
        0 <= a <= b <= ds.len(),
    ensures
        numerals(ds.subrange(a, b), 16) == as_nats(ds).subrange(a, b).map_values(
            |x: nat| hex_text(x),
        ),
{
    assert(numerals(ds.subrange(a, b), 16) =~= as_nats(ds).subrange(a, b).map_values(
        |x: nat| hex_text(x),
    ));
}

/// Two longest zero runs of the same groups are the same run.
pub proof fn lemma_longest_zero_run_unique(g: Seq<nat>, s1: int, l1: int, s2: int, l2: int)
    requires
        is_longest_zero_run(g, s1, l1),
        is_longest_zero_run(g, s2, l2),
    ensures
        s1 == s2,
        l1 == l2,
{
    assert(is_zero_run(g, s2, l2));
    assert(is_zero_run(g, s1, l1));
}

/// Searches the runs from the longest down, and at each length from the
/// left, for the first zero run; every run not yet searched is no longer
/// than `l`, and as long only when it starts at `s` or later.
proof fn lemma_search_zero_run(g: Seq<nat>, l: int, s: int) -> (r: (int, int))
    requires
        g.len() == 8,
        0 <= l <= 8,
        0 <= s <= 9,
        forall|s2: int, l2: int| #[trigger] is_zero_run(g, s2, l2) ==> l2 < l || (l2 == l && s <= s2),
    ensures
        is_longest_zero_run(g, r.0, r.1),
    decreases l, 9 - s,
{
    if s + l <= 8 && is_zero_run(g, s, l) {
        (s, l)
    } else if s + l < 8 {
        lemma_search_zero_run(g, l, s + 1)
    } else {
        if l == 0 {
            assert(is_zero_run(g, 0, 0));
            assert(false);
        }
        assert forall|s2: int, l2: int| #[trigger] is_zero_run(g, s2, l2) implies l2 < l - 1 || (l2
            == l - 1 && 0 <= s2) by {
            if l2 == l {
                assert(s <= s2);
            }
        }
        lemma_search_zero_run(g, l - 1, 0)
    }
}

/// Eight groups always have a longest zero run, so `longest_zero_run`
/// picks one.
pub proof fn lemma_longest_zero_run_exists(g: Seq<nat>)
    requires
        g.len() == 8,
    ensures
        is_longest_zero_run(g, longest_zero_run(g).0, longest_zero_run(g).1),
{
    let r = lemma_search_zero_run(g, 8, 0);
    assert(is_longest_zero_run(g, r.0, r.1));
}

fn digits_of(v: u128, b: u128, n: usize) -> (r: Vec<u128>)
    requires
        b >= 2,
    ensures
        as_nats(r@) == base_digits(v as nat, b as nat, n as nat),
        r@.len() == n,
        forall|i: int| 0 <= i < n ==> r@[i] < b,
    decreases n,
{
    if n == 0 {
        let r: Vec<u128> = Vec::new();
        assert(as_nats(r@) =~= Seq::<nat>::empty());
        r
    } else {
        let mut r = digits_of(v / b, b, n - 1);
        let ghost prev = r@;
        r.push(v % b);
        assert(as_nats(r@) =~= as_nats(prev).push((v % b) as nat));
        r
    }
}

/// Appends the numerals of `ds[from..to]` in base `b`, joined by `sep`.
fn push_joined(out: &mut String, ds: &Vec<u128>, from: usize, to: usize, b: u128, sep: char)
    requires
        from <= to <= ds@.len(),
        b == 10 || b == 16,
    ensures
        final(out)@ == old(out)@ + join(numerals(ds@.subrange(from as int, to as int), b as nat), sep),
{
    let ghost start = out@;
    let mut i = from;
    while i < to
        invariant
            from <= i <= to <= ds@.len(),
            b == 10 || b == 16,
            out@ == start + join(numerals(ds@.subrange(from as int, i as int), b as nat), sep),
        decreases to - i,
    {
        let ghost before = numerals(ds@.subrange(from as int, i as int), b as nat);
        let ghost prev = out@;
        if i > from {
            push_char(out, sep);
        }
        let ghost mid = out@;
        push_radix(out, ds[i], b);
        let ghost t = radix_text(ds@[i as int] as nat, b as nat);
        proof {
            let after = numerals(ds@.subrange(from as int, i + 1 as int), b as nat);
            assert(after =~= before.push(t));
            if i > from {
                lemma_join_push(before, t, sep);
                assert(mid == prev.push(sep));
                assert(join(after, sep) == join(before, sep).push(sep) + t);
            } else {
                assert(before.len() == 0);
                assert(after.len() == 1);
            }
            assert(out@ =~= start + join(after, sep));
        }
        i += 1;
    }
}

/// Appends the dotted-quad text of an IPv4 address.
pub fn push_ipv4(out: &mut String, v: u32)
    ensures
        final(out)@ == old(out)@ + ipv4_text(v),
{
    let octets = digits_of(v as u128, 256, 4);
    push_joined(out, &octets, 0, 4, 10, '.');
    proof {
        assert(octets@.subrange(0, 4) == octets@);
        assert(numerals(octets@, 10) =~= ipv4_octets(v).map_values(|o: nat| dec_text(o)));
    }
}

/// Finds the longest run of zero groups, the first one among the longest.
fn find_longest_zero_run(g: &Vec<u128>) -> (r: (usize, usize))
    requires
        g@.len() == 8,
    ensures
        is_longest_zero_run(as_nats(g@), r.0 as int, r.1 as int),
{
    let ghost gn = as_nats(g@);
    let mut ls: usize = 0;
    let mut ll: usize = 0;
    let mut cs: usize = 0;
    let mut cl: usize = 0;
    let mut i: usize = 0;
    while i < 8
        invariant
            g@.len() == 8,
            gn == as_nats(g@),
            i <= 8,
            cl > 0 ==> is_zero_run(gn, cs as int, cl as int) && cs + cl == i && (cs == 0 || gn[cs
                - 1] != 0),
            cl == 0 ==> (i == 0 || gn[i - 1] != 0),
            is_zero_run(gn, ls as int, ll as int),
            ls + ll <= i,
            forall|s2: int, l2: int|
                #[trigger] is_zero_run(gn, s2, l2) && s2 + l2 <= i ==> l2 < ll || (l2 == ll && ls
                    <= s2),
        decreases 8 - i,
    {
        let ghost (ols, oll, ocs, ocl) = (ls, ll, cs, cl);
        if g[i] == 0 {
            if cl == 0 {
                cs = i;
            }
            cl += 1;
            if cl > ll {
                ls = cs;
                ll = cl;
            }
        } else {
            cs = 0;
            cl = 0;
        }
        proof {
            assert forall|s2: int, l2: int|
                #[trigger] is_zero_run(gn, s2, l2) && s2 + l2 <= i + 1 implies l2 < ll || (l2 == ll
                    && ls <= s2) by {
                if s2 + l2 <= i {
                    assert(l2 < oll || (l2 == oll && ols <= s2));
                } else if l2 > 0 {
                    assert(gn[i as int] == 0);
                    if ocl == 0 {
                        if s2 < i {
                            assert(gn[i - 1] == 0);
                        }
                    } else {
                        if s2 < ocs {
                            assert(gn[ocs - 1] == 0);
                        }
                    }
                }
            }
        }
        i += 1;
    }
    (ls, ll)
}

/// Appends the text of an IPv6 address.
pub fn push_ipv6(out: &mut String, v: u128)
    ensures
        final(out)@ == old(out)@ + ipv6_text(v),
{
    let g = digits_of(v, 65536, 8);
    let ghost gn = as_nats(g@);
    assert(gn == ipv6_groups(v));
    assert(forall|i: int| 0 <= i < 8 ==> gn[i] == g@[i] as nat);
    if g[0] == 0 && g[1] == 0 && g[2] == 0 && g[3] == 0 && g[4] == 0 && g[5] == 0xffff {
        out.append("::ffff:");
        push_ipv4(out, (v % 0x1_0000_0000) as u32);
        assert(final(out)@ =~= old(out)@ + ipv6_text(v));
        return;
    }
    let (s, l) = find_longest_zero_run(&g);
    proof {
        let (cs, cl) = longest_zero_run(gn);
        lemma_longest_zero_run_unique(gn, s as int, l as int, cs, cl);
    }
    let ghost start = out@;
    if l > 1 {
        push_joined(out, &g, 0, s, 16, ':');
        out.append("::");
        push_joined(out, &g, s + l, 8, 16, ':');
        proof {
            lemma_hex_numerals(g@, 0, s as int);
            lemma_hex_numerals(g@, s + l, 8);
            assert(out@ =~= start + ipv6_text(v));
        }
    } else {
        push_joined(out, &g, 0, 8, 16, ':');
        proof {
            lemma_hex_numerals(g@, 0, 8);
            assert(g@.subrange(0, 8) == g@);
            assert(gn.subrange(0, 8) == gn);
        }
    }
}

} // verus!

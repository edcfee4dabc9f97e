use vstd::prelude::*;

verus! {

use crate::ipaddr::{
    IpAddr, ipv4_text, ipv4_octets, ipv6_text, ipv6_groups, is_ipv4_mapped, hex_groups_text,
    longest_zero_run, is_longest_zero_run, lemma_longest_zero_run_exists,
};
use crate::radix::{
    dec_text, hex_text, radix_text, base_digits, lemma_base_digits_bound, lemma_digits_value_of_base_digits,
    lemma_base_digits_of_digits_value, lemma_radix_text_reads_back, lemma_radix_text_len,
    lemma_canonical_numeral,
};
use crate::text::{
    join, lemma_split_join, lemma_join_split, lemma_join_no_double, lemma_join_avoids,
    lemma_join_has_sep,
};
use crate::radix::{
    as_nats, digits_value, numeral_value, power, is_dec_octet, is_hex_group, parse_dec_octet,
    parse_hex_group,
};
use crate::text::{split, split_chars, views, chars_of};

/// The decimal values of dotted-quad pieces.
pub open spec fn octet_values(ps: Seq<Seq<char>>) -> Seq<nat> {
    ps.map_values(|p: Seq<char>| numeral_value(p, 10))
}

/// The hexadecimal values of IPv6 group pieces.
pub open spec fn group_values(ps: Seq<Seq<char>>) -> Seq<nat> {
    ps.map_values(|p: Seq<char>| numeral_value(p, 16))
}

/// Dotted-quad IPv4 text: exactly four decimal octets separated by `.`,
/// each without leading zeros and at most 255.
pub open spec fn parse_ipv4(t: Seq<char>) -> Option<u32> {
    let ps = split(t, '.');
    if ps.len() == 4 && forall|i: int| 0 <= i < 4 ==> is_dec_octet(#[trigger] ps[i]) {
        Some(digits_value(octet_values(ps), 256) as u32)
    } else {
        None
    }
}

/// The values of pieces that must all be IPv6 groups.
pub open spec fn hex_pieces_values(ps: Seq<Seq<char>>) -> Option<Seq<nat>> {
    if forall|i: int| 0 <= i < ps.len() ==> is_hex_group(#[trigger] ps[i]) {
        Some(group_values(ps))
    } else {
        None
    }
}

/// The groups of the pieces of an IPv6 text that may end in an embedded
/// dotted-quad IPv4 address (which stands for the last two groups).
pub open spec fn tail_pieces_values(ps: Seq<Seq<char>>) -> Option<Seq<nat>> {
    if ps.len() == 0 {
        Some(Seq::empty())
    } else {
        match hex_pieces_values(ps.drop_last()) {
            None => None,
            Some(init) => if is_hex_group(ps.last()) {
                Some(init.push(numeral_value(ps.last(), 16)))
            } else {
                match parse_ipv4(ps.last()) {
                    Some(w) => Some(init + seq![w as nat / 65536, w as nat % 65536]),
                    None => None,
                }
            },
        }
    }
}

/// `i` is where the first `::` of `t` starts.
pub open spec fn is_first_double_colon(t: Seq<char>, i: int) -> bool {
    &&& 0 <= i < t.len() - 1
    &&& t[i] == ':' && t[i + 1] == ':'
    &&& forall|j: int| 0 <= j < i ==> !(t[j] == ':' && #[trigger] t[j + 1] == ':')
}

/// `t` holds `::`.
pub open spec fn has_double_colon(t: Seq<char>) -> bool {
    exists|i: int| is_first_double_colon(t, i)
}

/// Where the first `::` of `t` starts.
pub open spec fn first_double_colon(t: Seq<char>) -> int {
    choose|i: int| is_first_double_colon(t, i)
}

/// Eight zero-filled groups from `head` and `tail`, with zeros between.
pub open spec fn fill_groups(head: Seq<nat>, tail: Seq<nat>) -> Seq<nat> {
    head + Seq::new((8 - head.len() - tail.len()) as nat, |j: int| 0nat) + tail
}

/// IPv6 text: eight colon-separated groups of one to four hex digits, where
/// the last two groups may be written as a dotted-quad IPv4 address, and
/// where one run of one or more zero groups may be written as `::` (the
/// groups before it must be plain hex groups).
pub open spec fn parse_ipv6(t: Seq<char>) -> Option<u128> {
    if has_double_colon(t) {
        let i = first_double_colon(t);
        let head = if i == 0 {
            Some(Seq::empty())
        } else {
            hex_pieces_values(split(t.take(i), ':'))
        };
        let tail = if i + 2 == t.len() {
            Some(Seq::empty())
        } else {
            tail_pieces_values(split(t.skip(i + 2), ':'))
        };
        match (head, tail) {
            (Some(h), Some(tl)) => if h.len() + tl.len() <= 7 {
                Some(digits_value(fill_groups(h, tl), 65536) as u128)
            } else {
                None
            },
            _ => None,
        }
    } else {
        match tail_pieces_values(split(t, ':')) {
            Some(g) => if g.len() == 8 {
                Some(digits_value(g, 65536) as u128)
            } else {
                None
            },
            None => None,
        }
    }
}

/// IP address text: IPv4 dotted-quad text, else IPv6 text.
pub open spec fn parse_ip(t: Seq<char>) -> Option<IpAddr> {
    match parse_ipv4(t) {
        Some(v) => Some(IpAddr::V4(v)),
        None => match parse_ipv6(t) {
            Some(v) => Some(IpAddr::V6(v)),
            None => None,
        },
    }
}

/// Reads dotted-quad IPv4 text from `t[lo..hi]`.
pub fn parse_ipv4_chars(t: &Vec<char>, lo: usize, hi: usize) -> (r: Option<u32>)
    requires
        lo <= hi <= t@.len(),
    ensures
        r == parse_ipv4(t@.subrange(lo as int, hi as int)),
{
    let ps = split_chars(t, lo, hi, '.');
    let ghost pv = views(ps@);
    if ps.len() != 4 {
        return None;
    }
    let mut acc: u128 = 0;
    let mut i: usize = 0;
    while i < 4
        invariant
            ps@.len() == 4,
            pv == views(ps@),
            pv == split(t@.subrange(lo as int, hi as int), '.'),
            i <= 4,
            forall|j: int| 0 <= j < i ==> is_dec_octet(#[trigger] pv[j]),
            acc as nat == digits_value(octet_values(pv).take(i as int), 256),
            acc < power(256, i as nat),
        decreases 4 - i,
    {
        assert(pv[i as int] == ps@[i as int]@);
        match parse_dec_octet(&ps[i]) {
            None => {
                return None;
            },
            Some(o) => {
                proof {
                    assert(octet_values(pv).take(i + 1 as int).drop_last() =~= octet_values(pv).take(
                        i as int,
                    ));
                    let p = power(256, i as nat);
                    assert(acc * 256 + o < p * 256) by (nonlinear_arith)
                        requires
                            acc < p,
                            o <= 255,
                    ;
                    reveal_with_fuel(power, 5);
                }
                acc = acc * 256 + o;
            },
        }
        i += 1;
    }
    proof {
        assert(octet_values(pv).take(4) =~= octet_values(pv));
    }
    Some(acc as u32)
}

/// Reads pieces `ps[from..to]` that must all be IPv6 groups.
fn hex_pieces(ps: &Vec<Vec<char>>, from: usize, to: usize) -> (r: Option<Vec<u128>>)
    requires
        from <= to <= ps@.len(),
    ensures
        r is Some <==> hex_pieces_values(views(ps@).subrange(from as int, to as int)) is Some,
        r matches Some(g) ==> hex_pieces_values(views(ps@).subrange(from as int, to as int)) == Some(
            as_nats(g@),
        ) && forall|j: int| 0 <= j < g@.len() ==> #[trigger] g@[j] < 65536,
{
    let ghost pv = views(ps@).subrange(from as int, to as int);
    let mut out: Vec<u128> = Vec::new();
    let mut i = from;
    while i < to
        invariant
            from <= i <= to <= ps@.len(),
            pv == views(ps@).subrange(from as int, to as int),
            forall|j: int| 0 <= j < i - from ==> is_hex_group(#[trigger] pv[j]),
            as_nats(out@) == group_values(pv.take(i - from)),
            forall|j: int| 0 <= j < out@.len() ==> #[trigger] out@[j] < 65536,
        decreases to - i,
    {
        assert(pv[i - from] == ps@[i as int]@);
        match parse_hex_group(&ps[i]) {
            None => {
                return None;
            },
            Some(g) => {
                let ghost before = out@;
                out.push(g);
                assert(as_nats(out@) =~= as_nats(before).push(g as nat));
                assert(group_values(pv.take(i + 1 - from)) =~= group_values(pv.take(i - from)).push(
                    numeral_value(pv[i - from], 16),
                ));
            },
        }
        i += 1;
    }
    assert(pv.take(to - from) =~= pv);
    Some(out)
}

/// Reads the pieces of IPv6 text that may end in an embedded IPv4 address.
fn tail_pieces(ps: &Vec<Vec<char>>) -> (r: Option<Vec<u128>>)
    ensures
        r is Some <==> tail_pieces_values(views(ps@)) is Some,
        r matches Some(g) ==> tail_pieces_values(views(ps@)) == Some(as_nats(g@)) && forall|j: int|
            0 <= j < g@.len() ==> #[trigger] g@[j] < 65536,
{
    let ghost pv = views(ps@);
    if ps.len() == 0 {
        let out: Vec<u128> = Vec::new();
        assert(as_nats(out@) =~= Seq::<nat>::empty());
        return Some(out);
    }
    let last = ps.len() - 1;
    assert(views(ps@).subrange(0, last as int) =~= pv.drop_last());
    assert(pv.last() == ps@[last as int]@);
    match hex_pieces(ps, 0, last) {
        None => None,
        Some(mut init) => {
            let ghost before = init@;
            match parse_hex_group(&ps[last]) {
                Some(g) => {
                    init.push(g);
                    assert(as_nats(init@) =~= as_nats(before).push(g as nat));
                    Some(init)
                },
                None => {
                    let n = ps[last].len();
                    match parse_ipv4_chars(&ps[last], 0, n) {
                        Some(w) => {
                            proof {
                                assert(ps@[last as int]@.subrange(0, n as int) =~= pv.last());
                            }
                            init.push((w / 65536) as u128);
                            init.push((w % 65536) as u128);
                            assert(as_nats(init@) =~= as_nats(before) + seq![
                                w as nat / 65536,
                                w as nat % 65536,
                            ]);
                            Some(init)
                        },
                        None => {
                            proof {
                                assert(ps@[last as int]@.subrange(0, n as int) =~= pv.last());
                            }
                            None
                        },
                    }
                },
            }
        },
    }
}

/// Finds the first `::` in `t`.
fn find_double_colon(t: &Vec<char>) -> (r: Option<usize>)
    ensures
        r is Some <==> has_double_colon(t@),
        r matches Some(i) ==> i as int == first_double_colon(t@) && is_first_double_colon(t@, i as int),
{
    let mut i: usize = 0;
    while t.len() > 0 && i < t.len() - 1
        invariant
            forall|j: int| 0 <= j < i ==> !(t@[j] == ':' && #[trigger] t@[j + 1] == ':'),
        decreases t@.len() - i,
    {
        if t[i] == ':' && t[i + 1] == ':' {
            proof {
                assert(is_first_double_colon(t@, i as int));
                let f = first_double_colon(t@);
                assert(is_first_double_colon(t@, f));
                if f < i {
                    assert(!(t@[f] == ':' && t@[f + 1] == ':'));
                } else if f > i {
                    assert(!(t@[i as int] == ':' && t@[i + 1] == ':'));
                }
            }
            return Some(i);
        }
        i += 1;
    }
    proof {
        if has_double_colon(t@) {
            let f = choose|f: int| is_first_double_colon(t@, f);
            assert(!(t@[f] == ':' && t@[f + 1] == ':'));
        }
    }
    None
}

/// The number with the eight given 16-bit groups.
fn groups_value(g: &Vec<u128>) -> (r: u128)
    requires
        g@.len() == 8,
        forall|j: int| 0 <= j < 8 ==> #[trigger] g@[j] < 65536,
    ensures
        r as nat == digits_value(as_nats(g@), 65536),
{
    let ghost gn = as_nats(g@);
    let mut acc: u128 = 0;
    let mut i: usize = 0;
    proof {
        reveal_with_fuel(power, 9);
    }
    while i < 8
        invariant
            g@.len() == 8,
            forall|j: int| 0 <= j < 8 ==> #[trigger] g@[j] < 65536,
            gn == as_nats(g@),
            i <= 8,
            acc as nat == digits_value(gn.take(i as int), 65536),
            acc < power(65536, i as nat),
            power(65536, 8) == 0x1_0000_0000_0000_0000_0000_0000_0000_0000nat,
        decreases 8 - i,
    {
        proof {
            assert(gn.take(i + 1 as int).drop_last() =~= gn.take(i as int));
            let p = power(65536, i as nat);
            assert(acc * 65536 + g@[i as int] < p * 65536) by (nonlinear_arith)
                requires
                    acc < p,
                    g@[i as int] < 65536,
            ;
            reveal_with_fuel(power, 9);
        }
        acc = acc * 65536 + g[i];
        i += 1;
    }
    assert(gn.take(8) =~= gn);
    acc
}

/// Reads IPv6 text.
pub fn parse_ipv6_chars(t: &Vec<char>) -> (r: Option<u128>)
    ensures
        r == parse_ipv6(t@),
{
    match find_double_colon(t) {
        Some(i) => {
            assert(is_first_double_colon(t@, i as int));
            assert(i + 2 <= t@.len());
            let head: Vec<u128> = if i == 0 {
                Vec::new()
            } else {
                let ps = split_chars(t, 0, i, ':');
                proof {
                    assert(t@.subrange(0, i as int) =~= t@.take(i as int));
                    assert(views(ps@).subrange(0, ps@.len() as int) =~= views(ps@));
                }
                match hex_pieces(&ps, 0, ps.len()) {
                    None => {
                        return None;
                    },
                    Some(h) => h,
                }
            };
            let tail: Vec<u128> = if t.len() - i == 2 {
                Vec::new()
            } else {
                let ps = split_chars(t, i + 2, t.len(), ':');
                proof {
                    assert(t@.subrange(i + 2, t@.len() as int) =~= t@.skip(i + 2));
                }
                match tail_pieces(&ps) {
                    None => {
                        return None;
                    },
                    Some(x) => x,
                }
            };
            assert(i == 0 ==> as_nats(head@) =~= Seq::<nat>::empty());
            assert(i + 2 == t@.len() ==> as_nats(tail@) =~= Seq::<nat>::empty());
            if head.len() > 7 || tail.len() > 7 - head.len() {
                return None;
            }
            let mut g = head;
            let zeros = 8 - g.len() - tail.len();
            let mut k: usize = 0;
            let ghost hn = as_nats(g@);
            while k < zeros
                invariant
                    k <= zeros,
                    as_nats(g@) == hn + Seq::new(k as nat, |j: int| 0nat),
                    forall|j: int| 0 <= j < g@.len() ==> #[trigger] g@[j] < 65536,
                decreases zeros - k,
            {
                let ghost before = g@;
                g.push(0);
                assert(as_nats(g@) =~= as_nats(before).push(0nat));
                assert(as_nats(g@) =~= hn + Seq::new((k + 1) as nat, |j: int| 0nat));
                k += 1;
            }
            let mut m: usize = 0;
            let ghost mid = as_nats(g@);
            while m < tail.len()
                invariant
                    m <= tail@.len(),
                    as_nats(g@) == mid + as_nats(tail@).take(m as int),
                    forall|j: int| 0 <= j < g@.len() ==> #[trigger] g@[j] < 65536,
                    forall|j: int| 0 <= j < tail@.len() ==> #[trigger] tail@[j] < 65536,
                decreases tail@.len() - m,
            {
                let ghost before = g@;
                g.push(tail[m]);
                assert(as_nats(g@) =~= as_nats(before).push(tail@[m as int] as nat));
                assert(as_nats(tail@).take(m + 1 as int) =~= as_nats(tail@).take(m as int).push(
                    tail@[m as int] as nat,
                ));
                assert(as_nats(g@) =~= mid + as_nats(tail@).take(m + 1 as int));
                m += 1;
            }
            proof {
                assert(as_nats(tail@).take(tail@.len() as int) =~= as_nats(tail@));
                assert(as_nats(g@) =~= fill_groups(as_nats(head@), as_nats(tail@)));
            }
            Some(groups_value(&g))
        },
        None => {
            let ps = split_chars(t, 0, t.len(), ':');
            proof {
                assert(t@.subrange(0, t@.len() as int) =~= t@);
            }
            match tail_pieces(&ps) {
                Some(g) => {
                    if g.len() == 8 {
                        Some(groups_value(&g))
                    } else {
                        None
                    }
                },
                None => None,
            }
        },
    }
}

/// Reads IP address text: dotted-quad IPv4 first, IPv6 otherwise.
pub fn parse_ip_str(s: &str) -> (r: Option<IpAddr>)
    ensures
        r == parse_ip(s@),
{
    let t = chars_of(s);
    proof {
        assert(t@.subrange(0, t@.len() as int) =~= t@);
    }
    match parse_ipv4_chars(&t, 0, t.len()) {
        Some(v) => Some(IpAddr::V4(v)),
        None => match parse_ipv6_chars(&t) {
            Some(v) => Some(IpAddr::V6(v)),
            None => None,
        },
    }
}


/// The decimal numeral of an octet is how dotted-quad text writes it.
proof fn lemma_octet_numeral(o: nat)
    requires
        o < 256,
    ensures
        is_dec_octet(dec_text(o)),
        numeral_value(dec_text(o), 10) == o,
        !dec_text(o).contains('.'),
{
    lemma_radix_text_reads_back(o, 10);
    reveal_with_fuel(power, 4);
    lemma_radix_text_len(o, 10, 3);
    let t = dec_text(o);
    if t.contains('.') {
        let i = choose|i: int| 0 <= i < t.len() && t[i] == '.';
        assert(t[i] != '.');
    }
}

/// Reading the dotted-quad text of an IPv4 address gives the address back.
pub proof fn lemma_ipv4_text_parses_back(v: u32)
    ensures
        parse_ipv4(ipv4_text(v)) == Some(v),
{
    let os = ipv4_octets(v);
    lemma_base_digits_bound(v as nat, 256, 4);
    let texts = os.map_values(|o: nat| dec_text(o));
    assert forall|i: int| 0 <= i < 4 implies !(#[trigger] texts[i]).contains('.') && is_dec_octet(
        texts[i],
    ) && numeral_value(texts[i], 10) == os[i] by {
        lemma_octet_numeral(os[i]);
    }
    lemma_split_join(texts, '.');
    let ps = split(ipv4_text(v), '.');
    assert(ps == texts);
    assert(octet_values(ps) =~= os);
    lemma_digits_value_of_base_digits(v as nat, 256, 4);
    reveal_with_fuel(power, 5);
    assert(power(256, 4) == 0x1_0000_0000);
    vstd::arithmetic::div_mod::lemma_small_mod(v as nat, power(256, 4));
}

/// Dotted-quad text that reads as an address is exactly the text of that
/// address: there is one way to write each IPv4 address.
pub proof fn lemma_ipv4_parse_is_text(t: Seq<char>, v: u32)
    requires
        parse_ipv4(t) == Some(v),
    ensures
        t == ipv4_text(v),
{
    let ps = split(t, '.');
    let ov = octet_values(ps);
    assert forall|i: int| 0 <= i < 4 implies #[trigger] ov[i] < 256 && ps[i] == dec_text(ov[i]) by {
        assert(is_dec_octet(ps[i]));
        lemma_canonical_numeral(ps[i], 10);
    }
    lemma_base_digits_of_digits_value(ov, 256);
    reveal_with_fuel(power, 5);
    assert(digits_value(ov, 256) == v as nat);
    assert(ipv4_octets(v) == ov);
    assert(ov.map_values(|o: nat| dec_text(o)) =~= ps);
    lemma_join_split(t, '.');
}


/// Dotted-quad text has no colon and holds a dot.
proof fn lemma_ipv4_text_chars(w: u32)
    ensures
        !ipv4_text(w).contains(':'),
        ipv4_text(w).contains('.'),
{
    let os = ipv4_octets(w);
    lemma_base_digits_bound(w as nat, 256, 4);
    let texts = os.map_values(|o: nat| dec_text(o));
    assert forall|i: int| 0 <= i < texts.len() implies !(#[trigger] texts[i]).contains(':') by {
        lemma_radix_text_reads_back(os[i], 10);
        let t = texts[i];
        if t.contains(':') {
            let j = choose|j: int| 0 <= j < t.len() && t[j] == ':';
            assert(t[j] != ':');
        }
    }
    lemma_join_avoids(texts, '.', ':');
    lemma_join_has_sep(texts, '.');
}

/// The hex numeral of a group is an IPv6 group that reads back as the group.
proof fn lemma_group_numeral(x: nat)
    requires
        x < 65536,
    ensures
        is_hex_group(hex_text(x)),
        numeral_value(hex_text(x), 16) == x,
        !hex_text(x).contains(':'),
{
    lemma_radix_text_reads_back(x, 16);
    reveal_with_fuel(power, 5);
    lemma_radix_text_len(x, 16, 4);
    let t = hex_text(x);
    if t.contains(':') {
        let j = choose|j: int| 0 <= j < t.len() && t[j] == ':';
        assert(t[j] != ':');
    }
}

/// The colon-joined hex numerals of groups split back into the numerals,
/// which read back as the groups; the text has no `::` and does not start
/// or end with `:`.
proof fn lemma_hex_groups_read_back(g: Seq<nat>)
    requires
        g.len() >= 1,
        forall|i: int| 0 <= i < g.len() ==> #[trigger] g[i] < 65536,
    ensures
        split(hex_groups_text(g), ':') == g.map_values(|x: nat| hex_text(x)),
        hex_pieces_values(split(hex_groups_text(g), ':')) == Some(g),
        tail_pieces_values(split(hex_groups_text(g), ':')) == Some(g),
        hex_groups_text(g).len() >= 1,
        hex_groups_text(g)[0] != ':',
        hex_groups_text(g).last() != ':',
        forall|j: int|
            0 <= j < hex_groups_text(g).len() - 1 ==> !(hex_groups_text(g)[j] == ':'
                && #[trigger] hex_groups_text(g)[j + 1] == ':'),
{
    let texts = g.map_values(|x: nat| hex_text(x));
    assert forall|i: int| 0 <= i < texts.len() implies (#[trigger] texts[i]).len() >= 1
        && !texts[i].contains(':') && is_hex_group(texts[i]) && numeral_value(texts[i], 16)
        == g[i] by {
        lemma_group_numeral(g[i]);
    }
    lemma_split_join(texts, ':');
    lemma_join_no_double(texts, ':');
    assert(group_values(texts) =~= g);
    let init = texts.drop_last();
    assert(group_values(init) =~= g.drop_last());
    assert forall|i: int| 0 <= i < init.len() implies is_hex_group(#[trigger] init[i]) by {
        assert(init[i] == texts[i]);
    }
    assert(is_hex_group(texts.last()) && numeral_value(texts.last(), 16) == g.last()) by {
        assert(texts.last() == texts[texts.len() - 1]);
    }
    assert(g.drop_last().push(g.last()) =~= g);
}

/// There is one first `::`.
proof fn lemma_first_double_colon_at(t: Seq<char>, i: int)
    requires
        is_first_double_colon(t, i),
    ensures
        has_double_colon(t),
        first_double_colon(t) == i,
{
    let f = first_double_colon(t);
    assert(is_first_double_colon(t, f));
    if f < i {
        assert(!(t[f] == ':' && t[f + 1] == ':'));
    } else if f > i {
        assert(!(t[i] == ':' && t[i + 1] == ':'));
    }
}

/// The groups and the value of an IPv6 address determine each other.
proof fn lemma_ipv6_groups_value(v: u128)
    ensures
        ipv6_groups(v).len() == 8,
        forall|i: int| 0 <= i < 8 ==> #[trigger] ipv6_groups(v)[i] < 65536,
        digits_value(ipv6_groups(v), 65536) == v as nat,
{
    lemma_base_digits_bound(v as nat, 65536, 8);
    lemma_digits_value_of_base_digits(v as nat, 65536, 8);
    reveal_with_fuel(power, 9);
    crate::bits::lemma_pow2_128();
    vstd::arithmetic::div_mod::lemma_small_mod(v as nat, power(65536, 8));
}

/// The IPv4-mapped form `::ffff:a.b.c.d` reads back as the address.
proof fn lemma_ipv6_mapped_parses_back(v: u128)
    requires
        is_ipv4_mapped(ipv6_groups(v)),
    ensures
        parse_ipv6(ipv6_text(v)) == Some(v),
{
    let g = ipv6_groups(v);
    lemma_ipv6_groups_value(v);
    let t = ipv6_text(v);
    reveal_strlit("::ffff:");
    let w = (v as nat % 0x1_0000_0000) as u32;
    let ffff = seq!['f', 'f', 'f', 'f'];
    assert("::ffff:"@ =~= seq![':', ':'] + ffff.push(':'));
    assert(t =~= seq![':', ':'] + ffff.push(':') + ipv4_text(w));
    lemma_first_double_colon_at(t, 0);
    lemma_ipv4_text_chars(w);
    assert(!ffff.contains(':'));
    let parts = seq![ffff, ipv4_text(w)];
    assert(parts.drop_last() =~= seq![ffff]);
    assert(join(seq![ffff], ':') == ffff);
    assert(join(parts, ':') == ffff.push(':') + ipv4_text(w));
    assert(t.skip(2) =~= join(parts, ':'));
    lemma_split_join(parts, ':');
    assert(split(t.skip(2), ':') == parts);
    assert(is_hex_group(ffff));
    reveal_with_fuel(numeral_value, 5);
    assert(numeral_value(ffff, 16) == 65535);
    assert(parts.drop_last() =~= seq![ffff]);
    assert(group_values(seq![ffff]) =~= seq![65535nat]);
    assert(hex_pieces_values(seq![ffff]) == Some(seq![65535nat]));
    assert(!is_hex_group(ipv4_text(w))) by {
        let j = choose|j: int| 0 <= j < ipv4_text(w).len() && ipv4_text(w)[j] == '.';
    }
    lemma_ipv4_text_parses_back(w);
    let tl = seq![65535nat, w as nat / 65536, w as nat % 65536];
    assert(seq![65535nat] + seq![w as nat / 65536, w as nat % 65536] =~= tl);
    assert(tail_pieces_values(parts) == Some(tl));
    // The last two groups are the low 32 bits, split in halves.
    let vn = v as nat;
    assert(g =~= base_digits(vn / 65536, 65536, 7).push(vn % 65536));
    assert(base_digits(vn / 65536, 65536, 7) =~= base_digits(vn / 65536 / 65536, 65536, 6).push(
        (vn / 65536) % 65536,
    ));
    vstd::arithmetic::div_mod::lemma_mod_breakdown(vn as int, 65536, 65536);
    vstd::arithmetic::div_mod::lemma_mod_mod(vn as int, 65536, 65536);
    assert(w as nat == vn % 0x1_0000_0000);
    vstd::arithmetic::div_mod::lemma_fundamental_div_mod_converse(
        w as int,
        65536,
        ((vn / 65536) % 65536) as int,
        (vn % 65536) as int,
    );
    assert(fill_groups(Seq::empty(), tl) =~= g);
}

/// The form with the longest zero run written as `::` reads back as the
/// address.
proof fn lemma_ipv6_compressed_parses_back(v: u128, s: int, l: int)
    requires
        !is_ipv4_mapped(ipv6_groups(v)),
        longest_zero_run(ipv6_groups(v)) == (s, l),
        is_longest_zero_run(ipv6_groups(v), s, l),
        l > 1,
    ensures
        parse_ipv6(ipv6_text(v)) == Some(v),
{
    let g = ipv6_groups(v);
    lemma_ipv6_groups_value(v);
    let t = ipv6_text(v);
    reveal_strlit("::");
    let hg = g.subrange(0, s);
    let tg = g.subrange(s + l, 8);
    let h = hex_groups_text(hg);
    let tt = hex_groups_text(tg);
    assert(t == h + "::"@ + tt);
    assert(t =~= h + seq![':', ':'] + tt);
    let i = h.len() as int;
    if s > 0 {
        assert forall|k: int| 0 <= k < hg.len() implies #[trigger] hg[k] < 65536 by {
            assert(hg[k] == g[k]);
        }
        lemma_hex_groups_read_back(hg);
        assert(t.take(i) =~= h);
        assert forall|j: int| 0 <= j < i implies !(t[j] == ':' && #[trigger] t[j + 1] == ':') by {
            if j < i - 1 {
                assert(t[j] == h[j] && t[j + 1] == h[j + 1]);
            } else {
                assert(t[j] == h.last());
            }
        }
    } else {
        assert(h =~= Seq::<char>::empty());
    }
    lemma_first_double_colon_at(t, i);
    if s + l < 8 {
        assert forall|k: int| 0 <= k < tg.len() implies #[trigger] tg[k] < 65536 by {
            assert(tg[k] == g[s + l + k]);
        }
        lemma_hex_groups_read_back(tg);
        assert(t.skip(i + 2) =~= tt);
    } else {
        assert(tg =~= Seq::<nat>::empty());
        assert(tt =~= Seq::<char>::empty());
    }
    assert(fill_groups(hg, tg) =~= g);
}

/// The form with all eight groups reads back as the address.
proof fn lemma_ipv6_full_parses_back(v: u128)
    requires
        !is_ipv4_mapped(ipv6_groups(v)),
        longest_zero_run(ipv6_groups(v)).1 <= 1,
    ensures
        parse_ipv6(ipv6_text(v)) == Some(v),
{
    let g = ipv6_groups(v);
    lemma_ipv6_groups_value(v);
    let t = ipv6_text(v);
    lemma_hex_groups_read_back(g);
    assert(t == hex_groups_text(g));
    if has_double_colon(t) {
        let f = choose|f: int| is_first_double_colon(t, f);
        assert(t[f] == ':' && t[f + 1] == ':');
    }
}

/// Reading the text of an IPv6 address gives the address back.
pub proof fn lemma_ipv6_text_parses_back(v: u128)
    ensures
        parse_ipv6(ipv6_text(v)) == Some(v),
{
    let g = ipv6_groups(v);
    if is_ipv4_mapped(g) {
        lemma_ipv6_mapped_parses_back(v);
    } else {
        let (s, l) = longest_zero_run(g);
        lemma_base_digits_bound(v as nat, 65536, 8);
        lemma_longest_zero_run_exists(g);
        if l > 1 {
            lemma_ipv6_compressed_parses_back(v, s, l);
        } else {
            lemma_ipv6_full_parses_back(v);
        }
    }
}


/// A numeral has no character outside the digits.
proof fn lemma_numeral_avoids(n: nat, b: nat, c: char)
    requires
        b == 10 || b == 16,
        !crate::radix::is_hex_digit(c),
    ensures
        !radix_text(n, b).contains(c),
{
    lemma_radix_text_reads_back(n, b);
    let t = radix_text(n, b);
    if t.contains(c) {
        let j = choose|j: int| 0 <= j < t.len() && t[j] == c;
        assert(crate::radix::is_hex_digit(t[j]));
    }
}

/// Dotted-quad text holds no character other than digits and dots.
proof fn lemma_ipv4_text_avoids(w: u32, c: char)
    requires
        !crate::radix::is_hex_digit(c),
        c != '.',
    ensures
        !ipv4_text(w).contains(c),
{
    let os = ipv4_octets(w);
    let texts = os.map_values(|o: nat| dec_text(o));
    assert forall|i: int| 0 <= i < texts.len() implies !(#[trigger] texts[i]).contains(c) by {
        lemma_numeral_avoids(os[i], 10, c);
    }
    lemma_join_avoids(texts, '.', c);
}

/// IPv6 text holds no character other than hex digits, colons and dots,
/// and it holds a colon.
proof fn lemma_ipv6_text_chars(v: u128, c: char)
    requires
        !crate::radix::is_hex_digit(c),
        c != '.',
        c != ':',
    ensures
        !ipv6_text(v).contains(c),
        ipv6_text(v).contains(':'),
{
    let g = ipv6_groups(v);
    let t = ipv6_text(v);
    reveal_strlit("::ffff:");
    reveal_strlit("::");
    if is_ipv4_mapped(g) {
        let w = (v as nat % 0x1_0000_0000) as u32;
        let pre = seq![':', ':', 'f', 'f', 'f', 'f', ':'];
        assert("::ffff:"@ =~= pre);
        assert(t =~= pre + ipv4_text(w));
        lemma_ipv4_text_avoids(w, c);
        assert(t[0] == ':');
        if t.contains(c) {
            let j = choose|j: int| 0 <= j < t.len() && t[j] == c;
            if j >= 7 {
                assert(ipv4_text(w)[j - 7] == c);
            }
        }
    } else {
        let (s, l) = longest_zero_run(g);
        if l > 1 {
            let hg = g.subrange(0, s);
            let tg = g.subrange(s + l, 8);
            let ht = hg.map_values(|x: nat| hex_text(x));
            let tt = tg.map_values(|x: nat| hex_text(x));
            assert forall|i: int| 0 <= i < ht.len() implies !(#[trigger] ht[i]).contains(c) by {
                lemma_numeral_avoids(hg[i], 16, c);
            }
            assert forall|i: int| 0 <= i < tt.len() implies !(#[trigger] tt[i]).contains(c) by {
                lemma_numeral_avoids(tg[i], 16, c);
            }
            lemma_join_avoids(ht, ':', c);
            lemma_join_avoids(tt, ':', c);
            let h = hex_groups_text(hg);
            let u = hex_groups_text(tg);
            assert(t =~= h + seq![':', ':'] + u);
            assert(t[h.len() as int] == ':');
            if t.contains(c) {
                let j = choose|j: int| 0 <= j < t.len() && t[j] == c;
                if j < h.len() {
                    assert(h[j] == c);
                } else if j >= h.len() + 2 {
                    assert(u[j - h.len() - 2] == c);
                }
            }
        } else {
            let texts = g.map_values(|x: nat| hex_text(x));
            lemma_base_digits_bound(v as nat, 65536, 8);
            assert forall|i: int| 0 <= i < texts.len() implies !(#[trigger] texts[i]).contains(c) by {
                lemma_numeral_avoids(g[i], 16, c);
            }
            lemma_join_avoids(texts, ':', c);
            lemma_join_has_sep(texts, ':');
        }
    }
}

/// Address text holds only hex digits, colons and dots.
pub proof fn lemma_ip_text_avoids(ip: IpAddr, c: char)
    requires
        !crate::radix::is_hex_digit(c),
        c != '.',
        c != ':',
    ensures
        !ip.text().contains(c),
{
    match ip {
        IpAddr::V4(w) => lemma_ipv4_text_avoids(w, c),
        IpAddr::V6(v) => lemma_ipv6_text_chars(v, c),
    }
}

/// Reading the text of an address gives the address back, and the text
/// holds no `/`.
pub proof fn lemma_ip_text_reads_back(ip: IpAddr)
    ensures
        parse_ip(ip.text()) == Some(ip),
        !ip.text().contains('/'),
{
    match ip {
        IpAddr::V4(w) => {
            lemma_ipv4_text_parses_back(w);
            lemma_ipv4_text_avoids(w, '/');
        },
        IpAddr::V6(v) => {
            lemma_ipv6_text_parses_back(v);
            lemma_ipv6_text_chars(v, '/');
            if parse_ipv4(ipv6_text(v)) is Some {
                let w = parse_ipv4(ipv6_text(v))->0;
                lemma_ipv4_parse_is_text(ipv6_text(v), w);
                lemma_ipv4_text_chars(w);
            }
        },
    }
}

} // verus!

use vstd::prelude::*;

verus! {

use crate::cidr::{Cidr, lemma_usable_by_host_bits, lemma_usable_range_matches_count};
use vstd::arithmetic::power2::pow2;
use crate::radix::dec_text;
use crate::stdlib::push_char;
use crate::text::{join, lemma_join_push, split, lemma_split_join};
use crate::ipparse::lemma_ip_text_avoids;

/// The label of the highest-address line, padded to the value column:
/// `Broadcast:` for IPv4, `Highest:` for IPv6 (which has no broadcast).
pub open spec fn highest_label(c: Cidr) -> Seq<char> {
    if c.spec_width() == 32 {
        "Broadcast:    "@
    } else {
        "Highest:      "@
    }
}

/// The lines of the `info` report of a block.
pub open spec fn info_lines(c: Cidr) -> Seq<Seq<char>> {
    seq![
        "Network:      "@ + c.address(c.network_value()).text() + "/"@ + dec_text(c.spec_prefix()),
        "Netmask:      "@ + c.address(c.netmask_value()).text(),
        "Wildcard:     "@ + c.address(c.wildcard_value()).text(),
        highest_label(c) + c.address(c.highest_value()).text(),
        "Host range:   "@ + c.address(c.usable_first_value()).text() + " - "@ + c.address(
            c.usable_last_value(),
        ).text(),
        "Total addrs:  "@ + dec_text(c.block_size()),
        "Usable hosts: "@ + dec_text(c.usable_hosts()),
    ]
}

/// The `info` report: its lines joined by newlines.
pub open spec fn info_text(c: Cidr) -> Seq<char> {
    join(info_lines(c), '\n')
}

/// The `split` report: one block per line.
pub open spec fn split_text(subnets: Seq<Cidr>) -> Seq<char> {
    join(subnets.map_values(|s: Cidr| s.text()), '\n')
}

fn labeled(label: &str, value: &str) -> (r: String)
    ensures
        r@ == label@ + value@,
{
    let mut out = String::new();
    out.append(label);
    out.append(value);
    out
}

/// Joins the lines with newlines.
fn join_lines(lines: &Vec<String>) -> (r: String)
    ensures
        r@ == join(lines@.map_values(|l: String| l@), '\n'),
{
    let mut out = String::new();
    let mut i: usize = 0;
    while i < lines.len()
        invariant
            i <= lines@.len(),
            out@ == join(lines@.take(i as int).map_values(|l: String| l@), '\n'),
        decreases lines@.len() - i,
    {
        let ghost before = lines@.take(i as int).map_values(|l: String| l@);
        if i > 0 {
            push_char(&mut out, '\n');
        }
        out.append(lines[i].as_str());
        proof {
            let after = lines@.take(i + 1 as int).map_values(|l: String| l@);
            assert(after =~= before.push(lines@[i as int]@));
            if i > 0 {
                lemma_join_push(before, lines@[i as int]@, '\n');
            }
            assert(out@ =~= join(after, '\n'));
        }
        i += 1;
    }
    proof {
        assert(lines@.take(lines@.len() as int) =~= lines@);
    }
    out
}

/// The report with the given host range and usable count after the four
/// address lines and before the total count.
pub open spec fn info_text_with(c: Cidr, first: nat, last: nat, hosts: nat) -> Seq<char> {
    join(info_lines(c).take(4), '\n') + seq!['\n'] + "Host range:   "@ + c.address(first).text()
        + " - "@ + c.address(last).text() + seq!['\n'] + "Total addrs:  "@ + dec_text(
        c.block_size(),
    ) + seq!['\n'] + "Usable hosts: "@ + dec_text(hosts)
}

/// The tail of the `info` report is decided by the number of host bits: a
/// block with two or more host bits shows the range network + 1 to
/// highest - 1 and `2^host_bits - 2` usable hosts, which is the size of
/// that range and the total count minus two; a block with one host bit
/// shows both its addresses and 2; a single address shows itself and 1.
pub proof fn lemma_info_report_tail(c: Cidr)
    requires
        c.is_valid(),
    ensures
        c.spec_width() - c.spec_prefix() >= 2 ==> {
            &&& info_text(c) == info_text_with(
                c,
                c.network_value() + 1,
                (c.highest_value() - 1) as nat,
                (pow2((c.spec_width() - c.spec_prefix()) as nat) - 2) as nat,
            )
            &&& (c.highest_value() - 1) - (c.network_value() + 1) + 1 == pow2(
                (c.spec_width() - c.spec_prefix()) as nat,
            ) - 2
            &&& pow2((c.spec_width() - c.spec_prefix()) as nat) - 2 == c.block_size() - 2
        },
        c.spec_width() - c.spec_prefix() == 1 ==> info_text(c) == info_text_with(
            c,
            c.network_value(),
            c.network_value() + 1,
            2,
        ),
        c.spec_width() - c.spec_prefix() == 0 ==> info_text(c) == info_text_with(
            c,
            c.network_value(),
            c.network_value(),
            1,
        ),
{
    lemma_usable_by_host_bits(c);
    lemma_usable_range_matches_count(c);
    let ls = info_lines(c);
    let t4 = ls.take(4);
    let t5 = ls.take(5);
    let t6 = ls.take(6);
    assert(t5 =~= t4.push(ls[4]));
    assert(t6 =~= t5.push(ls[5]));
    assert(ls =~= t6.push(ls[6]));
    lemma_join_push(t4, ls[4], '\n');
    lemma_join_push(t5, ls[5], '\n');
    lemma_join_push(t6, ls[6], '\n');
    assert(info_text(c) =~= info_text_with(
        c,
        c.usable_first_value(),
        c.usable_last_value(),
        c.usable_hosts(),
    ));
}

pub fn render_info(c: &Cidr) -> (r: String)
    ensures
        r@ == info_text(*c),
        c.host_bits() >= 2 ==> r@ == info_text_with(
            *c,
            c.network_value() + 1,
            (c.highest_value() - 1) as nat,
            (pow2(c.host_bits()) - 2) as nat,
        ),
        c.host_bits() == 1 ==> r@ == info_text_with(
            *c,
            c.network_value(),
            c.network_value() + 1,
            2,
        ),
        c.host_bits() == 0 ==> r@ == info_text_with(*c, c.network_value(), c.network_value(), 1),
{
    proof {
        use_type_invariant(c);
        lemma_info_report_tail(*c);
    }
    let (lo, hi) = c.usable_range();
    let highest_label = if c.is_v4() {
        "Broadcast:    "
    } else {
        "Highest:      "
    };
    let mut range = lo.to_string();
    range.append(" - ");
    hi.push_to(&mut range);
    let lines = vec![
        labeled("Network:      ", c.to_string().as_str()),
        labeled("Netmask:      ", c.netmask().to_string().as_str()),
        labeled("Wildcard:     ", c.wildcard().to_string().as_str()),
        labeled(highest_label, c.highest().to_string().as_str()),
        labeled("Host range:   ", range.as_str()),
        labeled("Total addrs:  ", c.total_addresses().as_str()),
        labeled("Usable hosts: ", c.usable_count().as_str()),
    ];
    let out = join_lines(&lines);
    proof {
        let ls = info_lines(*c);
        assert(lines@[0]@ =~= ls[0]);
        assert(lines@[4]@ =~= ls[4]);
        assert(lines@.map_values(|l: String| l@) =~= info_lines(*c));
    }
    out
}

pub fn render_split(subnets: &[Cidr]) -> (r: String)
    ensures
        r@ == split_text(subnets@),
{
    let mut out = String::new();
    let mut i: usize = 0;
    while i < subnets.len()
        invariant
            i <= subnets@.len(),
            out@ == join(subnets@.take(i as int).map_values(|s: Cidr| s.text()), '\n'),
        decreases subnets@.len() - i,
    {
        let ghost before = subnets@.take(i as int).map_values(|s: Cidr| s.text());
        if i > 0 {
            push_char(&mut out, '\n');
        }
        let t = subnets[i].to_string();
        out.append(t.as_str());
        proof {
            let after = subnets@.take(i + 1 as int).map_values(|s: Cidr| s.text());
            assert(after =~= before.push(subnets@[i as int].text()));
            if i > 0 {
                lemma_join_push(before, subnets@[i as int].text(), '\n');
            }
            assert(out@ =~= join(after, '\n'));
        }
        i += 1;
    }
    proof {
        assert(subnets@.take(subnets@.len() as int) =~= subnets@);
    }
    out
}


/// The text of a block has no line break.
proof fn lemma_block_text_one_line(c: Cidr)
    ensures
        !c.text().contains('\n'),
{
    reveal_strlit("/");
    let a = c.address(c.network_value()).text();
    let p = dec_text(c.spec_prefix());
    lemma_ip_text_avoids(c.address(c.network_value()), '\n');
    crate::radix::lemma_radix_text_reads_back(c.spec_prefix(), 10);
    let t = c.text();
    assert(t =~= a + seq!['/'] + p);
    if t.contains('\n') {
        let j = choose|j: int| 0 <= j < t.len() && t[j] == '\n';
        if j < a.len() {
            assert(a[j] == '\n');
        } else if j > a.len() {
            assert(p[j - a.len() - 1] == '\n');
            assert(crate::radix::is_hex_digit(p[j - a.len() - 1]));
        }
    }
}

/// The split report has one line per subnet: cutting it at line breaks
/// gives the subnets' texts, in order.
pub proof fn lemma_split_text_lines(subnets: Seq<Cidr>)
    requires
        subnets.len() >= 1,
    ensures
        split(split_text(subnets), '\n') == subnets.map_values(|s: Cidr| s.text()),
{
    let texts = subnets.map_values(|s: Cidr| s.text());
    assert forall|i: int| 0 <= i < texts.len() implies !(#[trigger] texts[i]).contains('\n') by {
        lemma_block_text_one_line(subnets[i]);
    }
    lemma_split_join(texts, '\n');
}

} // verus!

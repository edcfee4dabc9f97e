# iputil

A CIDR/subnet calculator — network address, netmask, wildcard mask,
broadcast (highest) address, usable host range, host counts, and
equal-size subnet splitting — for IPv4 and IPv6 through one code path,
written in Verus and verified against mathematical specifications.

## Layout

- `src/cidr.rs` — the `Cidr` block (address bits, prefix, family width, with
  a type invariant), its bit arithmetic (proved equal to rounding the address
  down to a multiple of the block size), host counts, the usable range per
  RFC 3021, its text form, and reading CIDR text.
- `src/split.rs` — splitting a block by target prefix or by subnet count,
  with the proofs that a split tiles the block with no gap or overlap and
  that a split by count equals the split by the matching prefix.
- `src/render.rs` — the `info` and `split` reports.
- `src/ipaddr.rs` — IPv4/IPv6 addresses and their text (dotted quad; IPv6
  groups with the longest zero run compressed, IPv4-mapped addresses with a
  dotted-quad tail).
- `src/ipparse.rs` — reading IPv4 and IPv6 address text, with the proofs
  that every address's text reads back as that address.
- `src/radix.rs`, `src/text.rs`, `src/bits.rs` — numerals, splitting and
  joining text, and the bit-level lemmas.
- `src/stdlib.rs` — the calls into the standard library that carry trusted
  contracts.
- `app/main.rs` — the command line (`info`, `split --prefix`, `split --count`).

## Usage

```
iputil info 10.0.0.0/24
iputil split 10.0.0.0/24 --prefix 26
iputil split 10.0.0.0/24 --count 4
```

//! IP address values and their textual representations.
//!
//! An IPv4 address is four octets rendered in dotted-decimal form. An IPv6
//! address is eight 16-bit groups rendered in lowercase hexadecimal with the
//! leftmost longest run of two or more zero groups compressed to `::`, and
//! IPv4-mapped addresses rendered in the mixed `::ffff:a.b.c.d` form.
use vstd::prelude::*;

use crate::text::{dec_str, hex_str, u16_to_hex, u64_to_dec};

verus! {

/// An IPv4 address: four octets, most significant first.
#[derive(Clone, Copy, PartialEq, Eq, Structural)]
pub struct Ipv4Address {
    pub o0: u8,
    pub o1: u8,
    pub o2: u8,
    pub o3: u8,
}

/// An IPv6 address: eight 16-bit groups, most significant first.
#[derive(Clone, Copy, PartialEq, Eq, Structural)]
pub struct Ipv6Address {
    pub g0: u16,
    pub g1: u16,
    pub g2: u16,
    pub g3: u16,
    pub g4: u16,
    pub g5: u16,
    pub g6: u16,
    pub g7: u16,
}

/// One resolved address of either family.
#[derive(Clone, Copy, PartialEq, Eq, Structural)]
pub enum IpAddress {
    V4(Ipv4Address),
    V6(Ipv6Address),
}

impl Ipv6Address {
    /// The eight groups as a sequence, most significant first.
    pub open spec fn groups(self) -> Seq<u16> {
        seq![self.g0, self.g1, self.g2, self.g3, self.g4, self.g5, self.g6, self.g7]
    }

    /// Whether this is an IPv4-mapped address (`::ffff:a.b.c.d`).
    pub open spec fn is_ipv4_mapped(self) -> bool {
        self.g0 == 0 && self.g1 == 0 && self.g2 == 0 && self.g3 == 0 && self.g4 == 0 && self.g5
            == 0xffff
    }
}

/// Dotted-decimal text of four octets.
pub open spec fn ipv4_text_of(o0: nat, o1: nat, o2: nat, o3: nat) -> Seq<char> {
    dec_str(o0) + seq!['.'] + dec_str(o1) + seq!['.'] + dec_str(o2) + seq!['.'] + dec_str(o3)
}

/// Dotted-decimal text of an IPv4 address.
pub open spec fn ipv4_text(ip: Ipv4Address) -> Seq<char> {
    ipv4_text_of(ip.o0 as nat, ip.o1 as nat, ip.o2 as nat, ip.o3 as nat)
}

/// Length of the run of zero groups starting at index `i` of `gs`.
pub open spec fn zero_run_len(gs: Seq<u16>, i: int) -> nat
    decreases gs.len() - i when 0 <= i <= gs.len()
{
    if i >= gs.len() || gs[i] != 0 {
        0
    } else {
        1 + zero_run_len(gs, i + 1)
    }
}

/// The start of the leftmost longest zero run in `gs[i..]`; `gs.len()` when
/// the suffix is empty.
pub open spec fn best_zero_run_from(gs: Seq<u16>, i: int) -> int
    decreases gs.len() - i when 0 <= i <= gs.len()
{
    if i >= gs.len() {
        gs.len() as int
    } else {
        let rest = best_zero_run_from(gs, i + 1);
        if zero_run_len(gs, i) >= zero_run_len(gs, rest) {
            i
        } else {
            rest
        }
    }
}

/// Hexadecimal groups joined by `:`; empty for the empty sequence.
pub open spec fn hex_groups_text(gs: Seq<u16>) -> Seq<char>
    decreases gs.len(),
{
    if gs.len() == 0 {
        Seq::<char>::empty()
    } else if gs.len() == 1 {
        hex_str(gs[0] as nat)
    } else {
        hex_groups_text(gs.drop_last()) + seq![':'] + hex_str(gs.last() as nat)
    }
}

/// Text of an IPv6 address: mixed IPv4-mapped form when applicable, else
/// lowercase hexadecimal groups with the leftmost longest run of two or more
/// zero groups compressed to `::`.
pub open spec fn ipv6_text(ip: Ipv6Address) -> Seq<char> {
    if ip.is_ipv4_mapped() {
        ("::ffff:")@ + ipv4_text_of(
            (ip.g6 / 256) as nat,
            (ip.g6 % 256) as nat,
            (ip.g7 / 256) as nat,
            (ip.g7 % 256) as nat,
        )
    } else {
        let gs = ip.groups();
        let b = best_zero_run_from(gs, 0);
        let l = zero_run_len(gs, b);
        if l >= 2 {
            hex_groups_text(gs.take(b)) + seq![':'] + seq![':'] + hex_groups_text(
                gs.skip(b + l as int),
            )
        } else {
            hex_groups_text(gs)
        }
    }
}

/// The text of an address of either family.
pub open spec fn ip_text(ip: IpAddress) -> Seq<char> {
    match ip {
        IpAddress::V4(v4) => ipv4_text(v4),
        IpAddress::V6(v6) => ipv6_text(v6),
    }
}

impl Ipv4Address {
    /// Renders the address in dotted-decimal form.
    pub fn to_text(&self) -> (r: String)
        ensures
            r@ == ipv4_text(*self),
    {
        let mut r = u64_to_dec(self.o0 as u64);
        r.append(".");
        r.append(u64_to_dec(self.o1 as u64).as_str());
        r.append(".");
        r.append(u64_to_dec(self.o2 as u64).as_str());
        r.append(".");
        r.append(u64_to_dec(self.o3 as u64).as_str());
        proof {
            reveal_strlit(".");
            assert((".")@ =~= seq!['.']);
            assert(r@ =~= ipv4_text(*self));
        }
        r
    }
}

impl Ipv6Address {
    /// The group at position `i`, most significant first.
    fn group_at(&self, i: usize) -> (g: u16)
        requires
            i < 8,
        ensures
            g == self.groups()[i as int],
    {
        match i {
            0 => self.g0,
            1 => self.g1,
            2 => self.g2,
            3 => self.g3,
            4 => self.g4,
            5 => self.g5,
            6 => self.g6,
            _ => self.g7,
        }
    }

    /// Length of the zero run starting at `i`.
    fn run_len_at(&self, i: usize) -> (l: usize)
        requires
            i <= 8,
        ensures
            l == zero_run_len(self.groups(), i as int),
            i + l <= 8,
    {
        let mut j = i;
        while j < 8 && self.group_at(j) == 0
            invariant
                i <= j <= 8,
                zero_run_len(self.groups(), i as int) == j - i + zero_run_len(
                    self.groups(),
                    j as int,
                ),
            decreases 8 - j,
        {
            proof {
                assert(zero_run_len(self.groups(), j as int) == 1 + zero_run_len(
                    self.groups(),
                    j + 1,
                ));
            }
            j = j + 1;
        }
        proof {
            assert(zero_run_len(self.groups(), j as int) == 0);
        }
        j - i
    }

    /// Start of the leftmost longest zero run among the groups.
    fn best_run_start(&self) -> (b: usize)
        ensures
            b == best_zero_run_from(self.groups(), 0),
            b <= 8,
    {
        let mut best: usize = 8;
        let mut i: usize = 8;
        while i > 0
            invariant
                i <= 8,
                best <= 8,
                best == best_zero_run_from(self.groups(), i as int),
            decreases i,
        {
            i = i - 1;
            let here = self.run_len_at(i);
            let there = self.run_len_at(best);
            if here >= there {
                best = i;
            }
        }
        best
    }

    /// Appends the groups in `[from, to)` in hexadecimal, joined by `:`.
    fn append_hex_groups(&self, out: &mut String, from: usize, to: usize)
        requires
            from <= to <= 8,
        ensures
            final(out)@ == old(out)@ + hex_groups_text(
                self.groups().subrange(from as int, to as int),
            ),
    {
        let ghost start = out@;
        let mut i = from;
        while i < to
            invariant
                from <= i <= to <= 8,
                out@ == start + hex_groups_text(self.groups().subrange(from as int, i as int)),
            decreases to - i,
        {
            if i > from {
                out.append(":");
            }
            out.append(u16_to_hex(self.group_at(i)).as_str());
            i = i + 1;
            proof {
                reveal_strlit(":");
                let gs = self.groups();
                let cur = gs.subrange(from as int, i as int);
                assert(cur.drop_last() =~= gs.subrange(from as int, i - 1));
                assert(out@ =~= start + hex_groups_text(cur));
            }
        }
        proof {
            assert(out@ =~= start + hex_groups_text(
                self.groups().subrange(from as int, to as int),
            ));
        }
    }

    /// Renders the address: IPv4-mapped mixed form when applicable, else
    /// hexadecimal groups with the leftmost longest zero run of length two
    /// or more compressed to `::`.
    pub fn to_text(&self) -> (r: String)
        ensures
            r@ == ipv6_text(*self),
    {
        if self.g0 == 0 && self.g1 == 0 && self.g2 == 0 && self.g3 == 0 && self.g4 == 0 && self.g5
            == 0xffff {
            let mapped = Ipv4Address {
                o0: (self.g6 / 256) as u8,
                o1: (self.g6 % 256) as u8,
                o2: (self.g7 / 256) as u8,
                o3: (self.g7 % 256) as u8,
            };
            let mut r = String::from_str("::ffff:");
            r.append(mapped.to_text().as_str());
            proof {
                assert(r@ =~= ipv6_text(*self));
            }
            r
        } else {
            let b = self.best_run_start();
            let l = self.run_len_at(b);
            let mut r = String::new();
            if l >= 2 {
                self.append_hex_groups(&mut r, 0, b);
                r.append("::");
                self.append_hex_groups(&mut r, b + l, 8);
                proof {
                    reveal_strlit("::");
                    let gs = self.groups();
                    assert(gs.take(b as int) =~= gs.subrange(0, b as int));
                    assert(gs.skip(b + l) =~= gs.subrange((b + l) as int, 8));
                    assert(("::")@ =~= seq![':'] + seq![':']);
                    assert(r@ =~= ipv6_text(*self));
                }
            } else {
                self.append_hex_groups(&mut r, 0, 8);
                proof {
                    let gs = self.groups();
                    assert(gs.subrange(0, 8) =~= gs);
                    assert(r@ =~= ipv6_text(*self));
                }
            }
            r
        }
    }
}

} // verus!

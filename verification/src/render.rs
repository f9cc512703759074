//! Rendering of the hosts-file document.
//!
//! The document is, in order: a header with start marker, provenance line,
//! generation timestamp and generation duration; an unresolved-domain
//! section when any lookup failed; the IPv4 and IPv6 address sections when
//! requested, column-aligned per section; and the end marker. Every
//! section lists its lines by domain in the loader's order — the order of
//! outcome arrival (task completion) never shows in the output — while the
//! addresses of one domain keep the order the resolver delivered them in.
//! The renderer is a pure function of the classified results, the format
//! flags, the timestamp and the measured duration.
use vstd::prelude::*;

use crate::addr::{ipv4_text, ipv6_text, Ipv4Address, Ipv6Address};
use crate::clock::{format_timestamp, timestamp_text, Timestamp};
use crate::domains::{
    domain_le, domain_le_exec, lemma_domain_le_refl, lemma_domain_le_total, lemma_domain_le_trans,
    sorted_by_domain,
};
use crate::outcome::{
    classify, names_view, pairs_view, unresolved_of, v4_pairs_of, v6_pairs_of, ResolutionOutcome,
};
use crate::text::{dec_str, pad_left, pad_right, u64_to_dec, append_pad_left, append_pad_right, max_usize};

verus! {

/// The (domain, address text) pairs of one list of textual pairs.
pub open spec fn text_pairs_view(v: Seq<(String, String)>) -> Seq<(Seq<char>, Seq<char>)> {
    v.map_values(|p: (String, String)| (p.0@, p.1@))
}

/// IPv4 pairs with their addresses rendered to text.
pub open spec fn texted_v4(ps: Seq<(Seq<char>, Ipv4Address)>) -> Seq<(Seq<char>, Seq<char>)> {
    ps.map_values(|p: (Seq<char>, Ipv4Address)| (p.0, ipv4_text(p.1)))
}

/// IPv6 pairs with their addresses rendered to text.
pub open spec fn texted_v6(ps: Seq<(Seq<char>, Ipv6Address)>) -> Seq<(Seq<char>, Seq<char>)> {
    ps.map_values(|p: (Seq<char>, Ipv6Address)| (p.0, ipv6_text(p.1)))
}

/// The length of the longest address text among the pairs.
pub open spec fn max_addr_len(ps: Seq<(Seq<char>, Seq<char>)>) -> nat
    decreases ps.len(),
{
    if ps.len() == 0 {
        0
    } else {
        vstd::math::max(max_addr_len(ps.drop_last()) as int, ps.last().1.len() as int) as nat
    }
}

/// The length of the longest domain among the pairs.
pub open spec fn max_domain_len(ps: Seq<(Seq<char>, Seq<char>)>) -> nat
    decreases ps.len(),
{
    if ps.len() == 0 {
        0
    } else {
        vstd::math::max(max_domain_len(ps.drop_last()) as int, ps.last().0.len() as int) as nat
    }
}

/// Whether some pair carries domain `d`.
pub open spec fn contains_domain(ps: Seq<(Seq<char>, Seq<char>)>, d: Seq<char>) -> bool {
    exists|i: int| 0 <= i < ps.len() && ps[i].0 == d
}

/// The pairs kept in single mode: for each domain, only its first pair in
/// arrival order.
pub open spec fn first_per_domain(ps: Seq<(Seq<char>, Seq<char>)>) -> Seq<(Seq<char>, Seq<char>)>
    decreases ps.len(),
{
    if ps.len() == 0 {
        Seq::empty()
    } else {
        first_per_domain(ps.drop_last()) + (if contains_domain(ps.drop_last(), ps.last().0) {
            Seq::empty()
        } else {
            seq![ps.last()]
        })
    }
}

/// The pairs a section emits: all of them, or one per domain in single
/// mode.
pub open spec fn emitted_pairs(ps: Seq<(Seq<char>, Seq<char>)>, single: bool) -> Seq<
    (Seq<char>, Seq<char>),
> {
    if single {
        first_per_domain(ps)
    } else {
        ps
    }
}

/// Stable insertion of one pair into pairs already in domain order: the
/// new pair goes after every pair whose domain precedes or equals its own,
/// so pairs of one domain keep their relative order.
pub open spec fn insert_pair_by_domain(
    ps: Seq<(Seq<char>, Seq<char>)>,
    p: (Seq<char>, Seq<char>),
) -> Seq<(Seq<char>, Seq<char>)>
    decreases ps.len(),
{
    if ps.len() == 0 {
        seq![p]
    } else if domain_le(ps.last().0, p.0) {
        ps.push(p)
    } else {
        insert_pair_by_domain(ps.drop_last(), p).push(ps.last())
    }
}

/// The pairs rearranged into the loader's domain order; the pairs of one
/// domain keep their arrival order, so in single mode the first pair of a
/// domain is still its first-arrived address.
pub open spec fn pairs_in_domain_order(ps: Seq<(Seq<char>, Seq<char>)>) -> Seq<
    (Seq<char>, Seq<char>),
>
    decreases ps.len(),
{
    if ps.len() == 0 {
        Seq::empty()
    } else {
        insert_pair_by_domain(pairs_in_domain_order(ps.drop_last()), ps.last())
    }
}

/// Stable insertion of one name into names already in domain order.
pub open spec fn insert_name_by_domain(ds: Seq<Seq<char>>, d: Seq<char>) -> Seq<Seq<char>>
    decreases ds.len(),
{
    if ds.len() == 0 {
        seq![d]
    } else if domain_le(ds.last(), d) {
        ds.push(d)
    } else {
        insert_name_by_domain(ds.drop_last(), d).push(ds.last())
    }
}

/// The names rearranged into the loader's domain order.
pub open spec fn names_in_domain_order(ds: Seq<Seq<char>>) -> Seq<Seq<char>>
    decreases ds.len(),
{
    if ds.len() == 0 {
        Seq::empty()
    } else {
        insert_name_by_domain(names_in_domain_order(ds.drop_last()), ds.last())
    }
}

/// The subsequence of pairs carrying domain `d`, in order.
pub open spec fn pairs_of_domain(ps: Seq<(Seq<char>, Seq<char>)>, d: Seq<char>) -> Seq<
    (Seq<char>, Seq<char>),
>
    decreases ps.len(),
{
    if ps.len() == 0 {
        Seq::empty()
    } else {
        pairs_of_domain(ps.drop_last(), d) + (if ps.last().0 == d {
            seq![ps.last()]
        } else {
            Seq::empty()
        })
    }
}

/// One address line: the address text left-aligned to the address column
/// width, one space, the domain right-aligned to the domain column width.
pub open spec fn pair_line(p: (Seq<char>, Seq<char>), w_addr: nat, w_dom: nat) -> Seq<char> {
    pad_right(p.1, w_addr) + (" ")@ + pad_left(p.0, w_dom) + ("\n")@
}

/// The address lines of one section, in order.
pub open spec fn section_body(ps: Seq<(Seq<char>, Seq<char>)>, w_addr: nat, w_dom: nat) -> Seq<
    char,
>
    decreases ps.len(),
{
    if ps.len() == 0 {
        Seq::empty()
    } else {
        section_body(ps.drop_last(), w_addr, w_dom) + pair_line(ps.last(), w_addr, w_dom)
    }
}

/// A whole address section: lines for the emitted pairs, column widths
/// computed over all pairs of the section.
pub open spec fn section_text(ps: Seq<(Seq<char>, Seq<char>)>, single: bool) -> Seq<char> {
    section_body(emitted_pairs(ps, single), max_addr_len(ps), max_domain_len(ps))
}

/// The document header: start marker, provenance, generation timestamp and
/// generation duration in milliseconds.
pub open spec fn header_text(ts: Timestamp, elapsed: u64) -> Seq<char> {
    ("####### Onenote Hosts Start #######\n")@
        + ("# This file is generated by https://github.com/Zxilly/OnedriveHostsGenerator\n")@
        + ("# Generate time: ")@ + timestamp_text(ts) + ("\n")@ + ("# Generate in: ")@ + dec_str(
        elapsed as nat,
    ) + (" ms\n")@
}

/// The comment lines naming each unresolved domain.
pub open spec fn unresolved_lines(ds: Seq<Seq<char>>) -> Seq<char>
    decreases ds.len(),
{
    if ds.len() == 0 {
        Seq::empty()
    } else {
        unresolved_lines(ds.drop_last()) + ("# ")@ + ds.last() + (" not resolved\n")@
    }
}

/// The unresolved-domain section; empty when every domain resolved.
pub open spec fn unresolved_text(ds: Seq<Seq<char>>) -> Seq<char> {
    if ds.len() == 0 {
        Seq::empty()
    } else {
        ("\n# Unresolved domains\n")@ + unresolved_lines(ds)
    }
}

/// The IPv4 section, present only when IPv4 output is requested.
pub open spec fn v4_section_text(ps: Seq<(Seq<char>, Seq<char>)>, single: bool) -> Seq<char> {
    ("\n# IPv4 addresses:\n")@ + section_text(ps, single)
}

/// The IPv6 section, present only when IPv6 output is requested; an
/// explicit notice replaces the label when nothing resolved to IPv6.
pub open spec fn v6_section_text(ps: Seq<(Seq<char>, Seq<char>)>, single: bool) -> Seq<char> {
    ("\n")@ + (if ps.len() > 0 {
        ("# IPv6 addresses:\n")@
    } else {
        ("# No IPv6 addresses resolved\n")@
    }) + section_text(ps, single)
}

/// The complete rendered document for an outcome stream, format flags,
/// timestamp and duration. Every section lists its lines by domain in the
/// loader's order, never in task-completion order; within one domain the
/// addresses follow resolver arrival order.
pub open spec fn document_text(
    outs: Seq<ResolutionOutcome>,
    ipv4: bool,
    ipv6: bool,
    single: bool,
    ts: Timestamp,
    elapsed: u64,
) -> Seq<char> {
    header_text(ts, elapsed) + unresolved_text(names_in_domain_order(unresolved_of(outs))) + (
    if ipv4 {
        v4_section_text(pairs_in_domain_order(texted_v4(v4_pairs_of(outs))), single)
    } else {
        Seq::empty()
    }) + (if ipv6 {
        v6_section_text(pairs_in_domain_order(texted_v6(v6_pairs_of(outs))), single)
    } else {
        Seq::empty()
    }) + ("####### Onenote Hosts End #######\n")@ + ("\n")@
}

proof fn lemma_max_addr_len_bound(ps: Seq<(Seq<char>, Seq<char>)>)
    ensures
        forall|k: int| 0 <= k < ps.len() ==> (#[trigger] ps[k]).1.len() <= max_addr_len(ps),
    decreases ps.len(),
{
    if ps.len() > 0 {
        lemma_max_addr_len_bound(ps.drop_last());
        assert forall|k: int| 0 <= k < ps.len() implies (#[trigger] ps[k]).1.len()
            <= max_addr_len(ps) by {
            if k < ps.len() - 1 {
                assert(ps.drop_last()[k] == ps[k]);
            }
        }
    }
}

proof fn lemma_first_per_domain_subset(ps: Seq<(Seq<char>, Seq<char>)>)
    ensures
        forall|k: int|
            0 <= k < first_per_domain(ps).len() ==> ps.contains(
                #[trigger] first_per_domain(ps)[k],
            ),
    decreases ps.len(),
{
    if ps.len() > 0 {
        lemma_first_per_domain_subset(ps.drop_last());
        let fp = first_per_domain(ps.drop_last());
        assert forall|k: int| 0 <= k < first_per_domain(ps).len() implies ps.contains(
            #[trigger] first_per_domain(ps)[k],
        ) by {
            if k < fp.len() {
                assert(first_per_domain(ps)[k] == fp[k]);
                assert(ps.drop_last().contains(fp[k]));
                let m = choose|m: int| 0 <= m < ps.drop_last().len() && ps.drop_last()[m] == fp[k];
                assert(ps[m] == fp[k]);
            } else {
                assert(first_per_domain(ps)[k] == ps.last());
                assert(ps[ps.len() - 1] == ps.last());
            }
        }
    }
}

proof fn lemma_insert_pair_at(ps: Seq<(Seq<char>, Seq<char>)>, p: (Seq<char>, Seq<char>), pos: int)
    requires
        0 <= pos <= ps.len(),
        forall|k: int| pos <= k < ps.len() ==> !domain_le((#[trigger] ps[k]).0, p.0),
        pos > 0 ==> domain_le(ps[pos - 1].0, p.0),
    ensures
        insert_pair_by_domain(ps, p) == ps.take(pos).push(p) + ps.skip(pos),
    decreases ps.len(),
{
    if pos == ps.len() {
        if ps.len() == 0 {
            assert(insert_pair_by_domain(ps, p) =~~= ps.take(pos).push(p) + ps.skip(pos));
        } else {
            assert(domain_le(ps.last().0, p.0));
            assert(ps.take(pos) =~~= ps);
            assert(insert_pair_by_domain(ps, p) =~~= ps.take(pos).push(p) + ps.skip(pos));
        }
    } else {
        assert(!domain_le(ps.last().0, p.0));
        let dl = ps.drop_last();
        lemma_insert_pair_at(dl, p, pos);
        assert(dl.take(pos) =~~= ps.take(pos));
        assert(insert_pair_by_domain(ps, p) =~~= ps.take(pos).push(p) + ps.skip(pos));
    }
}

proof fn lemma_insert_name_at(ds: Seq<Seq<char>>, d: Seq<char>, pos: int)
    requires
        0 <= pos <= ds.len(),
        forall|k: int| pos <= k < ds.len() ==> !domain_le(#[trigger] ds[k], d),
        pos > 0 ==> domain_le(ds[pos - 1], d),
    ensures
        insert_name_by_domain(ds, d) == ds.take(pos).push(d) + ds.skip(pos),
    decreases ds.len(),
{
    if pos == ds.len() {
        if ds.len() == 0 {
            assert(insert_name_by_domain(ds, d) =~~= ds.take(pos).push(d) + ds.skip(pos));
        } else {
            assert(domain_le(ds.last(), d));
            assert(ds.take(pos) =~~= ds);
            assert(insert_name_by_domain(ds, d) =~~= ds.take(pos).push(d) + ds.skip(pos));
        }
    } else {
        assert(!domain_le(ds.last(), d));
        let dl = ds.drop_last();
        lemma_insert_name_at(dl, d, pos);
        assert(dl.take(pos) =~~= ds.take(pos));
        assert(insert_name_by_domain(ds, d) =~~= ds.take(pos).push(d) + ds.skip(pos));
    }
}

proof fn lemma_insert_pair_members(ps: Seq<(Seq<char>, Seq<char>)>, p: (Seq<char>, Seq<char>))
    ensures
        forall|k: int|
            0 <= k < insert_pair_by_domain(ps, p).len() ==> (#[trigger] insert_pair_by_domain(
                ps,
                p,
            )[k]) == p || ps.contains(insert_pair_by_domain(ps, p)[k]),
    decreases ps.len(),
{
    let r = insert_pair_by_domain(ps, p);
    if ps.len() == 0 {
    } else if domain_le(ps.last().0, p.0) {
        assert forall|k: int| 0 <= k < r.len() implies (#[trigger] r[k]) == p || ps.contains(
            r[k],
        ) by {
            if k < ps.len() {
                assert(ps[k] == r[k]);
            }
        }
    } else {
        let dl = ps.drop_last();
        lemma_insert_pair_members(dl, p);
        let ri = insert_pair_by_domain(dl, p);
        assert forall|k: int| 0 <= k < r.len() implies (#[trigger] r[k]) == p || ps.contains(
            r[k],
        ) by {
            if k < ri.len() {
                assert(r[k] == ri[k]);
                if ri[k] != p {
                    let m = choose|m: int| 0 <= m < dl.len() && dl[m] == ri[k];
                    assert(ps[m] == ri[k]);
                }
            } else {
                assert(r[k] == ps.last());
                assert(ps[ps.len() - 1] == ps.last());
            }
        }
    }
}

proof fn lemma_insert_pair_sorted(ps: Seq<(Seq<char>, Seq<char>)>, p: (Seq<char>, Seq<char>))
    requires
        forall|i: int, j: int| 0 <= i < j < ps.len() ==> domain_le(ps[i].0, ps[j].0),
    ensures
        forall|i: int, j: int|
            0 <= i < j < insert_pair_by_domain(ps, p).len() ==> domain_le(
                insert_pair_by_domain(ps, p)[i].0,
                insert_pair_by_domain(ps, p)[j].0,
            ),
    decreases ps.len(),
{
    let r = insert_pair_by_domain(ps, p);
    if ps.len() == 0 {
    } else if domain_le(ps.last().0, p.0) {
        assert forall|i: int, j: int| 0 <= i < j < r.len() implies domain_le(
            r[i].0,
            r[j].0,
        ) by {
            if j == r.len() - 1 {
                if i < ps.len() - 1 {
                    lemma_domain_le_trans(ps[i].0, ps.last().0, p.0);
                }
            }
        }
    } else {
        lemma_domain_le_total(ps.last().0, p.0);
        let dl = ps.drop_last();
        assert(forall|i: int, j: int| 0 <= i < j < dl.len() ==> domain_le(dl[i].0, dl[j].0));
        lemma_insert_pair_sorted(dl, p);
        lemma_insert_pair_members(dl, p);
        let ri = insert_pair_by_domain(dl, p);
        assert forall|i: int, j: int| 0 <= i < j < r.len() implies domain_le(
            r[i].0,
            r[j].0,
        ) by {
            if j < r.len() - 1 {
                assert(r[i] == ri[i] && r[j] == ri[j]);
            } else {
                assert(r[j] == ps.last());
                assert(r[i] == ri[i]);
                if ri[i] == p {
                    assert(domain_le(p.0, ps.last().0));
                } else {
                    let m = choose|m: int| 0 <= m < dl.len() && dl[m] == ri[i];
                    if m < ps.len() - 1 {
                        assert(domain_le(ps[m].0, ps.last().0));
                    }
                }
            }
        }
    }
}

proof fn lemma_insert_pair_domain_subseq(
    ps: Seq<(Seq<char>, Seq<char>)>,
    p: (Seq<char>, Seq<char>),
    d: Seq<char>,
)
    ensures
        pairs_of_domain(insert_pair_by_domain(ps, p), d) == pairs_of_domain(ps, d) + (if p.0
            == d {
            seq![p]
        } else {
            Seq::<(Seq<char>, Seq<char>)>::empty()
        }),
    decreases ps.len(),
{
    let arm_p: Seq<(Seq<char>, Seq<char>)> = if p.0 == d {
        seq![p]
    } else {
        Seq::empty()
    };
    if ps.len() == 0 {
        assert(insert_pair_by_domain(ps, p) == seq![p]);
        assert(seq![p].drop_last() =~~= ps);
        assert(seq![p].last() == p);
        assert(pairs_of_domain(seq![p], d) == pairs_of_domain(seq![p].drop_last(), d) + (if seq![
            p,
        ].last().0 == d {
            seq![seq![p].last()]
        } else {
            Seq::<(Seq<char>, Seq<char>)>::empty()
        }));
        assert(pairs_of_domain(ps, d) =~~= Seq::<(Seq<char>, Seq<char>)>::empty());
        assert(pairs_of_domain(insert_pair_by_domain(ps, p), d) =~~= pairs_of_domain(ps, d)
            + arm_p);
    } else if domain_le(ps.last().0, p.0) {
        assert(insert_pair_by_domain(ps, p) == ps.push(p));
        assert((ps.push(p)).drop_last() =~~= ps);
        assert((ps.push(p)).last() == p);
        assert(pairs_of_domain(ps.push(p), d) == pairs_of_domain((ps.push(p)).drop_last(), d) + (
        if (ps.push(p)).last().0 == d {
            seq![(ps.push(p)).last()]
        } else {
            Seq::<(Seq<char>, Seq<char>)>::empty()
        }));
        assert(pairs_of_domain(insert_pair_by_domain(ps, p), d) =~~= pairs_of_domain(ps, d)
            + arm_p);
    } else {
        let dl = ps.drop_last();
        lemma_insert_pair_domain_subseq(dl, p, d);
        let r = insert_pair_by_domain(ps, p);
        assert(r.drop_last() =~~= insert_pair_by_domain(dl, p));
        assert(r.last() == ps.last());
        if p.0 == d && ps.last().0 == d {
            lemma_domain_le_refl(d);
            assert(false);
        }
        assert(pairs_of_domain(r, d) =~~= pairs_of_domain(ps, d) + arm_p);
    }
}

/// Ordering law: every address section lists its lines by domain in the
/// loader's order — never in task-completion order — and the pairs of one
/// domain keep their arrival order, so a domain's addresses appear exactly
/// as the resolver delivered them.
pub proof fn lemma_sections_follow_domain_order(ps: Seq<(Seq<char>, Seq<char>)>)
    ensures
        forall|i: int, j: int|
            0 <= i < j < pairs_in_domain_order(ps).len() ==> domain_le(
                pairs_in_domain_order(ps)[i].0,
                pairs_in_domain_order(ps)[j].0,
            ),
        forall|d: Seq<char>|
            pairs_of_domain(pairs_in_domain_order(ps), d) == pairs_of_domain(ps, d),
    decreases ps.len(),
{
    if ps.len() == 0 {
        assert forall|d: Seq<char>|
            pairs_of_domain(pairs_in_domain_order(ps), d) == pairs_of_domain(ps, d) by {
            assert(pairs_of_domain(pairs_in_domain_order(ps), d) =~~= pairs_of_domain(ps, d));
        }
    } else {
        let dl = ps.drop_last();
        lemma_sections_follow_domain_order(dl);
        lemma_insert_pair_sorted(pairs_in_domain_order(dl), ps.last());
        assert forall|d: Seq<char>|
            pairs_of_domain(pairs_in_domain_order(ps), d) == pairs_of_domain(ps, d) by {
            lemma_insert_pair_domain_subseq(pairs_in_domain_order(dl), ps.last(), d);
            assert(pairs_of_domain(ps, d) =~~= pairs_of_domain(dl, d) + (if ps.last().0 == d {
                seq![ps.last()]
            } else {
                Seq::<(Seq<char>, Seq<char>)>::empty()
            }));
        }
    }
}

proof fn lemma_insert_name_sorted(ds: Seq<Seq<char>>, d: Seq<char>)
    requires
        sorted_by_domain(ds),
    ensures
        sorted_by_domain(insert_name_by_domain(ds, d)),
    decreases ds.len(),
{
    let r = insert_name_by_domain(ds, d);
    if ds.len() == 0 {
    } else if domain_le(ds.last(), d) {
        assert forall|i: int, j: int| 0 <= i < j < r.len() implies domain_le(r[i], r[j]) by {
            if j == r.len() - 1 {
                if i < ds.len() - 1 {
                    lemma_domain_le_trans(ds[i], ds.last(), d);
                }
            }
        }
    } else {
        lemma_domain_le_total(ds.last(), d);
        let dl = ds.drop_last();
        assert(sorted_by_domain(dl));
        lemma_insert_name_sorted(dl, d);
        let ri = insert_name_by_domain(dl, d);
        assert forall|k: int| 0 <= k < ri.len() implies ri[k] == d || dl.contains(
            #[trigger] ri[k],
        ) by {
            lemma_insert_name_members(dl, d);
        }
        assert forall|i: int, j: int| 0 <= i < j < r.len() implies domain_le(r[i], r[j]) by {
            if j < r.len() - 1 {
                assert(r[i] == ri[i] && r[j] == ri[j]);
            } else {
                assert(r[j] == ds.last());
                assert(r[i] == ri[i]);
                if ri[i] != d {
                    let m = choose|m: int| 0 <= m < dl.len() && dl[m] == ri[i];
                    if m < ds.len() - 1 {
                        assert(domain_le(ds[m], ds.last()));
                    }
                }
            }
        }
    }
}

proof fn lemma_insert_name_members(ds: Seq<Seq<char>>, d: Seq<char>)
    ensures
        forall|k: int|
            0 <= k < insert_name_by_domain(ds, d).len() ==> (#[trigger] insert_name_by_domain(
                ds,
                d,
            )[k]) == d || ds.contains(insert_name_by_domain(ds, d)[k]),
    decreases ds.len(),
{
    let r = insert_name_by_domain(ds, d);
    if ds.len() == 0 {
    } else if domain_le(ds.last(), d) {
        assert forall|k: int| 0 <= k < r.len() implies (#[trigger] r[k]) == d || ds.contains(
            r[k],
        ) by {
            if k < ds.len() {
                assert(ds[k] == r[k]);
            }
        }
    } else {
        let dl = ds.drop_last();
        lemma_insert_name_members(dl, d);
        let ri = insert_name_by_domain(dl, d);
        assert forall|k: int| 0 <= k < r.len() implies (#[trigger] r[k]) == d || ds.contains(
            r[k],
        ) by {
            if k < ri.len() {
                assert(r[k] == ri[k]);
                if ri[k] != d {
                    let m = choose|m: int| 0 <= m < dl.len() && dl[m] == ri[k];
                    assert(ds[m] == ri[k]);
                }
            } else {
                assert(r[k] == ds.last());
                assert(ds[ds.len() - 1] == ds.last());
            }
        }
    }
}

/// Ordering law for the unresolved section: its lines follow the loader's
/// domain order.
pub proof fn lemma_unresolved_follows_domain_order(ds: Seq<Seq<char>>)
    ensures
        sorted_by_domain(names_in_domain_order(ds)),
    decreases ds.len(),
{
    if ds.len() > 0 {
        lemma_unresolved_follows_domain_order(ds.drop_last());
        lemma_insert_name_sorted(names_in_domain_order(ds.drop_last()), ds.last());
    }
}

/// Rearranges the section's pairs into the loader's domain order, keeping
/// the arrival order of each domain's pairs.
fn order_section_pairs(pairs: &Vec<(String, String)>) -> (r: Vec<(String, String)>)
    ensures
        text_pairs_view(r@) == pairs_in_domain_order(text_pairs_view(pairs@)),
{
    let mut r: Vec<(String, String)> = Vec::new();
    let mut i: usize = 0;
    while i < pairs.len()
        invariant
            i <= pairs.len(),
            text_pairs_view(r@) == pairs_in_domain_order(text_pairs_view(pairs@).take(i as int)),
        decreases pairs.len() - i,
    {
        let x0 = pairs[i].0.clone();
        let x1 = pairs[i].1.clone();
        let ghost xv = (pairs@[i as int].0@, pairs@[i as int].1@);
        let mut pos: usize = r.len();
        while pos > 0 && !domain_le_exec(r[pos - 1].0.as_str(), x0.as_str())
            invariant
                pos <= r.len(),
                x0@ == xv.0,
                forall|k: int|
                    pos <= k < r@.len() ==> !domain_le(
                        (#[trigger] text_pairs_view(r@)[k]).0,
                        xv.0,
                    ),
            decreases pos,
        {
            proof {
                assert(text_pairs_view(r@)[pos - 1].0 == r@[pos - 1].0@);
            }
            pos = pos - 1;
        }
        let ghost old_view = text_pairs_view(r@);
        proof {
            if pos > 0 {
                assert(old_view[pos - 1].0 == r@[pos - 1].0@);
            }
            lemma_insert_pair_at(old_view, xv, pos as int);
        }
        r.insert(pos, (x0, x1));
        i = i + 1;
        proof {
            assert(text_pairs_view(r@) =~~= old_view.take(pos as int).push(xv) + old_view.skip(
                pos as int,
            ));
            let next = text_pairs_view(pairs@).take(i as int);
            assert(next.drop_last() =~~= text_pairs_view(pairs@).take(i - 1));
            assert(next.last() == xv);
            assert(text_pairs_view(r@) == pairs_in_domain_order(next));
        }
    }
    proof {
        assert(text_pairs_view(pairs@).take(pairs@.len() as int) =~~= text_pairs_view(pairs@));
    }
    r
}

/// Rearranges the unresolved names into the loader's domain order.
fn order_names(names: &Vec<String>) -> (r: Vec<String>)
    ensures
        names_view(r@) == names_in_domain_order(names_view(names@)),
{
    let mut r: Vec<String> = Vec::new();
    let mut i: usize = 0;
    while i < names.len()
        invariant
            i <= names.len(),
            names_view(r@) == names_in_domain_order(names_view(names@).take(i as int)),
        decreases names.len() - i,
    {
        let x = names[i].clone();
        let ghost xv = names@[i as int]@;
        let mut pos: usize = r.len();
        while pos > 0 && !domain_le_exec(r[pos - 1].as_str(), x.as_str())
            invariant
                pos <= r.len(),
                x@ == xv,
                forall|k: int|
                    pos <= k < r@.len() ==> !domain_le(#[trigger] names_view(r@)[k], xv),
            decreases pos,
        {
            proof {
                assert(names_view(r@)[pos - 1] == r@[pos - 1]@);
            }
            pos = pos - 1;
        }
        let ghost old_view = names_view(r@);
        proof {
            if pos > 0 {
                assert(old_view[pos - 1] == r@[pos - 1]@);
            }
            lemma_insert_name_at(old_view, xv, pos as int);
        }
        r.insert(pos, x);
        i = i + 1;
        proof {
            assert(names_view(r@) =~~= old_view.take(pos as int).push(xv) + old_view.skip(
                pos as int,
            ));
            let next = names_view(names@).take(i as int);
            assert(next.drop_last() =~~= names_view(names@).take(i - 1));
            assert(next.last() == xv);
            assert(names_view(r@) == names_in_domain_order(next));
        }
    }
    proof {
        assert(names_view(names@).take(names@.len() as int) =~~= names_view(names@));
    }
    r
}

/// Column-width law: in a rendered address section, every line's address
/// field is the address text padded to exactly the computed column width,
/// which is at least the length of the longest address text in that
/// section; no emitted line has a narrower address field.
pub proof fn lemma_column_widths(ps: Seq<(Seq<char>, Seq<char>)>, single: bool)
    ensures
        forall|k: int|
            0 <= k < emitted_pairs(ps, single).len() ==> pad_right(
                (#[trigger] emitted_pairs(ps, single)[k]).1,
                max_addr_len(ps),
            ).len() == max_addr_len(ps),
        forall|k: int|
            0 <= k < emitted_pairs(ps, single).len() ==> (#[trigger] emitted_pairs(
                ps,
                single,
            )[k]).1.len() <= max_addr_len(ps),
{
    lemma_max_addr_len_bound(ps);
    lemma_first_per_domain_subset(ps);
    assert forall|k: int| 0 <= k < emitted_pairs(ps, single).len() implies (
    #[trigger] emitted_pairs(ps, single)[k]).1.len() <= max_addr_len(ps) by {
        if single {
            assert(ps.contains(first_per_domain(ps)[k]));
            let m = choose|m: int|
                0 <= m < ps.len() && ps[m] == first_per_domain(ps)[k];
            assert(ps[m].1.len() <= max_addr_len(ps));
        }
    }
}

/// Single-mode law: in single mode no two emitted lines of one address
/// section share a domain.
pub proof fn lemma_single_per_domain(ps: Seq<(Seq<char>, Seq<char>)>)
    ensures
        forall|i: int, j: int|
            0 <= i < j < first_per_domain(ps).len() ==> (#[trigger] first_per_domain(ps)[i]).0 != (
            #[trigger] first_per_domain(ps)[j]).0,
    decreases ps.len(),
{
    if ps.len() > 0 {
        lemma_single_per_domain(ps.drop_last());
        lemma_first_per_domain_subset(ps.drop_last());
        let fp = first_per_domain(ps.drop_last());
        let f = first_per_domain(ps);
        assert forall|i: int, j: int| 0 <= i < j < f.len() implies (#[trigger] f[i]).0 != (
        #[trigger] f[j]).0 by {
            if j < fp.len() {
                assert(f[i] == fp[i] && f[j] == fp[j]);
            } else if !contains_domain(ps.drop_last(), ps.last().0) {
                assert(f[j] == ps.last());
                assert(f[i] == fp[i]);
                assert(ps.drop_last().contains(fp[i]));
                let m = choose|m: int|
                    0 <= m < ps.drop_last().len() && ps.drop_last()[m] == fp[i];
                if fp[i].0 == ps.last().0 {
                    assert(contains_domain(ps.drop_last(), ps.last().0));
                }
            }
        }
    }
}

/// Flags-off law: with both address families disabled the document is
/// exactly the header, the unresolved section and the end marker — no
/// address lines at all.
pub proof fn lemma_render_without_address_sections(
    outs: Seq<ResolutionOutcome>,
    single: bool,
    ts: Timestamp,
    elapsed: u64,
)
    ensures
        document_text(outs, false, false, single, ts, elapsed) == header_text(ts, elapsed)
            + unresolved_text(names_in_domain_order(unresolved_of(outs)))
            + ("####### Onenote Hosts End #######\n")@ + ("\n")@,
{
    assert(document_text(outs, false, false, single, ts, elapsed) =~= header_text(ts, elapsed)
        + unresolved_text(names_in_domain_order(unresolved_of(outs)))
        + ("####### Onenote Hosts End #######\n")@ + ("\n")@);
}

/// Renders the addresses of the IPv4 list to text pairs.
fn text_pairs_of_v4(v4: &Vec<(String, Ipv4Address)>) -> (r: Vec<(String, String)>)
    ensures
        text_pairs_view(r@) == texted_v4(pairs_view(v4@)),
{
    let mut r: Vec<(String, String)> = Vec::new();
    let mut i: usize = 0;
    while i < v4.len()
        invariant
            i <= v4.len(),
            text_pairs_view(r@) == texted_v4(pairs_view(v4@)).take(i as int),
        decreases v4.len() - i,
    {
        let addr_text = v4[i].1.to_text();
        let ghost r_before = r@;
        r.push((v4[i].0.clone(), addr_text));
        i = i + 1;
        proof {
            assert(text_pairs_view(r@) =~~= text_pairs_view(r_before).push(
                (v4@[i - 1].0@, ipv4_text(v4@[i - 1].1)),
            ));
            assert(text_pairs_view(r_before).push((v4@[i - 1].0@, ipv4_text(v4@[i - 1].1))) =~=
                texted_v4(pairs_view(v4@)).take(i as int));
        }
    }
    proof {
        assert(texted_v4(pairs_view(v4@)).take(v4@.len() as int) =~~= texted_v4(pairs_view(v4@)));
    }
    r
}

/// Renders the addresses of the IPv6 list to text pairs.
fn text_pairs_of_v6(v6: &Vec<(String, Ipv6Address)>) -> (r: Vec<(String, String)>)
    ensures
        text_pairs_view(r@) == texted_v6(pairs_view(v6@)),
{
    let mut r: Vec<(String, String)> = Vec::new();
    let mut i: usize = 0;
    while i < v6.len()
        invariant
            i <= v6.len(),
            text_pairs_view(r@) == texted_v6(pairs_view(v6@)).take(i as int),
        decreases v6.len() - i,
    {
        let addr_text = v6[i].1.to_text();
        let ghost r_before = r@;
        r.push((v6[i].0.clone(), addr_text));
        i = i + 1;
        proof {
            assert(text_pairs_view(r@) =~~= text_pairs_view(r_before).push(
                (v6@[i - 1].0@, ipv6_text(v6@[i - 1].1)),
            ));
            assert(text_pairs_view(r_before).push((v6@[i - 1].0@, ipv6_text(v6@[i - 1].1))) =~=
                texted_v6(pairs_view(v6@)).take(i as int));
        }
    }
    proof {
        assert(texted_v6(pairs_view(v6@)).take(v6@.len() as int) =~~= texted_v6(pairs_view(v6@)));
    }
    r
}

/// Computes the address and domain column widths of one section: the
/// longest address text and the longest domain among all its pairs.
fn find_max_lengths(pairs: &Vec<(String, String)>) -> (r: (usize, usize))
    ensures
        r.0 == max_addr_len(text_pairs_view(pairs@)),
        r.1 == max_domain_len(text_pairs_view(pairs@)),
{
    let mut w_addr: usize = 0;
    let mut w_dom: usize = 0;
    let mut i: usize = 0;
    while i < pairs.len()
        invariant
            i <= pairs.len(),
            w_addr == max_addr_len(text_pairs_view(pairs@).take(i as int)),
            w_dom == max_domain_len(text_pairs_view(pairs@).take(i as int)),
        decreases pairs.len() - i,
    {
        let ghost prefix = text_pairs_view(pairs@).take(i as int);
        w_addr = max_usize(w_addr, pairs[i].1.as_str().unicode_len());
        w_dom = max_usize(w_dom, pairs[i].0.as_str().unicode_len());
        i = i + 1;
        proof {
            let next = text_pairs_view(pairs@).take(i as int);
            assert(next.drop_last() =~~= prefix);
            assert(next.last() == text_pairs_view(pairs@)[i - 1]);
        }
    }
    proof {
        assert(text_pairs_view(pairs@).take(pairs@.len() as int) =~~= text_pairs_view(pairs@));
    }
    (w_addr, w_dom)
}

/// Whether one of the strings equals `d`.
pub(crate) fn contains_string(v: &Vec<String>, d: &String) -> (r: bool)
    ensures
        r == contains_name(names_view(v@), d@),
{
    let mut i: usize = 0;
    while i < v.len()
        invariant
            i <= v.len(),
            forall|k: int| 0 <= k < i ==> names_view(v@)[k] != d@,
        decreases v.len() - i,
    {
        if v[i].eq(d) {
            proof {
                assert(names_view(v@)[i as int] == d@);
            }
            return true;
        }
        i = i + 1;
    }
    false
}

/// Whether some name in the list equals `d`.
pub open spec fn contains_name(ds: Seq<Seq<char>>, d: Seq<char>) -> bool {
    exists|i: int| 0 <= i < ds.len() && ds[i] == d
}

/// Appends the address lines of one section: every pair, or in single mode
/// only the first pair of each domain, with both columns padded to the
/// widths computed over all the section's pairs.
fn append_section_body(out: &mut String, pairs: &Vec<(String, String)>, single: bool)
    ensures
        final(out)@ == old(out)@ + section_text(text_pairs_view(pairs@), single),
{
    let widths = find_max_lengths(pairs);
    let ghost all = text_pairs_view(pairs@);
    let ghost w_addr = max_addr_len(all);
    let ghost w_dom = max_domain_len(all);
    let mut printed: Vec<String> = Vec::new();
    let mut i: usize = 0;
    while i < pairs.len()
        invariant
            i <= pairs.len(),
            all == text_pairs_view(pairs@),
            widths.0 == max_addr_len(all),
            widths.1 == max_domain_len(all),
            w_addr == max_addr_len(all),
            w_dom == max_domain_len(all),
            out@ == old(out)@ + section_body(
                emitted_pairs(all.take(i as int), single),
                w_addr,
                w_dom,
            ),
            forall|d: Seq<char>|
                contains_name(names_view(printed@), d) == contains_domain(
                    all.take(i as int),
                    d,
                ),
        decreases pairs.len() - i,
    {
        let ghost prefix = all.take(i as int);
        let ghost next = all.take(i + 1);
        proof {
            assert(next.drop_last() =~~= prefix);
            assert(next.last() == all[i as int]);
        }
        let seen = contains_string(&printed, &pairs[i].0);
        if single && seen {
            proof {
                assert(emitted_pairs(next, single) =~= emitted_pairs(prefix, single));
            }
        } else {
            let s_addr = pairs[i].1.as_str();
            let s_dom = pairs[i].0.as_str();
            let ghost before = out@;
            append_pad_right(out, s_addr, widths.0);
            let ghost a1 = out@;
            out.append(" ");
            let ghost a2 = out@;
            append_pad_left(out, s_dom, widths.1);
            let ghost a3 = out@;
            out.append("\n");
            proof {
                assert(all[i as int].1 == pairs@[i as int].1@);
                assert(all[i as int].0 == pairs@[i as int].0@);
                assert(a1 == before + pad_right(s_addr@, widths.0 as nat));
                assert(a2 == a1 + (" ")@);
                assert(a3 == a2 + pad_left(s_dom@, widths.1 as nat));
                assert(out@ == a3 + ("\n")@);
                assert(out@ =~= before + pair_line(all[i as int], w_addr, w_dom));
                assert(emitted_pairs(next, single) =~= emitted_pairs(prefix, single).push(
                    all[i as int],
                ));
                assert(emitted_pairs(next, single).len() > 0);
                assert(emitted_pairs(next, single).drop_last() =~= emitted_pairs(prefix, single));
                assert(emitted_pairs(next, single).last() == all[i as int]);
                assert(section_body(emitted_pairs(next, single), w_addr, w_dom) =~= section_body(
                    emitted_pairs(prefix, single),
                    w_addr,
                    w_dom,
                ) + pair_line(all[i as int], w_addr, w_dom));
            }
        }
        let ghost printed_before = printed@;
        printed.push(pairs[i].0.clone());
        i = i + 1;
        proof {
            assert(names_view(printed@) =~~= names_view(printed_before).push(all[i - 1].0));
            assert forall|d: Seq<char>|
                contains_name(names_view(printed@), d) == contains_domain(next, d) by {
                if contains_name(names_view(printed@), d) {
                    let k = choose|k: int|
                        0 <= k < names_view(printed@).len() && names_view(printed@)[k] == d;
                    if k < printed_before.len() {
                        assert(names_view(printed_before)[k] == d);
                        assert(contains_name(names_view(printed_before), d));
                        assert(contains_domain(prefix, d));
                        let m = choose|m: int| 0 <= m < prefix.len() && prefix[m].0 == d;
                        assert(next[m].0 == d);
                        assert(contains_domain(next, d));
                    } else {
                        assert(next[i - 1].0 == d);
                        assert(contains_domain(next, d));
                    }
                }
                if contains_domain(next, d) {
                    let m = choose|m: int| 0 <= m < next.len() && next[m].0 == d;
                    if m < next.len() - 1 {
                        assert(prefix[m].0 == d);
                        assert(contains_domain(prefix, d));
                        assert(contains_name(names_view(printed_before), d));
                        let k = choose|k: int|
                            0 <= k < names_view(printed_before).len() && names_view(
                                printed_before,
                            )[k] == d;
                        assert(names_view(printed@)[k] == d);
                        assert(contains_name(names_view(printed@), d));
                    } else {
                        assert(names_view(printed@)[printed@.len() - 1] == d);
                        assert(contains_name(names_view(printed@), d));
                    }
                }
            }
        }
    }
    proof {
        assert(all.take(all.len() as int) =~~= all);
    }
}

/// Renders the complete document from the resolution outcomes, the three
/// format flags, the generation timestamp and the measured duration in
/// milliseconds. Pure: equal inputs give the identical document.
#[verifier::rlimit(100)]
pub fn render_document(
    outcomes: &Vec<ResolutionOutcome>,
    ipv4: bool,
    ipv6: bool,
    single: bool,
    ts: &Timestamp,
    elapsed: u64,
) -> (r: String)
    ensures
        r@ == document_text(outcomes@, ipv4, ipv6, single, *ts, elapsed),
{
    let classified = classify(outcomes);
    let mut out = String::new();
    out.append("####### Onenote Hosts Start #######\n");
    out.append("# This file is generated by https://github.com/Zxilly/OnedriveHostsGenerator\n");
    out.append("# Generate time: ");
    out.append(format_timestamp(ts).as_str());
    out.append("\n");
    out.append("# Generate in: ");
    out.append(u64_to_dec(elapsed).as_str());
    out.append(" ms\n");
    proof {
        assert(out@ =~= header_text(*ts, elapsed));
    }

    let unresolved_sorted = order_names(&classified.unresolved);
    let ghost names = names_in_domain_order(unresolved_of(outcomes@));
    proof {
        assert(names_view(unresolved_sorted@) == names);
    }
    if unresolved_sorted.len() > 0 {
        out.append("\n# Unresolved domains\n");
        let mut i: usize = 0;
        while i < unresolved_sorted.len()
            invariant
                i <= unresolved_sorted.len(),
                names == names_view(unresolved_sorted@),
                out@ == header_text(*ts, elapsed) + ("\n# Unresolved domains\n")@
                    + unresolved_lines(names.take(i as int)),
            decreases unresolved_sorted.len() - i,
        {
            let ghost prefix = names.take(i as int);
            out.append("# ");
            out.append(unresolved_sorted[i].as_str());
            out.append(" not resolved\n");
            i = i + 1;
            proof {
                let next = names.take(i as int);
                assert(next.drop_last() =~~= prefix);
                assert(next.last() == names[i - 1]);
                assert(out@ =~= header_text(*ts, elapsed) + ("\n# Unresolved domains\n")@
                    + unresolved_lines(next));
            }
        }
        proof {
            assert(names.take(names.len() as int) =~~= names);
            assert(out@ =~= header_text(*ts, elapsed) + unresolved_text(names));
        }
    } else {
        proof {
            assert(names.len() == 0);
            assert(out@ =~= header_text(*ts, elapsed) + unresolved_text(names));
        }
    }
    let ghost after_unresolved = header_text(*ts, elapsed) + unresolved_text(names);

    let ghost v4_piece = if ipv4 {
        v4_section_text(pairs_in_domain_order(texted_v4(v4_pairs_of(outcomes@))), single)
    } else {
        Seq::<char>::empty()
    };
    if ipv4 {
        out.append("\n# IPv4 addresses:\n");
        let v4_text_pairs = text_pairs_of_v4(&classified.v4);
        let v4_ordered = order_section_pairs(&v4_text_pairs);
        append_section_body(&mut out, &v4_ordered, single);
        proof {
            assert(out@ =~= after_unresolved + v4_piece);
        }
    } else {
        proof {
            assert(out@ =~= after_unresolved + v4_piece);
        }
    }

    let ghost v6_piece = if ipv6 {
        v6_section_text(pairs_in_domain_order(texted_v6(v6_pairs_of(outcomes@))), single)
    } else {
        Seq::<char>::empty()
    };
    if ipv6 {
        out.append("\n");
        let v6_text_pairs = text_pairs_of_v6(&classified.v6);
        let v6_ordered = order_section_pairs(&v6_text_pairs);
        proof {
            assert(text_pairs_view(v6_ordered@).len() == v6_ordered@.len());
        }
        if v6_ordered.len() > 0 {
            out.append("# IPv6 addresses:\n");
        } else {
            out.append("# No IPv6 addresses resolved\n");
        }
        append_section_body(&mut out, &v6_ordered, single);
        proof {
            assert(out@ =~= after_unresolved + v4_piece + v6_piece);
        }
    } else {
        proof {
            assert(out@ =~= after_unresolved + v4_piece + v6_piece);
        }
    }

    out.append("####### Onenote Hosts End #######\n");
    out.append("\n");
    proof {
        assert(out@ =~= document_text(outcomes@, ipv4, ipv6, single, *ts, elapsed));
    }
    out
}

} // verus!

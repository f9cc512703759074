//! Per-domain resolution outcomes and their classification by address
//! family.
//!
//! Each input domain yields exactly one outcome: a set of addresses on
//! success, or a failure marker. Classification turns the outcome stream
//! into the three lists rendering needs, preserving arrival order and
//! performing no deduplication.
use vstd::prelude::*;

use crate::addr::{IpAddress, Ipv4Address, Ipv6Address};

verus! {

/// The result of resolving one domain: its addresses, or a failure marker
/// carrying the domain.
pub enum ResolutionOutcome {
    Resolved { domain: String, addresses: Vec<IpAddress> },
    Failed { domain: String },
}

impl ResolutionOutcome {
    /// The domain this outcome is about.
    pub open spec fn domain_text(self) -> Seq<char> {
        match self {
            ResolutionOutcome::Resolved { domain, .. } => domain@,
            ResolutionOutcome::Failed { domain } => domain@,
        }
    }
}

/// The outcome stream split into the three lists used by rendering.
pub struct Classified {
    pub v4: Vec<(String, Ipv4Address)>,
    pub v6: Vec<(String, Ipv6Address)>,
    pub unresolved: Vec<String>,
}

/// The (domain, address) pairs of one list, with domains as character
/// sequences.
pub open spec fn pairs_view<A>(v: Seq<(String, A)>) -> Seq<(Seq<char>, A)> {
    v.map_values(|p: (String, A)| (p.0@, p.1))
}

/// The domain names of one list.
pub open spec fn names_view(v: Seq<String>) -> Seq<Seq<char>> {
    v.map_values(|s: String| s@)
}

/// The IPv4 pairs contributed by the addresses of one resolved domain, in
/// arrival order.
pub open spec fn v4_pairs_of_addrs(d: Seq<char>, addrs: Seq<IpAddress>) -> Seq<
    (Seq<char>, Ipv4Address),
>
    decreases addrs.len(),
{
    if addrs.len() == 0 {
        Seq::empty()
    } else {
        v4_pairs_of_addrs(d, addrs.drop_last()) + (match addrs.last() {
            IpAddress::V4(ip) => seq![(d, ip)],
            IpAddress::V6(_) => Seq::empty(),
        })
    }
}

/// The IPv6 pairs contributed by the addresses of one resolved domain.
pub open spec fn v6_pairs_of_addrs(d: Seq<char>, addrs: Seq<IpAddress>) -> Seq<
    (Seq<char>, Ipv6Address),
>
    decreases addrs.len(),
{
    if addrs.len() == 0 {
        Seq::empty()
    } else {
        v6_pairs_of_addrs(d, addrs.drop_last()) + (match addrs.last() {
            IpAddress::V4(_) => Seq::empty(),
            IpAddress::V6(ip) => seq![(d, ip)],
        })
    }
}

/// The IPv4 pairs of one outcome.
pub open spec fn outcome_v4(o: ResolutionOutcome) -> Seq<(Seq<char>, Ipv4Address)> {
    match o {
        ResolutionOutcome::Resolved { domain, addresses } => v4_pairs_of_addrs(
            domain@,
            addresses@,
        ),
        ResolutionOutcome::Failed { .. } => Seq::empty(),
    }
}

/// The IPv6 pairs of one outcome.
pub open spec fn outcome_v6(o: ResolutionOutcome) -> Seq<(Seq<char>, Ipv6Address)> {
    match o {
        ResolutionOutcome::Resolved { domain, addresses } => v6_pairs_of_addrs(
            domain@,
            addresses@,
        ),
        ResolutionOutcome::Failed { .. } => Seq::empty(),
    }
}

/// All IPv4 pairs of an outcome stream, in arrival order.
pub open spec fn v4_pairs_of(outs: Seq<ResolutionOutcome>) -> Seq<(Seq<char>, Ipv4Address)>
    decreases outs.len(),
{
    if outs.len() == 0 {
        Seq::empty()
    } else {
        v4_pairs_of(outs.drop_last()) + outcome_v4(outs.last())
    }
}

/// All IPv6 pairs of an outcome stream, in arrival order.
pub open spec fn v6_pairs_of(outs: Seq<ResolutionOutcome>) -> Seq<(Seq<char>, Ipv6Address)>
    decreases outs.len(),
{
    if outs.len() == 0 {
        Seq::empty()
    } else {
        v6_pairs_of(outs.drop_last()) + outcome_v6(outs.last())
    }
}

/// The domains whose resolution failed, in arrival order.
pub open spec fn unresolved_of(outs: Seq<ResolutionOutcome>) -> Seq<Seq<char>>
    decreases outs.len(),
{
    if outs.len() == 0 {
        Seq::empty()
    } else {
        unresolved_of(outs.drop_last()) + (match outs.last() {
            ResolutionOutcome::Resolved { .. } => Seq::empty(),
            ResolutionOutcome::Failed { domain } => seq![domain@],
        })
    }
}

/// The set of domains appearing in one pair list.
pub open spec fn pair_domains<A>(ps: Seq<(Seq<char>, A)>) -> Set<Seq<char>> {
    ps.map_values(|p: (Seq<char>, A)| p.0).to_set()
}

/// The set of domains appearing in the IPv4 or the IPv6 list.
pub open spec fn resolved_domains(outs: Seq<ResolutionOutcome>) -> Set<Seq<char>> {
    pair_domains(v4_pairs_of(outs)).union(pair_domains(v6_pairs_of(outs)))
}

proof fn lemma_pair_domains_contains<A>(ps: Seq<(Seq<char>, A)>, d: Seq<char>)
    ensures
        pair_domains(ps).contains(d) <==> exists|i: int| 0 <= i < ps.len() && ps[i].0 == d,
{
    let mapped = ps.map_values(|p: (Seq<char>, A)| p.0);
    if pair_domains(ps).contains(d) {
        let i = choose|i: int| 0 <= i < mapped.len() && mapped[i] == d;
        assert(ps[i].0 == d);
    }
    if exists|i: int| 0 <= i < ps.len() && ps[i].0 == d {
        let i = choose|i: int| 0 <= i < ps.len() && ps[i].0 == d;
        assert(mapped[i] == d);
        assert(mapped.contains(d));
    }
}

proof fn lemma_pair_domains_concat<A>(a: Seq<(Seq<char>, A)>, b: Seq<(Seq<char>, A)>)
    ensures
        pair_domains(a + b) =~= pair_domains(a).union(pair_domains(b)),
{
    assert forall|d: Seq<char>|
        pair_domains(a + b).contains(d) == pair_domains(a).union(pair_domains(b)).contains(
            d,
        ) by {
        lemma_pair_domains_contains(a + b, d);
        lemma_pair_domains_contains(a, d);
        lemma_pair_domains_contains(b, d);
        if exists|i: int| 0 <= i < (a + b).len() && (a + b)[i].0 == d {
            let i = choose|i: int| 0 <= i < (a + b).len() && (a + b)[i].0 == d;
            if i < a.len() {
                assert(a[i].0 == d);
            } else {
                assert(b[i - a.len()].0 == d);
            }
        }
        if exists|i: int| 0 <= i < a.len() && a[i].0 == d {
            let i = choose|i: int| 0 <= i < a.len() && a[i].0 == d;
            assert((a + b)[i].0 == d);
        }
        if exists|i: int| 0 <= i < b.len() && b[i].0 == d {
            let i = choose|i: int| 0 <= i < b.len() && b[i].0 == d;
            assert((a + b)[a.len() + i].0 == d);
        }
    }
}

proof fn lemma_addr_pair_domains(d: Seq<char>, addrs: Seq<IpAddress>)
    ensures
        addrs.len() == 0 ==> pair_domains(v4_pairs_of_addrs(d, addrs)).union(
            pair_domains(v6_pairs_of_addrs(d, addrs)),
        ) =~= Set::<Seq<char>>::empty(),
        addrs.len() > 0 ==> pair_domains(v4_pairs_of_addrs(d, addrs)).union(
            pair_domains(v6_pairs_of_addrs(d, addrs)),
        ) =~= Set::<Seq<char>>::empty().insert(d),
    decreases addrs.len(),
{
    lemma_pair_domains_contains(v4_pairs_of_addrs(d, addrs), d);
    lemma_pair_domains_contains(v6_pairs_of_addrs(d, addrs), d);
    if addrs.len() == 0 {
        assert forall|x: Seq<char>| !pair_domains(
            v4_pairs_of_addrs(d, addrs),
        ).contains(x) by {
            lemma_pair_domains_contains(v4_pairs_of_addrs(d, addrs), x);
        }
        assert forall|x: Seq<char>| !pair_domains(
            v6_pairs_of_addrs(d, addrs),
        ).contains(x) by {
            lemma_pair_domains_contains(v6_pairs_of_addrs(d, addrs), x);
        }
    } else {
        lemma_addr_pair_domains(d, addrs.drop_last());
        assert forall|x: Seq<char>|
            pair_domains(v4_pairs_of_addrs(d, addrs)).union(
                pair_domains(v6_pairs_of_addrs(d, addrs)),
            ).contains(x) == Set::<Seq<char>>::empty().insert(d).contains(x) by {
            lemma_pair_domains_contains(v4_pairs_of_addrs(d, addrs), x);
            lemma_pair_domains_contains(v6_pairs_of_addrs(d, addrs), x);
            let v4s = v4_pairs_of_addrs(d, addrs);
            let v6s = v6_pairs_of_addrs(d, addrs);
            if exists|i: int| 0 <= i < v4s.len() && v4s[i].0 == x {
                lemma_addr_pairs_all_domain(d, addrs);
            }
            if exists|i: int| 0 <= i < v6s.len() && v6s[i].0 == x {
                lemma_addr_pairs_all_domain(d, addrs);
            }
            if x == d {
                match addrs.last() {
                    IpAddress::V4(ip) => {
                        assert(v4s[v4s.len() - 1].0 == d);
                    },
                    IpAddress::V6(ip) => {
                        assert(v6s[v6s.len() - 1].0 == d);
                    },
                }
            }
        }
    }
}

proof fn lemma_addr_pairs_all_domain(d: Seq<char>, addrs: Seq<IpAddress>)
    ensures
        forall|i: int|
            0 <= i < v4_pairs_of_addrs(d, addrs).len() ==> (#[trigger] v4_pairs_of_addrs(
                d,
                addrs,
            )[i]).0 == d,
        forall|i: int|
            0 <= i < v6_pairs_of_addrs(d, addrs).len() ==> (#[trigger] v6_pairs_of_addrs(
                d,
                addrs,
            )[i]).0 == d,
    decreases addrs.len(),
{
    if addrs.len() > 0 {
        lemma_addr_pairs_all_domain(d, addrs.drop_last());
        let v4dl = v4_pairs_of_addrs(d, addrs.drop_last());
        let v4s = v4_pairs_of_addrs(d, addrs);
        assert forall|i: int| 0 <= i < v4s.len() implies (#[trigger] v4s[i]).0 == d by {
            if i < v4dl.len() {
                assert(v4s[i] == v4dl[i]);
            }
        }
        let v6dl = v6_pairs_of_addrs(d, addrs.drop_last());
        let v6s = v6_pairs_of_addrs(d, addrs);
        assert forall|i: int| 0 <= i < v6s.len() implies (#[trigger] v6s[i]).0 == d by {
            if i < v6dl.len() {
                assert(v6s[i] == v6dl[i]);
            }
        }
    }
}

proof fn lemma_resolved_domains_from_outcomes(outs: Seq<ResolutionOutcome>)
    ensures
        forall|d: Seq<char>|
            #[trigger] resolved_domains(outs).contains(d) ==> exists|i: int|
                0 <= i < outs.len() && outs[i].domain_text() == d,
    decreases outs.len(),
{
    if outs.len() == 0 {
        assert forall|d: Seq<char>| !resolved_domains(outs).contains(d) by {
            lemma_pair_domains_contains(v4_pairs_of(outs), d);
            lemma_pair_domains_contains(v6_pairs_of(outs), d);
        }
    } else {
        let dl = outs.drop_last();
        let o = outs.last();
        lemma_resolved_domains_from_outcomes(dl);
        lemma_pair_domains_concat(v4_pairs_of(dl), outcome_v4(o));
        lemma_pair_domains_concat(v6_pairs_of(dl), outcome_v6(o));
        assert forall|d: Seq<char>| #[trigger]
            resolved_domains(outs).contains(d) implies exists|i: int|
            0 <= i < outs.len() && outs[i].domain_text() == d by {
            if resolved_domains(dl).contains(d) {
                let i = choose|i: int| 0 <= i < dl.len() && dl[i].domain_text() == d;
                assert(outs[i].domain_text() == d);
            } else {
                lemma_pair_domains_contains(outcome_v4(o), d);
                lemma_pair_domains_contains(outcome_v6(o), d);
                match o {
                    ResolutionOutcome::Resolved { domain, addresses } => {
                        lemma_addr_pairs_all_domain(domain@, addresses@);
                        assert(outs[outs.len() - 1].domain_text() == d);
                    },
                    ResolutionOutcome::Failed { .. } => {
                        assert(false);
                    },
                }
            }
        }
    }
}

/// Accounting law: when every resolved outcome carries at least one address
/// and the outcome domains are pairwise distinct, the number of unresolved
/// domains plus the number of distinct domains appearing in the IPv4 or
/// IPv6 lists equals the number of outcomes — no domain is lost and none is
/// double-counted.
pub proof fn lemma_every_domain_accounted(outs: Seq<ResolutionOutcome>)
    requires
        forall|i: int, j: int|
            0 <= i < j < outs.len() ==> outs[i].domain_text() != outs[j].domain_text(),
        forall|i: int|
            0 <= i < outs.len() ==> match #[trigger] outs[i] {
                ResolutionOutcome::Resolved { addresses, .. } => addresses@.len() > 0,
                ResolutionOutcome::Failed { .. } => true,
            },
    ensures
        unresolved_of(outs).len() + resolved_domains(outs).len() == outs.len(),
    decreases outs.len(),
{
    broadcast use vstd::seq_lib::seq_to_set_is_finite;

    if outs.len() == 0 {
        assert(resolved_domains(outs) =~= Set::<Seq<char>>::empty()) by {
            assert forall|d: Seq<char>| !resolved_domains(outs).contains(d) by {
                lemma_pair_domains_contains(v4_pairs_of(outs), d);
                lemma_pair_domains_contains(v6_pairs_of(outs), d);
            }
        }
    } else {
        let dl = outs.drop_last();
        let o = outs.last();
        assert(forall|i: int, j: int|
            0 <= i < j < dl.len() ==> dl[i].domain_text() != dl[j].domain_text());
        lemma_every_domain_accounted(dl);
        lemma_pair_domains_concat(v4_pairs_of(dl), outcome_v4(o));
        lemma_pair_domains_concat(v6_pairs_of(dl), outcome_v6(o));
        match o {
            ResolutionOutcome::Failed { domain } => {
                assert(resolved_domains(outs) =~= resolved_domains(dl)) by {
                    assert forall|d: Seq<char>|
                        pair_domains(outcome_v4(o)).union(
                            pair_domains(outcome_v6(o)),
                        ).contains(d) == false by {
                        lemma_pair_domains_contains(outcome_v4(o), d);
                        lemma_pair_domains_contains(outcome_v6(o), d);
                    }
                }
                assert(unresolved_of(outs) == unresolved_of(dl) + seq![domain@]);
            },
            ResolutionOutcome::Resolved { domain, addresses } => {
                assert(addresses@.len() > 0);
                lemma_addr_pair_domains(domain@, addresses@);
                assert(v4_pairs_of(outs) == v4_pairs_of(dl) + outcome_v4(o));
                assert(v6_pairs_of(outs) == v6_pairs_of(dl) + outcome_v6(o));
                assert(pair_domains(outcome_v4(o)).union(pair_domains(outcome_v6(o)))
                    =~= Set::<Seq<char>>::empty().insert(domain@));
                assert forall|x: Seq<char>|
                    resolved_domains(outs).contains(x) == resolved_domains(dl).insert(
                        domain@,
                    ).contains(x) by {
                    assert(pair_domains(outcome_v4(o)).union(
                        pair_domains(outcome_v6(o)),
                    ).contains(x) == (x == domain@));
                }
                assert(resolved_domains(outs) =~= resolved_domains(dl).insert(domain@));
                assert(!resolved_domains(dl).contains(domain@)) by {
                    lemma_resolved_domains_from_outcomes(dl);
                    if resolved_domains(dl).contains(domain@) {
                        let i = choose|i: int|
                            0 <= i < dl.len() && dl[i].domain_text() == domain@;
                        assert(outs[i].domain_text() == outs[outs.len() - 1].domain_text());
                    }
                }
                assert(unresolved_of(outs) =~= unresolved_of(dl));
            },
        }
    }
}

/// Appends the pairs of one resolved domain to the family lists.
fn classify_addresses(
    domain: &String,
    addresses: &Vec<IpAddress>,
    v4: &mut Vec<(String, Ipv4Address)>,
    v6: &mut Vec<(String, Ipv6Address)>,
)
    ensures
        pairs_view(final(v4)@) == pairs_view(old(v4)@) + v4_pairs_of_addrs(domain@, addresses@),
        pairs_view(final(v6)@) == pairs_view(old(v6)@) + v6_pairs_of_addrs(domain@, addresses@),
{
    let mut j: usize = 0;
    while j < addresses.len()
        invariant
            j <= addresses.len(),
            pairs_view(v4@) == pairs_view(old(v4)@) + v4_pairs_of_addrs(
                domain@,
                addresses@.take(j as int),
            ),
            pairs_view(v6@) == pairs_view(old(v6)@) + v6_pairs_of_addrs(
                domain@,
                addresses@.take(j as int),
            ),
        decreases addresses.len() - j,
    {
        let ghost prefix = addresses@.take(j as int);
        let ghost next = addresses@.take(j + 1);
        proof {
            assert(next.drop_last() =~= prefix);
            assert(next.last() == addresses@[j as int]);
        }
        let ghost v4_before = v4@;
        let ghost v6_before = v6@;
        match addresses[j] {
            IpAddress::V4(ip) => {
                v4.push((domain.clone(), ip));
                proof {
                    assert(v4_pairs_of_addrs(domain@, next) == v4_pairs_of_addrs(domain@, prefix)
                        + seq![(domain@, ip)]);
                    assert(v6_pairs_of_addrs(domain@, next) == v6_pairs_of_addrs(domain@, prefix)
                        + Seq::<(Seq<char>, Ipv6Address)>::empty());
                    assert(pairs_view(v4@) =~~= pairs_view(v4_before).push((domain@, ip)));
                    assert(pairs_view(v4_before).push((domain@, ip)) =~= pairs_view(old(v4)@)
                        + v4_pairs_of_addrs(domain@, next));
                    assert(pairs_view(v6@) =~= pairs_view(old(v6)@) + v6_pairs_of_addrs(
                        domain@,
                        next,
                    ));
                }
            },
            IpAddress::V6(ip) => {
                v6.push((domain.clone(), ip));
                proof {
                    assert(v6_pairs_of_addrs(domain@, next) == v6_pairs_of_addrs(domain@, prefix)
                        + seq![(domain@, ip)]);
                    assert(v4_pairs_of_addrs(domain@, next) == v4_pairs_of_addrs(domain@, prefix)
                        + Seq::<(Seq<char>, Ipv4Address)>::empty());
                    assert(pairs_view(v6@) =~~= pairs_view(v6_before).push((domain@, ip)));
                    assert(pairs_view(v6_before).push((domain@, ip)) =~= pairs_view(old(v6)@)
                        + v6_pairs_of_addrs(domain@, next));
                    assert(pairs_view(v4@) =~= pairs_view(old(v4)@) + v4_pairs_of_addrs(
                        domain@,
                        next,
                    ));
                }
            },
        }
        j = j + 1;
    }
    proof {
        assert(addresses@.take(addresses@.len() as int) =~= addresses@);
    }
}

/// Splits an outcome stream into IPv4 pairs, IPv6 pairs and unresolved
/// domains, preserving arrival order and keeping every duplicate pair.
pub fn classify(outcomes: &Vec<ResolutionOutcome>) -> (c: Classified)
    ensures
        pairs_view(c.v4@) == v4_pairs_of(outcomes@),
        pairs_view(c.v6@) == v6_pairs_of(outcomes@),
        names_view(c.unresolved@) == unresolved_of(outcomes@),
{
    let mut v4: Vec<(String, Ipv4Address)> = Vec::new();
    let mut v6: Vec<(String, Ipv6Address)> = Vec::new();
    let mut unresolved: Vec<String> = Vec::new();
    let mut i: usize = 0;
    while i < outcomes.len()
        invariant
            i <= outcomes.len(),
            pairs_view(v4@) == v4_pairs_of(outcomes@.take(i as int)),
            pairs_view(v6@) == v6_pairs_of(outcomes@.take(i as int)),
            names_view(unresolved@) == unresolved_of(outcomes@.take(i as int)),
        decreases outcomes.len() - i,
    {
        let ghost prefix = outcomes@.take(i as int);
        match &outcomes[i] {
            ResolutionOutcome::Resolved { domain, addresses } => {
                classify_addresses(domain, addresses, &mut v4, &mut v6);
            },
            ResolutionOutcome::Failed { domain } => {
                unresolved.push(domain.clone());
            },
        }
        i = i + 1;
        proof {
            let next = outcomes@.take(i as int);
            assert(next.drop_last() =~= prefix);
            assert(next.last() == outcomes@[i - 1]);
            assert(pairs_view(v4@) =~~= v4_pairs_of(next));
            assert(pairs_view(v6@) =~~= v6_pairs_of(next));
            assert(names_view(unresolved@) =~~= unresolved_of(next));
        }
    }
    proof {
        assert(outcomes@.take(outcomes@.len() as int) =~= outcomes@);
    }
    Classified { v4, v6, unresolved }
}

} // verus!

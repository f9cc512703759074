use onedrive_hosts::addr::{IpAddress, Ipv4Address, Ipv6Address};
use onedrive_hosts::clock::{elapsed_millis, format_timestamp, start_run, Timestamp};
use onedrive_hosts::domains::{load_domains, sort_domains, trim_str};
use onedrive_hosts::outcome::{classify, ResolutionOutcome};
use onedrive_hosts::render::render_document;
use onedrive_hosts::text::{u64_to_dec, u64_to_dec_padded};

fn ts() -> Timestamp {
    Timestamp { year: 2024, month: 1, day: 2, hour: 3, minute: 4, second: 5 }
}

fn v4(o0: u8, o1: u8, o2: u8, o3: u8) -> IpAddress {
    IpAddress::V4(Ipv4Address { o0, o1, o2, o3 })
}

fn v6(groups: [u16; 8]) -> Ipv6Address {
    Ipv6Address {
        g0: groups[0],
        g1: groups[1],
        g2: groups[2],
        g3: groups[3],
        g4: groups[4],
        g5: groups[5],
        g6: groups[6],
        g7: groups[7],
    }
}

const HEADER: &str = "####### Onenote Hosts Start #######\n\
# This file is generated by https://github.com/Zxilly/OnedriveHostsGenerator\n\
# Generate time: 2024-01-02 03:04:05\n\
# Generate in: 42 ms\n";
const FOOTER: &str = "####### Onenote Hosts End #######\n\n";

#[test]
fn two_domains_same_address() {
    let outcomes = vec![
        ResolutionOutcome::Resolved {
            domain: String::from("a.example.com"),
            addresses: vec![v4(192, 0, 2, 1)],
        },
        ResolutionOutcome::Resolved {
            domain: String::from("b.example.com"),
            addresses: vec![v4(192, 0, 2, 1)],
        },
    ];
    let doc = render_document(&outcomes, true, false, false, &ts(), 42);
    let expected = format!(
        "{}\n# IPv4 addresses:\n192.0.2.1 a.example.com\n192.0.2.1 b.example.com\n{}",
        HEADER, FOOTER
    );
    assert_eq!(doc, expected);
}

#[test]
fn failed_domain_is_reported_unresolved() {
    let outcomes =
        vec![ResolutionOutcome::Failed { domain: String::from("nonexistent.invalid") }];
    let doc = render_document(&outcomes, false, false, false, &ts(), 42);
    let expected = format!(
        "{}\n# Unresolved domains\n# nonexistent.invalid not resolved\n{}",
        HEADER, FOOTER
    );
    assert_eq!(doc, expected);
    assert!(doc.contains("# nonexistent.invalid not resolved"));
}

#[test]
fn both_families_disabled_emits_no_address_lines() {
    let outcomes = vec![
        ResolutionOutcome::Resolved {
            domain: String::from("a.example.com"),
            addresses: vec![v4(192, 0, 2, 1)],
        },
        ResolutionOutcome::Failed { domain: String::from("bad.example") },
    ];
    let doc = render_document(&outcomes, false, false, false, &ts(), 42);
    let expected =
        format!("{}\n# Unresolved domains\n# bad.example not resolved\n{}", HEADER, FOOTER);
    assert_eq!(doc, expected);
    assert!(!doc.contains("192.0.2.1"));
}

#[test]
fn single_mode_emits_one_line_per_domain() {
    let outcomes = vec![ResolutionOutcome::Resolved {
        domain: String::from("d.example.com"),
        addresses: vec![v4(192, 0, 2, 1), v4(192, 0, 2, 2)],
    }];
    let doc = render_document(&outcomes, true, false, true, &ts(), 42);
    let expected = format!(
        "{}\n# IPv4 addresses:\n192.0.2.1 d.example.com\n{}",
        HEADER, FOOTER
    );
    assert_eq!(doc, expected);
}

#[test]
fn address_column_padded_to_longest_address() {
    let outcomes = vec![
        ResolutionOutcome::Resolved {
            domain: String::from("short.example"),
            addresses: vec![v4(192, 0, 2, 1)],
        },
        ResolutionOutcome::Resolved {
            domain: String::from("long.example.net"),
            addresses: vec![v4(198, 51, 100, 123)],
        },
    ];
    let doc = render_document(&outcomes, true, false, false, &ts(), 42);
    // the longest address is 14 characters wide, the longest domain 16
    let expected = format!(
        "{}\n# IPv4 addresses:\n192.0.2.1         short.example\n198.51.100.123 long.example.net\n{}",
        HEADER, FOOTER
    );
    assert_eq!(doc, expected);
    for line in doc.lines() {
        if line.ends_with("example") || line.ends_with("example.net") {
            let addr_field = &line[..14];
            assert!(addr_field.len() >= 14);
        }
    }
}

#[test]
fn empty_ipv6_section_emits_notice() {
    let outcomes = vec![ResolutionOutcome::Resolved {
        domain: String::from("a.example.com"),
        addresses: vec![v4(192, 0, 2, 1)],
    }];
    let doc = render_document(&outcomes, false, true, false, &ts(), 42);
    let expected = format!("{}\n# No IPv6 addresses resolved\n{}", HEADER, FOOTER);
    assert_eq!(doc, expected);
}

#[test]
fn ipv6_section_lists_addresses() {
    let outcomes = vec![ResolutionOutcome::Resolved {
        domain: String::from("six.example.com"),
        addresses: vec![IpAddress::V6(v6([0x2001, 0xdb8, 0, 0, 0, 0, 0, 1]))],
    }];
    let doc = render_document(&outcomes, false, true, false, &ts(), 42);
    let expected = format!(
        "{}\n# IPv6 addresses:\n2001:db8::1 six.example.com\n{}",
        HEADER, FOOTER
    );
    assert_eq!(doc, expected);
}

#[test]
fn classify_splits_by_family_and_failure() {
    let outcomes = vec![
        ResolutionOutcome::Resolved {
            domain: String::from("both.example"),
            addresses: vec![v4(192, 0, 2, 7), IpAddress::V6(v6([0, 0, 0, 0, 0, 0, 0, 1]))],
        },
        ResolutionOutcome::Failed { domain: String::from("gone.example") },
    ];
    let c = classify(&outcomes);
    assert_eq!(c.v4.len(), 1);
    assert_eq!(c.v4[0].0, "both.example");
    assert_eq!(c.v6.len(), 1);
    assert_eq!(c.v6[0].0, "both.example");
    assert_eq!(c.unresolved, vec![String::from("gone.example")]);
}

#[test]
fn every_input_domain_is_accounted_for() {
    let outcomes = vec![
        ResolutionOutcome::Resolved {
            domain: String::from("a.example"),
            addresses: vec![v4(192, 0, 2, 1)],
        },
        ResolutionOutcome::Resolved {
            domain: String::from("b.example"),
            addresses: vec![v4(192, 0, 2, 2), IpAddress::V6(v6([0, 0, 0, 0, 0, 0, 0, 1]))],
        },
        ResolutionOutcome::Failed { domain: String::from("c.example") },
    ];
    let c = classify(&outcomes);
    let mut distinct: Vec<&String> = Vec::new();
    for (domain, _) in c.v4.iter() {
        if !distinct.contains(&domain) {
            distinct.push(domain);
        }
    }
    for (domain, _) in c.v6.iter() {
        if !distinct.contains(&domain) {
            distinct.push(domain);
        }
    }
    assert_eq!(c.unresolved.len() + distinct.len(), outcomes.len());
}

#[test]
fn duplicate_pairs_are_kept_without_single_mode() {
    let outcomes = vec![ResolutionOutcome::Resolved {
        domain: String::from("d.example"),
        addresses: vec![v4(192, 0, 2, 1), v4(192, 0, 2, 1)],
    }];
    let doc = render_document(&outcomes, true, false, false, &ts(), 42);
    let expected = format!(
        "{}\n# IPv4 addresses:\n192.0.2.1 d.example\n192.0.2.1 d.example\n{}",
        HEADER, FOOTER
    );
    assert_eq!(doc, expected);
}

#[test]
fn sections_follow_domain_order_not_completion_order() {
    // outcomes arrive with b's task finishing first; the rendered section
    // must still follow the loader's domain order
    let outcomes = vec![
        ResolutionOutcome::Resolved {
            domain: String::from("b.example.com"),
            addresses: vec![v4(192, 0, 2, 2)],
        },
        ResolutionOutcome::Resolved {
            domain: String::from("a.example.com"),
            addresses: vec![v4(192, 0, 2, 1)],
        },
    ];
    let doc = render_document(&outcomes, true, false, false, &ts(), 42);
    let expected = format!(
        "{}\n# IPv4 addresses:\n192.0.2.1 a.example.com\n192.0.2.2 b.example.com\n{}",
        HEADER, FOOTER
    );
    assert_eq!(doc, expected);
}

#[test]
fn addresses_of_one_domain_keep_arrival_order() {
    let outcomes = vec![
        ResolutionOutcome::Resolved {
            domain: String::from("b.example"),
            addresses: vec![v4(192, 0, 2, 9)],
        },
        ResolutionOutcome::Resolved {
            domain: String::from("a.example"),
            addresses: vec![v4(192, 0, 2, 2), v4(192, 0, 2, 1)],
        },
    ];
    let doc = render_document(&outcomes, true, false, false, &ts(), 42);
    let expected = format!(
        "{}\n# IPv4 addresses:\n192.0.2.2 a.example\n192.0.2.1 a.example\n192.0.2.9 b.example\n{}",
        HEADER, FOOTER
    );
    assert_eq!(doc, expected);
}

#[test]
fn unresolved_section_follows_domain_order() {
    let outcomes = vec![
        ResolutionOutcome::Failed { domain: String::from("z.example") },
        ResolutionOutcome::Failed { domain: String::from("a.example") },
    ];
    let doc = render_document(&outcomes, false, false, false, &ts(), 42);
    let expected = format!(
        "{}\n# Unresolved domains\n# a.example not resolved\n# z.example not resolved\n{}",
        HEADER, FOOTER
    );
    assert_eq!(doc, expected);
}

#[test]
fn ipv4_text_forms() {
    assert_eq!(Ipv4Address { o0: 0, o1: 0, o2: 0, o3: 0 }.to_text(), "0.0.0.0");
    assert_eq!(
        Ipv4Address { o0: 255, o1: 255, o2: 255, o3: 255 }.to_text(),
        "255.255.255.255"
    );
    assert_eq!(Ipv4Address { o0: 192, o1: 0, o2: 2, o3: 1 }.to_text(), "192.0.2.1");
}

#[test]
fn ipv6_text_forms() {
    assert_eq!(v6([0, 0, 0, 0, 0, 0, 0, 0]).to_text(), "::");
    assert_eq!(v6([0, 0, 0, 0, 0, 0, 0, 1]).to_text(), "::1");
    assert_eq!(v6([0x2001, 0xdb8, 0, 0, 0, 0, 0, 1]).to_text(), "2001:db8::1");
    // the longest zero run is compressed, not an earlier shorter one
    assert_eq!(v6([1, 0, 0, 1, 0, 0, 0, 1]).to_text(), "1:0:0:1::1");
    // the leftmost of two equally long zero runs is compressed
    assert_eq!(v6([1, 0, 0, 1, 0, 0, 1, 1]).to_text(), "1::1:0:0:1:1");
    // a single zero group is not compressed
    assert_eq!(v6([1, 0, 1, 1, 1, 1, 1, 1]).to_text(), "1:0:1:1:1:1:1:1");
    // no zero groups at all
    assert_eq!(
        v6([1, 2, 3, 4, 5, 6, 7, 8]).to_text(),
        "1:2:3:4:5:6:7:8"
    );
    // IPv4-mapped addresses use the mixed form
    assert_eq!(
        v6([0, 0, 0, 0, 0, 0xffff, 0xc000, 0x0201]).to_text(),
        "::ffff:192.0.2.1"
    );
    // trailing run is compressed
    assert_eq!(v6([0xfe80, 0, 0, 0, 0, 0, 0, 0]).to_text(), "fe80::");
}

#[test]
fn loader_trims_dedups_and_drops_empty_lines() {
    let list = load_domains(" x.example \n\nx.example\ny.example\n");
    assert_eq!(
        list,
        vec![String::from("x.example"), String::from("y.example")]
    );
}

#[test]
fn loader_sorts_by_reversed_labels() {
    let list = load_domains("c.example.com\nb.org\na.b.example.com\n");
    // under the reversed-label order the example.com subdomains stay
    // adjacent; b.org follows because "com" precedes "org"
    assert_eq!(
        list,
        vec![
            String::from("a.b.example.com"),
            String::from("c.example.com"),
            String::from("b.org"),
        ]
    );
}

#[test]
fn sorting_is_idempotent() {
    let once = load_domains("c.example.com\nb.org\na.b.example.com\nzz.top\n");
    let twice = sort_domains(&once);
    assert_eq!(once, twice);
}

#[test]
fn trim_removes_surrounding_whitespace_only() {
    assert_eq!(trim_str("  a b\t\r"), "a b");
    assert_eq!(trim_str(""), "");
    assert_eq!(trim_str(" \t\r"), "");
    assert_eq!(trim_str("plain"), "plain");
}

#[test]
fn timestamp_is_zero_padded() {
    let t = Timestamp { year: 99, month: 12, day: 31, hour: 0, minute: 7, second: 59 };
    assert_eq!(format_timestamp(&t), "0099-12-31 00:07:59");
}

#[test]
fn decimal_rendering() {
    assert_eq!(u64_to_dec(0), "0");
    assert_eq!(u64_to_dec(18446744073709551615), "18446744073709551615");
    assert_eq!(u64_to_dec_padded(7, 4), "0007");
    assert_eq!(u64_to_dec_padded(12345, 4), "12345");
}

#[test]
fn elapsed_is_clamped() {
    assert_eq!(elapsed_millis(100, 350), 250);
    assert_eq!(elapsed_millis(350, 100), 0);
    assert_eq!(elapsed_millis(5, 5), 0);
}

#[test]
fn run_clock_yields_calendar_timestamp() {
    let clock = start_run();
    let t = clock.started;
    assert!((1..=12).contains(&t.month));
    assert!((1..=31).contains(&t.day));
    assert!(t.hour <= 23);
    assert!(t.minute <= 59);
    assert!(t.second <= 59);
    // the formatted header timestamp always has the fixed width
    assert_eq!(format_timestamp(&t).len(), 19);
}

#[test]
fn full_render_has_markers_and_duration() {
    let outcomes = vec![ResolutionOutcome::Resolved {
        domain: String::from("a.example.com"),
        addresses: vec![v4(192, 0, 2, 1)],
    }];
    let clock = start_run();
    let doc = onedrive_hosts::render(&outcomes, true, true, false, &clock);
    assert!(doc.starts_with("####### Onenote Hosts Start #######\n"));
    assert!(doc.ends_with("####### Onenote Hosts End #######\n\n"));
    assert!(doc.contains(" ms\n"));
    assert!(doc.contains("192.0.2.1 a.example.com"));
}

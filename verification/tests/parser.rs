use mori::addr::Ipv4;
use mori::error::{EntryFault, MoriError};
use mori::net::parser::{parse_allow_network, parse_single_rule, HostSpec};

fn strings(entries: &[&str]) -> Vec<String> {
    entries.iter().map(|s| s.to_string()).collect()
}

fn reason_of(entry: &str) -> String {
    match parse_allow_network(&strings(&[entry])) {
        Err(MoriError::InvalidAllowNetworkEntry { entry: text, reason }) => {
            assert_eq!(text, entry);
            reason
        }
        other => panic!("expected a refused entry, got {:?}", other),
    }
}

#[test]
fn test_parse_verify_actual_values() {
    let entries = vec!["192.168.1.1".to_string(), "example.com".to_string()];
    let rules = parse_allow_network(&entries).unwrap();

    assert_eq!(rules.direct_v4[0], Ipv4::new(192, 168, 1, 1));
    assert_eq!(rules.domains[0], "example.com");
}

#[test]
fn test_parse_verify_cidr_values() {
    let entries = vec!["192.168.1.0/24".to_string()];
    let rules = parse_allow_network(&entries).unwrap();

    assert_eq!(rules.cidr_v4.len(), 1);
    assert_eq!(rules.cidr_v4[0].0, Ipv4::new(192, 168, 1, 0));
    assert_eq!(rules.cidr_v4[0].1, 24);
}

#[test]
fn test_parse_mixed_ipv4_cidr_domain() {
    let entries = vec![
        "192.168.1.1".to_string(),
        "10.0.0.0/24".to_string(),
        "example.com".to_string(),
    ];
    let rules = parse_allow_network(&entries).unwrap();

    assert_eq!(rules.direct_v4.len(), 1);
    assert_eq!(rules.cidr_v4.len(), 1);
    assert_eq!(rules.domains.len(), 1);

    assert_eq!(rules.direct_v4[0], Ipv4::new(192, 168, 1, 1));
    assert_eq!(rules.cidr_v4[0], (Ipv4::new(10, 0, 0, 0), 24));
    assert_eq!(rules.domains[0], "example.com");
}

#[test]
fn test_parse_deduplication_works() {
    let entries = vec![
        "192.168.1.1".to_string(),
        "192.168.1.1".to_string(),
        "example.com".to_string(),
        "example.com".to_string(),
    ];
    let rules = parse_allow_network(&entries).unwrap();

    assert_eq!(rules.direct_v4.len(), 1);
    assert_eq!(rules.domains.len(), 1);
}

fn counts(entries: &[&str]) -> (usize, usize, usize) {
    let rules = parse_allow_network(&strings(entries)).unwrap();
    (rules.direct_v4.len(), rules.cidr_v4.len(), rules.domains.len())
}

#[test]
fn test_parse_ipv4_addresses() {
    assert_eq!(counts(&["192.168.1.1"]), (1, 0, 0));
    assert_eq!(counts(&["192.168.1.1", "10.0.0.1"]), (2, 0, 0));
    assert_eq!(counts(&["192.168.1.1", "192.168.1.1"]), (1, 0, 0));
    assert_eq!(counts(&["0.0.0.0"]), (1, 0, 0));
    assert_eq!(counts(&["255.255.255.255"]), (1, 0, 0));
}

#[test]
fn test_parse_domains() {
    assert_eq!(counts(&["example.com"]), (0, 0, 1));
    assert_eq!(counts(&["example.com", "test.org"]), (0, 0, 2));
    assert_eq!(counts(&["example.com", "example.com"]), (0, 0, 1));
    assert_eq!(counts(&["sub.example.com"]), (0, 0, 1));
    assert_eq!(counts(&["my-domain.com"]), (0, 0, 1));
    assert_eq!(counts(&["localhost"]), (0, 0, 1));
}

#[test]
fn test_parse_cidr_ranges() {
    assert_eq!(counts(&["192.168.1.0/24"]), (0, 1, 0));
    assert_eq!(counts(&["10.0.0.0/24", "172.16.0.0/24"]), (0, 2, 0));
    assert_eq!(counts(&["192.168.1.0/24", "192.168.1.0/24"]), (0, 1, 0));
    assert_eq!(counts(&["10.0.0.0/32"]), (0, 1, 0));
    assert_eq!(counts(&["172.16.0.0/28"]), (0, 1, 0));
    assert_eq!(counts(&["192.168.0.0/25"]), (0, 1, 0));
    assert_eq!(counts(&["0.0.0.0/0"]), (0, 1, 0));
}

#[test]
fn test_parse_mixed_entries() {
    assert_eq!(counts(&["192.168.1.1", "example.com"]), (1, 0, 1));
    assert_eq!(
        counts(&["192.168.1.1", "example.com", "10.0.0.1", "test.org"]),
        (2, 0, 2)
    );
}

#[test]
fn test_parse_with_ports() {
    assert_eq!(counts(&["192.168.1.1:8080"]), (1, 0, 0));
    assert_eq!(counts(&["example.com:443"]), (0, 0, 1));
    assert_eq!(counts(&["192.168.1.1:80", "example.com:8080"]), (1, 0, 1));
    let rules = parse_allow_network(&strings(&["192.168.1.1:8080", "example.com:443"])).unwrap();
    assert_eq!(rules.direct_v4, vec![Ipv4::new(192, 168, 1, 1)]);
    assert_eq!(rules.domains, vec!["example.com".to_string()]);
}

#[test]
fn test_parse_empty_and_whitespace() {
    assert_eq!(counts(&["192.168.1.1", "", "example.com"]), (1, 0, 1));
    assert_eq!(counts(&["  ", "\t"]), (0, 0, 0));
    assert_eq!(counts(&["  192.168.1.1  ", "  example.com  "]), (1, 0, 1));
    assert_eq!(counts(&[]), (0, 0, 0));
    let rules = parse_allow_network(&strings(&["\u{3000} example.com\u{a0}\n"])).unwrap();
    assert_eq!(rules.domains, vec!["example.com".to_string()]);
}

#[test]
fn test_parse_ipv6_errors() {
    for entry in [
        "::1",
        "2001:0db8:85a3:0000:0000:8a2e:0370:7334",
        "fe80::1",
        "[::1]",
        "[::1]:8080",
        "2001:db8::1",
        "2001:db8::/32",
        "::",
        "::ffff:192.0.2.1",
        "1:2:3:4:5:6:7::",
        "1:2:3:4:5:6:192.0.2.1",
        "1:2:3:4:5:6:7:8:443",
    ] {
        let reason = reason_of(entry);
        assert!(reason.contains("IPv6"), "{entry}: {reason}");
    }
}

#[test]
fn test_parse_invalid_cidr_errors() {
    assert_eq!(reason_of("192.168.1.0/33"), "CIDR prefix length must be <= 32");
    assert_eq!(reason_of("192.168.1.0/abc"), "invalid CIDR prefix length");
    assert_eq!(reason_of("192.168.1.0/"), "invalid CIDR prefix length");
    assert_eq!(reason_of("192.168.1.0/256"), "invalid CIDR prefix length");
    assert_eq!(reason_of("192.168.1.999/24"), "invalid IP address in CIDR");
    assert_eq!(reason_of("example.com/24"), "invalid IP address in CIDR");
    assert_eq!(reason_of("2001:db8::/32"), "IPv6 CIDR is not supported");
    assert_eq!(reason_of("10.0.0.0/8/9"), "invalid CIDR prefix length");
}

#[test]
fn test_parse_invalid_ips_as_domains() {
    assert_eq!(counts(&["999.999.999.999"]), (0, 0, 1));
    assert_eq!(counts(&["192.168.1"]), (0, 0, 1));
    assert_eq!(counts(&["192.168.1.1.1"]), (0, 0, 1));
    assert_eq!(counts(&["192.168.01.1"]), (0, 0, 1));
    assert_eq!(counts(&["1:2:3:4:5:6:7:8:x"]), (0, 0, 1));
    assert_eq!(counts(&["12345::1"]), (0, 0, 1));
}

#[test]
fn test_parse_invalid_port_errors() {
    assert_eq!(reason_of("example.com:99999"), "invalid port number");
    assert_eq!(reason_of("example.com:65536"), "invalid port number");
    assert_eq!(reason_of("example.com:"), "invalid port number");
    assert_eq!(counts(&["example.com:65535"]), (0, 0, 1));
    assert_eq!(counts(&["example.com:0080"]), (0, 0, 1));
}

#[test]
fn first_refused_entry_is_reported_as_given() {
    let entries = strings(&["example.com", "  10.0.0.0/99 ", "::1"]);
    match parse_allow_network(&entries) {
        Err(MoriError::InvalidAllowNetworkEntry { entry, reason }) => {
            assert_eq!(entry, "  10.0.0.0/99 ");
            assert_eq!(reason, "CIDR prefix length must be <= 32");
        }
        other => panic!("expected a refused entry, got {:?}", other),
    }
}

#[test]
fn rules_keep_the_order_of_first_occurrence() {
    let rules = parse_allow_network(&strings(&[
        "b.test", "10.0.0.2", "a.test", "10.0.0.1", "b.test:80", "10.0.0.2:1", "10.0.0.0/8",
        "10.0.0.0/9", "10.0.0.0/8",
    ]))
    .unwrap();
    assert_eq!(rules.domains, strings(&["b.test", "a.test"]));
    assert_eq!(rules.direct_v4, vec![Ipv4::new(10, 0, 0, 2), Ipv4::new(10, 0, 0, 1)]);
    assert_eq!(
        rules.cidr_v4,
        vec![(Ipv4::new(10, 0, 0, 0), 8), (Ipv4::new(10, 0, 0, 0), 9)]
    );
}

#[test]
fn parsing_a_list_twice_over_gives_the_same_rules() {
    let once = strings(&["b.test", "10.0.0.2", " a.test ", "10.0.0.0/8", "b.test:80", ""]);
    let mut twice = once.clone();
    twice.extend(once.clone());
    let a = parse_allow_network(&once).unwrap();
    let b = parse_allow_network(&twice).unwrap();
    assert_eq!(a.direct_v4, b.direct_v4);
    assert_eq!(a.cidr_v4, b.cidr_v4);
    assert_eq!(a.domains, b.domains);
}

#[test]
fn single_rule_gives_host_and_port() {
    match parse_single_rule("192.168.1.1:8080") {
        Ok((HostSpec::Ip(ip), Some(8080))) => assert_eq!(ip, Ipv4::new(192, 168, 1, 1)),
        other => panic!("unexpected {:?}", other),
    }
    match parse_single_rule("example.com:443") {
        Ok((HostSpec::Domain(d), Some(443))) => assert_eq!(d, "example.com"),
        other => panic!("unexpected {:?}", other),
    }
    match parse_single_rule("10.1.2.3/+8") {
        Ok((HostSpec::Cidr(ip, 8), None)) => assert_eq!(ip, Ipv4::new(10, 1, 2, 3)),
        other => panic!("unexpected {:?}", other),
    }
    match parse_single_rule(":80") {
        Ok((HostSpec::Domain(d), None)) => assert_eq!(d, ":80"),
        other => panic!("unexpected {:?}", other),
    }
    match parse_single_rule("a:b") {
        Ok((HostSpec::Domain(d), None)) => assert_eq!(d, "a:b"),
        other => panic!("unexpected {:?}", other),
    }
    assert!(matches!(parse_single_rule(""), Err(EntryFault::EmptyValue)));
    assert!(matches!(parse_single_rule("[x"), Err(EntryFault::Ipv6Address)));
    assert_eq!(EntryFault::EmptyValue.reason(), "empty value");
}

use mori::addr::Ipv4;
use mori::policy::file::{AccessMode, FilePolicy};
use mori::policy::net::{AllowPolicy, NetworkPolicy};

#[test]
fn from_allow_all_true_creates_all_policy() {
    let policy = NetworkPolicy::from_allow_all(true);
    assert!(policy.is_allow_all());
    assert!(matches!(policy.policy, AllowPolicy::All));
}

#[test]
fn from_allow_all_false_creates_empty_entries() {
    let policy = NetworkPolicy::from_allow_all(false);
    assert!(!policy.is_allow_all());
    match policy.policy {
        AllowPolicy::Entries {
            allowed_ipv4,
            allowed_cidr,
            allowed_domains,
        } => {
            assert!(allowed_ipv4.is_empty());
            assert!(allowed_cidr.is_empty());
            assert!(allowed_domains.is_empty());
        }
        _ => panic!("Expected Entries variant"),
    }
}

#[test]
fn from_entries_creates_entries_policy() {
    let entries = vec!["192.0.2.1".to_string(), "example.com".to_string()];
    let policy = NetworkPolicy::from_entries(&entries).unwrap();
    assert!(!policy.is_allow_all());
    match policy.policy {
        AllowPolicy::Entries {
            allowed_ipv4,
            allowed_domains,
            ..
        } => {
            assert_eq!(allowed_ipv4.len(), 1);
            assert_eq!(allowed_domains.len(), 1);
        }
        _ => panic!("Expected Entries variant"),
    }
}

#[test]
fn merge_entries_with_all_becomes_all() {
    let mut base = NetworkPolicy::from_entries(&["192.0.2.1".to_string()]).unwrap();
    let other = NetworkPolicy::from_allow_all(true);
    base.merge(other);
    assert!(base.is_allow_all());
}

#[test]
fn merge_all_with_entries_stays_all() {
    let mut base = NetworkPolicy::from_allow_all(true);
    let other = NetworkPolicy::from_entries(&["192.0.2.1".to_string()]).unwrap();
    base.merge(other);
    assert!(base.is_allow_all());
}

#[test]
fn merge_entries_with_entries_combines() {
    let mut base = NetworkPolicy::from_entries(&["192.0.2.1".to_string()]).unwrap();
    let other = NetworkPolicy::from_entries(&["example.com".to_string()]).unwrap();
    base.merge(other);
    match base.policy {
        AllowPolicy::Entries {
            allowed_ipv4,
            allowed_domains,
            ..
        } => {
            assert_eq!(allowed_ipv4.len(), 1);
            assert_eq!(allowed_domains.len(), 1);
        }
        _ => panic!("Expected Entries variant"),
    }
}

#[test]
fn merge_avoids_duplicates() {
    let mut base =
        NetworkPolicy::from_entries(&["192.0.2.1".to_string(), "example.com".to_string()])
            .unwrap();
    let other =
        NetworkPolicy::from_entries(&["192.0.2.1".to_string(), "example.com".to_string()])
            .unwrap();
    base.merge(other);
    match base.policy {
        AllowPolicy::Entries {
            allowed_ipv4,
            allowed_domains,
            ..
        } => {
            assert_eq!(allowed_ipv4.len(), 1);
            assert_eq!(allowed_domains.len(), 1);
        }
        _ => panic!("Expected Entries variant"),
    }
}

fn entries_of(policy: NetworkPolicy) -> (Vec<Ipv4>, Vec<(Ipv4, u8)>, Vec<String>) {
    match policy.policy {
        AllowPolicy::Entries {
            allowed_ipv4,
            allowed_cidr,
            allowed_domains,
        } => (allowed_ipv4, allowed_cidr, allowed_domains),
        AllowPolicy::All => panic!("Expected Entries variant"),
    }
}

fn policy_of(entries: &[&str]) -> NetworkPolicy {
    let entries: Vec<String> = entries.iter().map(|s| s.to_string()).collect();
    NetworkPolicy::from_entries(&entries).unwrap()
}

#[test]
fn merge_unions_each_kind_in_order() {
    let mut base = policy_of(&["10.0.0.1", "a.test", "10.0.0.0/8"]);
    base.merge(policy_of(&["b.test", "10.0.0.1", "10.0.0.2", "10.0.0.0/8", "10.1.0.0/16"]));
    let (ips, cidrs, domains) = entries_of(base);
    assert_eq!(ips, vec![Ipv4::new(10, 0, 0, 1), Ipv4::new(10, 0, 0, 2)]);
    assert_eq!(
        cidrs,
        vec![(Ipv4::new(10, 0, 0, 0), 8), (Ipv4::new(10, 1, 0, 0), 16)]
    );
    assert_eq!(domains, vec!["a.test".to_string(), "b.test".to_string()]);
}

#[test]
fn merge_is_associative_on_what_is_allowed() {
    let a = ["10.0.0.1", "a.test"];
    let b = ["a.test", "b.test", "10.0.0.0/8"];
    let c = ["10.0.0.1", "c.test", "10.0.0.0/8"];
    let mut left = policy_of(&a);
    let mut bc = policy_of(&b);
    bc.merge(policy_of(&c));
    left.merge(bc);
    let mut right = policy_of(&a);
    right.merge(policy_of(&b));
    right.merge(policy_of(&c));
    let (mut li, mut lc, mut ld) = entries_of(left);
    let (mut ri, mut rc, mut rd) = entries_of(right);
    li.sort();
    ri.sort();
    lc.sort();
    rc.sort();
    ld.sort();
    rd.sort();
    assert_eq!(li, ri);
    assert_eq!(lc, rc);
    assert_eq!(ld, rd);
}

#[test]
fn from_entries_reports_the_refused_entry() {
    let entries = vec!["example.com".to_string(), "::1".to_string()];
    assert!(NetworkPolicy::from_entries(&entries).is_err());
    assert!(!NetworkPolicy::new().is_allow_all());
}

#[test]
fn normalize_path_with_absolute_paths() {
    let policy = FilePolicy::new();
    for (input, expected) in [
        ("/tmp/test.txt", "/tmp/test.txt"),
        ("/tmp/foo/../bar.txt", "/tmp/bar.txt"),
        ("/tmp/./foo/./bar.txt", "/tmp/foo/bar.txt"),
        ("/tmp/foo/bar/../baz.txt", "/tmp/foo/baz.txt"),
        ("/", "/"),
        ("/..", "/"),
        ("/../../etc//passwd/", "/etc/passwd"),
        ("//tmp///x", "/tmp/x"),
    ] {
        assert_eq!(policy.normalize_path(input), expected);
    }
}

#[test]
fn normalize_path_with_simple_relative_paths() {
    let policy = FilePolicy::with_base("/home/user/work");
    for (input, rel_expected) in [
        ("test.txt", "test.txt"),
        ("./test.txt", "test.txt"),
        ("foo/bar.txt", "foo/bar.txt"),
    ] {
        let expected = format!("/home/user/work/{}", rel_expected);
        assert_eq!(policy.normalize_path(input), expected);
    }
    assert_eq!(policy.normalize_path(""), "/home/user/work");
    assert_eq!(FilePolicy::new().normalize_path("etc/hosts"), "/etc/hosts");
}

#[test]
fn normalize_path_with_parent_directory() {
    let policy = FilePolicy::with_base("/home/user/work");
    let normalized = policy.normalize_path("../test.txt");
    assert_eq!(normalized, "/home/user/test.txt");
}

#[test]
fn normalize_path_with_multiple_parent_directories() {
    let policy = FilePolicy::with_base("/home/user/work");
    let normalized = policy.normalize_path("../../test.txt");
    assert_eq!(normalized, "/home/test.txt");
}

#[test]
fn normalize_path_with_mixed_components() {
    let policy = FilePolicy::with_base("/home/user/work");
    let normalized = policy.normalize_path("./foo/../bar/./baz.txt");
    assert_eq!(normalized, "/home/user/work/bar/baz.txt");
}

#[test]
fn deny_appends_normalized_paths_with_their_mode() {
    let mut policy = FilePolicy::with_base("/srv");
    policy.deny_read("a/../secret");
    policy.deny_write("/etc/./passwd");
    policy.deny_read_write("/tmp/x");
    policy.deny_read("/tmp/x");
    assert_eq!(
        policy.denied_paths,
        vec![
            ("/srv/secret".to_string(), AccessMode::Read),
            ("/etc/passwd".to_string(), AccessMode::Write),
            ("/tmp/x".to_string(), AccessMode::ReadWrite),
            ("/tmp/x".to_string(), AccessMode::Read),
        ]
    );
    assert_eq!(AccessMode::Read.code(), 1);
    assert_eq!(AccessMode::Write.code(), 2);
    assert_eq!(AccessMode::ReadWrite.code(), 3);
}

use mori::addr::Ipv4;
use mori::net::cache::{DnsCache, Entry};

const SECOND: u64 = 1_000_000_000;

#[test]
fn adds_new_ips() {
    let mut cache = DnsCache::default();
    let now: u64 = 5 * SECOND;
    let entry = Entry {
        ip: Ipv4::new(192, 168, 0, 1),
        expires_at: now + 60 * SECOND,
    };

    let diff = cache.apply("example.com", now, vec![entry]);

    assert_eq!(diff.added, vec![entry.ip]);
    assert!(diff.removed.is_empty());
}

#[test]
fn expires_old_ips() {
    let mut cache = DnsCache::default();
    let now: u64 = 5 * SECOND;
    let entry = Entry {
        ip: Ipv4::new(10, 0, 0, 1),
        expires_at: now + 30 * SECOND,
    };
    cache.apply("example.com", now, vec![entry]);

    let later = now + 45 * SECOND;
    let diff = cache.apply("example.com", later, vec![]);

    assert!(diff.added.is_empty());
    assert_eq!(diff.removed, vec![entry.ip]);
}

#[test]
fn next_refresh_tracks_soonest_expiry() {
    let mut cache = DnsCache::default();
    let now: u64 = 5 * SECOND;
    cache.apply(
        "example.com",
        now,
        vec![Entry {
            ip: Ipv4::new(1, 1, 1, 1),
            expires_at: now + 5 * SECOND,
        }],
    );
    cache.apply(
        "example.net",
        now,
        vec![Entry {
            ip: Ipv4::new(2, 2, 2, 2),
            expires_at: now + 10 * SECOND,
        }],
    );

    let refresh = cache.next_refresh_in(now).expect("has entries");
    assert_eq!(refresh, 5 * SECOND);
}

#[test]
fn next_refresh_is_none_for_an_empty_cache() {
    let cache = DnsCache::default();
    assert_eq!(cache.next_refresh_in(0), None);
    let mut cache = DnsCache::default();
    cache.apply("example.com", 10, vec![]);
    assert_eq!(cache.next_refresh_in(10), None);
}

#[test]
fn next_refresh_saturates_at_zero() {
    let mut cache = DnsCache::default();
    cache.apply(
        "example.com",
        10,
        vec![Entry { ip: Ipv4::new(1, 1, 1, 1), expires_at: 20 }],
    );
    assert_eq!(cache.next_refresh_in(15), Some(5));
    assert_eq!(cache.next_refresh_in(20), Some(0));
    assert_eq!(cache.next_refresh_in(500), Some(0));
}

#[test]
fn next_refresh_does_not_grow_with_time() {
    let mut cache = DnsCache::default();
    cache.apply(
        "a.test",
        0,
        vec![
            Entry { ip: Ipv4::new(1, 1, 1, 1), expires_at: 40 },
            Entry { ip: Ipv4::new(1, 1, 1, 2), expires_at: 70 },
        ],
    );
    cache.apply(
        "b.test",
        0,
        vec![Entry { ip: Ipv4::new(2, 2, 2, 2), expires_at: 55 }],
    );
    let mut last = cache.next_refresh_in(0).unwrap();
    assert_eq!(last, 40);
    for t in 1..100u64 {
        let next = cache.next_refresh_in(t).unwrap();
        assert!(next <= last);
        last = next;
    }
    assert_eq!(last, 0);
}

#[test]
fn apply_twice_reports_nothing_the_second_time() {
    let mut cache = DnsCache::default();
    let entries = vec![
        Entry { ip: Ipv4::new(9, 9, 9, 9), expires_at: 100 },
        Entry { ip: Ipv4::new(8, 8, 8, 8), expires_at: 90 },
        Entry { ip: Ipv4::new(7, 7, 7, 7), expires_at: 3 },
    ];
    let first = cache.apply("example.test", 5, entries.clone());
    assert_eq!(first.added, vec![Ipv4::new(8, 8, 8, 8), Ipv4::new(9, 9, 9, 9)]);
    assert!(first.removed.is_empty());
    let second = cache.apply("example.test", 5, entries);
    assert!(second.added.is_empty());
    assert!(second.removed.is_empty());
    assert_eq!(cache.next_refresh_in(5), Some(85));
}

#[test]
fn apply_drops_expired_entries() {
    let mut cache = DnsCache::default();
    let diff = cache.apply(
        "example.test",
        50,
        vec![
            Entry { ip: Ipv4::new(1, 2, 3, 4), expires_at: 50 },
            Entry { ip: Ipv4::new(1, 2, 3, 5), expires_at: 49 },
            Entry { ip: Ipv4::new(1, 2, 3, 6), expires_at: 51 },
        ],
    );
    assert_eq!(diff.added, vec![Ipv4::new(1, 2, 3, 6)]);
    assert_eq!(cache.next_refresh_in(50), Some(1));
}

#[test]
fn apply_keeps_the_latest_expiry_of_a_repeated_address() {
    let mut cache = DnsCache::default();
    let diff = cache.apply(
        "example.test",
        0,
        vec![
            Entry { ip: Ipv4::new(1, 2, 3, 4), expires_at: 10 },
            Entry { ip: Ipv4::new(1, 2, 3, 4), expires_at: 30 },
            Entry { ip: Ipv4::new(1, 2, 3, 4), expires_at: 20 },
        ],
    );
    assert_eq!(diff.added, vec![Ipv4::new(1, 2, 3, 4)]);
    assert_eq!(cache.next_refresh_in(0), Some(30));
}

#[test]
fn apply_reports_sorted_diffs() {
    let mut cache = DnsCache::default();
    cache.apply(
        "example.test",
        0,
        vec![
            Entry { ip: Ipv4::new(10, 0, 0, 3), expires_at: 10 },
            Entry { ip: Ipv4::new(10, 0, 0, 1), expires_at: 10 },
            Entry { ip: Ipv4::new(10, 0, 0, 2), expires_at: 10 },
        ],
    );
    let diff = cache.apply(
        "example.test",
        1,
        vec![
            Entry { ip: Ipv4::new(10, 0, 0, 9), expires_at: 10 },
            Entry { ip: Ipv4::new(10, 0, 0, 2), expires_at: 10 },
            Entry { ip: Ipv4::new(10, 0, 0, 7), expires_at: 10 },
        ],
    );
    assert_eq!(diff.added, vec![Ipv4::new(10, 0, 0, 7), Ipv4::new(10, 0, 0, 9)]);
    assert_eq!(diff.removed, vec![Ipv4::new(10, 0, 0, 1), Ipv4::new(10, 0, 0, 3)]);
}

#[test]
fn apply_keeps_domains_apart() {
    let mut cache = DnsCache::default();
    cache.apply(
        "a.test",
        0,
        vec![Entry { ip: Ipv4::new(1, 1, 1, 1), expires_at: 10 }],
    );
    let diff = cache.apply(
        "b.test",
        0,
        vec![Entry { ip: Ipv4::new(1, 1, 1, 1), expires_at: 20 }],
    );
    assert_eq!(diff.added, vec![Ipv4::new(1, 1, 1, 1)]);
    let diff = cache.apply("a.test", 0, vec![]);
    assert_eq!(diff.removed, vec![Ipv4::new(1, 1, 1, 1)]);
    assert_eq!(cache.next_refresh_in(0), Some(20));
}

#[test]
fn address_octets_and_bits() {
    let ip = Ipv4::new(192, 168, 1, 7);
    assert_eq!(ip.to_bits(), 0xC0A8_0107);
    assert_eq!(ip.octets(), [192, 168, 1, 7]);
    assert_eq!(Ipv4::from_bits(0x7F00_0001), Ipv4::new(127, 0, 0, 1));
    assert!(Ipv4::new(1, 0, 0, 0) > Ipv4::new(0, 255, 255, 255));
}

use mori::addr::Ipv4;
use mori::error::MoriError;
use mori::net::cache::{DnsCache, Entry};
use mori::net::resolver::{DomainRecords, IpAnswer, Lookup, ResolvedAddresses, SystemDnsResolver};
use mori::policy::file::FilePolicy;
use mori::policy::model::Policy;
use mori::policy::net::NetworkPolicy;
use mori::runtime::cgroup::{parse_id, sudo_ids, CgroupManager};
use mori::runtime::dns::{
    apply_dns_servers, apply_domain_records, next_wait, plan_refresh, refresh_step, spawn_refresh,
    RefreshAction, RefreshEvent, DEFAULT_REFRESH_INTERVAL,
};
use mori::runtime::ebpf::{lpm_key, network_of, run_plan, EbpfController, FilterOp, MemoryFilter};
use mori::runtime::file::{deny_key, FileEbpf, ADMIT, DENY, PATH_MAX};
use mori::runtime::launcher::{
    exit_code, seed_network, seed_plan, ChildStatus, LaunchAction, LaunchEvent, LaunchState,
    Launcher,
};
use mori::runtime::macos::{create_sandbox_profile, escape_path, needs_sandbox};
use mori::runtime::rendezvous::{
    child_script, parent_recovery, parent_script, ChildAction, ParentAction,
};
use mori::runtime::sync::{must_sleep, wait_outcome, WaitObservation};

const MILLI: u64 = 1_000_000;
const SECOND: u64 = 1_000_000_000;

fn ip(a: u8, b: u8, c: u8, d: u8) -> Ipv4 {
    Ipv4::new(a, b, c, d)
}

fn strings(entries: &[&str]) -> Vec<String> {
    entries.iter().map(|s| s.to_string()).collect()
}

fn network_policy(entries: &[&str]) -> Policy {
    Policy::with_network(NetworkPolicy::from_entries(&strings(entries)).unwrap())
}

/// A controller that counts its calls and can be made to fail.
struct Recorder {
    calls: Vec<FilterOp>,
    fail: bool,
}

impl Recorder {
    fn new() -> Recorder {
        Recorder { calls: Vec::new(), fail: false }
    }
}

impl EbpfController for Recorder {
    fn allow_network(&mut self, addr: Ipv4, prefix_len: u8) -> Result<(), MoriError> {
        if self.fail {
            return Err(MoriError::MapUpdate { cause: "refused".to_string() });
        }
        self.calls.push(FilterOp::Allow(addr, prefix_len));
        Ok(())
    }

    fn remove_network(&mut self, addr: Ipv4, prefix_len: u8) -> Result<(), MoriError> {
        if self.fail {
            return Err(MoriError::MapUpdate { cause: "refused".to_string() });
        }
        self.calls.push(FilterOp::Remove(addr, prefix_len));
        Ok(())
    }
}

#[test]
fn lpm_key_masks_the_address() {
    let key = lpm_key(ip(10, 1, 2, 3), 8).unwrap();
    assert_eq!(key.prefix_len, 8);
    assert_eq!(key.data, [10, 0, 0, 0]);
    let key = lpm_key(ip(192, 168, 77, 130), 25).unwrap();
    assert_eq!(key.data, [192, 168, 77, 128]);
    let key = lpm_key(ip(1, 2, 3, 4), 32).unwrap();
    assert_eq!((key.prefix_len, key.data), (32, [1, 2, 3, 4]));
    let key = lpm_key(ip(1, 2, 3, 4), 0).unwrap();
    assert_eq!((key.prefix_len, key.data), (0, [0, 0, 0, 0]));
    assert_eq!(network_of(ip(172, 16, 255, 255), 12), ip(172, 16, 0, 0));
}

#[test]
fn lpm_key_refuses_a_prefix_above_32() {
    match lpm_key(ip(1, 2, 3, 4), 33) {
        Err(MoriError::InvalidCidrPrefix { addr, prefix_len, max_allowed }) => {
            assert_eq!(addr, ip(1, 2, 3, 4));
            assert_eq!(prefix_len, 33);
            assert_eq!(max_allowed, 32);
        }
        other => panic!("unexpected {:?}", other),
    }
    let mut filter = MemoryFilter::new(4);
    assert!(filter.allow_network(ip(1, 2, 3, 4), 40).is_err());
    assert!(filter.remove_network(ip(1, 2, 3, 4), 40).is_err());
    assert_eq!(filter.len(), 0);
}

#[test]
fn memory_filter_admits_by_longest_prefix() {
    let mut filter = MemoryFilter::new(1024);
    filter.allow_network(ip(10, 0, 0, 0), 8).unwrap();
    filter.allow_network(ip(10, 1, 0, 0), 16).unwrap();
    filter.allow_network(ip(10, 1, 2, 3), 32).unwrap();
    assert_eq!(filter.lookup(ip(10, 1, 2, 3)), Some(32));
    assert_eq!(filter.lookup(ip(10, 1, 2, 4)), Some(16));
    assert_eq!(filter.lookup(ip(10, 2, 2, 4)), Some(8));
    assert_eq!(filter.lookup(ip(11, 0, 0, 1)), None);
    assert!(filter.admits(ip(10, 255, 255, 255)));
    assert!(!filter.admits(ip(9, 255, 255, 255)));
    filter.remove_network(ip(10, 9, 9, 9), 8).unwrap();
    assert_eq!(filter.lookup(ip(10, 2, 2, 4)), None);
    assert_eq!(filter.lookup(ip(10, 1, 9, 9)), Some(16));
    assert_eq!(filter.len(), 2);
}

#[test]
fn memory_filter_overwrites_and_forgives_missing_keys() {
    let mut filter = MemoryFilter::new(2);
    filter.allow_network(ip(1, 2, 3, 4), 32).unwrap();
    filter.allow_network(ip(1, 2, 3, 4), 32).unwrap();
    assert_eq!(filter.len(), 1);
    filter.remove_network(ip(5, 6, 7, 8), 32).unwrap();
    assert_eq!(filter.len(), 1);
    filter.allow_network(ip(5, 6, 7, 8), 32).unwrap();
    assert!(matches!(
        filter.allow_network(ip(9, 9, 9, 9), 32),
        Err(MoriError::MapUpdate { .. })
    ));
    filter.allow_network(ip(5, 6, 7, 8), 32).unwrap();
    assert!(filter.contains(ip(5, 6, 7, 8), 32));
    assert!(!filter.contains(ip(9, 9, 9, 9), 32));
    assert!(!filter.contains(ip(5, 6, 7, 8), 33));
}

#[test]
fn admit_follows_the_live_set_after_any_changes() {
    let ops = vec![
        FilterOp::Allow(ip(10, 0, 0, 0), 24),
        FilterOp::Allow(ip(8, 8, 8, 8), 32),
        FilterOp::Remove(ip(10, 0, 0, 77), 24),
        FilterOp::Allow(ip(10, 0, 1, 0), 24),
        FilterOp::Remove(ip(8, 8, 4, 4), 32),
        FilterOp::Allow(ip(0, 0, 0, 0), 0),
        FilterOp::Remove(ip(1, 1, 1, 1), 0),
    ];
    let mut filter = MemoryFilter::new(16);
    run_plan(&mut filter, &ops).unwrap();
    assert!(!filter.admits(ip(10, 0, 0, 5)));
    assert!(filter.admits(ip(10, 0, 1, 5)));
    assert!(filter.admits(ip(8, 8, 8, 8)));
    assert!(!filter.admits(ip(8, 8, 4, 4)));
    assert!(!filter.admits(ip(1, 1, 1, 1)));
    assert_eq!(filter.len(), 2);
}

#[test]
fn run_plan_stops_at_the_first_failure() {
    let ops = vec![
        FilterOp::Allow(ip(1, 1, 1, 1), 32),
        FilterOp::Allow(ip(2, 2, 2, 2), 64),
        FilterOp::Allow(ip(3, 3, 3, 3), 32),
    ];
    let mut filter = MemoryFilter::new(16);
    assert!(run_plan(&mut filter, &ops).is_err());
    assert!(filter.admits(ip(1, 1, 1, 1)));
    assert!(!filter.admits(ip(3, 3, 3, 3)));
}

#[test]
fn direct_ip_allow_seeds_address_loopback_and_name_servers() {
    let policy = network_policy(&["1.2.3.4"]);
    assert_eq!(
        seed_plan(&policy),
        vec![FilterOp::Allow(ip(127, 0, 0, 1), 32), FilterOp::Allow(ip(1, 2, 3, 4), 32)]
    );
    let mut filter = MemoryFilter::new(1024);
    seed_network(&mut filter, &policy).unwrap();
    let mut servers = Vec::new();
    apply_dns_servers(&mut filter, &mut servers, vec![ip(192, 168, 1, 1)]).unwrap();
    assert!(filter.contains(ip(1, 2, 3, 4), 32));
    assert!(filter.contains(ip(127, 0, 0, 1), 32));
    assert!(filter.contains(ip(192, 168, 1, 1), 32));
    assert_eq!(filter.len(), 3);
    assert!(filter.admits(ip(1, 2, 3, 4)));
    assert!(!filter.admits(ip(1, 2, 3, 5)));
}

#[test]
fn cidr_and_deny_mix() {
    let mut policy = network_policy(&["10.0.0.0/24"]);
    policy.file.deny_write("/etc");
    let mut filter = MemoryFilter::new(1024);
    seed_network(&mut filter, &policy).unwrap();
    assert!(filter.admits(ip(10, 0, 0, 5)));
    assert!(!filter.admits(ip(10, 0, 1, 5)));
    let files = FileEbpf::load_and_attach(&policy.file, 42).unwrap();
    let buf = deny_key("/etc").unwrap();
    assert_eq!(files.file_open(42, &buf, 5, 1), DENY);
    assert_eq!(files.file_open(42, &buf, 5, 0), ADMIT);
    assert_eq!(files.file_open(42, &buf, 5, 2), DENY);
}

#[test]
fn allow_all_seeds_nothing() {
    let policy = Policy::with_network(NetworkPolicy::from_allow_all(true));
    assert!(seed_plan(&policy).is_empty());
    assert!(policy.is_unrestricted());
    assert!(!needs_sandbox(&policy));
    let mut launcher = Launcher::new(&policy);
    assert_eq!(launcher.step(LaunchEvent::Parsed), LaunchAction::CreateCgroup);
    assert_eq!(launcher.step(LaunchEvent::CgroupCreated), LaunchAction::Fork);
    assert_eq!(launcher.step(LaunchEvent::Forked), LaunchAction::Enroll);
    assert_eq!(launcher.step(LaunchEvent::Enrolled), LaunchAction::WaitChild);
    assert_eq!(
        launcher.step(LaunchEvent::ChildExited(ChildStatus::Exited(7))),
        LaunchAction::TearDown { join_refresh: false }
    );
    assert_eq!(launcher.step(LaunchEvent::TornDown), LaunchAction::Exit(7));
    assert_eq!(launcher.state, LaunchState::TornDown);
}

#[test]
fn launcher_runs_a_policy_with_domains() {
    let mut policy = network_policy(&["example.test", "10.0.0.1"]);
    policy.file.deny_read("/tmp/secret.txt");
    let mut launcher = Launcher::new(&policy);
    assert_eq!(launcher.state, LaunchState::Init);
    assert_eq!(launcher.step(LaunchEvent::Parsed), LaunchAction::Resolve);
    assert_eq!(launcher.step(LaunchEvent::Resolved), LaunchAction::CreateCgroup);
    assert_eq!(
        launcher.step(LaunchEvent::CgroupCreated),
        LaunchAction::AttachFilters { network: true, file: true }
    );
    assert_eq!(launcher.step(LaunchEvent::FiltersAttached), LaunchAction::Fork);
    assert_eq!(launcher.step(LaunchEvent::Forked), LaunchAction::Enroll);
    assert_eq!(launcher.step(LaunchEvent::Enrolled), LaunchAction::SpawnRefresh);
    assert_eq!(launcher.step(LaunchEvent::RefreshSpawned), LaunchAction::WaitChild);
    assert_eq!(launcher.state, LaunchState::Refreshing);
    assert_eq!(
        launcher.step(LaunchEvent::ChildExited(ChildStatus::Signaled(9))),
        LaunchAction::TearDown { join_refresh: true }
    );
    assert_eq!(launcher.step(LaunchEvent::Failed), LaunchAction::Exit(137));
}

#[test]
fn launcher_gives_up_on_failure_and_on_the_unexpected() {
    let policy = network_policy(&["10.0.0.1"]);
    let mut launcher = Launcher::new(&policy);
    assert_eq!(launcher.step(LaunchEvent::Parsed), LaunchAction::Resolve);
    assert_eq!(
        launcher.step(LaunchEvent::Failed),
        LaunchAction::Abort { end_child: false }
    );
    assert_eq!(launcher.state, LaunchState::TornDown);
    let mut launcher = Launcher::new(&policy);
    assert_eq!(
        launcher.step(LaunchEvent::Forked),
        LaunchAction::Abort { end_child: false }
    );
    let mut launcher = Launcher::new(&policy);
    launcher.step(LaunchEvent::Parsed);
    launcher.step(LaunchEvent::Resolved);
    launcher.step(LaunchEvent::CgroupCreated);
    launcher.step(LaunchEvent::FiltersAttached);
    launcher.step(LaunchEvent::Forked);
    assert_eq!(launcher.step(LaunchEvent::Enrolled), LaunchAction::WaitChild);
    assert_eq!(
        launcher.step(LaunchEvent::RefreshSpawned),
        LaunchAction::Abort { end_child: false }
    );
}

#[test]
fn exit_code_follows_the_child() {
    assert_eq!(exit_code(ChildStatus::Exited(0)), 0);
    assert_eq!(exit_code(ChildStatus::Exited(3)), 3);
    assert_eq!(exit_code(ChildStatus::Signaled(15)), 143);
    assert_eq!(exit_code(ChildStatus::Signaled(-1)), -1);
    assert_eq!(exit_code(ChildStatus::Signaled(i32::MAX)), -1);
    assert_eq!(exit_code(ChildStatus::Other), 0);
}

#[test]
fn domain_refresh_swaps_the_address() {
    let mut cache = DnsCache::default();
    let mut filter = MemoryFilter::new(1024);
    let mut servers: Vec<Ipv4> = Vec::new();
    let start: u64 = 100 * SECOND;
    let first = vec![DomainRecords {
        domain: "example.test".to_string(),
        records: vec![Entry { ip: ip(8, 8, 8, 8), expires_at: start + 10 * MILLI }],
    }];
    apply_domain_records(&mut cache, &mut filter, start, first).unwrap();
    assert!(filter.contains(ip(8, 8, 8, 8), 32));
    assert_eq!(next_wait(&cache, start), 10 * MILLI);

    let later = start + 10 * MILLI;
    let second = ResolvedAddresses {
        domains: vec![DomainRecords {
            domain: "example.test".to_string(),
            records: vec![Entry { ip: ip(9, 9, 9, 9), expires_at: later + 10 * SECOND }],
        }],
        dns_v4: vec![],
    };
    let mut log = Recorder::new();
    let mut shadow = DnsCache::default();
    shadow.apply(
        "example.test",
        start,
        vec![Entry { ip: ip(8, 8, 8, 8), expires_at: start + 10 * MILLI }],
    );
    let plan = plan_refresh(&mut shadow, later, &second.domains);
    assert_eq!(
        plan,
        vec![FilterOp::Remove(ip(8, 8, 8, 8), 32), FilterOp::Allow(ip(9, 9, 9, 9), 32)]
    );
    run_plan(&mut log, &plan).unwrap();
    assert_eq!(log.calls.len(), 2);

    let report = refresh_step(
        &mut cache,
        &mut filter,
        &mut servers,
        RefreshEvent::Resolved(Ok(second)),
        later,
    );
    assert_eq!(report.action, RefreshAction::Wait(10 * SECOND));
    assert!(report.records_error.is_none() && report.servers_error.is_none());
    assert!(filter.contains(ip(9, 9, 9, 9), 32));
    assert!(!filter.contains(ip(8, 8, 8, 8), 32));
}

#[test]
fn refresh_applies_removals_before_additions() {
    let mut cache = DnsCache::default();
    let mut log = Recorder::new();
    apply_domain_records(
        &mut cache,
        &mut log,
        0,
        vec![DomainRecords {
            domain: "a.test".to_string(),
            records: vec![
                Entry { ip: ip(1, 1, 1, 3), expires_at: 10 },
                Entry { ip: ip(1, 1, 1, 1), expires_at: 10 },
            ],
        }],
    )
    .unwrap();
    log.calls.clear();
    apply_domain_records(
        &mut cache,
        &mut log,
        1,
        vec![
            DomainRecords {
                domain: "a.test".to_string(),
                records: vec![
                    Entry { ip: ip(1, 1, 1, 2), expires_at: 10 },
                    Entry { ip: ip(1, 1, 1, 0), expires_at: 10 },
                ],
            },
            DomainRecords {
                domain: "b.test".to_string(),
                records: vec![Entry { ip: ip(2, 2, 2, 2), expires_at: 10 }],
            },
        ],
    )
    .unwrap();
    assert_eq!(
        log.calls,
        vec![
            FilterOp::Remove(ip(1, 1, 1, 1), 32),
            FilterOp::Remove(ip(1, 1, 1, 3), 32),
            FilterOp::Allow(ip(1, 1, 1, 0), 32),
            FilterOp::Allow(ip(1, 1, 1, 2), 32),
            FilterOp::Allow(ip(2, 2, 2, 2), 32),
        ]
    );
}

#[test]
fn refresh_keeps_the_cache_when_a_change_fails() {
    let mut cache = DnsCache::default();
    let mut log = Recorder::new();
    log.fail = true;
    let result = apply_domain_records(
        &mut cache,
        &mut log,
        0,
        vec![DomainRecords {
            domain: "a.test".to_string(),
            records: vec![Entry { ip: ip(1, 1, 1, 1), expires_at: 10 }],
        }],
    );
    assert!(result.is_err());
    assert_eq!(cache.next_refresh_in(0), Some(10));
}

#[test]
fn name_servers_are_admitted_once() {
    let mut log = Recorder::new();
    let mut servers = vec![ip(9, 9, 9, 9)];
    apply_dns_servers(
        &mut log,
        &mut servers,
        vec![ip(8, 8, 8, 8), ip(9, 9, 9, 9), ip(8, 8, 8, 8), ip(1, 1, 1, 1)],
    )
    .unwrap();
    assert_eq!(servers, vec![ip(9, 9, 9, 9), ip(8, 8, 8, 8), ip(1, 1, 1, 1)]);
    assert_eq!(
        log.calls,
        vec![FilterOp::Allow(ip(8, 8, 8, 8), 32), FilterOp::Allow(ip(1, 1, 1, 1), 32)]
    );
    log.fail = true;
    assert!(apply_dns_servers(&mut log, &mut servers, vec![ip(4, 4, 4, 4), ip(5, 5, 5, 5)]).is_err());
    assert_eq!(servers.len(), 4);
    assert_eq!(log.calls.len(), 2);
}

fn seeded_cache(ttl: u64, now: u64) -> DnsCache {
    let mut cache = DnsCache::default();
    cache.apply(
        "example.com",
        now,
        vec![Entry { ip: ip(1, 2, 3, 4), expires_at: now + ttl }],
    );
    cache
}

fn empty_domains_returns_none() {
    let domains: Vec<String> = vec![];
    let cache = DnsCache::default();
    let result = spawn_refresh(&domains, &cache, 0);
    assert!(result.is_none());
}

fn notify_causes_early_termination() {
    let domains = vec!["example.com".to_string()];
    let now: u64 = 7 * SECOND;
    let mut cache = seeded_cache(2 * MILLI, now);
    let mut ebpf = Recorder::new();
    let mut servers: Vec<Ipv4> = Vec::new();
    let first = spawn_refresh(&domains, &cache, now).unwrap();
    assert_eq!(first, RefreshAction::Wait(2 * MILLI));
    let report = refresh_step(
        &mut cache,
        &mut ebpf,
        &mut servers,
        RefreshEvent::Waited { shutdown: true },
        now + 100_000,
    );
    assert_eq!(report.action, RefreshAction::Stop);
    assert!(ebpf.calls.is_empty());
    let result: Result<(), MoriError> = match report.records_error {
        Some(e) => Err(e),
        None => Ok(()),
    };
    assert!(result.is_ok());
}

fn timeout_triggers_dns_resolution() {
    let domains = vec!["example.com".to_string()];
    let now: u64 = 7 * SECOND;
    let mut cache = seeded_cache(10 * MILLI, now);
    let mut ebpf = Recorder::new();
    let mut servers: Vec<Ipv4> = Vec::new();
    let mut resolutions = 0;
    let mut action = spawn_refresh(&domains, &cache, now).unwrap();
    assert_eq!(action, RefreshAction::Wait(10 * MILLI));
    let mut clock = now;
    let deadline = now + 50 * MILLI;
    let mut result: Result<(), MoriError> = Ok(());
    loop {
        let event = match action {
            RefreshAction::Wait(d) => {
                clock += d.max(MILLI);
                RefreshEvent::Waited { shutdown: clock >= deadline }
            }
            RefreshAction::Resolve => {
                resolutions += 1;
                RefreshEvent::Resolved(Ok(ResolvedAddresses::default()))
            }
            RefreshAction::Stop => break,
        };
        let report = refresh_step(&mut cache, &mut ebpf, &mut servers, event, clock);
        if let Some(e) = report.resolve_error {
            result = Err(e);
        }
        action = report.action;
    }
    assert!(resolutions >= 1);
    assert!(result.is_ok());
}

fn dns_resolution_failure_continues_loop() {
    let domains = vec!["example.com".to_string()];
    let now: u64 = 7 * SECOND;
    let mut cache = seeded_cache(10 * MILLI, now);
    let mut ebpf = Recorder::new();
    let mut servers: Vec<Ipv4> = Vec::new();
    let mut failures = 0;
    let mut action = spawn_refresh(&domains, &cache, now).unwrap();
    let mut clock = now;
    let deadline = now + 50 * MILLI;
    let mut stopped = false;
    for _ in 0..1000 {
        let event = match action {
            RefreshAction::Wait(d) => {
                clock += d.max(MILLI);
                RefreshEvent::Waited { shutdown: clock >= deadline }
            }
            RefreshAction::Resolve => RefreshEvent::Resolved(Err(MoriError::DnsLookup {
                domain: "example.com".to_string(),
                cause: "DNS failure".to_string(),
            })),
            RefreshAction::Stop => {
                stopped = true;
                break;
            }
        };
        let report = refresh_step(&mut cache, &mut ebpf, &mut servers, event, clock);
        if report.resolve_error.is_some() {
            failures += 1;
            assert!(matches!(report.action, RefreshAction::Wait(_)));
        }
        action = report.action;
    }
    assert!(failures >= 1);
    assert!(stopped);
    assert!(ebpf.calls.is_empty());
}

#[test]
fn linux_test_empty_domains_returns_none() {
    empty_domains_returns_none();
}

#[test]
fn linux_test_notify_causes_early_termination() {
    notify_causes_early_termination();
}

#[test]
fn linux_test_timeout_triggers_dns_resolution() {
    timeout_triggers_dns_resolution();
}

#[test]
fn linux_test_dns_resolution_failure_continues_loop() {
    dns_resolution_failure_continues_loop();
}

#[test]
fn dns_test_empty_domains_returns_none() {
    empty_domains_returns_none();
}

#[test]
fn dns_test_notify_causes_early_termination() {
    notify_causes_early_termination();
}

#[test]
fn dns_test_timeout_triggers_dns_resolution() {
    timeout_triggers_dns_resolution();
}

#[test]
fn dns_test_dns_resolution_failure_continues_loop() {
    dns_resolution_failure_continues_loop();
}

#[test]
fn refresh_test_empty_domains_returns_none() {
    empty_domains_returns_none();
}

#[test]
fn refresh_test_notify_causes_early_termination() {
    notify_causes_early_termination();
}

#[test]
fn refresh_test_timeout_triggers_dns_resolution() {
    timeout_triggers_dns_resolution();
}

#[test]
fn refresh_test_dns_resolution_failure_continues_loop() {
    dns_resolution_failure_continues_loop();
}

#[test]
fn refresh_waits_for_the_default_interval_on_an_empty_cache() {
    let cache = DnsCache::default();
    assert_eq!(DEFAULT_REFRESH_INTERVAL, 30 * SECOND);
    assert_eq!(next_wait(&cache, 5), 30 * SECOND);
    let domains = vec!["example.com".to_string()];
    assert_eq!(
        spawn_refresh(&domains, &cache, 5),
        Some(RefreshAction::Wait(30 * SECOND))
    );
    let mut cache = DnsCache::default();
    let mut ebpf = Recorder::new();
    let mut servers: Vec<Ipv4> = Vec::new();
    let report = refresh_step(&mut cache, &mut ebpf, &mut servers, RefreshEvent::Start, 5);
    assert_eq!(report.action, RefreshAction::Wait(30 * SECOND));
    let report = refresh_step(
        &mut cache,
        &mut ebpf,
        &mut servers,
        RefreshEvent::Waited { shutdown: false },
        5,
    );
    assert_eq!(report.action, RefreshAction::Resolve);
}

#[test]
fn resolver_keeps_ipv4_answers_only() {
    let lookups = vec![
        Lookup {
            domain: "a.test".to_string(),
            addresses: vec![IpAnswer::V6, IpAnswer::V4(ip(1, 1, 1, 1)), IpAnswer::V4(ip(1, 1, 1, 2))],
            valid_until: 50,
        },
        Lookup { domain: "six.test".to_string(), addresses: vec![IpAnswer::V6], valid_until: 60 },
        Lookup { domain: "none.test".to_string(), addresses: vec![], valid_until: 60 },
        Lookup {
            domain: "b.test".to_string(),
            addresses: vec![IpAnswer::V4(ip(2, 2, 2, 2))],
            valid_until: 70,
        },
    ];
    let servers = vec![
        IpAnswer::V4(ip(9, 9, 9, 9)),
        IpAnswer::V6,
        IpAnswer::V4(ip(8, 8, 8, 8)),
        IpAnswer::V4(ip(9, 9, 9, 9)),
    ];
    let resolved = SystemDnsResolver::assemble(lookups, &servers);
    assert_eq!(resolved.domains.len(), 2);
    assert_eq!(resolved.domains[0].domain, "a.test");
    assert_eq!(
        resolved.domains[0].records,
        vec![
            Entry { ip: ip(1, 1, 1, 1), expires_at: 50 },
            Entry { ip: ip(1, 1, 1, 2), expires_at: 50 }
        ]
    );
    assert_eq!(resolved.domains[1].domain, "b.test");
    assert_eq!(resolved.domains[1].records, vec![Entry { ip: ip(2, 2, 2, 2), expires_at: 70 }]);
    assert_eq!(resolved.dns_v4, vec![ip(9, 9, 9, 9), ip(8, 8, 8, 8)]);
    assert_eq!(
        SystemDnsResolver::collect_nameserver_ips(&vec![IpAnswer::V6]),
        Vec::<Ipv4>::new()
    );
}

#[test]
fn file_deny_read_on_existing_file() {
    let mut policy = FilePolicy::new();
    policy.deny_read_write("/tmp/secret.txt");
    let filter = FileEbpf::load_and_attach(&policy, 4711).unwrap();
    assert_eq!(filter.target_cgroup(), 4711);
    let secret = deny_key("/tmp/secret.txt").unwrap();
    let other = deny_key("/tmp").unwrap();
    let len = "/tmp/secret.txt".len() + 1;
    assert_eq!(filter.file_open(4711, &secret, len, 0), DENY);
    assert_eq!(filter.file_open(4711, &secret, len, 1), DENY);
    assert_eq!(filter.file_open(4711, &secret, len, 2), DENY);
    assert_eq!(filter.file_open(4711, &secret, len, 3), DENY);
    assert_eq!(filter.file_open(4711, &secret, len, 0x8000), DENY);
    assert_eq!(filter.file_open(4711, &other, 5, 0), ADMIT);
    assert_eq!(filter.file_open(1, &secret, len, 0), ADMIT);
}

#[test]
fn file_open_ignores_what_follows_the_path() {
    let mut policy = FilePolicy::new();
    policy.deny_read("/etc/shadow");
    let filter = FileEbpf::load_and_attach(&policy, 1).unwrap();
    let mut buf = deny_key("/etc/shadow").unwrap();
    for i in 12..PATH_MAX {
        buf[i] = 0xAA;
    }
    assert_eq!(filter.file_open(1, &buf, 12, 0), DENY);
    assert_eq!(filter.file_open(1, &buf, 13, 0), ADMIT);
    assert_eq!(filter.file_open(1, &buf, 12, 1), ADMIT);
    assert_eq!(filter.file_open(1, &buf, 12, 3), ADMIT);
}

#[test]
fn deny_key_pads_with_zeros_and_refuses_long_paths() {
    let key = deny_key("/a").unwrap();
    assert_eq!(key.len(), 512);
    assert_eq!(&key[..2], b"/a");
    assert!(key[2..].iter().all(|b| *b == 0));
    let long = format!("/{}", "x".repeat(510));
    assert!(deny_key(&long).is_ok());
    let too_long = format!("/{}", "x".repeat(511));
    match deny_key(&too_long) {
        Err(MoriError::PathTooLong { path, max_len }) => {
            assert_eq!(path, too_long);
            assert_eq!(max_len, 512);
        }
        other => panic!("unexpected {:?}", other.map(|_| ())),
    }
    let mut policy = FilePolicy::new();
    policy.deny_read("/ok");
    policy.deny_read(&too_long);
    assert!(matches!(
        FileEbpf::load_and_attach(&policy, 1),
        Err(MoriError::PathTooLong { .. })
    ));
}

#[test]
fn deny_table_keeps_the_last_mode_of_a_path_and_has_a_limit() {
    let mut policy = FilePolicy::new();
    policy.deny_read("/tmp/x");
    policy.deny_write("/tmp/x");
    let filter = FileEbpf::load_and_attach(&policy, 1).unwrap();
    assert_eq!(filter.deny_paths().len(), 1);
    let key = deny_key("/tmp/x").unwrap();
    assert_eq!(filter.file_open(1, &key, 7, 0), ADMIT);
    assert_eq!(filter.file_open(1, &key, 7, 1), DENY);

    let mut policy = FilePolicy::new();
    for i in 0..1024 {
        policy.deny_read(&format!("/p/{}", i));
    }
    policy.deny_read("/p/5");
    assert_eq!(FileEbpf::load_and_attach(&policy, 1).unwrap().deny_paths().len(), 1024);
    policy.deny_read("/p/new");
    assert!(matches!(
        FileEbpf::load_and_attach(&policy, 1),
        Err(MoriError::MapUpdate { .. })
    ));
}

#[test]
fn sandbox_profile_lists_denials() {
    let mut policy = Policy::new();
    policy.file.deny_read("/tmp/a\"b");
    policy.file.deny_write("/tmp/c\\d");
    policy.file.deny_read_write("/tmp/e");
    assert!(needs_sandbox(&policy));
    let profile = create_sandbox_profile(&policy);
    let expected = "(version 1)\n(import \"system.sb\")\n(deny default)\n(allow file-read*\n    (subpath \"/opt/local/lib\")\n    (subpath \"/usr/lib\")\n    (subpath \"/usr/local/lib\")\n)\n(allow file*)\n(deny file-read* (subpath \"/tmp/a\\\"b\"))\n(deny file-write* (subpath \"/tmp/c\\\\d\"))\n(deny file* (subpath \"/tmp/e\"))\n(deny network*)\n(allow process-exec*)\n";
    assert_eq!(profile, expected);
    let open = Policy::with_network(NetworkPolicy::from_allow_all(true));
    let profile = create_sandbox_profile(&open);
    assert!(!profile.contains("(deny network*)"));
    assert!(profile.ends_with("(allow file*)\n(allow process-exec*)\n"));
    assert_eq!(escape_path("a\\b\"c"), "a\\\\b\\\"c");
    assert_eq!(escape_path(""), "");
}

#[test]
fn cgroup_paths_and_ids() {
    let cgroup = CgroupManager::create(4321, 99);
    assert_eq!(cgroup.path, "/sys/fs/cgroup/mori-4321");
    assert_eq!(cgroup.id, 99);
    assert_eq!(cgroup.procs_path(), "/sys/fs/cgroup/mori-4321/cgroup.procs");
    assert_eq!(CgroupManager::directory(0), "/sys/fs/cgroup/mori-0");
    assert_eq!(CgroupManager::enroll_text(u32::MAX), "4294967295");
    assert_eq!(CgroupManager::enroll_text(10), "10");
    assert_eq!(parse_id("1000"), Some(1000));
    assert_eq!(parse_id("+7"), Some(7));
    assert_eq!(parse_id("4294967295"), Some(u32::MAX));
    assert_eq!(parse_id("4294967296"), None);
    assert_eq!(parse_id(""), None);
    assert_eq!(parse_id("-1"), None);
    assert_eq!(sudo_ids(Some("1000"), Some("100")), Some((1000, 100)));
    assert_eq!(sudo_ids(Some("1000"), None), None);
    assert_eq!(sudo_ids(Some("root"), Some("100")), None);
}

#[test]
fn rendezvous_scripts() {
    assert_eq!(
        parent_script(),
        vec![ParentAction::CloseRead, ParentAction::Enroll, ParentAction::CloseWrite]
    );
    assert_eq!(
        child_script(None),
        vec![
            ChildAction::CloseWrite,
            ChildAction::AwaitRelease,
            ChildAction::CloseRead,
            ChildAction::Exec
        ]
    );
    assert_eq!(
        child_script(Some((1000, 100))),
        vec![
            ChildAction::CloseWrite,
            ChildAction::AwaitRelease,
            ChildAction::CloseRead,
            ChildAction::DropPrivileges(1000, 100),
            ChildAction::Exec
        ]
    );
}

#[test]
fn child_is_released_only_after_it_is_enrolled() {
    let parent = parent_script();
    let enroll = parent.iter().position(|a| *a == ParentAction::Enroll).unwrap();
    let release = parent.iter().position(|a| *a == ParentAction::CloseWrite).unwrap();
    assert!(enroll < release);
    for ids in [None, Some((1000, 100))] {
        let child = child_script(ids);
        let wait = child.iter().position(|a| *a == ChildAction::AwaitRelease).unwrap();
        let exec = child.iter().position(|a| *a == ChildAction::Exec).unwrap();
        let close = child.iter().position(|a| *a == ChildAction::CloseWrite).unwrap();
        assert!(close < wait && wait < exec);
        assert_eq!(exec, child.len() - 1);
    }
}

#[test]
fn child_that_cannot_be_enrolled_is_ended_before_the_pipe_is_closed() {
    let recovery = parent_recovery();
    assert_eq!(recovery, vec![ParentAction::Kill, ParentAction::CloseWrite]);
    let kill = recovery.iter().position(|a| *a == ParentAction::Kill).unwrap();
    let close = recovery.iter().position(|a| *a == ParentAction::CloseWrite).unwrap();
    assert!(kill < close);
    assert!(!recovery.contains(&ParentAction::Enroll));
    let script = parent_script();
    assert!(!script.contains(&ParentAction::Kill));
    let policy = network_policy(&["10.0.0.1"]);
    let mut launcher = Launcher::new(&policy);
    launcher.step(LaunchEvent::Parsed);
    launcher.step(LaunchEvent::Resolved);
    launcher.step(LaunchEvent::CgroupCreated);
    launcher.step(LaunchEvent::FiltersAttached);
    assert_eq!(launcher.step(LaunchEvent::Forked), LaunchAction::Enroll);
    assert_eq!(
        launcher.step(LaunchEvent::Failed),
        LaunchAction::Abort { end_child: true }
    );
    assert_eq!(launcher.state, LaunchState::TornDown);
}

#[test]
fn read_write_denial_refuses_every_open() {
    let mut policy = FilePolicy::new();
    policy.deny_read_write("/tmp/secret.txt");
    let filter = FileEbpf::load_and_attach(&policy, 9).unwrap();
    let key = deny_key("/tmp/secret.txt").unwrap();
    for flags in [0u32, 1, 2, 3, 0x8003, 0x241] {
        assert_eq!(filter.file_open(9, &key, 16, flags), DENY);
        assert_eq!(mori::runtime::file::mori_path_open(&filter, 9, &key, 16, flags), -1);
    }
    let mut policy = FilePolicy::new();
    policy.deny_write("/tmp/secret.txt");
    let filter = FileEbpf::load_and_attach(&policy, 9).unwrap();
    assert_eq!(filter.file_open(9, &key, 16, 3), ADMIT);
    assert_eq!(filter.file_open(9, &key, 16, 1), DENY);
}

#[test]
fn hooks_give_the_verdicts_of_the_tables() {
    let mut filter = MemoryFilter::new(8);
    filter.allow_network(ip(10, 0, 0, 0), 24).unwrap();
    assert_eq!(mori::runtime::ebpf::mori_connect4(&filter, [10, 0, 0, 5]), 1);
    assert_eq!(mori::runtime::ebpf::mori_connect4(&filter, [10, 0, 1, 5]), 0);
    let mut policy = FilePolicy::new();
    policy.deny_write("/etc");
    let files = FileEbpf::load_and_attach(&policy, 7).unwrap();
    let buf = deny_key("/etc").unwrap();
    assert_eq!(mori::runtime::file::mori_path_open(&files, 7, &buf, 5, 1), -1);
    assert_eq!(mori::runtime::file::mori_path_open(&files, 7, &buf, 5, 0), 0);
    assert_eq!(mori::runtime::file::mori_path_open(&files, 7, &buf, -2, 1), 0);
    assert_eq!(mori::runtime::file::mori_path_open(&files, 8, &buf, 5, 1), 0);
    assert_eq!(mori::runtime::file::mori_path_open(&files, 7, &buf, 9000, 1), -1);
}

#[test]
fn shutdown_is_seen_at_either_end_of_a_wait() {
    let quiet = WaitObservation { raised_before: false, woken: false, raised_after: false };
    assert!(!wait_outcome(quiet));
    assert!(wait_outcome(WaitObservation { raised_before: true, ..quiet }));
    assert!(wait_outcome(WaitObservation { woken: true, ..quiet }));
    assert!(wait_outcome(WaitObservation { raised_after: true, ..quiet }));
    assert!(must_sleep(false));
    assert!(!must_sleep(true));
}

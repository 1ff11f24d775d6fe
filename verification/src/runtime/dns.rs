//! Keeping the allow table in step with what the domains resolve to.

use vstd::prelude::*;
use crate::addr::Ipv4;
use crate::error::MoriError;
use crate::net::cache::{
    added_set, applied, is_next_refresh, is_sorted_listing, lemma_sorted_listing_unique,
    removed_set, CacheMap, DnsCache, Entry, UpdateDiff,
};
use crate::net::resolver::{domains_view, DomainRecords, ResolvedAddresses};
use crate::policy::net::union_seq;
use crate::runtime::ebpf::{
    apply_ops, filter_view, op_in_range, plan_outcome, run_plan, EbpfController, FilterOp,
    FilterView,
};

verus! {

/// The wait between two resolutions where the cache holds no address:
/// thirty seconds.
pub const DEFAULT_REFRESH_INTERVAL: u64 = 30_000_000_000;

/// The prefix length under which a single address is kept.
pub const HOST_PREFIX: u8 = 32;

/// The listing of a set of addresses in increasing order.
pub open spec fn listing(s: Set<u32>) -> Seq<Ipv4> {
    choose|v: Seq<Ipv4>| is_sorted_listing(v, s)
}

/// The changes that take each of `ips` out of the table, as a single
/// address.
pub open spec fn removals(ips: Seq<Ipv4>) -> Seq<FilterOp> {
    Seq::new(ips.len(), |i: int| FilterOp::Remove(ips[i], 32))
}

/// The changes that put each of `ips` into the table, as a single address.
pub open spec fn allowances(ips: Seq<Ipv4>) -> Seq<FilterOp> {
    Seq::new(ips.len(), |i: int| FilterOp::Allow(ips[i], 32))
}

/// The changes that one diff asks for: first what went is taken out, then
/// what came is put in.
pub open spec fn diff_ops(removed: Seq<Ipv4>, added: Seq<Ipv4>) -> Seq<FilterOp> {
    removals(removed) + allowances(added)
}

/// The cache after the records of each domain have been applied, in their
/// order, at instant `now`.
pub open spec fn applied_all(m: CacheMap, domains: Seq<(Seq<char>, Seq<Entry>)>, now: u64) -> CacheMap
    decreases domains.len(),
{
    if domains.len() == 0 {
        m
    } else {
        applied(applied_all(m, domains.drop_last(), now), domains.last().0, now, domains.last().1)
    }
}

/// The changes of the allow table that applying the records of each domain
/// asks for: domain by domain, and for each domain first the addresses
/// that went, then those that came, each in increasing order.
pub open spec fn refresh_ops(m: CacheMap, domains: Seq<(Seq<char>, Seq<Entry>)>, now: u64) -> Seq<
    FilterOp,
>
    decreases domains.len(),
{
    if domains.len() == 0 {
        Seq::empty()
    } else {
        let before = applied_all(m, domains.drop_last(), now);
        let d = domains.last();
        refresh_ops(m, domains.drop_last(), now) + diff_ops(
            listing(removed_set(before, d.0, now, d.1)),
            listing(added_set(before, d.0, now, d.1)),
        )
    }
}

/// Appends the changes that `diff` asks for to `plan`.
fn push_diff(plan: &mut Vec<FilterOp>, diff: &UpdateDiff)
    ensures
        final(plan)@ == old(plan)@ + diff_ops(diff.removed@, diff.added@),
{
    let mut i: usize = 0;
    while i < diff.removed.len()
        invariant
            i <= diff.removed@.len(),
            plan@ == old(plan)@ + removals(diff.removed@.take(i as int)),
        decreases diff.removed@.len() - i,
    {
        plan.push(FilterOp::Remove(diff.removed[i], HOST_PREFIX));
        proof {
            assert(removals(diff.removed@.take(i + 1)) =~= removals(
                diff.removed@.take(i as int),
            ).push(FilterOp::Remove(diff.removed@[i as int], 32)));
            assert(plan@ =~= old(plan)@ + removals(diff.removed@.take(i + 1)));
        }
        i = i + 1;
    }
    proof {
        assert(diff.removed@.take(i as int) =~= diff.removed@);
    }
    let mut k: usize = 0;
    while k < diff.added.len()
        invariant
            k <= diff.added@.len(),
            plan@ == old(plan)@ + removals(diff.removed@) + allowances(
                diff.added@.take(k as int),
            ),
        decreases diff.added@.len() - k,
    {
        plan.push(FilterOp::Allow(diff.added[k], HOST_PREFIX));
        proof {
            assert(allowances(diff.added@.take(k + 1)) =~= allowances(
                diff.added@.take(k as int),
            ).push(FilterOp::Allow(diff.added@[k as int], 32)));
            assert(plan@ =~= old(plan)@ + removals(diff.removed@) + allowances(
                diff.added@.take(k + 1),
            ));
        }
        k = k + 1;
    }
    proof {
        assert(diff.added@.take(k as int) =~= diff.added@);
        assert(plan@ =~= old(plan)@ + diff_ops(diff.removed@, diff.added@));
    }
}

/// Applies the records of each domain to the cache, and gives the changes
/// of the allow table that this asks for.
pub fn plan_refresh(dns_cache: &mut DnsCache, now: u64, new_domains: &Vec<DomainRecords>) -> (plan:
    Vec<FilterOp>)
    requires
        old(dns_cache).wf(),
    ensures
        final(dns_cache).wf(),
        final(dns_cache)@ == applied_all(old(dns_cache)@, domains_view(new_domains@), now),
        plan@ == refresh_ops(old(dns_cache)@, domains_view(new_domains@), now),
        forall|i: int| 0 <= i < plan@.len() ==> op_in_range(#[trigger] plan@[i]),
{
    let mut plan: Vec<FilterOp> = Vec::new();
    let mut i: usize = 0;
    let ghost domains = domains_view(new_domains@);
    proof {
        assert(domains.take(0) =~= Seq::<(Seq<char>, Seq<Entry>)>::empty());
    }
    while i < new_domains.len()
        invariant
            i <= new_domains@.len(),
            domains == domains_view(new_domains@),
            dns_cache.wf(),
            dns_cache@ == applied_all(old(dns_cache)@, domains.take(i as int), now),
            plan@ == refresh_ops(old(dns_cache)@, domains.take(i as int), now),
            forall|k: int| 0 <= k < plan@.len() ==> op_in_range(#[trigger] plan@[k]),
        decreases new_domains@.len() - i,
    {
        let ghost before = dns_cache@;
        let ghost d = domains[i as int];
        proof {
            assert(domains.take(i + 1).drop_last() =~= domains.take(i as int));
            assert(domains.take(i + 1).last() == d);
        }
        let diff = dns_cache.apply_entries(
            new_domains[i].domain.as_str(),
            now,
            &new_domains[i].records,
        );
        proof {
            let gone = removed_set(before, d.0, now, d.1);
            let came = added_set(before, d.0, now, d.1);
            lemma_sorted_listing_unique(diff.removed@, listing(gone), gone);
            lemma_sorted_listing_unique(diff.added@, listing(came), came);
        }
        let ghost plan_before = plan@;
        push_diff(&mut plan, &diff);
        proof {
            assert forall|k: int| 0 <= k < plan@.len() implies op_in_range(#[trigger] plan@[k]) by {
                if k < plan_before.len() {
                    assert(plan@[k] == plan_before[k]);
                }
            }
        }
        i = i + 1;
    }
    proof {
        assert(domains.take(i as int) =~= domains);
    }
    plan
}

/// Applies the records of each domain to the cache and asks the controller
/// for the changes of the allow table that this calls for: domain by
/// domain, what went before what came. It stops at the first change that
/// the controller refuses and returns that refusal. The cache takes in all
/// records, whether a change is refused or not.
pub fn apply_domain_records<E: EbpfController>(
    dns_cache: &mut DnsCache,
    ebpf: &mut E,
    now: u64,
    new_domains: Vec<DomainRecords>,
) -> (r: Result<(), MoriError>)
    requires
        old(dns_cache).wf(),
        old(ebpf).valid(),
    ensures
        final(dns_cache).wf(),
        final(ebpf).valid(),
        final(dns_cache)@ == applied_all(old(dns_cache)@, domains_view(new_domains@), now),
        plan_outcome(
            filter_view(*old(ebpf)),
            filter_view(*final(ebpf)),
            refresh_ops(old(dns_cache)@, domains_view(new_domains@), now),
            r,
        ),
{
    let plan = plan_refresh(dns_cache, now, &new_domains);
    run_plan(ebpf, &plan)
}

/// The addresses of `ips` that `known` does not hold, each once, in the
/// order in which they first occur.
pub open spec fn new_servers(known: Seq<Ipv4>, ips: Seq<Ipv4>) -> Seq<Ipv4> {
    union_seq(known, ips).skip(known.len() as int)
}

/// Whether the known name servers and the controller are as taking in
/// `ips` leaves them, and `r` is what came of that.
///
/// Where all was granted, each new server is known, and the controller was
/// asked to admit each of them once, in the order in which they first
/// occur, and for nothing else. Where the controller refused one, that one
/// and the new ones before it are known, the controller was asked for those
/// and for nothing after, those before the refused one are admitted, and
/// `r` is the refusal as the controller gave it.
pub open spec fn servers_outcome(
    before: FilterView,
    after: FilterView,
    known_before: Seq<Ipv4>,
    known_after: Seq<Ipv4>,
    ips: Seq<Ipv4>,
    r: Result<(), MoriError>,
) -> bool {
    match r {
        Ok(_) => {
            &&& known_after == union_seq(known_before, ips)
            &&& after.table == apply_ops(before.table, allowances(new_servers(known_before, ips)))
            &&& after.requests == before.requests + allowances(new_servers(known_before, ips))
            &&& after.answer == (if new_servers(known_before, ips).len() > 0 {
                Some(r)
            } else {
                before.answer
            })
        },
        Err(_) => exists|k: int|
            0 < k <= ips.len() && known_after == #[trigger] union_seq(known_before, ips.take(k))
                && new_servers(known_before, ips.take(k)).len() > 0 && after.table == apply_ops(
                before.table,
                allowances(new_servers(known_before, ips.take(k)).drop_last()),
            ) && after.requests == before.requests + allowances(
                new_servers(known_before, ips.take(k)),
            ) && after.answer == Some(r),
    }
}

/// Takes in the name servers `ips`: each that is not known yet is noted in
/// `allowed_dns_ips`, and the controller is then asked to admit it, as a
/// single address. The controller is asked for nothing else. The first
/// refusal ends the work and is returned; its address stays noted.
pub fn apply_dns_servers<E: EbpfController>(
    ebpf: &mut E,
    allowed_dns_ips: &mut Vec<Ipv4>,
    ips: Vec<Ipv4>,
) -> (r: Result<(), MoriError>)
    requires
        old(ebpf).valid(),
    ensures
        final(ebpf).valid(),
        servers_outcome(
            filter_view(*old(ebpf)),
            filter_view(*final(ebpf)),
            old(allowed_dns_ips)@,
            final(allowed_dns_ips)@,
            ips@,
            r,
        ),
{
    let mut i: usize = 0;
    let ghost known = allowed_dns_ips@;
    let ghost start = ebpf.table();
    let ghost asked = ebpf.requests();
    proof {
        assert(ips@.take(0) =~= Seq::<Ipv4>::empty());
        assert(new_servers(known, ips@.take(0)) =~= Seq::<Ipv4>::empty());
        assert(allowances(Seq::<Ipv4>::empty()) =~= Seq::<FilterOp>::empty());
        assert(asked =~= asked + Seq::<FilterOp>::empty());
    }
    while i < ips.len()
        invariant
            i <= ips@.len(),
            known == old(allowed_dns_ips)@,
            start == old(ebpf).table(),
            asked == old(ebpf).requests(),
            ebpf.valid(),
            allowed_dns_ips@ == union_seq(known, ips@.take(i as int)),
            allowed_dns_ips@.len() >= known.len(),
            ebpf.table() == apply_ops(start, allowances(new_servers(known, ips@.take(i as int)))),
            ebpf.requests() == asked + allowances(new_servers(known, ips@.take(i as int))),
            ebpf.answer() == (if new_servers(known, ips@.take(i as int)).len() > 0 {
                Some(Ok::<(), MoriError>(()))
            } else {
                old(ebpf).answer()
            }),
        decreases ips@.len() - i,
    {
        let ip = ips[i];
        let ghost before = allowed_dns_ips@;
        let ghost ops_before = allowances(new_servers(known, ips@.take(i as int)));
        proof {
            assert(ips@.take(i + 1).drop_last() =~= ips@.take(i as int));
            assert(ips@.take(i + 1).last() == ip);
        }
        let mut found = false;
        let mut k: usize = 0;
        while k < allowed_dns_ips.len() && !found
            invariant
                k <= allowed_dns_ips@.len(),
                found ==> allowed_dns_ips@.contains(ip),
                !found ==> forall|j: int| 0 <= j < k ==> allowed_dns_ips@[j] != ip,
            decreases allowed_dns_ips@.len() - k + if found { 0int } else { 1int },
        {
            if allowed_dns_ips[k] == ip {
                found = true;
            } else {
                k = k + 1;
            }
        }
        if !found {
            allowed_dns_ips.push(ip);
            proof {
                let fresh = new_servers(known, ips@.take(i + 1));
                assert(fresh =~= new_servers(known, ips@.take(i as int)).push(ip));
                assert(fresh.drop_last() =~= new_servers(known, ips@.take(i as int)));
                assert(allowances(fresh) =~= ops_before.push(FilterOp::Allow(ip, 32)));
                assert(allowances(fresh).drop_last() =~= ops_before);
                assert(asked + allowances(fresh) =~= (asked + ops_before).push(
                    FilterOp::Allow(ip, 32),
                ));
            }
            match ebpf.allow_network(ip, HOST_PREFIX) {
                Ok(done) => {
                    proof {
                        assert(done == ());
                    }
                },
                Err(e) => {
                    proof {
                        let k = i + 1;
                        assert(allowed_dns_ips@ == union_seq(known, ips@.take(k)));
                        assert(ebpf.answer() == Some(Err::<(), MoriError>(e)));
                    }
                    return Err(e);
                },
            }
        }
        i = i + 1;
    }
    proof {
        assert(ips@.take(i as int) =~= ips@);
    }
    Ok(())
}

/// What the refresh loop is told.
#[derive(Debug)]
pub enum RefreshEvent {
    /// The loop begins.
    Start,
    /// The wait is over; `shutdown` says whether shutdown was signalled.
    Waited { shutdown: bool },
    /// The resolver has answered.
    Resolved(Result<ResolvedAddresses, MoriError>),
}

/// What the refresh loop does next.
#[derive(Clone, Copy, Debug, PartialEq, Eq, Structural)]
pub enum RefreshAction {
    /// Wait for this long, or until shutdown is signalled.
    Wait(u64),
    /// Resolve the domains again.
    Resolve,
    /// End the loop.
    Stop,
}

/// What one step of the refresh loop gave.
#[derive(Debug)]
pub struct RefreshReport {
    pub action: RefreshAction,
    /// The failure of the resolver, which the loop survives.
    pub resolve_error: Option<MoriError>,
    /// The failure of a change that the records asked for.
    pub records_error: Option<MoriError>,
    /// The failure of a change that the name servers asked for.
    pub servers_error: Option<MoriError>,
}

/// Whether `d` is the wait before the next resolution at instant `now`:
/// the time until the earliest expiry in the cache, and the default where
/// the cache holds no address.
pub open spec fn is_refresh_wait(m: CacheMap, now: u64, d: u64) -> bool {
    is_next_refresh(m, now, Some(d)) || (is_next_refresh(m, now, None) && d
        == DEFAULT_REFRESH_INTERVAL)
}

/// The wait before the next resolution.
pub fn next_wait(dns_cache: &DnsCache, now: u64) -> (d: u64)
    requires
        dns_cache.wf(),
    ensures
        is_refresh_wait(dns_cache@, now, d),
{
    match dns_cache.next_refresh_in(now) {
        Some(d) => d,
        None => DEFAULT_REFRESH_INTERVAL,
    }
}

/// The first action of the refresh loop; none where there is no domain to
/// refresh, in which case no loop runs.
pub fn spawn_refresh(domains: &Vec<String>, dns_cache: &DnsCache, now: u64) -> (r: Option<
    RefreshAction,
>)
    requires
        dns_cache.wf(),
    ensures
        domains@.len() == 0 ==> r is None,
        domains@.len() > 0 ==> r is Some && r->Some_0 is Wait && is_refresh_wait(
            dns_cache@,
            now,
            r->Some_0->Wait_0,
        ),
{
    if domains.len() == 0 {
        None
    } else {
        Some(RefreshAction::Wait(next_wait(dns_cache, now)))
    }
}

/// The outcome that a reported failure stands for: the failure where there
/// is one, success where there is none.
pub open spec fn outcome_of(failure: Option<MoriError>) -> Result<(), MoriError> {
    match failure {
        Some(e) => Err(e),
        None => Ok(()),
    }
}

/// One step of the refresh loop: what to do after `event`, which came at
/// instant `now`.
///
/// At the start the loop waits. After a wait it stops where shutdown was
/// signalled, and resolves otherwise. After an answer it applies the
/// records, then the name servers, and waits again; after a failure of the
/// resolver it just waits again. No failure ends the loop. The controller
/// is asked for something only after an answer of the resolver; what it
/// refuses is reported as it gave it.
pub fn refresh_step<E: EbpfController>(
    dns_cache: &mut DnsCache,
    ebpf: &mut E,
    allowed_dns_ips: &mut Vec<Ipv4>,
    event: RefreshEvent,
    now: u64,
) -> (report: RefreshReport)
    requires
        old(dns_cache).wf(),
        old(ebpf).valid(),
    ensures
        final(dns_cache).wf(),
        final(ebpf).valid(),
        match event {
            RefreshEvent::Waited { shutdown } => report.action == (if shutdown {
                RefreshAction::Stop
            } else {
                RefreshAction::Resolve
            }),
            _ => report.action is Wait && is_refresh_wait(
                final(dns_cache)@,
                now,
                report.action->Wait_0,
            ),
        },
        match event {
            RefreshEvent::Resolved(Ok(resolved)) => {
                &&& final(dns_cache)@ == applied_all(
                    old(dns_cache)@,
                    domains_view(resolved.domains@),
                    now,
                )
                &&& report.resolve_error is None
                &&& exists|mid: FilterView|
                    #[trigger] plan_outcome(
                        filter_view(*old(ebpf)),
                        mid,
                        refresh_ops(old(dns_cache)@, domains_view(resolved.domains@), now),
                        outcome_of(report.records_error),
                    ) && servers_outcome(
                        mid,
                        filter_view(*final(ebpf)),
                        old(allowed_dns_ips)@,
                        final(allowed_dns_ips)@,
                        resolved.dns_v4@,
                        outcome_of(report.servers_error),
                    )
            },
            _ => {
                &&& final(dns_cache)@ == old(dns_cache)@
                &&& final(ebpf).table() == old(ebpf).table()
                &&& final(ebpf).requests() == old(ebpf).requests()
                &&& final(ebpf).answer() == old(ebpf).answer()
                &&& final(allowed_dns_ips)@ == old(allowed_dns_ips)@
                &&& report.records_error is None
                &&& report.servers_error is None
                &&& match event {
                    RefreshEvent::Resolved(Err(e)) => report.resolve_error == Some(e),
                    _ => report.resolve_error is None,
                }
            },
        },
{
    match event {
        RefreshEvent::Start => RefreshReport {
            action: RefreshAction::Wait(next_wait(dns_cache, now)),
            resolve_error: None,
            records_error: None,
            servers_error: None,
        },
        RefreshEvent::Waited { shutdown } => RefreshReport {
            action: if shutdown {
                RefreshAction::Stop
            } else {
                RefreshAction::Resolve
            },
            resolve_error: None,
            records_error: None,
            servers_error: None,
        },
        RefreshEvent::Resolved(Err(e)) => RefreshReport {
            action: RefreshAction::Wait(next_wait(dns_cache, now)),
            resolve_error: Some(e),
            records_error: None,
            servers_error: None,
        },
        RefreshEvent::Resolved(Ok(resolved)) => {
            let ghost ops = refresh_ops(dns_cache@, domains_view(resolved.domains@), now);
            let ghost start = filter_view(*ebpf);
            let ResolvedAddresses { domains, dns_v4 } = resolved;
            let records_error = match apply_domain_records(dns_cache, ebpf, now, domains) {
                Ok(done) => {
                    proof {
                        assert(done == ());
                    }
                    None
                },
                Err(e) => Some(e),
            };
            let ghost mid = filter_view(*ebpf);
            let servers_error = match apply_dns_servers(ebpf, allowed_dns_ips, dns_v4) {
                Ok(done) => {
                    proof {
                        assert(done == ());
                    }
                    None
                },
                Err(e) => Some(e),
            };
            proof {
                assert(plan_outcome(start, mid, ops, outcome_of(records_error)));
            }
            RefreshReport {
                action: RefreshAction::Wait(next_wait(dns_cache, now)),
                resolve_error: None,
                records_error,
                servers_error,
            }
        },
    }
}

} // verus!

//! What a resolution gives: per domain the IPv4 addresses with their
//! expiry, and the IPv4 addresses of the name servers that were asked.

use vstd::prelude::*;
use crate::addr::Ipv4;
use crate::net::cache::Entry;
use crate::net::parser::push_new;

verus! {

/// The records of one domain.
#[derive(Debug)]
pub struct DomainRecords {
    pub domain: String,
    pub records: Vec<Entry>,
}

/// The outcome of one resolution.
#[derive(Debug)]
pub struct ResolvedAddresses {
    /// The domains that have an IPv4 address, each with its records.
    pub domains: Vec<DomainRecords>,
    /// The IPv4 addresses of the name servers.
    pub dns_v4: Vec<Ipv4>,
}

impl Default for ResolvedAddresses {
    /// The outcome that holds no domain and no name server.
    fn default() -> (r: ResolvedAddresses)
        ensures
            r.domains@.len() == 0,
            r.dns_v4@.len() == 0,
    {
        ResolvedAddresses { domains: Vec::new(), dns_v4: Vec::new() }
    }
}

/// One address of an answer. Of an IPv6 address nothing is kept.
#[derive(Clone, Copy, Debug, PartialEq, Eq, Structural)]
pub enum IpAnswer {
    V4(Ipv4),
    V6,
}

/// The answer to the lookup of one domain.
#[derive(Debug)]
pub struct Lookup {
    pub domain: String,
    pub addresses: Vec<IpAnswer>,
    /// The instant until which the answer is valid.
    pub valid_until: u64,
}

/// The IPv4 addresses among `answers`, in their order.
pub open spec fn v4_only(answers: Seq<IpAnswer>) -> Seq<Ipv4>
    decreases answers.len(),
{
    if answers.len() == 0 {
        Seq::empty()
    } else {
        match answers.last() {
            IpAnswer::V4(ip) => v4_only(answers.drop_last()).push(ip),
            IpAnswer::V6 => v4_only(answers.drop_last()),
        }
    }
}

/// The records that an answer gives: one for each of its IPv4 addresses,
/// all with the expiry of the answer.
pub open spec fn records_of(answers: Seq<IpAnswer>, valid_until: u64) -> Seq<Entry> {
    Seq::new(
        v4_only(answers).len(),
        |i: int| Entry { ip: v4_only(answers)[i], expires_at: valid_until },
    )
}

/// The distinct items of `s`, in the order in which they first occur.
pub open spec fn distinct<T>(s: Seq<T>) -> Seq<T>
    decreases s.len(),
{
    if s.len() == 0 {
        Seq::empty()
    } else {
        push_new(distinct(s.drop_last()), s.last())
    }
}

/// The domains and records that a list of answers gives: those of the
/// answers that hold an IPv4 address, in their order.
pub open spec fn resolved_domains(lookups: Seq<Lookup>) -> Seq<(Seq<char>, Seq<Entry>)>
    decreases lookups.len(),
{
    if lookups.len() == 0 {
        Seq::empty()
    } else {
        let before = resolved_domains(lookups.drop_last());
        let l = lookups.last();
        if v4_only(l.addresses@).len() == 0 {
            before
        } else {
            before.push((l.domain@, records_of(l.addresses@, l.valid_until)))
        }
    }
}

/// The domains and records of a resolution, as texts and sequences.
pub open spec fn domains_view(domains: Seq<DomainRecords>) -> Seq<(Seq<char>, Seq<Entry>)> {
    Seq::new(domains.len(), |i: int| (domains[i].domain@, domains[i].records@))
}

/// The resolver of the system. Its lookups are made elsewhere; here is what
/// is made of their answers.
#[derive(Debug)]
pub struct SystemDnsResolver;

impl SystemDnsResolver {
    /// The records that one answer gives.
    pub fn records(addresses: &Vec<IpAnswer>, valid_until: u64) -> (out: Vec<Entry>)
        ensures
            out@ == records_of(addresses@, valid_until),
    {
        let mut out: Vec<Entry> = Vec::new();
        let mut i: usize = 0;
        proof {
            assert(addresses@.take(0) =~= Seq::<IpAnswer>::empty());
            assert(out@ =~= records_of(addresses@.take(0), valid_until));
        }
        while i < addresses.len()
            invariant
                i <= addresses@.len(),
                out@ == records_of(addresses@.take(i as int), valid_until),
            decreases addresses@.len() - i,
        {
            proof {
                assert(addresses@.take(i + 1).drop_last() =~= addresses@.take(i as int));
                assert(addresses@.take(i + 1).last() == addresses@[i as int]);
            }
            match addresses[i] {
                IpAnswer::V4(ip) => {
                    out.push(Entry { ip, expires_at: valid_until });
                    proof {
                        assert(out@ =~= records_of(addresses@.take(i + 1), valid_until));
                    }
                },
                IpAnswer::V6 => {},
            }
            i = i + 1;
        }
        proof {
            assert(addresses@.take(i as int) =~= addresses@);
        }
        out
    }

    /// The IPv4 addresses among the name servers, each once.
    pub fn collect_nameserver_ips(servers: &Vec<IpAnswer>) -> (out: Vec<Ipv4>)
        ensures
            out@ == distinct(v4_only(servers@)),
    {
        let mut out: Vec<Ipv4> = Vec::new();
        let mut i: usize = 0;
        proof {
            assert(servers@.take(0) =~= Seq::<IpAnswer>::empty());
        }
        while i < servers.len()
            invariant
                i <= servers@.len(),
                out@ == distinct(v4_only(servers@.take(i as int))),
            decreases servers@.len() - i,
        {
            proof {
                assert(servers@.take(i + 1).drop_last() =~= servers@.take(i as int));
                assert(servers@.take(i + 1).last() == servers@[i as int]);
            }
            match servers[i] {
                IpAnswer::V4(ip) => {
                    proof {
                        let v = v4_only(servers@.take(i + 1));
                        assert(v.drop_last() =~= v4_only(servers@.take(i as int)));
                    }
                    let mut found = false;
                    let mut k: usize = 0;
                    while k < out.len() && !found
                        invariant
                            k <= out@.len(),
                            found ==> out@.contains(ip),
                            !found ==> forall|j: int| 0 <= j < k ==> out@[j] != ip,
                        decreases out@.len() - k + if found { 0int } else { 1int },
                    {
                        if out[k] == ip {
                            found = true;
                        } else {
                            k = k + 1;
                        }
                    }
                    if !found {
                        out.push(ip);
                    }
                },
                IpAnswer::V6 => {},
            }
            i = i + 1;
        }
        proof {
            assert(servers@.take(i as int) =~= servers@);
        }
        out
    }

    /// What a resolution gives, from the answers to its lookups and the
    /// name servers of the system.
    pub fn assemble(lookups: Vec<Lookup>, servers: &Vec<IpAnswer>) -> (out: ResolvedAddresses)
        ensures
            domains_view(out.domains@) == resolved_domains(lookups@),
            out.dns_v4@ == distinct(v4_only(servers@)),
    {
        let mut domains: Vec<DomainRecords> = Vec::new();
        let mut i: usize = 0;
        proof {
            assert(lookups@.take(0) =~= Seq::<Lookup>::empty());
            assert(domains_view(domains@) =~= resolved_domains(lookups@.take(0)));
        }
        while i < lookups.len()
            invariant
                i <= lookups@.len(),
                domains_view(domains@) == resolved_domains(lookups@.take(i as int)),
            decreases lookups@.len() - i,
        {
            proof {
                assert(lookups@.take(i + 1).drop_last() =~= lookups@.take(i as int));
                assert(lookups@.take(i + 1).last() == lookups@[i as int]);
            }
            let records = SystemDnsResolver::records(&lookups[i].addresses, lookups[i].valid_until);
            if records.len() > 0 {
                let ghost before = domains@;
                let domain = lookups[i].domain.clone();
                domains.push(DomainRecords { domain, records });
                proof {
                    assert(domains_view(domains@) =~= domains_view(before).push(
                        (lookups@[i as int].domain@, records@),
                    ));
                }
            }
            i = i + 1;
        }
        proof {
            assert(lookups@.take(i as int) =~= lookups@);
        }
        ResolvedAddresses { domains, dns_v4: SystemDnsResolver::collect_nameserver_ips(servers) }
    }
}

} // verus!

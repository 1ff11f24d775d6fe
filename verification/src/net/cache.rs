//! Per-domain cache of resolved addresses with their expiry, and the
//! add/remove diff that each refresh produces.
//!
//! Instants and durations are plain `u64` counts of nanoseconds, instants
//! on a monotonic clock whose start the caller picks.

use vstd::prelude::*;
use crate::addr::Ipv4;

verus! {

/// One resolved address and the instant at which it stops being valid.
#[derive(Clone, Copy, Debug, PartialEq, Eq, Structural)]
pub struct Entry {
    pub ip: Ipv4,
    pub expires_at: u64,
}

/// What one refresh of a domain changed: the addresses that are new and the
/// addresses that are gone, each in increasing order without repeats.
#[derive(Debug)]
pub struct UpdateDiff {
    pub added: Vec<Ipv4>,
    pub removed: Vec<Ipv4>,
}

/// The state of one domain: address bits to expiry.
pub type DomainMap = Map<u32, u64>;

/// `m` with `ip` expiring at `exp`, unless `m` already holds `ip` with an
/// expiry at least as late.
pub open spec fn upsert_max(m: DomainMap, ip: u32, exp: u64) -> DomainMap {
    if m.contains_key(ip) && m[ip] >= exp {
        m
    } else {
        m.insert(ip, exp)
    }
}

/// The state that a list of resolved entries gives at instant `now`: entries
/// that have expired are left out, and an address that occurs more than once
/// keeps its latest expiry.
pub open spec fn coalesce(entries: Seq<Entry>, now: u64) -> DomainMap
    decreases entries.len(),
{
    if entries.len() == 0 {
        Map::empty()
    } else {
        let rest = coalesce(entries.drop_last(), now);
        let e = entries.last();
        if e.expires_at <= now {
            rest
        } else {
            upsert_max(rest, e.ip.bits, e.expires_at)
        }
    }
}

/// `v` lists exactly the addresses of `s`, in strictly increasing order.
pub open spec fn is_sorted_listing(v: Seq<Ipv4>, s: Set<u32>) -> bool {
    &&& forall|i: int, j: int| 0 <= i < j < v.len() ==> v[i].bits < v[j].bits
    &&& forall|i: int| 0 <= i < v.len() ==> s.contains(#[trigger] v[i].bits)
    &&& forall|ip: u32| #[trigger]
        s.contains(ip) ==> exists|i: int| 0 <= i < v.len() && #[trigger] v[i].bits == ip
}

/// A set of addresses has one sorted listing only, so a diff is determined
/// by the states it compares.
pub proof fn lemma_sorted_listing_unique(v1: Seq<Ipv4>, v2: Seq<Ipv4>, s: Set<u32>)
    requires
        is_sorted_listing(v1, s),
        is_sorted_listing(v2, s),
    ensures
        v1 == v2,
    decreases v1.len(),
{
    if v1.len() == 0 {
        if v2.len() > 0 {
            assert(s.contains(v2[0].bits));
        }
        assert(v1 =~= v2);
    } else {
        let a = v1.last().bits;
        assert(s.contains(v1[v1.len() - 1].bits));
        let j = choose|j: int| 0 <= j < v2.len() && #[trigger] v2[j].bits == a;
        let b = v2.last().bits;
        assert(s.contains(v2[v2.len() - 1].bits));
        let i = choose|i: int| 0 <= i < v1.len() && #[trigger] v1[i].bits == b;
        if i < v1.len() - 1 {
            assert(v1[i].bits < v1[v1.len() - 1].bits);
        }
        if j < v2.len() - 1 {
            assert(v2[j].bits < v2[v2.len() - 1].bits);
        }
        assert(a == b);
        let r1 = v1.drop_last();
        let r2 = v2.drop_last();
        let t = s.remove(a);
        assert(is_sorted_listing(r1, t)) by {
            assert forall|x: int| 0 <= x < r1.len() implies t.contains(#[trigger] r1[x].bits) by {
                assert(s.contains(v1[x].bits));
                assert(v1[x].bits < v1[v1.len() - 1].bits);
            }
            assert forall|ip: u32| #[trigger] t.contains(ip) implies exists|x: int|
                0 <= x < r1.len() && #[trigger] r1[x].bits == ip by {
                assert(s.contains(ip));
                let x = choose|x: int| 0 <= x < v1.len() && #[trigger] v1[x].bits == ip;
                assert(r1[x].bits == ip);
            }
        }
        assert(is_sorted_listing(r2, t)) by {
            assert forall|x: int| 0 <= x < r2.len() implies t.contains(#[trigger] r2[x].bits) by {
                assert(s.contains(v2[x].bits));
                assert(v2[x].bits < v2[v2.len() - 1].bits);
            }
            assert forall|ip: u32| #[trigger] t.contains(ip) implies exists|x: int|
                0 <= x < r2.len() && #[trigger] r2[x].bits == ip by {
                assert(s.contains(ip));
                let x = choose|x: int| 0 <= x < v2.len() && #[trigger] v2[x].bits == ip;
                assert(r2[x].bits == ip);
            }
        }
        lemma_sorted_listing_unique(r1, r2, t);
        assert(v1 =~= r1.push(v1.last()));
        assert(v2 =~= r2.push(v2.last()));
    }
}

/// Entries in strictly increasing order of address.
spec fn strictly_sorted(s: Seq<Entry>) -> bool {
    forall|i: int, j: int| 0 <= i < j < s.len() ==> s[i].ip.bits < s[j].ip.bits
}

/// Whether some entry of `s` is for address `ip`.
spec fn has_ip(s: Seq<Entry>, ip: u32) -> bool {
    exists|i: int| 0 <= i < s.len() && #[trigger] s[i].ip.bits == ip
}

/// The index of an entry of `s` for address `ip`.
spec fn index_of_ip(s: Seq<Entry>, ip: u32) -> int {
    choose|i: int| 0 <= i < s.len() && #[trigger] s[i].ip.bits == ip
}

/// The map that a list of entries with distinct addresses stands for.
spec fn state_of(s: Seq<Entry>) -> DomainMap {
    Map::new(|ip: u32| has_ip(s, ip), |ip: u32| s[index_of_ip(s, ip)].expires_at)
}

/// In a strictly sorted list an address is found at one index only, so the
/// map of the list holds each entry's expiry under its address.
proof fn lemma_state_of_entry(s: Seq<Entry>, i: int)
    requires
        strictly_sorted(s),
        0 <= i < s.len(),
    ensures
        state_of(s).contains_key(s[i].ip.bits),
        state_of(s)[s[i].ip.bits] == s[i].expires_at,
        index_of_ip(s, s[i].ip.bits) == i,
{
    let ip = s[i].ip.bits;
    assert(has_ip(s, ip));
    let j = index_of_ip(s, ip);
    assert(0 <= j < s.len() && s[j].ip.bits == ip);
    if j < i {
        assert(s[j].ip.bits < s[i].ip.bits);
    } else if i < j {
        assert(s[i].ip.bits < s[j].ip.bits);
    }
}

/// The first index of `state` whose address is not below `ip`.
fn lower_bound(state: &Vec<Entry>, ip: u32) -> (k: usize)
    requires
        strictly_sorted(state@),
    ensures
        k <= state@.len(),
        forall|i: int| 0 <= i < k ==> (#[trigger] state@[i]).ip.bits < ip,
        forall|i: int| k <= i < state@.len() ==> (#[trigger] state@[i]).ip.bits >= ip,
{
    let mut k: usize = 0;
    while k < state.len() && state[k].ip.bits < ip
        invariant
            k <= state@.len(),
            strictly_sorted(state@),
            forall|i: int| 0 <= i < k ==> (#[trigger] state@[i]).ip.bits < ip,
        decreases state@.len() - k,
    {
        k = k + 1;
    }
    proof {
        if k < state@.len() {
            assert forall|i: int| k <= i < state@.len() implies (#[trigger] state@[i]).ip.bits
                >= ip by {
                if k < i {
                    assert(state@[k as int].ip.bits < state@[i].ip.bits);
                }
            }
        }
    }
    k
}

/// Puts `e` into a sorted state, keeping the later expiry where the address
/// is already there.
fn insert_max(state: &mut Vec<Entry>, e: Entry)
    requires
        strictly_sorted(old(state)@),
    ensures
        strictly_sorted(final(state)@),
        state_of(final(state)@) == upsert_max(state_of(old(state)@), e.ip.bits, e.expires_at),
{
    let k = lower_bound(state, e.ip.bits);
    let ghost before = state@;
    if k < state.len() && state[k].ip.bits == e.ip.bits {
        proof {
            lemma_state_of_entry(before, k as int);
        }
        if state[k].expires_at < e.expires_at {
            state.set(k, e);
            proof {
                let after = state@;
                assert(strictly_sorted(after)) by {
                    assert forall|i: int, j: int| 0 <= i < j < after.len() implies after[i].ip.bits
                        < after[j].ip.bits by {
                        assert(before[i].ip.bits < before[j].ip.bits);
                    }
                }
                assert forall|ip: u32| has_ip(after, ip) <==> has_ip(before, ip) by {
                    if has_ip(after, ip) {
                        let i = index_of_ip(after, ip);
                        assert(before[i].ip.bits == ip);
                    }
                    if has_ip(before, ip) {
                        let i = index_of_ip(before, ip);
                        assert(after[i].ip.bits == ip);
                    }
                }
                assert forall|ip: u32| has_ip(after, ip) implies #[trigger] state_of(after)[ip]
                    == upsert_max(state_of(before), e.ip.bits, e.expires_at)[ip] by {
                    let i = index_of_ip(after, ip);
                    lemma_state_of_entry(after, i);
                    lemma_state_of_entry(before, i);
                }
                assert(state_of(after) =~= upsert_max(
                    state_of(before),
                    e.ip.bits,
                    e.expires_at,
                ));
            }
        }
    } else {
        state.insert(k, e);
        proof {
            let after = state@;
            assert(strictly_sorted(after)) by {
                assert forall|i: int, j: int| 0 <= i < j < after.len() implies after[i].ip.bits
                    < after[j].ip.bits by {
                    let bi = if i < k { i } else { i - 1 };
                    let bj = if j < k { j } else { j - 1 };
                    if i != k && j != k {
                        assert(before[bi].ip.bits < before[bj].ip.bits);
                    } else if i == k {
                        assert(before[bj].ip.bits >= e.ip.bits);
                    } else {
                        assert(before[bi].ip.bits < e.ip.bits);
                    }
                }
            }
            assert(!has_ip(before, e.ip.bits)) by {
                if has_ip(before, e.ip.bits) {
                    let i = index_of_ip(before, e.ip.bits);
                    if i < k {
                        assert(before[i].ip.bits < e.ip.bits);
                    } else if i > k {
                        assert(before[k as int].ip.bits < before[i].ip.bits);
                    }
                }
            }
            assert(after[k as int] == e);
            assert forall|ip: u32| has_ip(after, ip) <==> (has_ip(before, ip) || ip
                == e.ip.bits) by {
                if has_ip(after, ip) {
                    let i = index_of_ip(after, ip);
                    if i < k {
                        assert(before[i].ip.bits == ip);
                    } else if i > k {
                        assert(before[i - 1].ip.bits == ip);
                    }
                }
                if has_ip(before, ip) {
                    let i = index_of_ip(before, ip);
                    if i < k {
                        assert(after[i].ip.bits == ip);
                    } else {
                        assert(after[i + 1].ip.bits == ip);
                    }
                }
            }
            assert forall|ip: u32| has_ip(after, ip) implies #[trigger] state_of(after)[ip]
                == upsert_max(state_of(before), e.ip.bits, e.expires_at)[ip] by {
                let i = index_of_ip(after, ip);
                lemma_state_of_entry(after, i);
                if i < k {
                    lemma_state_of_entry(before, i);
                } else if i > k {
                    lemma_state_of_entry(before, i - 1);
                }
            }
            assert(state_of(after) =~= upsert_max(state_of(before), e.ip.bits, e.expires_at));
        }
    }
}

/// The sorted state that `entries` give at instant `now`.
fn coalesce_entries(entries: &Vec<Entry>, now: u64) -> (state: Vec<Entry>)
    ensures
        strictly_sorted(state@),
        state_of(state@) == coalesce(entries@, now),
{
    let mut state: Vec<Entry> = Vec::new();
    let mut i: usize = 0;
    proof {
        assert(entries@.take(0) =~= Seq::<Entry>::empty());
        assert(state_of(state@) =~= Map::<u32, u64>::empty());
    }
    while i < entries.len()
        invariant
            i <= entries@.len(),
            strictly_sorted(state@),
            state_of(state@) == coalesce(entries@.take(i as int), now),
        decreases entries@.len() - i,
    {
        let e = entries[i];
        proof {
            assert(entries@.take(i + 1).drop_last() =~= entries@.take(i as int));
            assert(entries@.take(i + 1).last() == e);
        }
        if e.expires_at > now {
            insert_max(&mut state, e);
        }
        i = i + 1;
    }
    proof {
        assert(entries@.take(i as int) =~= entries@);
    }
    state
}

/// Whether one of the first `n` entries of `s` is for address `ip`.
spec fn has_ip_before(s: Seq<Entry>, n: int, ip: u32) -> bool {
    exists|j: int| 0 <= j < n && j < s.len() && #[trigger] s[j].ip.bits == ip
}

/// Whether `v` lists address `ip`.
spec fn lists_ip(v: Seq<Ipv4>, ip: u32) -> bool {
    exists|x: int| 0 <= x < v.len() && #[trigger] v[x].bits == ip
}

/// The addresses of `a` that `b` does not hold, in increasing order.
fn keys_missing(a: &Vec<Entry>, b: &Vec<Entry>) -> (out: Vec<Ipv4>)
    requires
        strictly_sorted(a@),
        strictly_sorted(b@),
    ensures
        is_sorted_listing(out@, state_of(a@).dom().difference(state_of(b@).dom())),
{
    let mut out: Vec<Ipv4> = Vec::new();
    let mut i: usize = 0;
    let ghost target = state_of(a@).dom().difference(state_of(b@).dom());
    while i < a.len()
        invariant
            i <= a@.len(),
            strictly_sorted(a@),
            strictly_sorted(b@),
            target == state_of(a@).dom().difference(state_of(b@).dom()),
            forall|x: int, y: int| 0 <= x < y < out@.len() ==> out@[x].bits < out@[y].bits,
            forall|x: int| 0 <= x < out@.len() ==> target.contains(#[trigger] out@[x].bits),
            forall|x: int|
                0 <= x < out@.len() ==> has_ip_before(a@, i as int, #[trigger] out@[x].bits),
            forall|j: int|
                0 <= j < i && target.contains(#[trigger] a@[j].ip.bits) ==> lists_ip(
                    out@,
                    a@[j].ip.bits,
                ),
        decreases a@.len() - i,
    {
        let ip = a[i].ip;
        let k = lower_bound(b, ip.bits);
        let found = k < b.len() && b[k].ip.bits == ip.bits;
        proof {
            lemma_state_of_entry(a@, i as int);
            if found {
                lemma_state_of_entry(b@, k as int);
            } else if has_ip(b@, ip.bits) {
                let j = index_of_ip(b@, ip.bits);
                if j < k {
                    assert(b@[j].ip.bits < ip.bits);
                } else if j > k {
                    assert(b@[k as int].ip.bits < b@[j].ip.bits);
                }
            }
        }
        let ghost prev = out@;
        if !found {
            out.push(ip);
        }
        proof {
            assert forall|x: int, y: int| 0 <= x < y < out@.len() implies out@[x].bits
                < out@[y].bits by {
                if y == prev.len() {
                    assert(has_ip_before(a@, i as int, prev[x].bits));
                    let j = choose|j: int|
                        0 <= j < i && j < a@.len() && #[trigger] a@[j].ip.bits == prev[x].bits;
                    assert(a@[j].ip.bits < a@[i as int].ip.bits);
                } else {
                    assert(prev[x].bits < prev[y].bits);
                }
            }
            assert forall|x: int| 0 <= x < out@.len() implies has_ip_before(
                a@,
                i + 1,
                #[trigger] out@[x].bits,
            ) by {
                if x == prev.len() {
                    assert(a@[i as int].ip.bits == out@[x].bits);
                } else {
                    assert(has_ip_before(a@, i as int, prev[x].bits));
                    let j = choose|j: int|
                        0 <= j < i && j < a@.len() && #[trigger] a@[j].ip.bits == prev[x].bits;
                    assert(a@[j].ip.bits == out@[x].bits);
                }
            }
            assert forall|j: int|
                0 <= j < i + 1 && target.contains(#[trigger] a@[j].ip.bits) implies lists_ip(
                out@,
                a@[j].ip.bits,
            ) by {
                if j == i {
                    assert(out@[prev.len() as int].bits == a@[j].ip.bits);
                } else {
                    assert(lists_ip(prev, a@[j].ip.bits));
                    let x = choose|x: int|
                        0 <= x < prev.len() && #[trigger] prev[x].bits == a@[j].ip.bits;
                    assert(out@[x].bits == a@[j].ip.bits);
                }
            }
        }
        i = i + 1;
    }
    proof {
        assert forall|ip: u32| #[trigger] target.contains(ip) implies exists|x: int|
            0 <= x < out@.len() && #[trigger] out@[x].bits == ip by {
            assert(has_ip(a@, ip));
            let j = index_of_ip(a@, ip);
            assert(target.contains(a@[j].ip.bits));
            assert(lists_ip(out@, ip));
        }
    }
    out
}

/// The cache as a map: domain name to the state of that domain.
pub type CacheMap = Map<Seq<char>, DomainMap>;

/// The state that `m` holds for domain `d`; empty where it holds none.
pub open spec fn domain_state(m: CacheMap, d: Seq<char>) -> DomainMap {
    if m.contains_key(d) {
        m[d]
    } else {
        Map::empty()
    }
}

/// Whether `m` holds address `ip` under domain `d`.
pub open spec fn holds(m: CacheMap, d: Seq<char>, ip: u32) -> bool {
    m.contains_key(d) && m[d].contains_key(ip)
}

/// The time from `now` until `exp`, zero where `exp` has passed.
pub open spec fn remaining(exp: u64, now: u64) -> u64 {
    if exp > now {
        (exp - now) as u64
    } else {
        0
    }
}

/// `r` is the shortest remaining time over all addresses that `m` holds at
/// instant `now`, and `None` exactly where `m` holds no address.
pub open spec fn is_next_refresh(m: CacheMap, now: u64, r: Option<u64>) -> bool {
    match r {
        None => forall|d: Seq<char>, ip: u32| !#[trigger] holds(m, d, ip),
        Some(v) => {
            &&& exists|d: Seq<char>, ip: u32| #[trigger]
                holds(m, d, ip) && remaining(m[d][ip], now) == v
            &&& forall|d: Seq<char>, ip: u32| #[trigger]
                holds(m, d, ip) ==> v <= remaining(m[d][ip], now)
        },
    }
}

/// The cache after the state of domain `d` has been replaced by what
/// `entries` give at instant `now`.
pub open spec fn applied(m: CacheMap, d: Seq<char>, now: u64, entries: Seq<Entry>) -> CacheMap {
    m.insert(d, coalesce(entries, now))
}

/// The addresses that such a replacement brings: in the new state of `d`
/// and not in the old one.
pub open spec fn added_set(m: CacheMap, d: Seq<char>, now: u64, entries: Seq<Entry>) -> Set<u32> {
    coalesce(entries, now).dom().difference(domain_state(m, d).dom())
}

/// The addresses that such a replacement drops: in the old state of `d` and
/// not in the new one.
pub open spec fn removed_set(m: CacheMap, d: Seq<char>, now: u64, entries: Seq<Entry>) -> Set<
    u32,
> {
    domain_state(m, d).dom().difference(coalesce(entries, now).dom())
}

/// Whether entry `i` of `entries` is for `ip` and still valid at `now`.
pub open spec fn live_at(entries: Seq<Entry>, now: u64, ip: u32, i: int) -> bool {
    0 <= i < entries.len() && entries[i].ip.bits == ip && entries[i].expires_at > now
}

/// The state that entries give holds exactly the addresses that have a
/// valid entry, each with the latest expiry among its valid entries; so no
/// address in it has expired.
pub proof fn lemma_coalesce(entries: Seq<Entry>, now: u64)
    ensures
        forall|ip: u32| #[trigger]
            coalesce(entries, now).contains_key(ip) <==> exists|i: int| #[trigger]
                live_at(entries, now, ip, i),
        forall|ip: u32| #[trigger]
            coalesce(entries, now).contains_key(ip) ==> coalesce(entries, now)[ip] > now,
        forall|ip: u32| #[trigger]
            coalesce(entries, now).contains_key(ip) ==> exists|i: int| #[trigger]
                live_at(entries, now, ip, i) && entries[i].expires_at == coalesce(
                    entries,
                    now,
                )[ip],
        forall|ip: u32, i: int| #[trigger]
            live_at(entries, now, ip, i) ==> entries[i].expires_at <= coalesce(entries, now)[ip],
    decreases entries.len(),
{
    if entries.len() > 0 {
        let rest = entries.drop_last();
        let e = entries.last();
        let n = rest.len() as int;
        lemma_coalesce(rest, now);
        let m = coalesce(entries, now);
        let r = coalesce(rest, now);
        assert forall|ip: u32, i: int| live_at(rest, now, ip, i) implies live_at(
            entries,
            now,
            ip,
            i,
        ) by {}
        assert forall|ip: u32, i: int| #[trigger] live_at(entries, now, ip, i) implies (if i < n {
            live_at(rest, now, ip, i)
        } else {
            e.expires_at > now && e.ip.bits == ip
        }) by {}
        assert forall|ip: u32| #[trigger] m.contains_key(ip) implies (exists|i: int| #[trigger]
            live_at(entries, now, ip, i) && entries[i].expires_at == m[ip]) by {
            if r.contains_key(ip) && r[ip] == m[ip] {
                let i = choose|i: int| #[trigger]
                    live_at(rest, now, ip, i) && rest[i].expires_at == r[ip];
                assert(live_at(entries, now, ip, i));
            } else {
                assert(live_at(entries, now, ip, n));
            }
        }
        assert forall|ip: u32| (exists|i: int| #[trigger] live_at(entries, now, ip, i))
            implies #[trigger] m.contains_key(ip) by {
            let i = choose|i: int| #[trigger] live_at(entries, now, ip, i);
            if i < n {
                assert(live_at(rest, now, ip, i));
            }
        }
        assert forall|ip: u32, i: int| #[trigger] live_at(entries, now, ip, i) implies entries[i].expires_at
            <= m[ip] by {
            if i < n {
                assert(live_at(rest, now, ip, i));
            }
        }
    }
}

/// Applying the same entries for the same domain at the same instant a
/// second time leaves the cache as it is and reports nothing added and
/// nothing removed.
pub proof fn lemma_apply_idempotent(
    m: CacheMap,
    d: Seq<char>,
    now: u64,
    entries: Seq<Entry>,
    added: Seq<Ipv4>,
    removed: Seq<Ipv4>,
)
    requires
        is_sorted_listing(added, added_set(applied(m, d, now, entries), d, now, entries)),
        is_sorted_listing(removed, removed_set(applied(m, d, now, entries), d, now, entries)),
    ensures
        applied(applied(m, d, now, entries), d, now, entries) == applied(m, d, now, entries),
        added.len() == 0,
        removed.len() == 0,
{
    let m1 = applied(m, d, now, entries);
    assert(applied(m1, d, now, entries) =~= m1);
    if added.len() > 0 {
        assert(added_set(m1, d, now, entries).contains(added[0].bits));
    }
    if removed.len() > 0 {
        assert(removed_set(m1, d, now, entries).contains(removed[0].bits));
    }
}

/// For a cache that stays as it is, the time until the next refresh does
/// not grow as the clock advances, and it is there at one instant exactly
/// if it is there at the other.
pub proof fn lemma_next_refresh_monotone(
    m: CacheMap,
    earlier: u64,
    later: u64,
    r1: Option<u64>,
    r2: Option<u64>,
)
    requires
        earlier <= later,
        is_next_refresh(m, earlier, r1),
        is_next_refresh(m, later, r2),
    ensures
        r1 is None <==> r2 is None,
        r1 is Some ==> r2->Some_0 <= r1->Some_0,
{
    match r1 {
        Some(v1) => {
            let (d, ip) = choose|d: Seq<char>, ip: u32| #[trigger]
                holds(m, d, ip) && remaining(m[d][ip], earlier) == v1;
            match r2 {
                Some(v2) => {
                    assert(v2 <= remaining(m[d][ip], later));
                },
                None => {
                    assert(!holds(m, d, ip));
                },
            }
        },
        None => {
            match r2 {
                Some(v2) => {
                    let (d, ip) = choose|d: Seq<char>, ip: u32| #[trigger]
                        holds(m, d, ip) && remaining(m[d][ip], later) == v2;
                    assert(!holds(m, d, ip));
                },
                None => {},
            }
        },
    }
}

/// The time until the next refresh is determined by the cache and the
/// instant.
pub proof fn lemma_next_refresh_unique(m: CacheMap, now: u64, r1: Option<u64>, r2: Option<u64>)
    requires
        is_next_refresh(m, now, r1),
        is_next_refresh(m, now, r2),
    ensures
        r1 == r2,
{
    lemma_next_refresh_monotone(m, now, now, r1, r2);
    lemma_next_refresh_monotone(m, now, now, r2, r1);
}

/// The entries kept for one domain, in increasing order of address.
struct DomainState {
    domain: String,
    ips: Vec<Entry>,
}

spec fn has_domain(s: Seq<DomainState>, d: Seq<char>) -> bool {
    exists|i: int| 0 <= i < s.len() && #[trigger] s[i].domain@ == d
}

spec fn index_of_domain(s: Seq<DomainState>, d: Seq<char>) -> int {
    choose|i: int| 0 <= i < s.len() && #[trigger] s[i].domain@ == d
}

spec fn domains_map(s: Seq<DomainState>) -> CacheMap {
    Map::new(
        |d: Seq<char>| has_domain(s, d),
        |d: Seq<char>| state_of(s[index_of_domain(s, d)].ips@),
    )
}

spec fn domains_wf(s: Seq<DomainState>) -> bool {
    &&& forall|i: int, j: int| 0 <= i < j < s.len() ==> s[i].domain@ != s[j].domain@
    &&& forall|i: int| 0 <= i < s.len() ==> strictly_sorted(#[trigger] s[i].ips@)
}

proof fn lemma_domains_map_entry(s: Seq<DomainState>, i: int)
    requires
        domains_wf(s),
        0 <= i < s.len(),
    ensures
        domains_map(s).contains_key(s[i].domain@),
        domains_map(s)[s[i].domain@] == state_of(s[i].ips@),
        index_of_domain(s, s[i].domain@) == i,
{
    let d = s[i].domain@;
    assert(has_domain(s, d));
    let j = index_of_domain(s, d);
    assert(0 <= j < s.len() && s[j].domain@ == d);
    if j < i {
        assert(s[j].domain@ != s[i].domain@);
    } else if i < j {
        assert(s[i].domain@ != s[j].domain@);
    }
}

/// The addresses currently allowed on behalf of each domain.
pub struct DnsCache {
    per_domain: Vec<DomainState>,
}

impl View for DnsCache {
    type V = CacheMap;

    closed spec fn view(&self) -> CacheMap {
        domains_map(self.per_domain@)
    }
}

impl Default for DnsCache {
    /// The cache that holds no domain.
    fn default() -> (cache: DnsCache)
        ensures
            cache.wf(),
            cache@ == Map::<Seq<char>, DomainMap>::empty(),
    {
        let cache = DnsCache { per_domain: Vec::new() };
        proof {
            assert(cache@ =~= Map::<Seq<char>, DomainMap>::empty());
        }
        cache
    }
}

impl DnsCache {
    /// No domain occurs twice, and each domain's entries are in increasing
    /// order of address.
    pub closed spec fn wf(&self) -> bool {
        domains_wf(self.per_domain@)
    }

    /// The index at which `domain` is kept.
    fn find(&self, domain: &String) -> (r: Option<usize>)
        requires
            self.wf(),
        ensures
            match r {
                Some(i) => i < self.per_domain@.len() && self.per_domain@[i as int].domain@
                    == domain@,
                None => !has_domain(self.per_domain@, domain@),
            },
    {
        let mut i: usize = 0;
        while i < self.per_domain.len()
            invariant
                i <= self.per_domain@.len(),
                forall|j: int| 0 <= j < i ==> (#[trigger] self.per_domain@[j]).domain@ != domain@,
            decreases self.per_domain@.len() - i,
        {
            if self.per_domain[i].domain == *domain {
                return Some(i);
            }
            i = i + 1;
        }
        proof {
            if has_domain(self.per_domain@, domain@) {
                let j = index_of_domain(self.per_domain@, domain@);
                assert(self.per_domain@[j].domain@ != domain@);
            }
        }
        None
    }

    /// Replaces the state of `domain` by what `new_entries` give at instant
    /// `now`, and reports which addresses came and which went.
    pub fn apply(&mut self, domain: &str, now: u64, new_entries: Vec<Entry>) -> (diff: UpdateDiff)
        requires
            old(self).wf(),
        ensures
            final(self).wf(),
            final(self)@ == applied(old(self)@, domain@, now, new_entries@),
            is_sorted_listing(diff.added@, added_set(old(self)@, domain@, now, new_entries@)),
            is_sorted_listing(diff.removed@, removed_set(old(self)@, domain@, now, new_entries@)),
    {
        self.apply_entries(domain, now, &new_entries)
    }

    /// As `apply`, for entries that the caller keeps.
    pub fn apply_entries(&mut self, domain: &str, now: u64, new_entries: &Vec<Entry>) -> (diff:
        UpdateDiff)
        requires
            old(self).wf(),
        ensures
            final(self).wf(),
            final(self)@ == applied(old(self)@, domain@, now, new_entries@),
            is_sorted_listing(diff.added@, added_set(old(self)@, domain@, now, new_entries@)),
            is_sorted_listing(diff.removed@, removed_set(old(self)@, domain@, now, new_entries@)),
    {
        let name = domain.to_owned();
        let fresh = coalesce_entries(new_entries, now);
        let ghost before = self.per_domain@;
        let ghost target = coalesce(new_entries@, now);
        match self.find(&name) {
            Some(i) => {
                proof {
                    lemma_domains_map_entry(before, i as int);
                }
                let added = keys_missing(&fresh, &self.per_domain[i].ips);
                let removed = keys_missing(&self.per_domain[i].ips, &fresh);
                self.per_domain.set(i, DomainState { domain: name, ips: fresh });
                proof {
                    let after = self.per_domain@;
                    assert(domains_wf(after)) by {
                        assert forall|a: int, b: int| 0 <= a < b < after.len() implies after[a].domain@
                            != after[b].domain@ by {
                            assert(before[a].domain@ != before[b].domain@);
                        }
                        assert forall|a: int| 0 <= a < after.len() implies strictly_sorted(
                            #[trigger] after[a].ips@,
                        ) by {
                            if a != i {
                                assert(after[a] == before[a]);
                                assert(strictly_sorted(before[a].ips@));
                            }
                        }
                    }
                    assert forall|d: Seq<char>| has_domain(after, d) <==> has_domain(before, d) by {
                        if has_domain(after, d) {
                            let a = index_of_domain(after, d);
                            assert(before[a].domain@ == d);
                        }
                        if has_domain(before, d) {
                            let a = index_of_domain(before, d);
                            assert(after[a].domain@ == d);
                        }
                    }
                    assert forall|d: Seq<char>| has_domain(after, d) implies #[trigger] domains_map(
                        after,
                    )[d] == domains_map(before).insert(domain@, target)[d] by {
                        let a = index_of_domain(after, d);
                        lemma_domains_map_entry(after, a);
                        lemma_domains_map_entry(before, a);
                    }
                    assert(domains_map(after) =~= domains_map(before).insert(domain@, target));
                }
                UpdateDiff { added, removed }
            },
            None => {
                let nothing: Vec<Entry> = Vec::new();
                proof {
                    assert(state_of(nothing@) =~= Map::<u32, u64>::empty());
                }
                let added = keys_missing(&fresh, &nothing);
                let removed = keys_missing(&nothing, &fresh);
                self.per_domain.push(DomainState { domain: name, ips: fresh });
                proof {
                    let after = self.per_domain@;
                    let n = before.len() as int;
                    assert(domains_wf(after)) by {
                        assert forall|a: int, b: int| 0 <= a < b < after.len() implies after[a].domain@
                            != after[b].domain@ by {
                            if b < n {
                                assert(before[a].domain@ != before[b].domain@);
                            } else {
                                assert(before[a].domain@ == after[a].domain@);
                            }
                        }
                        assert forall|a: int| 0 <= a < after.len() implies strictly_sorted(
                            #[trigger] after[a].ips@,
                        ) by {
                            if a < n {
                                assert(after[a] == before[a]);
                                assert(strictly_sorted(before[a].ips@));
                            }
                        }
                    }
                    assert(after[n].domain@ == domain@);
                    assert forall|d: Seq<char>| has_domain(after, d) <==> (has_domain(before, d)
                        || d == domain@) by {
                        if has_domain(after, d) {
                            let a = index_of_domain(after, d);
                            if a < n {
                                assert(before[a].domain@ == d);
                            }
                        }
                        if has_domain(before, d) {
                            let a = index_of_domain(before, d);
                            assert(after[a].domain@ == d);
                        }
                    }
                    assert forall|d: Seq<char>| has_domain(after, d) implies #[trigger] domains_map(
                        after,
                    )[d] == domains_map(before).insert(domain@, target)[d] by {
                        let a = index_of_domain(after, d);
                        lemma_domains_map_entry(after, a);
                        if a < n {
                            assert(after[a] == before[a]);
                            lemma_domains_map_entry(before, a);
                        }
                    }
                    assert(domains_map(after) =~= domains_map(before).insert(domain@, target));
                }
                UpdateDiff { added, removed }
            },
        }
    }

    /// The time until the earliest expiry among all cached addresses, zero
    /// where one has already expired; `None` where the cache holds no address.
    pub fn next_refresh_in(&self, now: u64) -> (r: Option<u64>)
        requires
            self.wf(),
        ensures
            is_next_refresh(self@, now, r),
    {
        let mut best: Option<u64> = None;
        let mut i: usize = 0;
        let ghost s = self.per_domain@;
        while i < self.per_domain.len()
            invariant
                i <= s.len(),
                s == self.per_domain@,
                domains_wf(s),
                is_min_before(s, i as int, now, best),
            decreases s.len() - i,
        {
            let ips = &self.per_domain[i].ips;
            let mut j: usize = 0;
            let ghost outer = best;
            while j < ips.len()
                invariant
                    i < s.len(),
                    j <= ips@.len(),
                    ips@ == s[i as int].ips@,
                    is_min_before(s, i as int, now, outer),
                    is_min_upto(s, i as int, j as int, now, best),
                decreases ips@.len() - j,
            {
                let exp = ips[j].expires_at;
                let left: u64 = if exp > now { exp - now } else { 0 };
                let ghost prev = best;
                best = match best {
                    Some(v) => if left < v { Some(left) } else { Some(v) },
                    None => Some(left),
                };
                proof {
                    assert(visited(s, i as int, j + 1, i as int, j as int));
                    match prev {
                        Some(v) => {
                            let (a, b) = choose|a: int, b: int| #[trigger]
                                visited(s, i as int, j as int, a, b) && remaining(
                                    s[a].ips@[b].expires_at,
                                    now,
                                ) == v;
                            assert(visited(s, i as int, j + 1, a, b));
                        },
                        None => {},
                    }
                    assert forall|a: int, b: int| #[trigger]
                        visited(s, i as int, j + 1, a, b) implies best.unwrap() <= remaining(
                        s[a].ips@[b].expires_at,
                        now,
                    ) by {
                        if !(a == i && b == j) {
                            assert(visited(s, i as int, j as int, a, b));
                        }
                    }
                }
                j = j + 1;
            }
            proof {
                assert forall|a: int, b: int| #[trigger]
                    visited(s, i + 1, 0, a, b) <==> visited(s, i as int, j as int, a, b) by {}
                match best {
                    Some(v) => {
                        let (a, b) = choose|a: int, b: int| #[trigger]
                            visited(s, i as int, j as int, a, b) && remaining(
                                s[a].ips@[b].expires_at,
                                now,
                            ) == v;
                        assert(visited(s, i + 1, 0, a, b));
                    },
                    None => {},
                }
            }
            i = i + 1;
        }
        proof {
            let m = self@;
            assert forall|d: Seq<char>, ip: u32| #[trigger] holds(m, d, ip) implies exists|
                a: int,
                b: int,
            | #[trigger]
                visited(s, i as int, 0, a, b) && m[d][ip] == s[a].ips@[b].expires_at by {
                let a = index_of_domain(s, d);
                assert(has_domain(s, d));
                lemma_domains_map_entry(s, a);
                assert(has_ip(s[a].ips@, ip));
                let b = index_of_ip(s[a].ips@, ip);
                lemma_state_of_entry(s[a].ips@, b);
                assert(visited(s, i as int, 0, a, b));
            }
            match best {
                Some(v) => {
                    let (a, b) = choose|a: int, b: int| #[trigger]
                        visited(s, i as int, 0, a, b) && remaining(s[a].ips@[b].expires_at, now)
                            == v;
                    lemma_domains_map_entry(s, a);
                    lemma_state_of_entry(s[a].ips@, b);
                    assert(holds(m, s[a].domain@, s[a].ips@[b].ip.bits));
                    assert forall|d: Seq<char>, ip: u32| #[trigger] holds(m, d, ip) implies v
                        <= remaining(m[d][ip], now) by {
                        let (a2, b2) = choose|a2: int, b2: int| #[trigger]
                            visited(s, i as int, 0, a2, b2) && m[d][ip]
                                == s[a2].ips@[b2].expires_at;
                    }
                },
                None => {
                    assert forall|d: Seq<char>, ip: u32| !#[trigger] holds(m, d, ip) by {
                        if holds(m, d, ip) {
                            let (a2, b2) = choose|a2: int, b2: int| #[trigger]
                                visited(s, i as int, 0, a2, b2) && m[d][ip]
                                    == s[a2].ips@[b2].expires_at;
                        }
                    }
                },
            }
        }
        best
    }
}

/// Whether entry `b` of domain `a` comes before entry `j` of domain `i`.
spec fn visited(s: Seq<DomainState>, i: int, j: int, a: int, b: int) -> bool {
    &&& 0 <= a < s.len()
    &&& 0 <= b < s[a].ips@.len()
    &&& a < i || (a == i && b < j)
}

/// `r` is the shortest remaining time over the entries before entry `j` of
/// domain `i`.
spec fn is_min_upto(s: Seq<DomainState>, i: int, j: int, now: u64, r: Option<u64>) -> bool {
    match r {
        None => forall|a: int, b: int| !#[trigger] visited(s, i, j, a, b),
        Some(v) => {
            &&& exists|a: int, b: int| #[trigger]
                visited(s, i, j, a, b) && remaining(s[a].ips@[b].expires_at, now) == v
            &&& forall|a: int, b: int| #[trigger]
                visited(s, i, j, a, b) ==> v <= remaining(s[a].ips@[b].expires_at, now)
        },
    }
}

/// `r` is the shortest remaining time over the entries of the domains
/// before domain `i`.
spec fn is_min_before(s: Seq<DomainState>, i: int, now: u64, r: Option<u64>) -> bool {
    is_min_upto(s, i, 0, now, r)
}

} // verus!

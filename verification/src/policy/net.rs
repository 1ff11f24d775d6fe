//! The network side of a policy: everything allowed, or a list of
//! addresses, ranges and domain names.

use vstd::prelude::*;
use crate::addr::Ipv4;
use crate::error::{is_entry_error, MoriError};
use crate::net::parser::{names, parse_allow_network, parsed, push_new, RulesView};

verus! {

/// What the child may connect to.
#[derive(Debug)]
pub enum AllowPolicy {
    /// Any destination.
    All,
    /// The listed addresses, ranges and domains, and nothing else.
    Entries { allowed_ipv4: Vec<Ipv4>, allowed_cidr: Vec<(Ipv4, u8)>, allowed_domains: Vec<String> },
}

/// A network policy as a value of specifications.
pub enum PolicyView {
    All,
    Entries(RulesView),
}

impl View for AllowPolicy {
    type V = PolicyView;

    open spec fn view(&self) -> PolicyView {
        match self {
            AllowPolicy::All => PolicyView::All,
            AllowPolicy::Entries { allowed_ipv4, allowed_cidr, allowed_domains } => PolicyView::Entries(
                RulesView {
                    direct_v4: allowed_ipv4@,
                    cidr_v4: allowed_cidr@,
                    domains: names(allowed_domains@),
                },
            ),
        }
    }
}

/// The network policy of a run.
#[derive(Debug)]
pub struct NetworkPolicy {
    pub policy: AllowPolicy,
}

impl View for NetworkPolicy {
    type V = PolicyView;

    open spec fn view(&self) -> PolicyView {
        self.policy@
    }
}

/// `a` followed by the items of `b` that it does not hold yet, in their
/// order.
pub open spec fn union_seq<T>(a: Seq<T>, b: Seq<T>) -> Seq<T>
    decreases b.len(),
{
    if b.len() == 0 {
        a
    } else {
        push_new(union_seq(a, b.drop_last()), b.last())
    }
}

/// The union of two lists of rules, kind by kind.
pub open spec fn union_rules(a: RulesView, b: RulesView) -> RulesView {
    RulesView {
        direct_v4: union_seq(a.direct_v4, b.direct_v4),
        cidr_v4: union_seq(a.cidr_v4, b.cidr_v4),
        domains: union_seq(a.domains, b.domains),
    }
}

/// The policy that allows what `a` allows and what `b` allows.
pub open spec fn merged(a: PolicyView, b: PolicyView) -> PolicyView {
    match (a, b) {
        (PolicyView::Entries(x), PolicyView::Entries(y)) => PolicyView::Entries(union_rules(x, y)),
        _ => PolicyView::All,
    }
}

/// The policy that allows nothing.
pub open spec fn deny_all() -> PolicyView {
    PolicyView::Entries(
        RulesView { direct_v4: Seq::empty(), cidr_v4: Seq::empty(), domains: Seq::empty() },
    )
}

/// No rule occurs twice.
pub open spec fn duplicate_free(p: PolicyView) -> bool {
    match p {
        PolicyView::All => true,
        PolicyView::Entries(r) => r.direct_v4.no_duplicates() && r.cidr_v4.no_duplicates()
            && r.domains.no_duplicates(),
    }
}

fn extend_ips(base: &mut Vec<Ipv4>, other: &Vec<Ipv4>)
    ensures
        final(base)@ == union_seq(old(base)@, other@),
{
    let mut i: usize = 0;
    proof {
        assert(other@.take(0) =~= Seq::<Ipv4>::empty());
    }
    while i < other.len()
        invariant
            i <= other@.len(),
            base@ == union_seq(old(base)@, other@.take(i as int)),
        decreases other@.len() - i,
    {
        let x = other[i];
        proof {
            assert(other@.take(i + 1).drop_last() =~= other@.take(i as int));
            assert(other@.take(i + 1).last() == x);
        }
        let mut found = false;
        let mut k: usize = 0;
        while k < base.len() && !found
            invariant
                k <= base@.len(),
                found ==> base@.contains(x),
                !found ==> forall|j: int| 0 <= j < k ==> base@[j] != x,
            decreases base@.len() - k + if found { 0int } else { 1int },
        {
            if base[k] == x {
                found = true;
            } else {
                k = k + 1;
            }
        }
        if !found {
            base.push(x);
        }
        i = i + 1;
    }
    proof {
        assert(other@.take(i as int) =~= other@);
    }
}

fn extend_cidrs(base: &mut Vec<(Ipv4, u8)>, other: &Vec<(Ipv4, u8)>)
    ensures
        final(base)@ == union_seq(old(base)@, other@),
{
    let mut i: usize = 0;
    proof {
        assert(other@.take(0) =~= Seq::<(Ipv4, u8)>::empty());
    }
    while i < other.len()
        invariant
            i <= other@.len(),
            base@ == union_seq(old(base)@, other@.take(i as int)),
        decreases other@.len() - i,
    {
        let x = other[i];
        proof {
            assert(other@.take(i + 1).drop_last() =~= other@.take(i as int));
            assert(other@.take(i + 1).last() == x);
        }
        let mut found = false;
        let mut k: usize = 0;
        while k < base.len() && !found
            invariant
                k <= base@.len(),
                found ==> base@.contains(x),
                !found ==> forall|j: int| 0 <= j < k ==> base@[j] != x,
            decreases base@.len() - k + if found { 0int } else { 1int },
        {
            if base[k].0 == x.0 && base[k].1 == x.1 {
                found = true;
            } else {
                k = k + 1;
            }
        }
        if !found {
            base.push(x);
        }
        i = i + 1;
    }
    proof {
        assert(other@.take(i as int) =~= other@);
    }
}

fn extend_names(base: &mut Vec<String>, other: &Vec<String>)
    ensures
        names(final(base)@) == union_seq(names(old(base)@), names(other@)),
{
    let mut i: usize = 0;
    let ghost theirs = names(other@);
    proof {
        assert(theirs.take(0) =~= Seq::<Seq<char>>::empty());
    }
    while i < other.len()
        invariant
            i <= other@.len(),
            theirs == names(other@),
            names(base@) == union_seq(names(old(base)@), theirs.take(i as int)),
        decreases other@.len() - i,
    {
        let x = other[i].clone();
        proof {
            assert(theirs.take(i + 1).drop_last() =~= theirs.take(i as int));
            assert(theirs.take(i + 1).last() == x@);
        }
        let mut found = false;
        let mut k: usize = 0;
        while k < base.len() && !found
            invariant
                k <= base@.len(),
                found ==> names(base@).contains(x@),
                !found ==> forall|j: int| 0 <= j < k ==> names(base@)[j] != x@,
            decreases base@.len() - k + if found { 0int } else { 1int },
        {
            if base[k] == x {
                proof {
                    assert(names(base@)[k as int] == x@);
                }
                found = true;
            } else {
                k = k + 1;
            }
        }
        if !found {
            let ghost before = base@;
            base.push(x);
            proof {
                assert(names(base@) =~= names(before).push(x@));
            }
        }
        i = i + 1;
    }
    proof {
        assert(theirs.take(i as int) =~= theirs);
    }
}

/// The policy that allows what `a` allows and what `b` allows.
fn merge_policies(a: AllowPolicy, b: AllowPolicy) -> (r: AllowPolicy)
    ensures
        r@ == merged(a@, b@),
{
    match a {
        AllowPolicy::All => AllowPolicy::All,
        AllowPolicy::Entries { allowed_ipv4, allowed_cidr, allowed_domains } => {
            match b {
                AllowPolicy::All => AllowPolicy::All,
                AllowPolicy::Entries {
                    allowed_ipv4: other_ips,
                    allowed_cidr: other_cidrs,
                    allowed_domains: other_domains,
                } => {
                    let mut ips = allowed_ipv4;
                    let mut cidrs = allowed_cidr;
                    let mut domains = allowed_domains;
                    extend_ips(&mut ips, &other_ips);
                    extend_cidrs(&mut cidrs, &other_cidrs);
                    extend_names(&mut domains, &other_domains);
                    AllowPolicy::Entries {
                        allowed_ipv4: ips,
                        allowed_cidr: cidrs,
                        allowed_domains: domains,
                    }
                },
            }
        },
    }
}

impl Default for NetworkPolicy {
    /// The policy that allows nothing.
    fn default() -> (p: NetworkPolicy)
        ensures
            p@ == deny_all(),
    {
        let p = NetworkPolicy {
            policy: AllowPolicy::Entries {
                allowed_ipv4: Vec::new(),
                allowed_cidr: Vec::new(),
                allowed_domains: Vec::new(),
            },
        };
        proof {
            assert(p@->Entries_0.domains =~= Seq::<Seq<char>>::empty());
        }
        p
    }
}

impl NetworkPolicy {
    /// The policy that allows nothing.
    pub fn new() -> (p: NetworkPolicy)
        ensures
            p@ == deny_all(),
    {
        NetworkPolicy::default()
    }

    /// The policy that allows everything, or the one that allows nothing.
    pub fn from_allow_all(allow_all: bool) -> (p: NetworkPolicy)
        ensures
            p@ == (if allow_all {
                PolicyView::All
            } else {
                deny_all()
            }),
    {
        if allow_all {
            NetworkPolicy { policy: AllowPolicy::All }
        } else {
            NetworkPolicy::default()
        }
    }

    /// The policy that allows what the entries name; the first entry that
    /// is refused fails the whole list.
    pub fn from_entries(entries: &[String]) -> (r: Result<NetworkPolicy, MoriError>)
        ensures
            match r {
                Ok(p) => match parsed(names(entries@)) {
                    Ok(rules) => p@ == PolicyView::Entries(rules),
                    Err(_) => false,
                },
                Err(e) => match parsed(names(entries@)) {
                    Ok(_) => false,
                    Err((i, f)) => 0 <= i < entries@.len() && is_entry_error(e, entries@[i]@, f),
                },
            },
    {
        match parse_allow_network(entries) {
            Ok(rules) => Ok(
                NetworkPolicy {
                    policy: AllowPolicy::Entries {
                        allowed_ipv4: rules.direct_v4,
                        allowed_cidr: rules.cidr_v4,
                        allowed_domains: rules.domains,
                    },
                },
            ),
            Err(e) => Err(e),
        }
    }

    /// Whether the policy allows everything.
    pub fn is_allow_all(&self) -> (b: bool)
        ensures
            b == (self@ is All),
    {
        match self.policy {
            AllowPolicy::All => true,
            _ => false,
        }
    }

    /// Makes the policy allow what `other` allows too.
    pub fn merge(&mut self, other: NetworkPolicy)
        ensures
            final(self)@ == merged(old(self)@, other@),
    {
        let mut mine = AllowPolicy::All;
        core::mem::swap(&mut self.policy, &mut mine);
        self.policy = merge_policies(mine, other.policy);
    }
}

/// Whether two policies allow the same: both everything, or the same
/// addresses, ranges and domains, in whatever order.
pub open spec fn same_policy(p: PolicyView, q: PolicyView) -> bool {
    match (p, q) {
        (PolicyView::All, PolicyView::All) => true,
        (PolicyView::Entries(x), PolicyView::Entries(y)) => x.direct_v4.to_set()
            == y.direct_v4.to_set() && x.cidr_v4.to_set() == y.cidr_v4.to_set()
            && x.domains.to_set() == y.domains.to_set(),
        _ => false,
    }
}

/// The union of two lists holds what either holds, and has no repeats
/// where the first has none.
pub proof fn lemma_union_seq<T>(a: Seq<T>, b: Seq<T>)
    ensures
        union_seq(a, b).to_set() == a.to_set().union(b.to_set()),
        a.no_duplicates() ==> union_seq(a, b).no_duplicates(),
    decreases b.len(),
{
    if b.len() == 0 {
        assert(a.to_set().union(b.to_set()) =~= a.to_set());
    } else {
        let rest = b.drop_last();
        let x = b.last();
        lemma_union_seq(a, rest);
        let u = union_seq(a, rest);
        let v = union_seq(a, b);
        assert forall|y: T| v.contains(y) <==> (u.contains(y) || y == x) by {
            if u.contains(x) {
            } else {
                if v.contains(y) {
                    let i = choose|i: int| 0 <= i < v.len() && v[i] == y;
                    if i < u.len() {
                        assert(u[i] == y);
                    }
                }
                if u.contains(y) {
                    let i = choose|i: int| 0 <= i < u.len() && u[i] == y;
                    assert(v[i] == y);
                }
                assert(v[u.len() as int] == x);
            }
        }
        assert forall|y: T| b.contains(y) <==> (rest.contains(y) || y == x) by {
            if b.contains(y) {
                let i = choose|i: int| 0 <= i < b.len() && b[i] == y;
                if i < rest.len() {
                    assert(rest[i] == y);
                }
            }
            if rest.contains(y) {
                let i = choose|i: int| 0 <= i < rest.len() && rest[i] == y;
                assert(b[i] == y);
            }
            assert(b[b.len() - 1] == x);
        }
        assert(v.to_set() =~= a.to_set().union(b.to_set())) by {
            assert forall|y: T| v.to_set().contains(y) <==> a.to_set().union(
                b.to_set(),
            ).contains(y) by {
                assert(u.to_set().contains(y) <==> a.to_set().union(rest.to_set()).contains(y));
            }
        }
        if a.no_duplicates() && !u.contains(x) {
            assert forall|i: int, j: int| 0 <= i < v.len() && 0 <= j < v.len() && i != j implies v[i]
                != v[j] by {
                if i < u.len() && j < u.len() {
                    assert(u[i] != u[j]);
                } else if i < u.len() {
                    assert(u.contains(u[i]));
                } else {
                    assert(u.contains(u[j]));
                }
            }
        }
    }
}

/// Merging is associative as far as what is allowed goes: the two ways of
/// merging three policies allow the same.
pub proof fn lemma_merge_associative(a: PolicyView, b: PolicyView, c: PolicyView)
    ensures
        same_policy(merged(a, merged(b, c)), merged(merged(a, b), c)),
{
    match (a, b, c) {
        (PolicyView::Entries(x), PolicyView::Entries(y), PolicyView::Entries(z)) => {
            lemma_union_seq(y.direct_v4, z.direct_v4);
            lemma_union_seq(x.direct_v4, union_seq(y.direct_v4, z.direct_v4));
            lemma_union_seq(x.direct_v4, y.direct_v4);
            lemma_union_seq(union_seq(x.direct_v4, y.direct_v4), z.direct_v4);
            lemma_union_seq(y.cidr_v4, z.cidr_v4);
            lemma_union_seq(x.cidr_v4, union_seq(y.cidr_v4, z.cidr_v4));
            lemma_union_seq(x.cidr_v4, y.cidr_v4);
            lemma_union_seq(union_seq(x.cidr_v4, y.cidr_v4), z.cidr_v4);
            lemma_union_seq(y.domains, z.domains);
            lemma_union_seq(x.domains, union_seq(y.domains, z.domains));
            lemma_union_seq(x.domains, y.domains);
            lemma_union_seq(union_seq(x.domains, y.domains), z.domains);
            let l = merged(a, merged(b, c))->Entries_0;
            let r = merged(merged(a, b), c)->Entries_0;
            assert(l.direct_v4.to_set() =~= r.direct_v4.to_set());
            assert(l.cidr_v4.to_set() =~= r.cidr_v4.to_set());
            assert(l.domains.to_set() =~= r.domains.to_set());
        },
        _ => {},
    }
}

/// Merging is commutative as far as what is allowed goes.
pub proof fn lemma_merge_commutative(a: PolicyView, b: PolicyView)
    ensures
        same_policy(merged(a, b), merged(b, a)),
{
    match (a, b) {
        (PolicyView::Entries(x), PolicyView::Entries(y)) => {
            lemma_union_seq(x.direct_v4, y.direct_v4);
            lemma_union_seq(y.direct_v4, x.direct_v4);
            lemma_union_seq(x.cidr_v4, y.cidr_v4);
            lemma_union_seq(y.cidr_v4, x.cidr_v4);
            lemma_union_seq(x.domains, y.domains);
            lemma_union_seq(y.domains, x.domains);
            let l = merged(a, b)->Entries_0;
            let r = merged(b, a)->Entries_0;
            assert(l.direct_v4.to_set() =~= r.direct_v4.to_set());
            assert(l.cidr_v4.to_set() =~= r.cidr_v4.to_set());
            assert(l.domains.to_set() =~= r.domains.to_set());
        },
        _ => {},
    }
}

proof fn lemma_union_seq_within<T>(a: Seq<T>, b: Seq<T>)
    requires
        forall|i: int| 0 <= i < b.len() ==> a.contains(#[trigger] b[i]),
    ensures
        union_seq(a, b) == a,
    decreases b.len(),
{
    if b.len() > 0 {
        let rest = b.drop_last();
        assert forall|i: int| 0 <= i < rest.len() implies a.contains(#[trigger] rest[i]) by {
            assert(rest[i] == b[i]);
        }
        lemma_union_seq_within(a, rest);
        assert(a.contains(b[b.len() - 1]));
    }
}

/// Merging a policy with itself leaves it as it is.
pub proof fn lemma_merge_idempotent(a: PolicyView)
    ensures
        merged(a, a) == a,
{
    match a {
        PolicyView::Entries(x) => {
            lemma_union_seq_within(x.direct_v4, x.direct_v4);
            lemma_union_seq_within(x.cidr_v4, x.cidr_v4);
            lemma_union_seq_within(x.domains, x.domains);
        },
        PolicyView::All => {},
    }
}

/// A policy that allows everything absorbs any policy merged with it, from
/// either side.
pub proof fn lemma_merge_absorbing(a: PolicyView)
    ensures
        merged(PolicyView::All, a) == PolicyView::All,
        merged(a, PolicyView::All) == PolicyView::All,
{
}

/// Merging into a policy without repeats gives a policy without repeats.
pub proof fn lemma_merge_duplicate_free(a: PolicyView, b: PolicyView)
    requires
        duplicate_free(a),
    ensures
        duplicate_free(merged(a, b)),
{
    match (a, b) {
        (PolicyView::Entries(x), PolicyView::Entries(y)) => {
            lemma_union_seq(x.direct_v4, y.direct_v4);
            lemma_union_seq(x.cidr_v4, y.cidr_v4);
            lemma_union_seq(x.domains, y.domains);
        },
        _ => {},
    }
}

} // verus!

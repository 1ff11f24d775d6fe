//! Network entries: each is an IPv4 address, a CIDR range or a domain
//! name, with an optional port that is checked and dropped.

use vstd::prelude::*;
use vstd::string::*;
use crate::addr::Ipv4;
use crate::error::{is_entry_error, EntryFault, MoriError};
use crate::net::grammar::{
    all_digits, bounded_decimal, char_is_digit, check_ipv6, ipv4_value, is_digit, is_ipv6_text,
    parse_decimal, parse_ipv4,
};
use crate::net::text::{
    chars_of, find_char, find_first, find_last, lemma_rfind_char, rfind_char, slice_of,
    trim_bounds, trimmed,
};

verus! {

/// What one entry names.
#[derive(Debug)]
pub enum HostSpec {
    Ip(Ipv4),
    /// An address and a prefix length of at most 32.
    Cidr(Ipv4, u8),
    Domain(String),
}

/// What one entry names, as a value of specifications.
pub enum HostView {
    Ip(Ipv4),
    Cidr(Ipv4, u8),
    Domain(Seq<char>),
}

impl View for HostSpec {
    type V = HostView;

    open spec fn view(&self) -> HostView {
        match self {
            HostSpec::Ip(ip) => HostView::Ip(*ip),
            HostSpec::Cidr(ip, n) => HostView::Cidr(*ip, *n),
            HostSpec::Domain(d) => HostView::Domain(d@),
        }
    }
}

/// The number that a prefix length writes: digits, with `+` in front of
/// them or not, that write at most 255.
pub open spec fn prefix_value(s: Seq<char>) -> Option<int> {
    if s.len() > 0 && s[0] == '+' {
        bounded_decimal(s.skip(1), 255)
    } else {
        bounded_decimal(s, 255)
    }
}

/// What a host text names: an IPv4 address where it is a dotted quad, a
/// fault where it has the form of an IPv6 address, a domain name otherwise.
pub open spec fn classify_host(host: Seq<char>) -> Result<HostView, EntryFault> {
    match ipv4_value(host) {
        Some(bits) => Ok(HostView::Ip(Ipv4 { bits })),
        None => if is_ipv6_text(host) {
            Err(EntryFault::Ipv6Address)
        } else {
            Ok(HostView::Domain(host))
        },
    }
}

/// What a range text names, `p` being the index of its first `/`.
pub open spec fn classify_cidr(s: Seq<char>, p: int) -> Result<HostView, EntryFault> {
    match prefix_value(s.skip(p + 1)) {
        None => Err(EntryFault::InvalidCidrPrefix),
        Some(n) => if n > 32 {
            Err(EntryFault::CidrPrefixTooLarge)
        } else {
            match ipv4_value(s.take(p)) {
                Some(bits) => Ok(HostView::Cidr(Ipv4 { bits }, n as u8)),
                None => if is_ipv6_text(s.take(p)) {
                    Err(EntryFault::Ipv6Cidr)
                } else {
                    Err(EntryFault::InvalidCidrAddress)
                },
            }
        },
    }
}

/// What the entry `s` names, and the port that it gives.
///
/// A text with `/` is a range. A dotted quad is an address. A text of the
/// form of an IPv6 address, or one that starts with `[`, is refused. A text
/// that ends in `:` and digits, with something in front, is a host and a
/// port. Any other text is a domain name, as it stands.
pub open spec fn classify(s: Seq<char>) -> Result<(HostView, Option<u16>), EntryFault> {
    let p = find_char(s, '/');
    let q = rfind_char(s, ':');
    if s.len() == 0 {
        Err(EntryFault::EmptyValue)
    } else if p < s.len() {
        match classify_cidr(s, p) {
            Ok(h) => Ok((h, None)),
            Err(e) => Err(e),
        }
    } else if ipv4_value(s) is Some || is_ipv6_text(s) {
        match classify_host(s) {
            Ok(h) => Ok((h, None)),
            Err(e) => Err(e),
        }
    } else if s[0] == '[' {
        Err(EntryFault::Ipv6Address)
    } else if q >= 1 && all_digits(s.skip(q + 1)) {
        match bounded_decimal(s.skip(q + 1), 65535) {
            None => Err(EntryFault::InvalidPort),
            Some(port) => match classify_host(s.take(q)) {
                Ok(h) => Ok((h, Some(port as u16))),
                Err(e) => Err(e),
            },
        }
    } else {
        Ok((HostView::Domain(s), None))
    }
}

/// Whether `v` is digits only.
fn check_all_digits(v: &Vec<char>) -> (b: bool)
    ensures
        b == all_digits(v@),
{
    let mut i: usize = 0;
    while i < v.len()
        invariant
            i <= v@.len(),
            forall|k: int| 0 <= k < i ==> is_digit(#[trigger] v@[k]),
        decreases v@.len() - i,
    {
        if !char_is_digit(v[i]) {
            return false;
        }
        i = i + 1;
    }
    true
}

/// Reads the host text `text`, whose characters are `chars`.
fn parse_host(text: &str, chars: &Vec<char>) -> (r: Result<HostSpec, EntryFault>)
    requires
        chars@ == text@,
    ensures
        match r {
            Ok(h) => classify_host(text@) == Ok::<HostView, EntryFault>(h@),
            Err(e) => classify_host(text@) == Err::<HostView, EntryFault>(e),
        },
{
    match parse_ipv4(chars) {
        Some(bits) => Ok(HostSpec::Ip(Ipv4::from_bits(bits))),
        None => {
            if check_ipv6(chars) {
                Err(EntryFault::Ipv6Address)
            } else {
                Ok(HostSpec::Domain(text.to_owned()))
            }
        },
    }
}

/// Reads the range text whose characters are `chars`, `p` being the index
/// of its first `/`.
fn parse_cidr(chars: &Vec<char>, p: usize) -> (r: Result<HostSpec, EntryFault>)
    requires
        p < chars@.len(),
    ensures
        match r {
            Ok(h) => classify_cidr(chars@, p as int) == Ok::<HostView, EntryFault>(h@),
            Err(e) => classify_cidr(chars@, p as int) == Err::<HostView, EntryFault>(e),
        },
{
    let n = chars.len();
    let prefix = slice_of(chars, p + 1, n);
    let addr = slice_of(chars, 0, p);
    proof {
        assert(prefix@ =~= chars@.skip(p + 1));
        assert(addr@ =~= chars@.take(p as int));
    }
    let digits = if prefix.len() > 0 && prefix[0] == '+' {
        let d = slice_of(&prefix, 1, prefix.len());
        proof {
            assert(d@ =~= prefix@.skip(1));
        }
        d
    } else {
        prefix
    };
    let n = match parse_decimal(&digits, 255) {
        Some(n) => n,
        None => { return Err(EntryFault::InvalidCidrPrefix); },
    };
    if n > 32 {
        return Err(EntryFault::CidrPrefixTooLarge);
    }
    match parse_ipv4(&addr) {
        Some(bits) => Ok(HostSpec::Cidr(Ipv4::from_bits(bits), n as u8)),
        None => {
            if check_ipv6(&addr) {
                Err(EntryFault::Ipv6Cidr)
            } else {
                Err(EntryFault::InvalidCidrAddress)
            }
        },
    }
}

/// Reads one entry, which is trimmed already.
pub fn parse_single_rule(input: &str) -> (r: Result<(HostSpec, Option<u16>), EntryFault>)
    ensures
        match r {
            Ok((h, port)) => classify(input@) == Ok::<(HostView, Option<u16>), EntryFault>(
                (h@, port),
            ),
            Err(e) => classify(input@) == Err::<(HostView, Option<u16>), EntryFault>(e),
        },
{
    let chars = chars_of(input);
    let n = chars.len();
    if n == 0 {
        return Err(EntryFault::EmptyValue);
    }
    let p = find_first(&chars, '/');
    if p < n {
        return match parse_cidr(&chars, p) {
            Ok(h) => Ok((h, None)),
            Err(e) => Err(e),
        };
    }
    let is_v4 = parse_ipv4(&chars).is_some();
    if is_v4 || check_ipv6(&chars) {
        return match parse_host(input, &chars) {
            Ok(h) => Ok((h, None)),
            Err(e) => Err(e),
        };
    }
    if chars[0] == '[' {
        return Err(EntryFault::Ipv6Address);
    }
    proof {
        lemma_rfind_char(chars@, ':');
    }
    match find_last(&chars, ':') {
        Some(q) => {
            if q >= 1 {
                let port_text = slice_of(&chars, q + 1, n);
                proof {
                    assert(port_text@ =~= chars@.skip(q + 1));
                }
                if check_all_digits(&port_text) {
                    let port = match parse_decimal(&port_text, 65535) {
                        Some(port) => port,
                        None => { return Err(EntryFault::InvalidPort); },
                    };
                    let host = input.substring_char(0, q);
                    let host_chars = slice_of(&chars, 0, q);
                    proof {
                        assert(host@ =~= input@.take(q as int));
                    }
                    return match parse_host(host, &host_chars) {
                        Ok(h) => Ok((h, Some(port as u16))),
                        Err(e) => Err(e),
                    };
                }
            }
        },
        None => {},
    }
    Ok((HostSpec::Domain(input.to_owned()), None))
}

/// The rules that a list of entries gives: the addresses, the ranges and
/// the domain names, each without repeats, in the order in which they first
/// occur.
#[derive(Debug)]
pub struct NetworkRules {
    /// IPv4 addresses given as such.
    pub direct_v4: Vec<Ipv4>,
    /// Ranges, as address and prefix length.
    pub cidr_v4: Vec<(Ipv4, u8)>,
    /// Domain names.
    pub domains: Vec<String>,
}

/// The rules as a value of specifications.
pub struct RulesView {
    pub direct_v4: Seq<Ipv4>,
    pub cidr_v4: Seq<(Ipv4, u8)>,
    pub domains: Seq<Seq<char>>,
}

/// The texts of a list of strings.
pub open spec fn names(v: Seq<String>) -> Seq<Seq<char>> {
    Seq::new(v.len(), |i: int| v[i]@)
}

impl View for NetworkRules {
    type V = RulesView;

    open spec fn view(&self) -> RulesView {
        RulesView {
            direct_v4: self.direct_v4@,
            cidr_v4: self.cidr_v4@,
            domains: names(self.domains@),
        }
    }
}

impl Default for NetworkRules {
    fn default() -> (rules: NetworkRules)
        ensures
            rules@ == empty_rules(),
    {
        let rules = NetworkRules {
            direct_v4: Vec::new(),
            cidr_v4: Vec::new(),
            domains: Vec::new(),
        };
        proof {
            assert(names(rules.domains@) =~= Seq::<Seq<char>>::empty());
        }
        rules
    }
}

/// The rules that hold nothing.
pub open spec fn empty_rules() -> RulesView {
    RulesView { direct_v4: Seq::empty(), cidr_v4: Seq::empty(), domains: Seq::empty() }
}

/// `s` with `x` at its end, unless `s` holds `x` already.
pub open spec fn push_new<T>(s: Seq<T>, x: T) -> Seq<T> {
    if s.contains(x) {
        s
    } else {
        s.push(x)
    }
}

/// The rules `r` with what `h` names added.
pub open spec fn add_host(r: RulesView, h: HostView) -> RulesView {
    match h {
        HostView::Ip(ip) => RulesView { direct_v4: push_new(r.direct_v4, ip), ..r },
        HostView::Cidr(ip, n) => RulesView { cidr_v4: push_new(r.cidr_v4, (ip, n)), ..r },
        HostView::Domain(d) => RulesView { domains: push_new(r.domains, d), ..r },
    }
}

/// The rules `r` after the entry `raw`: a blank entry changes nothing.
pub open spec fn add_entry(r: RulesView, raw: Seq<char>) -> Result<RulesView, EntryFault> {
    let t = trimmed(raw);
    if t.len() == 0 {
        Ok(r)
    } else {
        match classify(t) {
            Ok((h, _)) => Ok(add_host(r, h)),
            Err(f) => Err(f),
        }
    }
}

/// The rules `start` after the entries, in their order; or the index of
/// the first entry that is refused, with the fault.
pub open spec fn parse_onto(start: RulesView, entries: Seq<Seq<char>>) -> Result<
    RulesView,
    (int, EntryFault),
>
    decreases entries.len(),
{
    if entries.len() == 0 {
        Ok(start)
    } else {
        match parse_onto(start, entries.drop_last()) {
            Err(e) => Err(e),
            Ok(r) => match add_entry(r, entries.last()) {
                Ok(r2) => Ok(r2),
                Err(f) => Err((entries.len() - 1, f)),
            },
        }
    }
}

/// The rules that the entries give.
pub open spec fn parsed(entries: Seq<Seq<char>>) -> Result<RulesView, (int, EntryFault)> {
    parse_onto(empty_rules(), entries)
}

fn holds_ip(v: &Vec<Ipv4>, ip: Ipv4) -> (b: bool)
    ensures
        b == v@.contains(ip),
{
    let mut i: usize = 0;
    while i < v.len()
        invariant
            i <= v@.len(),
            forall|k: int| 0 <= k < i ==> v@[k] != ip,
        decreases v@.len() - i,
    {
        if v[i] == ip {
            return true;
        }
        i = i + 1;
    }
    false
}

fn holds_cidr(v: &Vec<(Ipv4, u8)>, ip: Ipv4, n: u8) -> (b: bool)
    ensures
        b == v@.contains((ip, n)),
{
    let mut i: usize = 0;
    while i < v.len()
        invariant
            i <= v@.len(),
            forall|k: int| 0 <= k < i ==> v@[k] != (ip, n),
        decreases v@.len() - i,
    {
        if v[i].0 == ip && v[i].1 == n {
            return true;
        }
        i = i + 1;
    }
    false
}

fn holds_name(v: &Vec<String>, d: &String) -> (b: bool)
    ensures
        b == names(v@).contains(d@),
{
    let mut i: usize = 0;
    while i < v.len()
        invariant
            i <= v@.len(),
            forall|k: int| 0 <= k < i ==> names(v@)[k] != d@,
        decreases v@.len() - i,
    {
        if v[i] == *d {
            proof {
                assert(names(v@)[i as int] == d@);
            }
            return true;
        }
        i = i + 1;
    }
    false
}

impl NetworkRules {
    /// Adds what `h` names, unless the rules hold it already.
    fn add(&mut self, h: HostSpec)
        ensures
            final(self)@ == add_host(old(self)@, h@),
    {
        match h {
            HostSpec::Ip(ip) => {
                if !holds_ip(&self.direct_v4, ip) {
                    self.direct_v4.push(ip);
                }
            },
            HostSpec::Cidr(ip, n) => {
                if !holds_cidr(&self.cidr_v4, ip, n) {
                    self.cidr_v4.push((ip, n));
                }
            },
            HostSpec::Domain(d) => {
                if !holds_name(&self.domains, &d) {
                    let ghost before = self.domains@;
                    self.domains.push(d);
                    proof {
                        assert(names(self.domains@) =~= names(before).push(d@));
                    }
                }
            },
        }
    }
}

/// Reads a list of entries into rules. Blank entries are passed over; the
/// first entry that is refused fails the whole list.
pub fn parse_allow_network(entries: &[String]) -> (r: Result<NetworkRules, MoriError>)
    ensures
        match r {
            Ok(rules) => parsed(names(entries@)) == Ok::<RulesView, (int, EntryFault)>(rules@),
            Err(e) => match parsed(names(entries@)) {
                Ok(_) => false,
                Err((i, f)) => 0 <= i < entries@.len() && is_entry_error(e, entries@[i]@, f),
            },
        },
{
    let mut rules = NetworkRules::default();
    let mut i: usize = 0;
    let ghost texts = names(entries@);
    proof {
        assert(texts.take(0) =~= Seq::<Seq<char>>::empty());
    }
    while i < entries.len()
        invariant
            i <= entries@.len(),
            texts == names(entries@),
            parse_onto(empty_rules(), texts.take(i as int)) == Ok::<RulesView, (int, EntryFault)>(
                rules@,
            ),
        decreases entries@.len() - i,
    {
        let raw = &entries[i];
        let chars = chars_of(raw.as_str());
        let (a, b) = trim_bounds(&chars);
        proof {
            assert(texts.take(i + 1).drop_last() =~= texts.take(i as int));
            assert(texts.take(i + 1).last() == raw@);
        }
        if a < b {
            let text = raw.as_str().substring_char(a, b);
            match parse_single_rule(text) {
                Ok((h, _)) => {
                    rules.add(h);
                },
                Err(f) => {
                    proof {
                        lemma_parse_onto_fails(empty_rules(), texts.take(i + 1), texts);
                        assert(texts.take(i + 1) == texts.subrange(0, i + 1));
                    }
                    return Err(
                        MoriError::InvalidAllowNetworkEntry {
                            entry: raw.clone(),
                            reason: f.reason(),
                        },
                    );
                },
            }
        }
        i = i + 1;
    }
    proof {
        assert(texts.take(i as int) =~= texts);
    }
    Ok(rules)
}

/// A list of entries of which a prefix is refused is refused as that
/// prefix is.
pub proof fn lemma_parse_onto_fails(start: RulesView, prefix: Seq<Seq<char>>, all: Seq<Seq<char>>)
    requires
        prefix.len() <= all.len(),
        prefix == all.subrange(0, prefix.len() as int),
        parse_onto(start, prefix) is Err,
    ensures
        parse_onto(start, all) == parse_onto(start, prefix),
    decreases all.len(),
{
    if prefix.len() < all.len() {
        let rest = all.drop_last();
        assert(prefix =~= rest.subrange(0, prefix.len() as int));
        lemma_parse_onto_fails(start, prefix, rest);
    } else {
        assert(prefix =~= all);
    }
}

/// Whether the rules `r` hold what `h` names.
pub open spec fn covers(r: RulesView, h: HostView) -> bool {
    match h {
        HostView::Ip(ip) => r.direct_v4.contains(ip),
        HostView::Cidr(ip, n) => r.cidr_v4.contains((ip, n)),
        HostView::Domain(d) => r.domains.contains(d),
    }
}

/// Whether the entry `raw` is accepted and adds nothing to the rules `r`.
pub open spec fn absorbs(r: RulesView, raw: Seq<char>) -> bool {
    let t = trimmed(raw);
    t.len() == 0 || match classify(t) {
        Ok((h, _)) => covers(r, h),
        Err(_) => false,
    }
}

proof fn lemma_push_new_contains<T>(s: Seq<T>, x: T, y: T)
    ensures
        push_new(s, x).contains(x),
        s.contains(y) ==> push_new(s, x).contains(y),
{
    if s.contains(x) {
    } else {
        assert(s.push(x)[s.len() as int] == x);
    }
    if s.contains(y) {
        let i = choose|i: int| 0 <= i < s.len() && s[i] == y;
        assert(push_new(s, x)[i] == y);
    }
}

/// Adding a name keeps what the rules hold, and makes them hold the name.
proof fn lemma_add_host_covers(r: RulesView, h: HostView, g: HostView)
    ensures
        covers(add_host(r, h), h),
        covers(r, g) ==> covers(add_host(r, h), g),
        covers(r, h) ==> add_host(r, h) == r,
{
    match h {
        HostView::Ip(ip) => {
            lemma_push_new_contains(r.direct_v4, ip, ip);
            match g {
                HostView::Ip(x) => lemma_push_new_contains(r.direct_v4, ip, x),
                _ => {},
            }
        },
        HostView::Cidr(ip, n) => {
            lemma_push_new_contains(r.cidr_v4, (ip, n), (ip, n));
            match g {
                HostView::Cidr(x, m) => lemma_push_new_contains(r.cidr_v4, (ip, n), (x, m)),
                _ => {},
            }
        },
        HostView::Domain(d) => {
            lemma_push_new_contains(r.domains, d, d);
            match g {
                HostView::Domain(x) => lemma_push_new_contains(r.domains, d, x),
                _ => {},
            }
        },
    }
}

/// An entry that the rules have taken in adds nothing when it comes again,
/// and neither does any entry taken in before it.
proof fn lemma_add_entry_absorbs(r: RulesView, raw: Seq<char>, r2: RulesView, earlier: Seq<char>)
    requires
        add_entry(r, raw) == Ok::<RulesView, EntryFault>(r2),
    ensures
        absorbs(r2, raw),
        absorbs(r, earlier) ==> absorbs(r2, earlier),
        absorbs(r, raw) ==> r2 == r,
{
    let t = trimmed(raw);
    if t.len() > 0 {
        match classify(t) {
            Ok((h, _)) => {
                lemma_add_host_covers(r, h, h);
                let e = trimmed(earlier);
                if e.len() > 0 {
                    match classify(e) {
                        Ok((g, _)) => lemma_add_host_covers(r, h, g),
                        Err(_) => {},
                    }
                }
            },
            Err(_) => {},
        }
    }
}

/// Rules that were read from a list have taken in each entry of it.
proof fn lemma_absorbed_all(start: RulesView, xs: Seq<Seq<char>>, j: int)
    requires
        parse_onto(start, xs) is Ok,
        0 <= j < xs.len(),
    ensures
        absorbs(parse_onto(start, xs)->Ok_0, xs[j]),
    decreases xs.len(),
{
    let rest = xs.drop_last();
    let before = parse_onto(start, rest)->Ok_0;
    let after = parse_onto(start, xs)->Ok_0;
    if j < xs.len() - 1 {
        lemma_absorbed_all(start, rest, j);
        lemma_add_entry_absorbs(before, xs.last(), after, xs[j]);
    } else {
        lemma_add_entry_absorbs(before, xs.last(), after, xs.last());
    }
}

proof fn lemma_second_pass(xs: Seq<Seq<char>>, k: int)
    requires
        parsed(xs) is Ok,
        0 <= k <= xs.len(),
    ensures
        parsed(xs + xs.take(k)) == parsed(xs),
    decreases k,
{
    if k == 0 {
        assert(xs + xs.take(0) =~= xs);
    } else {
        lemma_second_pass(xs, k - 1);
        let all = xs + xs.take(k);
        assert(all.drop_last() =~= xs + xs.take(k - 1));
        assert(all.last() == xs[k - 1]);
        let r = parsed(xs)->Ok_0;
        lemma_absorbed_all(empty_rules(), xs, k - 1);
        let t = trimmed(xs[k - 1]);
        if t.len() > 0 {
            match classify(t) {
                Ok((h, _)) => lemma_add_host_covers(r, h, h),
                Err(_) => {},
            }
        }
    }
}

/// Reading a list of entries written twice over gives what reading the
/// list gives: the same rules in the same order, or the same refusal.
pub proof fn lemma_parse_repeated(xs: Seq<Seq<char>>)
    ensures
        parsed(xs + xs) == parsed(xs),
{
    if parsed(xs) is Ok {
        lemma_second_pass(xs, xs.len() as int);
        assert(xs.take(xs.len() as int) =~= xs);
    } else {
        assert(xs =~= (xs + xs).subrange(0, xs.len() as int));
        lemma_parse_onto_fails(empty_rules(), xs, xs + xs);
    }
}

/// No address, range or domain occurs twice.
pub open spec fn rules_duplicate_free(r: RulesView) -> bool {
    r.direct_v4.no_duplicates() && r.cidr_v4.no_duplicates() && r.domains.no_duplicates()
}

proof fn lemma_push_new_no_duplicates<T>(s: Seq<T>, x: T)
    requires
        s.no_duplicates(),
    ensures
        push_new(s, x).no_duplicates(),
{
    if !s.contains(x) {
        let v = s.push(x);
        assert forall|i: int, j: int| 0 <= i < v.len() && 0 <= j < v.len() && i != j implies v[i]
            != v[j] by {
            if i < s.len() && j < s.len() {
                assert(s[i] != s[j]);
            } else if i < s.len() {
                assert(s.contains(s[i]));
            } else {
                assert(s.contains(s[j]));
            }
        }
    }
}

/// Reading entries onto rules without repeats gives rules without repeats;
/// so the rules read from any list have none.
pub proof fn lemma_parse_duplicate_free(start: RulesView, xs: Seq<Seq<char>>)
    requires
        rules_duplicate_free(start),
        parse_onto(start, xs) is Ok,
    ensures
        rules_duplicate_free(parse_onto(start, xs)->Ok_0),
    decreases xs.len(),
{
    if xs.len() > 0 {
        lemma_parse_duplicate_free(start, xs.drop_last());
        let r = parse_onto(start, xs.drop_last())->Ok_0;
        let t = trimmed(xs.last());
        if t.len() > 0 {
            match classify(t) {
                Ok((h, _)) => {
                    match h {
                        HostView::Ip(ip) => lemma_push_new_no_duplicates(r.direct_v4, ip),
                        HostView::Cidr(ip, n) => lemma_push_new_no_duplicates(r.cidr_v4, (ip, n)),
                        HostView::Domain(d) => lemma_push_new_no_duplicates(r.domains, d),
                    }
                },
                Err(_) => {},
            }
        }
    }
}

} // verus!

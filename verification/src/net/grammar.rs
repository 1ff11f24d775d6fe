//! The textual forms of addresses: decimal numbers, dotted-quad IPv4 and
//! the shape of IPv6.

use vstd::prelude::*;
use crate::net::text::{slice_of, split, split_fields};

verus! {

pub open spec fn is_digit(c: char) -> bool {
    0x30 <= c as u32 <= 0x39
}

pub open spec fn digit_value(c: char) -> int {
    c as u32 - 0x30
}

pub open spec fn all_digits(s: Seq<char>) -> bool {
    forall|i: int| 0 <= i < s.len() ==> is_digit(#[trigger] s[i])
}

/// The number that the decimal digits `s` write.
pub open spec fn decimal(s: Seq<char>) -> int
    decreases s.len(),
{
    if s.len() == 0 {
        0
    } else {
        decimal(s.drop_last()) * 10 + digit_value(s.last())
    }
}

/// The number that `s` writes, where `s` is one or more decimal digits and
/// the number is at most `limit`.
pub open spec fn bounded_decimal(s: Seq<char>, limit: int) -> Option<int> {
    if s.len() > 0 && all_digits(s) && decimal(s) <= limit {
        Some(decimal(s))
    } else {
        None
    }
}

/// A number written in digits is at least the number that any of its
/// prefixes writes.
pub proof fn lemma_decimal_prefix(s: Seq<char>, i: int)
    requires
        all_digits(s),
        0 <= i <= s.len(),
    ensures
        0 <= decimal(s.take(i)) <= decimal(s),
    decreases s.len(),
{
    if i == s.len() {
        assert(s.take(i) =~= s);
        if s.len() > 0 {
            assert(is_digit(s[s.len() - 1]));
            lemma_decimal_prefix(s.drop_last(), s.len() - 1);
        }
    } else {
        let r = s.drop_last();
        assert(is_digit(s[s.len() - 1]));
        assert forall|k: int| 0 <= k < r.len() implies is_digit(#[trigger] r[k]) by {
            assert(r[k] == s[k]);
        }
        lemma_decimal_prefix(r, i);
        lemma_decimal_prefix(r, r.len() as int);
        assert(r.take(i) =~= s.take(i));
    }
}

pub fn char_is_digit(c: char) -> (b: bool)
    ensures
        b == is_digit(c),
{
    let u: u32 = c as u32;
    0x30 <= u && u <= 0x39
}

/// Reads `v` as a decimal number of at most `limit`.
pub fn parse_decimal(v: &Vec<char>, limit: u64) -> (r: Option<u64>)
    requires
        limit <= 1_000_000_000_000_000_000,
    ensures
        match r {
            Some(n) => bounded_decimal(v@, limit as int) == Some(n as int),
            None => bounded_decimal(v@, limit as int) is None,
        },
{
    if v.len() == 0 {
        return None;
    }
    let mut acc: u64 = 0;
    let mut i: usize = 0;
    proof {
        assert(v@.take(0) =~= Seq::<char>::empty());
    }
    while i < v.len()
        invariant
            i <= v@.len(),
            limit <= 1_000_000_000_000_000_000,
            all_digits(v@.take(i as int)),
            acc as int == decimal(v@.take(i as int)),
            acc <= limit,
        decreases v@.len() - i,
    {
        let c = v[i];
        if !char_is_digit(c) {
            return None;
        }
        let d: u64 = (c as u32 - 0x30) as u64;
        let next: u64 = acc * 10 + d;
        proof {
            let t = v@.take(i + 1);
            assert(t.drop_last() =~= v@.take(i as int));
            assert(t.last() == c);
            assert forall|k: int| 0 <= k < t.len() implies is_digit(#[trigger] t[k]) by {
                if k < i {
                    assert(t[k] == v@.take(i as int)[k]);
                }
            }
        }
        if next > limit {
            proof {
                if all_digits(v@) {
                    lemma_decimal_prefix(v@, i + 1);
                }
            }
            return None;
        }
        acc = next;
        i = i + 1;
    }
    proof {
        assert(v@.take(i as int) =~= v@);
    }
    Some(acc)
}

/// One octet of a dotted quad: one to three digits that write at most 255,
/// with no zero in front of another digit.
pub open spec fn octet_value(s: Seq<char>) -> Option<int> {
    if s.len() <= 3 && (s.len() > 1 ==> s[0] != '0') {
        bounded_decimal(s, 255)
    } else {
        None
    }
}

/// The address that the dotted quad `s` writes: four octets with a dot
/// between them.
pub open spec fn ipv4_value(s: Seq<char>) -> Option<u32> {
    let f = split(s, '.');
    if f.len() == 4 && octet_value(f[0]) is Some && octet_value(f[1]) is Some && octet_value(
        f[2],
    ) is Some && octet_value(f[3]) is Some {
        Some(
            (octet_value(f[0])->Some_0 * 16777216 + octet_value(f[1])->Some_0 * 65536
                + octet_value(f[2])->Some_0 * 256 + octet_value(f[3])->Some_0) as u32,
        )
    } else {
        None
    }
}

/// Reads `v` as one octet of a dotted quad.
pub fn parse_octet(v: &Vec<char>) -> (r: Option<u8>)
    ensures
        match r {
            Some(n) => octet_value(v@) == Some(n as int),
            None => octet_value(v@) is None,
        },
{
    if v.len() > 3 {
        return None;
    }
    if v.len() > 1 && v[0] == '0' {
        return None;
    }
    match parse_decimal(v, 255) {
        Some(n) => Some(n as u8),
        None => None,
    }
}

/// Reads `v` as a dotted-quad IPv4 address.
pub fn parse_ipv4(v: &Vec<char>) -> (r: Option<u32>)
    ensures
        r == ipv4_value(v@),
{
    let fields = split_fields(v, '.');
    if fields.len() != 4 {
        return None;
    }
    let a = match parse_octet(&fields[0]) {
        Some(n) => n,
        None => { return None; },
    };
    let b = match parse_octet(&fields[1]) {
        Some(n) => n,
        None => { return None; },
    };
    let c = match parse_octet(&fields[2]) {
        Some(n) => n,
        None => { return None; },
    };
    let d = match parse_octet(&fields[3]) {
        Some(n) => n,
        None => { return None; },
    };
    let hi: u32 = (a as u32) * 16777216 + (b as u32) * 65536;
    let lo: u32 = (c as u32) * 256 + (d as u32);
    Some(hi + lo)
}

pub open spec fn is_hex_digit(c: char) -> bool {
    let u = c as u32;
    0x30 <= u <= 0x39 || 0x41 <= u <= 0x46 || 0x61 <= u <= 0x66
}

/// One group of an IPv6 address: one to four hexadecimal digits.
pub open spec fn is_hex_group(s: Seq<char>) -> bool {
    1 <= s.len() <= 4 && forall|i: int| 0 <= i < s.len() ==> is_hex_digit(#[trigger] s[i])
}

pub fn char_is_hex_digit(c: char) -> (b: bool)
    ensures
        b == is_hex_digit(c),
{
    let u: u32 = c as u32;
    (0x30 <= u && u <= 0x39) || (0x41 <= u && u <= 0x46) || (0x61 <= u && u <= 0x66)
}

/// Whether `v` is one group of an IPv6 address.
pub fn check_hex_group(v: &Vec<char>) -> (b: bool)
    ensures
        b == is_hex_group(v@),
{
    if v.len() < 1 || v.len() > 4 {
        return false;
    }
    let mut i: usize = 0;
    while i < v.len()
        invariant
            i <= v@.len(),
            forall|k: int| 0 <= k < i ==> is_hex_digit(#[trigger] v@[k]),
        decreases v@.len() - i,
    {
        if !char_is_hex_digit(v[i]) {
            return false;
        }
        i = i + 1;
    }
    true
}

/// The index of the first `::` in `s`, or the length of `s` where it holds
/// none.
pub open spec fn find_double_colon(s: Seq<char>) -> int
    decreases s.len(),
{
    if s.len() < 2 {
        s.len() as int
    } else if s[0] == ':' && s[1] == ':' {
        0
    } else {
        1 + find_double_colon(s.skip(1))
    }
}

pub proof fn lemma_find_double_colon(s: Seq<char>)
    ensures
        0 <= find_double_colon(s) <= s.len(),
        find_double_colon(s) < s.len() ==> find_double_colon(s) + 1 < s.len()
            && s[find_double_colon(s)] == ':' && s[find_double_colon(s) + 1] == ':',
        forall|i: int|
            0 <= i < find_double_colon(s) && i + 1 < s.len() ==> !(#[trigger] s[i] == ':' && s[i
                + 1] == ':'),
    decreases s.len(),
{
    if s.len() >= 2 && !(s[0] == ':' && s[1] == ':') {
        let r = s.skip(1);
        lemma_find_double_colon(r);
        let q = find_double_colon(r);
        if q < r.len() {
            assert(s[q + 1] == r[q]);
            assert(s[q + 2] == r[q + 1]);
        }
        assert forall|i: int| 0 <= i < find_double_colon(s) && i + 1 < s.len() implies !(
        #[trigger] s[i] == ':' && s[i + 1] == ':') by {
            if i > 0 {
                assert(s[i] == r[i - 1]);
                assert(s[i + 1] == r[i]);
            }
        }
    }
}

/// An index with no `::` before it, at which `::` stands or which is the
/// length of `s`, is the first index of `::`.
pub proof fn lemma_find_double_colon_is(s: Seq<char>, p: int)
    requires
        0 <= p <= s.len(),
        forall|i: int| 0 <= i < p && i + 1 < s.len() ==> !(#[trigger] s[i] == ':' && s[i + 1] == ':'),
        p < s.len() ==> p + 1 < s.len() && s[p] == ':' && s[p + 1] == ':',
    ensures
        find_double_colon(s) == p,
{
    lemma_find_double_colon(s);
    let q = find_double_colon(s);
    if q < p {
        assert(!(s[q] == ':' && s[q + 1] == ':'));
    } else if p < q {
        assert(!(s[p] == ':' && s[p + 1] == ':'));
    }
}

/// The index of the first `::` in `v`, or the length of `v`.
pub fn find_colons(v: &Vec<char>) -> (p: usize)
    ensures
        p == find_double_colon(v@),
        p <= v@.len(),
        p < v@.len() ==> p + 2 <= v@.len(),
{
    let n = v.len();
    if n < 2 {
        return n;
    }
    let mut p: usize = 0;
    while p + 1 < n && !(v[p] == ':' && v[p + 1] == ':')
        invariant
            n == v@.len(),
            n >= 2,
            p + 1 <= n,
            forall|i: int|
                0 <= i < p && i + 1 < n ==> !(#[trigger] v@[i] == ':' && v@[i + 1] == ':'),
        decreases n - p,
    {
        p = p + 1;
    }
    if p + 1 < n {
        proof {
            lemma_find_double_colon_is(v@, p as int);
        }
        p
    } else {
        proof {
            lemma_find_double_colon_is(v@, n as int);
        }
        n
    }
}

/// How many of the eight 16-bit slots of an IPv6 address the text `p`
/// fills, where `p` is a run of groups with a colon between them. The last
/// of them may be a dotted quad, which fills two slots, where `allow_v4`
/// holds. The empty text fills none.
pub open spec fn part_slots(p: Seq<char>, allow_v4: bool) -> Option<int> {
    let f = split(p, ':');
    if p.len() == 0 {
        Some(0)
    } else if f.len() < 1 || f.len() > 8 {
        None
    } else if !(forall|i: int| 0 <= i < f.len() - 1 ==> is_hex_group(#[trigger] f[i])) {
        None
    } else if is_hex_group(f.last()) {
        Some(f.len() as int)
    } else if allow_v4 && ipv4_value(f.last()) is Some {
        Some(f.len() as int + 1)
    } else {
        None
    }
}

/// Whether `s` has the form of an IPv6 address: eight slots filled by
/// groups, or fewer with one `::` that stands for the missing ones, which
/// are one at least. A dotted quad may close the address, not the part
/// before `::`.
pub open spec fn is_ipv6_text(s: Seq<char>) -> bool {
    let q = find_double_colon(s);
    if q >= s.len() {
        part_slots(s, true) == Some(8int)
    } else {
        let head = part_slots(s.take(q), false);
        let tail = part_slots(s.skip(q + 2), true);
        head is Some && tail is Some && head->Some_0 + tail->Some_0 <= 7
    }
}

/// Counts the slots that `p` fills.
pub fn count_slots(p: &Vec<char>, allow_v4: bool) -> (r: Option<usize>)
    ensures
        match r {
            Some(n) => part_slots(p@, allow_v4) == Some(n as int) && n <= 9,
            None => part_slots(p@, allow_v4) is None,
        },
{
    if p.len() == 0 {
        return Some(0);
    }
    let fields = split_fields(p, ':');
    let n = fields.len();
    if n < 1 || n > 8 {
        return None;
    }
    let ghost f = split(p@, ':');
    let mut i: usize = 0;
    while i + 1 < n
        invariant
            n == fields@.len(),
            n == f.len(),
            f == split(p@, ':'),
            p@.len() != 0,
            1 <= n <= 8,
            i + 1 <= n,
            forall|k: int| 0 <= k < n ==> (#[trigger] fields@[k])@ == f[k],
            forall|k: int| 0 <= k < i ==> is_hex_group(#[trigger] f[k]),
        decreases n - i,
    {
        if !check_hex_group(&fields[i]) {
            proof {
                assert(fields@[i as int]@ == f[i as int]);
                assert(!is_hex_group(f[i as int]));
                assert(!(forall|k: int| 0 <= k < f.len() - 1 ==> is_hex_group(#[trigger] f[k])));
            }
            return None;
        }
        i = i + 1;
    }
    let last = &fields[n - 1];
    proof {
        assert(last@ == f.last());
    }
    if check_hex_group(last) {
        Some(n)
    } else if allow_v4 && parse_ipv4(last).is_some() {
        Some(n + 1)
    } else {
        None
    }
}

/// Whether `v` has the form of an IPv6 address.
pub fn check_ipv6(v: &Vec<char>) -> (b: bool)
    ensures
        b == is_ipv6_text(v@),
{
    let q = find_colons(v);
    if q >= v.len() {
        match count_slots(v, true) {
            Some(n) => n == 8,
            None => false,
        }
    } else {
        let head = slice_of(v, 0, q);
        let tail = slice_of(v, q + 2, v.len());
        proof {
            assert(head@ =~= v@.take(q as int));
            assert(tail@ =~= v@.skip(q + 2));
        }
        match count_slots(&head, false) {
            Some(h) => match count_slots(&tail, true) {
                Some(t) => h + t <= 7,
                None => false,
            },
            None => false,
        }
    }
}

} // verus!

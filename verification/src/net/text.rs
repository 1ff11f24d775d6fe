//! Small tools on text, seen as a sequence of characters.

use vstd::prelude::*;
use vstd::string::*;

verus! {

/// The characters of `s`, one element each.
pub fn chars_of(s: &str) -> (v: Vec<char>)
    ensures
        v@ == s@,
{
    let n = s.unicode_len();
    let mut v: Vec<char> = Vec::new();
    let mut i: usize = 0;
    while i < n
        invariant
            n == s@.len(),
            i <= n,
            v@ == s@.take(i as int),
        decreases n - i,
    {
        let c = s.get_char(i);
        v.push(c);
        proof {
            assert(s@.take(i + 1) =~= s@.take(i as int).push(c));
        }
        i = i + 1;
    }
    proof {
        assert(s@.take(n as int) =~= s@);
    }
    v
}

/// White space in the sense of Unicode's `White_Space` property.
pub open spec fn is_space(c: char) -> bool {
    let u = c as u32;
    ||| 0x09 <= u <= 0x0D
    ||| u == 0x20
    ||| u == 0x85
    ||| u == 0xA0
    ||| u == 0x1680
    ||| 0x2000 <= u <= 0x200A
    ||| u == 0x2028
    ||| u == 0x2029
    ||| u == 0x202F
    ||| u == 0x205F
    ||| u == 0x3000
}

/// Whether `c` is white space.
pub fn char_is_space(c: char) -> (b: bool)
    ensures
        b == is_space(c),
{
    let u: u32 = c as u32;
    (0x09 <= u && u <= 0x0D) || u == 0x20 || u == 0x85 || u == 0xA0 || u == 0x1680 || (0x2000
        <= u && u <= 0x200A) || u == 0x2028 || u == 0x2029 || u == 0x202F || u == 0x205F || u
        == 0x3000
}

/// The number of white-space characters at the start of `s`.
pub open spec fn leading_spaces(s: Seq<char>) -> int
    decreases s.len(),
{
    if s.len() > 0 && is_space(s[0]) {
        1 + leading_spaces(s.skip(1))
    } else {
        0
    }
}

/// The number of white-space characters at the end of `s`.
pub open spec fn trailing_spaces(s: Seq<char>) -> int
    decreases s.len(),
{
    if s.len() > 0 && is_space(s.last()) {
        1 + trailing_spaces(s.drop_last())
    } else {
        0
    }
}

/// `s` without the white space at its start and at its end.
pub open spec fn trimmed(s: Seq<char>) -> Seq<char> {
    let a = leading_spaces(s);
    if a == s.len() {
        Seq::empty()
    } else {
        s.subrange(a, s.len() - trailing_spaces(s))
    }
}

pub proof fn lemma_leading_spaces(s: Seq<char>)
    ensures
        0 <= leading_spaces(s) <= s.len(),
        forall|i: int| 0 <= i < leading_spaces(s) ==> is_space(#[trigger] s[i]),
        leading_spaces(s) < s.len() ==> !is_space(s[leading_spaces(s)]),
    decreases s.len(),
{
    if s.len() > 0 && is_space(s[0]) {
        let r = s.skip(1);
        lemma_leading_spaces(r);
        assert forall|i: int| 0 <= i < leading_spaces(s) implies is_space(#[trigger] s[i]) by {
            if i > 0 {
                assert(s[i] == r[i - 1]);
            }
        }
        if leading_spaces(s) < s.len() {
            assert(s[leading_spaces(s)] == r[leading_spaces(r)]);
        }
    }
}

pub proof fn lemma_trailing_spaces(s: Seq<char>)
    ensures
        0 <= trailing_spaces(s) <= s.len(),
        forall|i: int| s.len() - trailing_spaces(s) <= i < s.len() ==> is_space(#[trigger] s[i]),
        trailing_spaces(s) < s.len() ==> !is_space(s[s.len() - trailing_spaces(s) - 1]),
    decreases s.len(),
{
    if s.len() > 0 && is_space(s.last()) {
        let r = s.drop_last();
        lemma_trailing_spaces(r);
        assert forall|i: int| s.len() - trailing_spaces(s) <= i < s.len() implies is_space(
            #[trigger] s[i],
        ) by {
            if i < s.len() - 1 {
                assert(s[i] == r[i]);
            }
        }
        if trailing_spaces(s) < s.len() {
            assert(s[s.len() - trailing_spaces(s) - 1] == r[r.len() - trailing_spaces(r) - 1]);
        }
    }
}

/// The bounds of `trimmed(v@)` within `v`: `v@.subrange(from, to)` is the
/// trimmed text.
pub fn trim_bounds(v: &Vec<char>) -> (r: (usize, usize))
    ensures
        r.0 <= r.1 <= v@.len(),
        v@.subrange(r.0 as int, r.1 as int) == trimmed(v@),
{
    let n = v.len();
    let mut a: usize = 0;
    proof {
        lemma_leading_spaces(v@);
        lemma_trailing_spaces(v@);
    }
    while a < n && char_is_space(v[a])
        invariant
            n == v@.len(),
            a <= n,
            a <= leading_spaces(v@),
            0 <= leading_spaces(v@) <= n,
            leading_spaces(v@) < n ==> !is_space(v@[leading_spaces(v@)]),
        decreases n - a,
    {
        a = a + 1;
    }
    proof {
        if a < leading_spaces(v@) {
            assert(is_space(v@[a as int]));
        }
    }
    if a == n {
        proof {
            assert(v@.subrange(a as int, a as int) =~= Seq::<char>::empty());
        }
        return (a, a);
    }
    let mut b: usize = n;
    while b > a && char_is_space(v[b - 1])
        invariant
            n == v@.len(),
            a < n,
            a <= b <= n,
            a == leading_spaces(v@),
            !is_space(v@[a as int]),
            n - b <= trailing_spaces(v@),
            0 <= trailing_spaces(v@) <= n,
            trailing_spaces(v@) < n ==> !is_space(v@[n - trailing_spaces(v@) - 1]),
        decreases b,
    {
        b = b - 1;
    }
    proof {
        if n - b < trailing_spaces(v@) {
            assert(is_space(v@[b - 1]));
        }
    }
    (a, b)
}

/// The characters of `v` from index `from` up to, not including, `to`.
pub fn slice_of(v: &Vec<char>, from: usize, to: usize) -> (r: Vec<char>)
    requires
        from <= to <= v@.len(),
    ensures
        r@ == v@.subrange(from as int, to as int),
{
    let mut r: Vec<char> = Vec::new();
    let mut i: usize = from;
    while i < to
        invariant
            from <= i <= to <= v@.len(),
            r@ == v@.subrange(from as int, i as int),
        decreases to - i,
    {
        r.push(v[i]);
        proof {
            assert(v@.subrange(from as int, i + 1) =~= v@.subrange(from as int, i as int).push(
                v@[i as int],
            ));
        }
        i = i + 1;
    }
    r
}

/// The index of the first `c` in `s`, or the length of `s` where it holds
/// none.
pub open spec fn find_char(s: Seq<char>, c: char) -> int
    decreases s.len(),
{
    if s.len() == 0 || s[0] == c {
        0
    } else {
        1 + find_char(s.skip(1), c)
    }
}

pub proof fn lemma_find_char(s: Seq<char>, c: char)
    ensures
        0 <= find_char(s, c) <= s.len(),
        forall|i: int| 0 <= i < find_char(s, c) ==> #[trigger] s[i] != c,
        find_char(s, c) < s.len() ==> s[find_char(s, c)] == c,
    decreases s.len(),
{
    if !(s.len() == 0 || s[0] == c) {
        let r = s.skip(1);
        lemma_find_char(r, c);
        assert forall|i: int| 0 <= i < find_char(s, c) implies #[trigger] s[i] != c by {
            if i > 0 {
                assert(s[i] == r[i - 1]);
            }
        }
        if find_char(s, c) < s.len() {
            assert(s[find_char(s, c)] == r[find_char(r, c)]);
        }
    }
}

/// An index with no `c` before it, which holds `c` or is the length of
/// `s`, is the first index of `c`.
pub proof fn lemma_find_char_is(s: Seq<char>, c: char, p: int)
    requires
        0 <= p <= s.len(),
        forall|i: int| 0 <= i < p ==> #[trigger] s[i] != c,
        p < s.len() ==> s[p] == c,
    ensures
        find_char(s, c) == p,
{
    lemma_find_char(s, c);
    let q = find_char(s, c);
    if q < p {
        assert(s[q] != c);
    } else if p < q {
        assert(s[p] != c);
    }
}

/// The index of the first `c` in `v`, or the length of `v`.
pub fn find_first(v: &Vec<char>, c: char) -> (p: usize)
    ensures
        p == find_char(v@, c),
        p <= v@.len(),
{
    let mut p: usize = 0;
    while p < v.len() && v[p] != c
        invariant
            p <= v@.len(),
            forall|i: int| 0 <= i < p ==> #[trigger] v@[i] != c,
        decreases v@.len() - p,
    {
        p = p + 1;
    }
    proof {
        lemma_find_char_is(v@, c, p as int);
    }
    p
}

/// The index of the last `c` in `s`, or -1 where it holds none.
pub open spec fn rfind_char(s: Seq<char>, c: char) -> int
    decreases s.len(),
{
    if s.len() == 0 {
        -1
    } else if s.last() == c {
        s.len() - 1
    } else {
        rfind_char(s.drop_last(), c)
    }
}

pub proof fn lemma_rfind_char(s: Seq<char>, c: char)
    ensures
        -1 <= rfind_char(s, c) < s.len(),
        forall|i: int| rfind_char(s, c) < i < s.len() ==> #[trigger] s[i] != c,
        rfind_char(s, c) >= 0 ==> s[rfind_char(s, c)] == c,
    decreases s.len(),
{
    if s.len() > 0 && s.last() != c {
        let r = s.drop_last();
        lemma_rfind_char(r, c);
        assert forall|i: int| rfind_char(s, c) < i < s.len() implies #[trigger] s[i] != c by {
            if i < s.len() - 1 {
                assert(s[i] == r[i]);
            }
        }
        if rfind_char(s, c) >= 0 {
            assert(s[rfind_char(s, c)] == r[rfind_char(r, c)]);
        }
    }
}

/// The index of the last `c` in `v`, if it holds one.
pub fn find_last(v: &Vec<char>, c: char) -> (r: Option<usize>)
    ensures
        match r {
            Some(p) => p == rfind_char(v@, c),
            None => rfind_char(v@, c) == -1,
        },
{
    let mut p: usize = v.len();
    proof {
        lemma_rfind_char(v@, c);
    }
    while p > 0 && v[p - 1] != c
        invariant
            p <= v@.len(),
            forall|i: int| p <= i < v@.len() ==> #[trigger] v@[i] != c,
        decreases p,
    {
        p = p - 1;
    }
    proof {
        let q = rfind_char(v@, c);
        if p > 0 {
            if q < p - 1 {
                assert(v@[p - 1] != c);
            } else if q > p - 1 {
                assert(v@[q] != c);
            }
        } else if q >= 0 {
            assert(v@[q] != c);
        }
    }
    if p > 0 {
        Some(p - 1)
    } else {
        None
    }
}

/// The fields of `s` between occurrences of `sep`; a text without `sep` is
/// one field.
pub open spec fn split(s: Seq<char>, sep: char) -> Seq<Seq<char>>
    decreases s.len(),
{
    let p = find_char(s, sep);
    if 0 <= p < s.len() {
        seq![s.take(p)] + split(s.skip(p + 1), sep)
    } else {
        seq![s]
    }
}

/// The bounds of the fields of `v` between occurrences of `sep`: field `i`
/// is `v@.subrange(from, to)` for pair `i`.
pub fn split_ranges(v: &Vec<char>, sep: char) -> (ranges: Vec<(usize, usize)>)
    ensures
        ranges@.len() == split(v@, sep).len(),
        forall|i: int|
            0 <= i < ranges@.len() ==> (#[trigger] ranges@[i]).0 <= ranges@[i].1 <= v@.len()
                && v@.subrange(ranges@[i].0 as int, ranges@[i].1 as int) == split(v@, sep)[i],
{
    let mut ranges: Vec<(usize, usize)> = Vec::new();
    let mut start: usize = 0;
    let n = v.len();
    let ghost mut done: Seq<Seq<char>> = Seq::empty();
    proof {
        assert(v@.skip(0) =~= v@);
    }
    loop
        invariant
            n == v@.len(),
            start <= n,
            ranges@.len() == done.len(),
            forall|i: int|
                0 <= i < ranges@.len() ==> (#[trigger] ranges@[i]).0 <= ranges@[i].1 <= n
                    && v@.subrange(ranges@[i].0 as int, ranges@[i].1 as int) == done[i],
            split(v@, sep) == done + split(v@.skip(start as int), sep),
        decreases n - start,
    {
        let ghost rest = v@.skip(start as int);
        let mut p: usize = start;
        while p < n && v[p] != sep
            invariant
                n == v@.len(),
                start <= p <= n,
                rest == v@.skip(start as int),
                forall|i: int| 0 <= i < p - start ==> #[trigger] rest[i] != sep,
            decreases n - p,
        {
            p = p + 1;
        }
        proof {
            lemma_find_char_is(rest, sep, p - start);
        }
        if p < n {
            proof {
                let field = v@.subrange(start as int, p as int);
                assert(field =~= rest.take(p - start));
                assert(rest.skip(p - start + 1) =~= v@.skip(p + 1));
                assert(done + (seq![rest.take(p - start)] + split(rest.skip(p - start + 1), sep))
                    =~= done.push(field) + split(rest.skip(p - start + 1), sep));
                done = done.push(field);
            }
            ranges.push((start, p));
            start = p + 1;
        } else {
            proof {
                assert(v@.subrange(start as int, n as int) =~= rest);
                assert(done + seq![rest] =~= done.push(rest));
                done = done.push(rest);
            }
            ranges.push((start, n));
            return ranges;
        }
    }
}

/// The fields of `v` between occurrences of `sep`.
pub fn split_fields(v: &Vec<char>, sep: char) -> (fields: Vec<Vec<char>>)
    ensures
        fields@.len() == split(v@, sep).len(),
        forall|i: int| 0 <= i < fields@.len() ==> (#[trigger] fields@[i])@ == split(v@, sep)[i],
{
    let ranges = split_ranges(v, sep);
    let mut fields: Vec<Vec<char>> = Vec::new();
    let mut i: usize = 0;
    while i < ranges.len()
        invariant
            i <= ranges@.len(),
            fields@.len() == i,
            ranges@.len() == split(v@, sep).len(),
            forall|k: int|
                0 <= k < ranges@.len() ==> (#[trigger] ranges@[k]).0 <= ranges@[k].1 <= v@.len()
                    && v@.subrange(ranges@[k].0 as int, ranges@[k].1 as int) == split(v@, sep)[k],
            forall|k: int| 0 <= k < i ==> (#[trigger] fields@[k])@ == split(v@, sep)[k],
        decreases ranges@.len() - i,
    {
        let (a, b) = ranges[i];
        fields.push(slice_of(v, a, b));
        i = i + 1;
    }
    fields
}

} // verus!

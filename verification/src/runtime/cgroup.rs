//! The cgroup of a run: where it lies, how a process is enrolled in it, and
//! to whom it is handed where the supervisor runs under sudo.

use vstd::prelude::*;
use vstd::string::*;
use crate::net::grammar::{all_digits, bounded_decimal, decimal, is_digit, parse_decimal};
use crate::net::text::{chars_of, slice_of};

verus! {

/// The decimal digit of a number below ten.
pub open spec fn digit_char(d: int) -> char {
    if d == 0 {
        '0'
    } else if d == 1 {
        '1'
    } else if d == 2 {
        '2'
    } else if d == 3 {
        '3'
    } else if d == 4 {
        '4'
    } else if d == 5 {
        '5'
    } else if d == 6 {
        '6'
    } else if d == 7 {
        '7'
    } else if d == 8 {
        '8'
    } else {
        '9'
    }
}

/// The decimal digits that write `n`, without a zero in front.
pub open spec fn decimal_digits(n: nat) -> Seq<char>
    decreases n,
{
    if n < 10 {
        seq![digit_char(n as int)]
    } else {
        decimal_digits(n / 10).push(digit_char((n % 10) as int))
    }
}

/// The digits that write a number write that number, and no zero stands in
/// front of another digit.
pub proof fn lemma_decimal_digits(n: nat)
    ensures
        decimal_digits(n).len() >= 1,
        all_digits(decimal_digits(n)),
        decimal(decimal_digits(n)) == n,
        decimal_digits(n).len() > 1 ==> decimal_digits(n)[0] != '0',
    decreases n,
{
    let s = decimal_digits(n);
    if n < 10 {
        assert(s.drop_last() =~= Seq::<char>::empty());
        assert(decimal(s.drop_last()) == 0);
        assert(s.last() == digit_char(n as int));
    } else {
        let r = decimal_digits(n / 10);
        lemma_decimal_digits(n / 10);
        assert(s.drop_last() =~= r);
        assert(s.last() == digit_char((n % 10) as int));
        assert forall|i: int| 0 <= i < s.len() implies is_digit(#[trigger] s[i]) by {
            if i < r.len() {
                assert(s[i] == r[i]);
            }
        }
        assert(s[0] == r[0]);
        if r.len() == 1 {
            assert(decimal(r.drop_last()) == 0) by {
                assert(r.drop_last() =~= Seq::<char>::empty());
            }
        }
    }
}

fn digit_text(d: u64) -> (r: &'static str)
    requires
        d < 10,
    ensures
        r@ == seq![digit_char(d as int)],
{
    proof {
        reveal_strlit("0");
        reveal_strlit("1");
        reveal_strlit("2");
        reveal_strlit("3");
        reveal_strlit("4");
        reveal_strlit("5");
        reveal_strlit("6");
        reveal_strlit("7");
        reveal_strlit("8");
        reveal_strlit("9");
    }
    let r = if d == 0 {
        "0"
    } else if d == 1 {
        "1"
    } else if d == 2 {
        "2"
    } else if d == 3 {
        "3"
    } else if d == 4 {
        "4"
    } else if d == 5 {
        "5"
    } else if d == 6 {
        "6"
    } else if d == 7 {
        "7"
    } else if d == 8 {
        "8"
    } else {
        "9"
    };
    proof {
        assert(r@ =~= seq![digit_char(d as int)]);
    }
    r
}

/// Appends the decimal digits of `n` to `out`.
pub fn push_decimal(out: &mut String, n: u64)
    ensures
        final(out)@ == old(out)@ + decimal_digits(n as nat),
    decreases n,
{
    if n >= 10 {
        push_decimal(out, n / 10);
    }
    let ghost before = out@;
    out.append(digit_text(n % 10));
    proof {
        if n >= 10 {
            assert(out@ =~= old(out)@ + decimal_digits(n as nat));
        } else {
            assert(out@ =~= old(out)@ + decimal_digits(n as nat));
        }
    }
}

/// The root of the cgroup hierarchy.
pub open spec fn cgroup_root() -> Seq<char> {
    "/sys/fs/cgroup"@
}

/// The directory of the cgroup of the supervisor with process id `pid`:
/// `mori-` and the id, under the root of the hierarchy.
pub open spec fn cgroup_dir_of(pid: u32) -> Seq<char> {
    cgroup_root() + "/mori-"@ + decimal_digits(pid as nat)
}

/// The file of a cgroup directory through which processes are enrolled.
pub open spec fn procs_file_of(dir: Seq<char>) -> Seq<char> {
    dir + "/cgroup.procs"@
}

/// The cgroup of a run, as plain values: its directory and its id, which
/// is the inode number of the directory.
#[derive(Debug)]
pub struct CgroupManager {
    pub path: String,
    pub id: u64,
}

impl CgroupManager {
    /// The cgroup of the supervisor with process id `pid`, whose directory
    /// has the inode number `id`.
    pub fn create(pid: u32, id: u64) -> (cgroup: CgroupManager)
        ensures
            cgroup.path@ == cgroup_dir_of(pid),
            cgroup.id == id,
    {
        CgroupManager { path: CgroupManager::directory(pid), id }
    }

    /// The directory of the cgroup of the supervisor with process id `pid`.
    pub fn directory(pid: u32) -> (path: String)
        ensures
            path@ == cgroup_dir_of(pid),
    {
        let mut path = "/sys/fs/cgroup".to_owned();
        path.append("/mori-");
        push_decimal(&mut path, pid as u64);
        path
    }

    /// The file through which processes are enrolled in the cgroup.
    pub fn procs_path(&self) -> (path: String)
        ensures
            path@ == procs_file_of(self.path@),
    {
        let mut path = self.path.clone();
        path.append("/cgroup.procs");
        path
    }

    /// What is written to that file to enroll the process `pid`: the id in
    /// decimal digits.
    pub fn enroll_text(pid: u32) -> (text: String)
        ensures
            text@ == decimal_digits(pid as nat),
    {
        let mut text = String::new();
        push_decimal(&mut text, pid as u64);
        proof {
            assert(text@ =~= decimal_digits(pid as nat));
        }
        text
    }
}

/// The number that `s` writes as an unsigned 32-bit integer: digits, with
/// `+` in front of them or not.
pub open spec fn id_value(s: Seq<char>) -> Option<int> {
    if s.len() > 0 && s[0] == '+' {
        bounded_decimal(s.skip(1), 0xFFFF_FFFF)
    } else {
        bounded_decimal(s, 0xFFFF_FFFF)
    }
}

/// Reads a user or group id.
pub fn parse_id(text: &str) -> (r: Option<u32>)
    ensures
        match r {
            Some(n) => id_value(text@) == Some(n as int),
            None => id_value(text@) is None,
        },
{
    let chars = chars_of(text);
    let digits = if chars.len() > 0 && chars[0] == '+' {
        let d = slice_of(&chars, 1, chars.len());
        proof {
            assert(d@ =~= chars@.skip(1));
        }
        d
    } else {
        chars
    };
    match parse_decimal(&digits, 0xFFFF_FFFF) {
        Some(n) => Some(n as u32),
        None => None,
    }
}

/// The user and group to whom the cgroup is handed, and to whom the child
/// drops: those that sudo names, where it names both and both are numbers.
pub open spec fn sudo_ids_of(uid: Option<Seq<char>>, gid: Option<Seq<char>>) -> Option<(u32, u32)> {
    match (uid, gid) {
        (Some(u), Some(g)) => match (id_value(u), id_value(g)) {
            (Some(a), Some(b)) => Some((a as u32, b as u32)),
            _ => None,
        },
        _ => None,
    }
}

/// The user and group that sudo names, from the values of the variables
/// `SUDO_UID` and `SUDO_GID`, as far as they are set.
pub fn sudo_ids(uid: Option<&str>, gid: Option<&str>) -> (r: Option<(u32, u32)>)
    ensures
        r == sudo_ids_of(
            match uid {
                Some(u) => Some(u@),
                None => None,
            },
            match gid {
                Some(g) => Some(g@),
                None => None,
            },
        ),
{
    match (uid, gid) {
        (Some(u), Some(g)) => match (parse_id(u), parse_id(g)) {
            (Some(a), Some(b)) => Some((a, b)),
            _ => None,
        },
        _ => None,
    }
}

} // verus!

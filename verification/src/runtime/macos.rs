//! The sandbox profile that stands in for the filters on macOS. It can
//! deny paths, and the network as a whole; it knows no single addresses.

use vstd::prelude::*;
use vstd::string::*;
use crate::net::text::chars_of;
use crate::policy::file::AccessMode;
use crate::policy::model::Policy;

verus! {

/// The text `s` as it is written between double quotes in a profile: a
/// backslash in front of each backslash and each double quote.
pub open spec fn escaped(s: Seq<char>) -> Seq<char>
    decreases s.len(),
{
    if s.len() == 0 {
        Seq::empty()
    } else {
        let c = s.last();
        if c == '\\' || c == '"' {
            escaped(s.drop_last()) + seq!['\\', c]
        } else {
            escaped(s.drop_last()).push(c)
        }
    }
}

/// The text `path` as it is written between double quotes in a profile.
pub fn escape_path(path: &str) -> (r: String)
    ensures
        r@ == escaped(path@),
{
    let chars = chars_of(path);
    let mut out = String::new();
    let mut i: usize = 0;
    proof {
        assert(path@.take(0) =~= Seq::<char>::empty());
        assert(out@ =~= Seq::<char>::empty());
    }
    while i < chars.len()
        invariant
            i <= chars@.len(),
            chars@ == path@,
            out@ == escaped(path@.take(i as int)),
        decreases chars@.len() - i,
    {
        let c = chars[i];
        proof {
            assert(path@.take(i + 1).drop_last() =~= path@.take(i as int));
            assert(path@.take(i + 1).last() == c);
            reveal_strlit("\\\\");
            reveal_strlit("\\\"");
            assert("\\\\"@ =~= seq!['\\', '\\']);
            assert("\\\""@ =~= seq!['\\', '"']);
        }
        if c == '\\' {
            out.append("\\\\");
        } else if c == '"' {
            out.append("\\\"");
        } else {
            let piece = path.substring_char(i, i + 1);
            proof {
                assert(piece@ =~= seq![c]);
                assert(out@ + piece@ =~= out@.push(c));
            }
            out.append(piece);
        }
        i = i + 1;
    }
    proof {
        assert(path@.take(i as int) =~= path@);
    }
    out
}

/// The head of every profile: the system's own rules, everything else
/// denied, and files allowed again.
pub open spec fn profile_head() -> Seq<char> {
    "(version 1)\n(import \"system.sb\")\n(deny default)\n(allow file-read*\n    (subpath \"/opt/local/lib\")\n    (subpath \"/usr/lib\")\n    (subpath \"/usr/local/lib\")\n)\n(allow file*)\n"@
}

/// The rule that denies `path` in the mode `mode`.
pub open spec fn deny_rule(path: Seq<char>, mode: AccessMode) -> Seq<char> {
    (match mode {
        AccessMode::Read => "(deny file-read* (subpath \""@,
        AccessMode::Write => "(deny file-write* (subpath \""@,
        AccessMode::ReadWrite => "(deny file* (subpath \""@,
    }) + escaped(path) + "\"))\n"@
}

/// The rules that deny each of the paths, in their order.
pub open spec fn deny_rules(denied: Seq<(Seq<char>, AccessMode)>) -> Seq<char>
    decreases denied.len(),
{
    if denied.len() == 0 {
        Seq::empty()
    } else {
        deny_rules(denied.drop_last()) + deny_rule(denied.last().0, denied.last().1)
    }
}

/// The profile for a policy: the head, a rule for each denied path, the
/// denial of the network unless the policy allows all of it, and the leave
/// to run programs.
pub open spec fn profile_text(denied: Seq<(Seq<char>, AccessMode)>, allow_all: bool) -> Seq<char> {
    profile_head() + deny_rules(denied) + (if allow_all {
        Seq::empty()
    } else {
        "(deny network*)\n"@
    }) + "(allow process-exec*)\n"@
}

/// Whether the child runs in a sandbox at all: it does unless the policy
/// restricts nothing.
pub fn needs_sandbox(policy: &Policy) -> (b: bool)
    ensures
        b == !(policy.network@ is All && policy.file@.len() == 0),
{
    !policy.is_unrestricted()
}

/// The profile for `policy`.
pub fn create_sandbox_profile(policy: &Policy) -> (profile: String)
    ensures
        profile@ == profile_text(policy.file@, policy.network@ is All),
{
    let mut profile = String::new();
    profile.append(
        "(version 1)\n(import \"system.sb\")\n(deny default)\n(allow file-read*\n    (subpath \"/opt/local/lib\")\n    (subpath \"/usr/lib\")\n    (subpath \"/usr/local/lib\")\n)\n(allow file*)\n",
    );
    let ghost denied = policy.file@;
    let mut i: usize = 0;
    proof {
        assert(profile@ =~= profile_head());
        assert(denied.take(0) =~= Seq::<(Seq<char>, AccessMode)>::empty());
        assert(profile@ =~= profile_head() + deny_rules(denied.take(0)));
    }
    while i < policy.file.denied_paths.len()
        invariant
            i <= policy.file.denied_paths@.len(),
            denied == policy.file@,
            denied.len() == policy.file.denied_paths@.len(),
            profile@ == profile_head() + deny_rules(denied.take(i as int)),
        decreases policy.file.denied_paths@.len() - i,
    {
        let mode = policy.file.denied_paths[i].1;
        let text = escape_path(policy.file.denied_paths[i].0.as_str());
        proof {
            assert(denied.take(i + 1).drop_last() =~= denied.take(i as int));
            assert(denied.take(i + 1).last() == denied[i as int]);
            assert(denied[i as int] == (policy.file.denied_paths@[i as int].0@, mode));
        }
        let ghost before = profile@;
        match mode {
            AccessMode::Read => {
                profile.append("(deny file-read* (subpath \"");
            },
            AccessMode::Write => {
                profile.append("(deny file-write* (subpath \"");
            },
            AccessMode::ReadWrite => {
                profile.append("(deny file* (subpath \"");
            },
        }
        profile.append(text.as_str());
        profile.append("\"))\n");
        proof {
            assert(profile@ =~= before + deny_rule(denied[i as int].0, mode));
            assert(profile@ =~= profile_head() + deny_rules(denied.take(i + 1)));
        }
        i = i + 1;
    }
    proof {
        assert(denied.take(i as int) =~= denied);
    }
    if !policy.network.is_allow_all() {
        profile.append("(deny network*)\n");
    }
    profile.append("(allow process-exec*)\n");
    proof {
        assert(profile@ =~= profile_text(denied, policy.network@ is All));
    }
    profile
}

} // verus!

//! The file filter: the cgroup that it is scoped to, the table of denied
//! paths, and the verdict on an open.

use vstd::prelude::*;
use vstd::string::*;
use vstd::utf8::encode_utf8;
use crate::error::{is_path_too_long, MoriError};
use crate::policy::file::{mode_code, AccessMode, FilePolicy};

verus! {

/// The width of a key of the deny table, in bytes. A path must be shorter.
pub const PATH_MAX: usize = 512;

/// The number of paths that the deny table can hold.
pub const MAX_DENY_PATHS: usize = 1024;

/// The verdict that lets an open go on.
pub const ADMIT: i32 = 0;

/// The verdict that refuses an open.
pub const DENY: i32 = -1;

/// The key of a path: its bytes, followed by zeros up to the width of a
/// key.
pub open spec fn padded_key(bytes: Seq<u8>) -> Seq<u8> {
    Seq::new(512, |i: int| if i < bytes.len() { bytes[i] } else { 0u8 })
}

/// The buffer `buf` with every byte from index `len` on set to zero.
pub open spec fn zero_filled(buf: Seq<u8>, len: int) -> Seq<u8> {
    Seq::new(buf.len(), |i: int| if i < len { buf[i] } else { 0u8 })
}

/// Whether a denial of the mode with code `denied` refuses an open whose
/// access mode, the low two bits of its flags, is `access`: a denial of
/// reading refuses what reads, a denial of writing what writes, a denial of
/// both refuses every open.
pub open spec fn mode_denies(denied: u8, access: u32) -> bool {
    let reads = access == 0 || access == 2;
    let writes = access == 1 || access == 2;
    denied == 3 || (denied == 1 && reads) || (denied == 2 && writes)
}

/// Why the deny table could not be made.
pub enum SeedFault {
    /// The path at this index has as many bytes as a key, or more.
    PathTooLong(int),
    /// The path at this index is a new one, and the table is full.
    TableFull(int),
}

/// The deny table that a list of denied paths gives, with the number of
/// its keys: path by path, a path that comes again replaces the mode that
/// was there. The first path that is too long, or that finds the table
/// full, fails the list.
pub open spec fn seeded(denied: Seq<(Seq<char>, AccessMode)>) -> Result<
    (Map<Seq<u8>, u8>, nat),
    SeedFault,
>
    decreases denied.len(),
{
    if denied.len() == 0 {
        Ok((Map::empty(), 0nat))
    } else {
        match seeded(denied.drop_last()) {
            Err(fault) => Err(fault),
            Ok((table, count)) => {
                let bytes = encode_utf8(denied.last().0);
                let key = padded_key(bytes);
                if bytes.len() >= 512 {
                    Err(SeedFault::PathTooLong(denied.len() - 1))
                } else if table.contains_key(key) {
                    Ok((table.insert(key, mode_code(denied.last().1)), count))
                } else if count >= 1024 {
                    Err(SeedFault::TableFull(denied.len() - 1))
                } else {
                    Ok((table.insert(key, mode_code(denied.last().1)), count + 1))
                }
            },
        }
    }
}

/// The verdict of the file filter on an open: by a process of the cgroup
/// `cgroup_id`, of the path that stands in the first `path_len` bytes of
/// `buf`, with the flags `f_flags`. A process outside the target cgroup is
/// let through, and so is a path that the table does not hold.
pub open spec fn open_verdict(
    target: u64,
    table: Map<Seq<u8>, u8>,
    cgroup_id: u64,
    buf: Seq<u8>,
    path_len: int,
    f_flags: u32,
) -> i32 {
    let key = zero_filled(buf, path_len);
    if cgroup_id != target {
        0i32
    } else if table.contains_key(key) && mode_denies(table[key], f_flags & 3) {
        -1i32
    } else {
        0i32
    }
}

/// The key of `path` in the deny table; a path of 512 bytes or more has
/// none.
pub fn deny_key(path: &str) -> (r: Result<[u8; 512], MoriError>)
    ensures
        match r {
            Ok(key) => encode_utf8(path@).len() < 512 && key@ == padded_key(encode_utf8(path@)),
            Err(e) => encode_utf8(path@).len() >= 512 && is_path_too_long(e, path@, 512),
        },
{
    let bytes = path.as_bytes();
    let n = bytes.len();
    if n >= PATH_MAX {
        return Err(MoriError::PathTooLong { path: path.to_owned(), max_len: PATH_MAX });
    }
    let mut key: [u8; 512] = [0u8; 512];
    let mut i: usize = 0;
    while i < n
        invariant
            i <= n,
            n < 512,
            n == bytes@.len(),
            forall|k: int| 0 <= k < i ==> key@[k] == bytes@[k],
            forall|k: int| i <= k < 512 ==> key@[k] == 0u8,
        decreases n - i,
    {
        key[i] = bytes[i];
        i = i + 1;
    }
    proof {
        assert(key@ =~= padded_key(bytes@));
    }
    Ok(key)
}

fn keys_equal(a: &[u8; 512], b: &[u8; 512]) -> (r: bool)
    ensures
        r == (a@ == b@),
{
    let mut i: usize = 0;
    while i < 512
        invariant
            i <= 512,
            forall|k: int| 0 <= k < i ==> a@[k] == b@[k],
        decreases 512 - i,
    {
        if a[i] != b[i] {
            return false;
        }
        i = i + 1;
    }
    proof {
        assert(a@ =~= b@);
    }
    true
}

/// The tables of the file filter: the cgroup whose processes it judges,
/// and the denied paths with their modes.
#[derive(Debug)]
pub struct FileEbpf {
    target_cgroup: u64,
    deny_paths: Vec<([u8; 512], u8)>,
}

spec fn holds_path(paths: Seq<([u8; 512], u8)>, key: Seq<u8>) -> bool {
    exists|i: int| 0 <= i < paths.len() && (#[trigger] paths[i]).0@ == key
}

spec fn index_of_path(paths: Seq<([u8; 512], u8)>, key: Seq<u8>) -> int {
    choose|i: int| 0 <= i < paths.len() && (#[trigger] paths[i]).0@ == key
}

spec fn table_of(paths: Seq<([u8; 512], u8)>) -> Map<Seq<u8>, u8> {
    Map::new(|key: Seq<u8>| holds_path(paths, key), |key: Seq<u8>| paths[index_of_path(paths, key)].1)
}

spec fn distinct_paths(paths: Seq<([u8; 512], u8)>) -> bool {
    forall|i: int, j: int| 0 <= i < j < paths.len() ==> paths[i].0@ != paths[j].0@
}

proof fn lemma_table_entry(paths: Seq<([u8; 512], u8)>, i: int)
    requires
        distinct_paths(paths),
        0 <= i < paths.len(),
    ensures
        table_of(paths).contains_key(paths[i].0@),
        table_of(paths)[paths[i].0@] == paths[i].1,
{
    let key = paths[i].0@;
    assert(holds_path(paths, key));
    let j = index_of_path(paths, key);
    if j < i {
        assert(paths[j].0@ != paths[i].0@);
    } else if i < j {
        assert(paths[i].0@ != paths[j].0@);
    }
}

impl FileEbpf {
    /// The cgroup whose processes the filter judges.
    pub closed spec fn target(&self) -> u64 {
        self.target_cgroup
    }

    /// The deny table: key to the code of the denied mode.
    pub closed spec fn table(&self) -> Map<Seq<u8>, u8> {
        table_of(self.deny_paths@)
    }

    /// No key is held twice, and no more keys than the table can hold.
    pub closed spec fn wf(&self) -> bool {
        distinct_paths(self.deny_paths@) && self.deny_paths@.len() <= 1024
    }

    /// The cgroup whose processes the filter judges.
    pub fn target_cgroup(&self) -> (id: u64)
        ensures
            id == self.target(),
    {
        self.target_cgroup
    }

    /// The entries of the deny table: each key once, with the code of its
    /// mode.
    pub fn deny_paths(&self) -> (entries: &Vec<([u8; 512], u8)>)
        requires
            self.wf(),
        ensures
            entries@.len() <= 1024,
            forall|i: int|
                0 <= i < entries@.len() ==> self.table().contains_key((#[trigger] entries@[i]).0@)
                    && self.table()[entries@[i].0@] == entries@[i].1,
            forall|key: Seq<u8>|
                self.table().contains_key(key) ==> exists|i: int|
                    0 <= i < entries@.len() && (#[trigger] entries@[i]).0@ == key,
            forall|i: int, j: int|
                0 <= i < j < entries@.len() ==> entries@[i].0@ != entries@[j].0@,
    {
        proof {
            assert forall|i: int| 0 <= i < self.deny_paths@.len() implies self.table().contains_key(
                (#[trigger] self.deny_paths@[i]).0@,
            ) && self.table()[self.deny_paths@[i].0@] == self.deny_paths@[i].1 by {
                lemma_table_entry(self.deny_paths@, i);
            }
        }
        &self.deny_paths
    }

    fn position(&self, key: &[u8; 512]) -> (r: Option<usize>)
        ensures
            match r {
                Some(i) => i < self.deny_paths@.len() && self.deny_paths@[i as int].0@ == key@,
                None => !holds_path(self.deny_paths@, key@),
            },
    {
        let mut i: usize = 0;
        while i < self.deny_paths.len()
            invariant
                i <= self.deny_paths@.len(),
                forall|k: int| 0 <= k < i ==> (#[trigger] self.deny_paths@[k]).0@ != key@,
            decreases self.deny_paths@.len() - i,
        {
            if keys_equal(&self.deny_paths[i].0, key) {
                return Some(i);
            }
            i = i + 1;
        }
        None
    }

    /// Makes the tables of the file filter for the cgroup `cgroup_id` from
    /// the denied paths of `policy`.
    pub fn load_and_attach(policy: &FilePolicy, cgroup_id: u64) -> (r: Result<FileEbpf, MoriError>)
        ensures
            match seeded(policy@) {
                Ok((table, _)) => r is Ok && r->Ok_0.wf() && r->Ok_0.target() == cgroup_id
                    && r->Ok_0.table() == table,
                Err(SeedFault::PathTooLong(i)) => r is Err && 0 <= i < policy@.len()
                    && is_path_too_long(r->Err_0, policy@[i].0, 512),
                Err(SeedFault::TableFull(_)) => r is Err && r->Err_0 is MapUpdate,
            },
    {
        let mut filter = FileEbpf { target_cgroup: cgroup_id, deny_paths: Vec::new() };
        let mut i: usize = 0;
        let ghost denied = policy@;
        proof {
            assert(denied.take(0) =~= Seq::<(Seq<char>, AccessMode)>::empty());
            assert(filter.table() =~= Map::<Seq<u8>, u8>::empty());
        }
        while i < policy.denied_paths.len()
            invariant
                i <= policy.denied_paths@.len(),
                denied == policy@,
                denied.len() == policy.denied_paths@.len(),
                filter.target_cgroup == cgroup_id,
                distinct_paths(filter.deny_paths@),
                filter.deny_paths@.len() <= 1024,
                seeded(denied.take(i as int)) == Ok::<(Map<Seq<u8>, u8>, nat), SeedFault>(
                    (table_of(filter.deny_paths@), filter.deny_paths@.len()),
                ),
            decreases policy.denied_paths@.len() - i,
        {
            proof {
                assert(denied.take(i + 1).drop_last() =~= denied.take(i as int));
                assert(denied.take(i + 1).last() == denied[i as int]);
                assert(denied[i as int] == (
                    policy.denied_paths@[i as int].0@,
                    policy.denied_paths@[i as int].1,
                ));
            }
            let mode = policy.denied_paths[i].1.code();
            let key = match deny_key(policy.denied_paths[i].0.as_str()) {
                Ok(key) => key,
                Err(e) => {
                    proof {
                        lemma_seeded_fails(denied.take(i + 1), denied);
                    }
                    return Err(e);
                },
            };
            let ghost before = filter.deny_paths@;
            match filter.position(&key) {
                Some(at) => {
                    filter.deny_paths.set(at, (key, mode));
                    proof {
                        let after = filter.deny_paths@;
                        assert(distinct_paths(after)) by {
                            assert forall|a: int, b: int| 0 <= a < b < after.len() implies after[a].0@
                                != after[b].0@ by {
                                assert(before[a].0@ != before[b].0@);
                            }
                        }
                        assert forall|k: Seq<u8>| holds_path(after, k) <==> holds_path(
                            before,
                            k,
                        ) by {
                            if holds_path(after, k) {
                                let a = index_of_path(after, k);
                                assert(before[a].0@ == k);
                            }
                            if holds_path(before, k) {
                                let a = index_of_path(before, k);
                                assert(after[a].0@ == k);
                            }
                        }
                        lemma_table_entry(before, at as int);
                        assert forall|k: Seq<u8>| holds_path(after, k) implies #[trigger] table_of(
                            after,
                        )[k] == table_of(before).insert(key@, mode)[k] by {
                            let a = index_of_path(after, k);
                            lemma_table_entry(after, a);
                            lemma_table_entry(before, a);
                        }
                        assert(table_of(after) =~= table_of(before).insert(key@, mode));
                    }
                },
                None => {
                    if filter.deny_paths.len() >= MAX_DENY_PATHS {
                        proof {
                            lemma_seeded_fails(denied.take(i + 1), denied);
                        }
                        return Err(
                            MoriError::MapUpdate { cause: "deny table is full".to_string() },
                        );
                    }
                    filter.deny_paths.push((key, mode));
                    proof {
                        let after = filter.deny_paths@;
                        let n = before.len() as int;
                        assert(after[n].0@ == key@);
                        assert(distinct_paths(after)) by {
                            assert forall|a: int, b: int| 0 <= a < b < after.len() implies after[a].0@
                                != after[b].0@ by {
                                if b < n {
                                    assert(before[a].0@ != before[b].0@);
                                } else {
                                    assert(before[a].0@ == after[a].0@);
                                }
                            }
                        }
                        assert forall|k: Seq<u8>| holds_path(after, k) <==> (holds_path(before, k)
                            || k == key@) by {
                            if holds_path(after, k) {
                                let a = index_of_path(after, k);
                                if a < n {
                                    assert(before[a].0@ == k);
                                }
                            }
                            if holds_path(before, k) {
                                let a = index_of_path(before, k);
                                assert(after[a].0@ == k);
                            }
                        }
                        assert forall|k: Seq<u8>| holds_path(after, k) implies #[trigger] table_of(
                            after,
                        )[k] == table_of(before).insert(key@, mode)[k] by {
                            let a = index_of_path(after, k);
                            lemma_table_entry(after, a);
                            if a < n {
                                assert(after[a] == before[a]);
                                lemma_table_entry(before, a);
                            }
                        }
                        assert(table_of(after) =~= table_of(before).insert(key@, mode));
                    }
                },
            }
            i = i + 1;
        }
        proof {
            assert(denied.take(i as int) =~= denied);
        }
        Ok(filter)
    }

    /// The verdict on an open, as the filter in the kernel gives it.
    pub fn file_open(&self, cgroup_id: u64, buf: &[u8; 512], path_len: usize, f_flags: u32) -> (v:
        i32)
        requires
            self.wf(),
        ensures
            v == open_verdict(self.target(), self.table(), cgroup_id, buf@, path_len as int, f_flags),
    {
        if cgroup_id != self.target_cgroup {
            return ADMIT;
        }
        let mut key: [u8; 512] = *buf;
        let mut i: usize = 0;
        while i < 512
            invariant
                i <= 512,
                forall|k: int| 0 <= k < i ==> key@[k] == zero_filled(buf@, path_len as int)[k],
                forall|k: int| i <= k < 512 ==> key@[k] == buf@[k],
            decreases 512 - i,
        {
            if i >= path_len {
                key[i] = 0;
            }
            i = i + 1;
        }
        proof {
            assert(key@ =~= zero_filled(buf@, path_len as int));
        }
        let access: u32 = f_flags & 3;
        let reads = access == 0 || access == 2;
        let writes = access == 1 || access == 2;
        match self.position(&key) {
            Some(at) => {
                proof {
                    lemma_table_entry(self.deny_paths@, at as int);
                }
                let denied = self.deny_paths[at].1;
                let refuse = denied == 3 || (denied == 1 && reads) || (denied == 2 && writes);
                if refuse {
                    DENY
                } else {
                    ADMIT
                }
            },
            None => ADMIT,
        }
    }
}

/// The verdict of the hook on file-open. `resolved` is what resolving the
/// file to a path gave: the number of bytes written to `buf`, or a negative
/// number where the path could not be had, in which case the open is let
/// through.
pub fn mori_path_open(filter: &FileEbpf, cgroup_id: u64, buf: &[u8; 512], resolved: i64, f_flags: u32) -> (v:
    i32)
    requires
        filter.wf(),
    ensures
        v == (if resolved < 0 {
            0i32
        } else {
            open_verdict(filter.target(), filter.table(), cgroup_id, buf@, resolved as int, f_flags)
        }),
{
    if cgroup_id != filter.target_cgroup() {
        return ADMIT;
    }
    if resolved < 0 {
        return ADMIT;
    }
    let path_len: usize = if resolved > 512 {
        512
    } else {
        resolved as usize
    };
    proof {
        assert(zero_filled(buf@, path_len as int) =~= zero_filled(buf@, resolved as int));
    }
    filter.file_open(cgroup_id, buf, path_len, f_flags)
}

/// A list of denied paths of which a prefix fails, fails as that prefix
/// does.
pub proof fn lemma_seeded_fails(
    prefix: Seq<(Seq<char>, AccessMode)>,
    all: Seq<(Seq<char>, AccessMode)>,
)
    requires
        prefix.len() <= all.len(),
        prefix == all.subrange(0, prefix.len() as int),
        seeded(prefix) is Err,
    ensures
        seeded(all) == seeded(prefix),
    decreases all.len(),
{
    if prefix.len() < all.len() {
        let rest = all.drop_last();
        assert(prefix =~= rest.subrange(0, prefix.len() as int));
        lemma_seeded_fails(prefix, rest);
    } else {
        assert(prefix =~= all);
    }
}

} // verus!

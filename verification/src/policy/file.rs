//! The file side of a policy: paths that the child may not open, each with
//! the kind of access that is denied.

use vstd::prelude::*;
use vstd::string::*;
use crate::net::parser::names;
use crate::net::text::{chars_of, split, split_ranges};

verus! {

/// The kind of access to a path that is denied.
#[derive(Debug, Clone, Copy, PartialEq, Eq, Structural)]
pub enum AccessMode {
    Read,
    Write,
    ReadWrite,
}

/// The number that stands for a mode in the deny table.
pub open spec fn mode_code(mode: AccessMode) -> u8 {
    match mode {
        AccessMode::Read => 1,
        AccessMode::Write => 2,
        AccessMode::ReadWrite => 3,
    }
}

impl AccessMode {
    /// The number that stands for the mode in the deny table.
    pub fn code(&self) -> (c: u8)
        ensures
            c == mode_code(*self),
    {
        match self {
            AccessMode::Read => 1,
            AccessMode::Write => 2,
            AccessMode::ReadWrite => 3,
        }
    }
}

/// The path `path` as one that leads from the root: itself where it starts
/// with `/`, else `base`, a `/` and `path`.
pub open spec fn absolute_text(path: Seq<char>, base: Seq<char>) -> Seq<char> {
    if path.len() > 0 && path[0] == '/' {
        path
    } else {
        base + seq!['/'] + path
    }
}

/// The components that are left of the fields of a path: an empty field and
/// `.` are dropped, `..` takes away the component before it, if there is
/// one.
pub open spec fn resolve(fields: Seq<Seq<char>>) -> Seq<Seq<char>>
    decreases fields.len(),
{
    if fields.len() == 0 {
        Seq::empty()
    } else {
        let before = resolve(fields.drop_last());
        let f = fields.last();
        if f.len() == 0 || f == seq!['.'] {
            before
        } else if f == seq!['.', '.'] {
            if before.len() > 0 {
                before.drop_last()
            } else {
                before
            }
        } else {
            before.push(f)
        }
    }
}

/// The components, each with a `/` in front of it.
pub open spec fn joined(components: Seq<Seq<char>>) -> Seq<char>
    decreases components.len(),
{
    if components.len() == 0 {
        Seq::empty()
    } else {
        joined(components.drop_last()) + seq!['/'] + components.last()
    }
}

/// The path that the components write; the root where there is none.
pub open spec fn rendered(components: Seq<Seq<char>>) -> Seq<char> {
    if components.len() == 0 {
        seq!['/']
    } else {
        joined(components)
    }
}

/// The path `path` in normal form: leading from the root, against `base`
/// where it does not start with `/`, and without empty, `.` and `..`
/// components.
pub open spec fn normalized(path: Seq<char>, base: Seq<char>) -> Seq<char> {
    rendered(resolve(split(absolute_text(path, base), '/')))
}

/// The paths that the child may not open. A policy without paths denies
/// nothing.
#[derive(Debug)]
pub struct FilePolicy {
    /// The denied paths, in normal form, in the order in which they were
    /// added.
    pub denied_paths: Vec<(String, AccessMode)>,
    /// The directory against which relative paths are resolved.
    pub base: String,
}

/// The denied paths as texts.
pub open spec fn denied_view(v: Seq<(String, AccessMode)>) -> Seq<(Seq<char>, AccessMode)> {
    Seq::new(v.len(), |i: int| (v[i].0@, v[i].1))
}

impl View for FilePolicy {
    type V = Seq<(Seq<char>, AccessMode)>;

    open spec fn view(&self) -> Seq<(Seq<char>, AccessMode)> {
        denied_view(self.denied_paths@)
    }
}

/// The denied paths `denied` followed by each of `paths`, in normal form
/// against `base`, in the mode `mode`.
pub open spec fn with_denied(
    denied: Seq<(Seq<char>, AccessMode)>,
    paths: Seq<Seq<char>>,
    base: Seq<char>,
    mode: AccessMode,
) -> Seq<(Seq<char>, AccessMode)>
    decreases paths.len(),
{
    if paths.len() == 0 {
        denied
    } else {
        with_denied(denied, paths.drop_last(), base, mode).push(
            (normalized(paths.last(), base), mode),
        )
    }
}

/// The texts of the pieces of `chars` that `ranges` bound.
spec fn pieces(chars: Seq<char>, ranges: Seq<(usize, usize)>) -> Seq<Seq<char>> {
    Seq::new(ranges.len(), |k: int| chars.subrange(ranges[k].0 as int, ranges[k].1 as int))
}

impl Default for FilePolicy {
    fn default() -> (p: FilePolicy)
        ensures
            p@.len() == 0,
            p.base_dir() == seq!['/'],
    {
        FilePolicy::new()
    }
}

impl FilePolicy {
    /// The directory against which relative paths are resolved.
    pub open spec fn base_dir(&self) -> Seq<char> {
        self.base@
    }

    /// A policy without paths, which resolves relative paths against the
    /// root.
    pub fn new() -> (p: FilePolicy)
        ensures
            p@.len() == 0,
            p.base_dir() == seq!['/'],
    {
        proof {
            reveal_strlit("/");
            assert("/"@ =~= seq!['/']);
        }
        FilePolicy { denied_paths: Vec::new(), base: "/".to_owned() }
    }

    /// A policy without paths, which resolves relative paths against
    /// `base`.
    pub fn with_base(base: &str) -> (p: FilePolicy)
        ensures
            p@.len() == 0,
            p.base_dir() == base@,
    {
        FilePolicy { denied_paths: Vec::new(), base: base.to_owned() }
    }

    /// Denies reading `path`.
    pub fn deny_read(&mut self, path: &str)
        ensures
            final(self)@ == old(self)@.push(
                (normalized(path@, old(self).base_dir()), AccessMode::Read),
            ),
            final(self).base_dir() == old(self).base_dir(),
    {
        self.deny(path, AccessMode::Read);
    }

    /// Denies writing `path`.
    pub fn deny_write(&mut self, path: &str)
        ensures
            final(self)@ == old(self)@.push(
                (normalized(path@, old(self).base_dir()), AccessMode::Write),
            ),
            final(self).base_dir() == old(self).base_dir(),
    {
        self.deny(path, AccessMode::Write);
    }

    /// Denies reading and writing `path`.
    pub fn deny_read_write(&mut self, path: &str)
        ensures
            final(self)@ == old(self)@.push(
                (normalized(path@, old(self).base_dir()), AccessMode::ReadWrite),
            ),
            final(self).base_dir() == old(self).base_dir(),
    {
        self.deny(path, AccessMode::ReadWrite);
    }

    /// Denies each of `paths`, in their order, in the mode `mode`.
    pub fn deny_each(&mut self, paths: &Vec<String>, mode: AccessMode)
        ensures
            final(self)@ == with_denied(old(self)@, names(paths@), old(self).base_dir(), mode),
            final(self).base_dir() == old(self).base_dir(),
    {
        let mut i: usize = 0;
        let ghost texts = names(paths@);
        proof {
            assert(texts.take(0) =~= Seq::<Seq<char>>::empty());
        }
        while i < paths.len()
            invariant
                i <= paths@.len(),
                texts == names(paths@),
                self.base_dir() == old(self).base_dir(),
                self@ == with_denied(old(self)@, texts.take(i as int), old(self).base_dir(), mode),
            decreases paths@.len() - i,
        {
            proof {
                assert(texts.take(i + 1).drop_last() =~= texts.take(i as int));
                assert(texts.take(i + 1).last() == paths@[i as int]@);
            }
            self.deny(paths[i].as_str(), mode);
            i = i + 1;
        }
        proof {
            assert(texts.take(i as int) =~= texts);
        }
    }

    fn deny(&mut self, path: &str, mode: AccessMode)
        ensures
            final(self)@ == old(self)@.push((normalized(path@, old(self).base_dir()), mode)),
            final(self).base_dir() == old(self).base_dir(),
    {
        let normal = self.normalize_path(path);
        let ghost before = self.denied_paths@;
        self.denied_paths.push((normal, mode));
        proof {
            assert(denied_view(self.denied_paths@) =~= denied_view(before).push((normal@, mode)));
        }
    }

    /// The path `path` in normal form.
    pub fn normalize_path(&self, path: &str) -> (r: String)
        ensures
            r@ == normalized(path@, self.base_dir()),
    {
        let path_chars = chars_of(path);
        let mut abs: String;
        if path_chars.len() > 0 && path_chars[0] == '/' {
            abs = path.to_owned();
        } else {
            abs = self.base.clone();
            abs.append("/");
            abs.append(path);
            proof {
                reveal_strlit("/");
                assert("/"@ =~= seq!['/']);
            }
        }
        assert(abs@ == absolute_text(path@, self.base@));
        let chars = chars_of(abs.as_str());
        let ranges = split_ranges(&chars, '/');
        let ghost fields = split(chars@, '/');
        let mut stack: Vec<(usize, usize)> = Vec::new();
        let mut i: usize = 0;
        proof {
            assert(fields.take(0) =~= Seq::<Seq<char>>::empty());
            assert(pieces(chars@, stack@) =~= Seq::<Seq<char>>::empty());
        }
        while i < ranges.len()
            invariant
                i <= ranges@.len(),
                ranges@.len() == fields.len(),
                forall|k: int|
                    0 <= k < ranges@.len() ==> (#[trigger] ranges@[k]).0 <= ranges@[k].1
                        <= chars@.len() && chars@.subrange(
                        ranges@[k].0 as int,
                        ranges@[k].1 as int,
                    ) == fields[k],
                forall|k: int|
                    0 <= k < stack@.len() ==> (#[trigger] stack@[k]).0 <= stack@[k].1
                        <= chars@.len(),
                pieces(chars@, stack@) == resolve(fields.take(i as int)),
            decreases ranges@.len() - i,
        {
            let (a, b) = ranges[i];
            let ghost f = fields[i as int];
            let ghost before = stack@;
            proof {
                assert(fields.take(i + 1).drop_last() =~= fields.take(i as int));
                assert(fields.take(i + 1).last() == f);
                assert(f == chars@.subrange(a as int, b as int));
            }
            if a == b {
            } else if b - a == 1 && chars[a] == '.' {
                proof {
                    assert(f =~= seq!['.']);
                }
            } else if b - a == 2 && chars[a] == '.' && chars[a + 1] == '.' {
                proof {
                    assert(f =~= seq!['.', '.']);
                }
                if stack.len() > 0 {
                    stack.pop();
                    proof {
                        assert(pieces(chars@, stack@) =~= pieces(chars@, before).drop_last());
                    }
                }
            } else {
                proof {
                    if f == seq!['.'] {
                        assert(f[0] == '.');
                    }
                    if f == seq!['.', '.'] {
                        assert(f[0] == '.');
                        assert(f[1] == '.');
                    }
                }
                stack.push((a, b));
                proof {
                    assert(pieces(chars@, stack@) =~= pieces(chars@, before).push(f));
                }
            }
            i = i + 1;
        }
        proof {
            assert(fields.take(i as int) =~= fields);
        }
        let ghost components = pieces(chars@, stack@);
        let mut out = String::new();
        if stack.len() == 0 {
            out.append("/");
            proof {
                reveal_strlit("/");
                assert(out@ =~= seq!['/']);
            }
            return out;
        }
        let mut k: usize = 0;
        proof {
            assert(components.take(0) =~= Seq::<Seq<char>>::empty());
            assert(out@ =~= Seq::<char>::empty());
        }
        while k < stack.len()
            invariant
                k <= stack@.len(),
                chars@ == abs@,
                components == pieces(chars@, stack@),
                forall|j: int|
                    0 <= j < stack@.len() ==> (#[trigger] stack@[j]).0 <= stack@[j].1
                        <= chars@.len(),
                out@ == joined(components.take(k as int)),
            decreases stack@.len() - k,
        {
            let (a, b) = stack[k];
            let piece = abs.as_str().substring_char(a, b);
            proof {
                reveal_strlit("/");
                assert("/"@ =~= seq!['/']);
                assert(components.take(k + 1).drop_last() =~= components.take(k as int));
                assert(components.take(k + 1).last() == piece@);
            }
            out.append("/");
            out.append(piece);
            k = k + 1;
        }
        proof {
            assert(components.take(k as int) =~= components);
        }
        out
    }
}

} // verus!

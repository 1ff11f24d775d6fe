//! The policy that the command line and the configuration file make
//! together.

use vstd::prelude::*;
use crate::cli::args::Args;
use crate::cli::config::{AllowConfig, ConfigFile, FileConfig};
use crate::error::{is_entry_error, EntryFault, MoriError};
use crate::net::parser::{names, parsed};
use crate::policy::file::{with_denied, AccessMode, FilePolicy};
use crate::policy::model::Policy;
use crate::policy::net::{deny_all, merged, NetworkPolicy, PolicyView};

verus! {

/// Where a refused entry was given.
pub enum Source {
    Config,
    CommandLine,
}

/// The network policy that an `allow` key asks for, or the index of its
/// first entry that is refused, with the fault.
pub open spec fn allow_view(allow: AllowConfig) -> Result<PolicyView, (int, EntryFault)> {
    match allow {
        AllowConfig::Boolean(all) => Ok(
            if all {
                PolicyView::All
            } else {
                deny_all()
            },
        ),
        AllowConfig::Entries(entries) => match parsed(names(entries@)) {
            Ok(rules) => Ok(PolicyView::Entries(rules)),
            Err(e) => Err(e),
        },
    }
}

/// The network policy of a run. The switch of the command line comes
/// first, the configuration file is merged into it, and then the entries of
/// the command line, which are not read where the switch allows everything.
pub open spec fn loaded_network(all: bool, config: Option<AllowConfig>, cli: Seq<Seq<char>>) -> Result<
    PolicyView,
    (Source, int, EntryFault),
> {
    let start = if all {
        PolicyView::All
    } else {
        deny_all()
    };
    let with_config = match config {
        None => Ok(start),
        Some(allow) => match allow_view(allow) {
            Ok(p) => Ok(merged(start, p)),
            Err((i, f)) => Err((Source::Config, i, f)),
        },
    };
    match with_config {
        Err(e) => Err(e),
        Ok(p) => if all {
            Ok(p)
        } else {
            match parsed(cli) {
                Ok(rules) => Ok(merged(p, PolicyView::Entries(rules))),
                Err((i, f)) => Err((Source::CommandLine, i, f)),
            }
        },
    }
}

/// The denied paths `denied` followed by those of three lists: the paths
/// denied for reading and writing, those denied for reading, and those
/// denied for writing.
pub open spec fn with_lists(
    denied: Seq<(Seq<char>, AccessMode)>,
    both: Seq<Seq<char>>,
    read: Seq<Seq<char>>,
    write: Seq<Seq<char>>,
    base: Seq<char>,
) -> Seq<(Seq<char>, AccessMode)> {
    with_denied(
        with_denied(with_denied(denied, both, base, AccessMode::ReadWrite), read, base, AccessMode::Read),
        write,
        base,
        AccessMode::Write,
    )
}

/// The denied paths of a run: those of the configuration file, then those
/// of the command line.
pub open spec fn loaded_files(args: Args, config: Option<FileConfig>, base: Seq<char>) -> Seq<
    (Seq<char>, AccessMode),
> {
    let from_config = match config {
        None => Seq::empty(),
        Some(c) => with_lists(
            Seq::empty(),
            names(c.deny@),
            names(c.deny_read@),
            names(c.deny_write@),
            base,
        ),
    };
    with_lists(
        from_config,
        names(args.deny_file@),
        names(args.deny_file_read@),
        names(args.deny_file_write@),
        base,
    )
}

/// The text of the entry that a refusal speaks of.
pub open spec fn entry_text(args: Args, config: Option<ConfigFile>, source: Source, i: int) -> Seq<
    char,
> {
    match source {
        Source::Config => config->Some_0.network.allow->Entries_0@[i]@,
        Source::CommandLine => args.allow_network@[i]@,
    }
}

/// Makes the policy of a run.
pub struct PolicyLoader;

impl PolicyLoader {
    /// The policy that the command line `args` and the configuration file
    /// `config`, where one was given, make together. Relative paths are
    /// resolved against `cwd`.
    pub fn load(args: &Args, config: Option<&ConfigFile>, cwd: &str) -> (r: Result<
        Policy,
        MoriError,
    >)
        ensures
            match loaded_network(
                args.allow_network_all,
                match config {
                    Some(c) => Some(c.network.allow),
                    None => None,
                },
                names(args.allow_network@),
            ) {
                Ok(p) => r is Ok && r->Ok_0.network@ == p && r->Ok_0.file.base_dir() == cwd@
                    && r->Ok_0.file@ == loaded_files(
                    *args,
                    match config {
                        Some(c) => Some(c.file),
                        None => None,
                    },
                    cwd@,
                ),
                Err((source, i, f)) => r is Err && is_entry_error(
                    r->Err_0,
                    entry_text(
                        *args,
                        match config {
                            Some(c) => Some(*c),
                            None => None,
                        },
                        source,
                        i,
                    ),
                    f,
                ),
            },
    {
        let mut network_policy = NetworkPolicy::from_allow_all(args.allow_network_all);
        let mut file_policy = FilePolicy::with_base(cwd);
        proof {
            assert(file_policy@ =~= Seq::<(Seq<char>, AccessMode)>::empty());
        }

        match config {
            Some(c) => {
                match c.to_policy() {
                    Ok(p) => {
                        network_policy.merge(p);
                    },
                    Err(e) => {
                        return Err(e);
                    },
                }
                file_policy.deny_each(&c.file.deny, AccessMode::ReadWrite);
                file_policy.deny_each(&c.file.deny_read, AccessMode::Read);
                file_policy.deny_each(&c.file.deny_write, AccessMode::Write);
            },
            None => {},
        }

        if !args.allow_network_all {
            match NetworkPolicy::from_entries(args.allow_network.as_slice()) {
                Ok(p) => {
                    network_policy.merge(p);
                },
                Err(e) => {
                    return Err(e);
                },
            }
        }

        file_policy.deny_each(&args.deny_file, AccessMode::ReadWrite);
        file_policy.deny_each(&args.deny_file_read, AccessMode::Read);
        file_policy.deny_each(&args.deny_file_write, AccessMode::Write);

        Ok(Policy { network: network_policy, file: file_policy })
    }
}

} // verus!

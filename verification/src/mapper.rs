//! The alias index of a `clap` command.

use crate::alias::{AliasKey, AliasToArgMapper, ArgAlias, ArgInfo, ArgInfoView};
use crate::index::{
    first_declaring, infos, lemma_first_declaring, lemma_registered, register_all, registered,
    resolved, AliasIndex,
};
use crate::offsets::narrow_shorts;
use crate::parse::ArgLocator;
use crate::schema::{
    command_arguments, command_subcommands, declared, declared_subcommands, read_arguments,
    read_subcommands,
};
use crate::table::AliasTable;
use vstd::prelude::*;

verus! {

/// What the aliases of the subcommands of `command` lead to: each alias
/// that a subcommand declares leads to what the arguments of that
/// subcommand resolve to, and to the first subcommand where several declare
/// it. The name of a subcommand is none of its aliases.
pub open spec fn derived_from(command: clap::Command) -> Map<Seq<char>, Map<AliasKey, ArgInfoView>> {
    Map::new(
        |name: Seq<char>|
            first_declaring(declared_subcommands(command), AliasKey::Long(name), 0) is Some,
        |name: Seq<char>| resolved(declared(found_subcommand(command, name))),
    )
}

/// The subcommand of `command` that the alias `name` leads to: the first
/// that declares it.
pub open spec fn found_subcommand(command: clap::Command, name: Seq<char>) -> clap::Command {
    command_subcommands(command)[first_declaring(
        declared_subcommands(command),
        AliasKey::Long(name),
        0,
    )->0]
}

/// Reads the arguments of `command`.
fn read_infos(command: &clap::Command) -> (r: Vec<ArgInfo>)
    ensures
        infos(r@) == declared(*command),
{
    let args = read_arguments(command);
    let mut out: Vec<ArgInfo> = Vec::new();
    let mut q: usize = 0;
    while q < args.len()
        invariant
            q <= args.len(),
            args@ == command_arguments(*command),
            out.len() == q,
            forall|e: int| 0 <= e < q ==> (#[trigger] out@[e])@ == declared(*command)[e],
        decreases args.len() - q,
    {
        out.push(ArgInfo::from_arg(&args[q]));
        q = q + 1;
    }
    assert(infos(out@) == declared(*command));
    out
}

/// Reads the aliases of the subcommands of `command`.
fn read_names(command: &clap::Command) -> (r: Vec<ArgInfo>)
    ensures
        infos(r@) == declared_subcommands(*command),
{
    let subcommands = read_subcommands(command);
    let mut out: Vec<ArgInfo> = Vec::new();
    let mut q: usize = 0;
    while q < subcommands.len()
        invariant
            q <= subcommands.len(),
            subcommands@ == command_subcommands(*command),
            out.len() == q,
            forall|e: int| 0 <= e < q ==> (#[trigger] out@[e])@ == declared_subcommands(*command)[e],
        decreases subcommands.len() - q,
    {
        out.push(ArgInfo::from_subcommand(&subcommands[q]));
        q = q + 1;
    }
    assert(infos(out@) == declared_subcommands(*command));
    out
}

/// Collects the aliases of a `clap` command and of its subcommands, and
/// resolves them: an alias of an argument to the record of the argument,
/// an alias of a subcommand to a mapper for that subcommand.
pub struct ClapAliasesMapper {
    command: clap::Command,
    arg_aliases: AliasIndex,
    command_aliases: AliasTable,
}

impl ClapAliasesMapper {
    #[verifier::type_invariant]
    spec fn inv(self) -> bool {
        &&& self.arg_aliases.decls() == declared(self.command)
        &&& self.command_aliases.wf()
        &&& self.command_aliases@ == registered(declared_subcommands(self.command))
        &&& command_subcommands(self.command).len() <= usize::MAX
    }

    /// The command that the mapper was made for.
    pub closed spec fn schema(&self) -> clap::Command {
        self.command
    }

    /// A mapper for `command`. It registers, for every argument of the
    /// command, the long name and the long aliases as long aliases and the
    /// short name and the short aliases as short ones, and for every
    /// subcommand its aliases.
    pub fn new(command: clap::Command) -> (r: Self)
        ensures
            r.schema() == command,
    {
        let arg_aliases = AliasIndex::build(read_infos(&command));
        let names = read_names(&command);
        let command_aliases = register_all(&names);
        let count = names.len();
        assert(declared_subcommands(command).len() == count);
        ClapAliasesMapper { command, arg_aliases, command_aliases }
    }

    /// The index of the aliases of the command's arguments.
    pub fn arg_aliases(&self) -> (r: &AliasIndex)
        ensures
            r.decls() == declared(self.schema()),
    {
        proof {
            use_type_invariant(self);
        }
        &self.arg_aliases
    }

    /// Whether every short name of the command's arguments is one byte
    /// wide, as the scan counts it.
    pub fn has_narrow_shorts(&self) -> (r: bool)
        ensures
            r == narrow_shorts(self.args()),
    {
        proof {
            use_type_invariant(self);
        }
        self.arg_aliases.has_narrow_shorts()
    }

    /// The command that the mapper was made for.
    pub fn command(&self) -> (r: &clap::Command)
        ensures
            *r == self.schema(),
    {
        &self.command
    }
}

impl AliasToArgMapper for ClapAliasesMapper {
    /// Not meant to be shown to the end user.
    type SkipReason = &'static str;

    open spec fn args(&self) -> Map<AliasKey, ArgInfoView> {
        resolved(declared(self.schema()))
    }

    open spec fn derived(&self) -> Map<Seq<char>, Map<AliasKey, ArgInfoView>> {
        derived_from(self.schema())
    }

    /// Searches the registered aliases by halving.
    fn get_arg(&self, alias: &ArgAlias) -> (r: Result<&ArgInfo, &'static str>)
        ensures
            r matches Err(reason) ==> reason@ == "Unknown alias"@,
    {
        proof {
            use_type_invariant(self);
        }
        match self.arg_aliases.lookup(alias) {
            Some(info) => Ok(info),
            None => Err("Unknown alias"),
        }
    }

    /// Searches the registered aliases of subcommands by halving and makes
    /// a mapper for the subcommand found: the first that declares the alias.
    fn get_derived_mapper(&self, alias: &str) -> (r: Result<Self, &'static str>)
        ensures
            r matches Err(reason) ==> reason@ == "Unknown alias"@,
            r matches Ok(mapper) ==> mapper.schema() == found_subcommand(self.schema(), alias@),
    {
        proof {
            use_type_invariant(self);
            lemma_registered(declared_subcommands(self.command), AliasKey::Long(alias@));
            lemma_first_declaring(declared_subcommands(self.command), AliasKey::Long(alias@), 0);
        }
        let key = ArgAlias::Long(alias.to_owned());
        match self.command_aliases.get(&key) {
            Some(q) => {
                let mut subcommands = read_subcommands(&self.command);
                let subcommand = subcommands.remove(q);
                Ok(ClapAliasesMapper::new(subcommand))
            },
            None => Err("Unknown alias"),
        }
    }
}


impl ArgLocator<ClapAliasesMapper> {
    /// A locator for the arguments of `command`.
    pub fn from_command(command: clap::Command) -> (r: Self)
        ensures
            r.mapper.schema() == command,
    {
        ArgLocator::new(ClapAliasesMapper::new(command))
    }

    /// All long and short names of the command's arguments, the canonical
    /// ones among them, each leading to its argument.
    pub fn get_arg_aliases(&self) -> (r: &AliasIndex)
        ensures
            r.decls() == declared(self.mapper.schema()),
    {
        self.mapper.arg_aliases()
    }
}

} // verus!

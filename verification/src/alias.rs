//! Aliases of arguments and their resolution.

use crate::text::texts;
use vstd::prelude::*;

verus! {

/// A spelling of an argument. Long and short names are kept apart, since a
/// long name may be one character long as well.
#[derive(Clone, Debug, PartialEq, Eq, PartialOrd, Ord, Hash)]
pub enum ArgAlias {
    /// A name led by two hyphens in the argv string; the hyphens are not part of it.
    Long(String),
    /// A name led by one hyphen; several may stand in one cluster.
    Short(char),
}

/// An alias as a mathematical value.
pub ghost enum AliasKey {
    Long(Seq<char>),
    Short(char),
}

impl View for ArgAlias {
    type V = AliasKey;

    open spec fn view(&self) -> AliasKey {
        match self {
            ArgAlias::Long(name) => AliasKey::Long(name@),
            ArgAlias::Short(name) => AliasKey::Short(*name),
        }
    }
}

/// What the scan needs to know of one argument. All aliases of the argument
/// lead to the same record.
#[derive(Clone, Debug, PartialEq, Eq)]
pub struct ArgInfo {
    /// The argument's identifier, by which targets name it.
    pub id: String,
    /// Its long names: the canonical one first, if any, then its aliases.
    pub longs: Vec<String>,
    /// Its short names: the canonical one first, if any, then its aliases.
    pub shorts: Vec<char>,
    /// Whether it takes values; a flag does not.
    pub takes_values: bool,
    /// The most values that one occurrence takes; `usize::MAX` stands for no bound.
    pub max_values: usize,
    /// Whether a token that looks like an option may be one of its values.
    pub allow_hyphen_values: bool,
}

/// An [`ArgInfo`] as a mathematical value.
pub ghost struct ArgInfoView {
    pub id: Seq<char>,
    pub longs: Seq<Seq<char>>,
    pub shorts: Seq<char>,
    pub takes_values: bool,
    pub max_values: usize,
    pub allow_hyphen_values: bool,
}

impl View for ArgInfo {
    type V = ArgInfoView;

    open spec fn view(&self) -> ArgInfoView {
        ArgInfoView {
            id: self.id@,
            longs: texts(self.longs@),
            shorts: self.shorts@,
            takes_values: self.takes_values,
            max_values: self.max_values,
            allow_hyphen_values: self.allow_hyphen_values,
        }
    }
}

impl ArgInfoView {
    /// Whether `alias` is one of the argument's names.
    pub open spec fn declares(self, alias: AliasKey) -> bool {
        match alias {
            AliasKey::Long(name) => self.longs.contains(name),
            AliasKey::Short(name) => self.shorts.contains(name),
        }
    }
}

/// Resolves aliases to arguments, and the aliases of subcommands to mappers
/// for these.
pub trait AliasToArgMapper: Sized {
    /// Why an alias was not resolved.
    type SkipReason;

    /// The aliases that the mapper resolves, each with the argument it leads to.
    spec fn args(&self) -> Map<AliasKey, ArgInfoView>;

    /// The aliases of subcommands that the mapper resolves, each with what
    /// the mapper derived for that subcommand resolves.
    spec fn derived(&self) -> Map<Seq<char>, Map<AliasKey, ArgInfoView>>;

    /// The argument that `alias` leads to; an error where no argument has
    /// that alias.
    fn get_arg(&self, alias: &ArgAlias) -> (r: Result<&ArgInfo, Self::SkipReason>)
        ensures
            r is Ok <==> self.args().contains_key(alias@),
            r matches Ok(info) ==> info@ == self.args()[alias@],
    ;

    /// A mapper for the subcommand that declares `alias`; an error where no
    /// subcommand does.
    fn get_derived_mapper(&self, alias: &str) -> (r: Result<Self, Self::SkipReason>)
        ensures
            r is Ok <==> self.derived().contains_key(alias@),
            r matches Ok(mapper) ==> mapper.args() == self.derived()[alias@],
    ;
}

} // verus!

//! What the library reads from a `clap` command definition. `clap` keeps its
//! definitions to itself; each reading below hands out plain values, and the
//! library believes them as they come.

use crate::alias::{ArgInfo, ArgInfoView};
use crate::lex::text_of;
use crate::text::texts;
use vstd::prelude::*;

verus! {

/// `clap::Command`, handed on as it is: nothing is known of what it holds.
#[verifier::external_type_specification]
#[verifier::external_body]
pub struct ExCommand(clap::Command);

/// `clap::Arg`, handed on as it is: nothing is known of what it holds.
#[verifier::external_type_specification]
#[verifier::external_body]
pub struct ExArg(clap::Arg);

/// The identifier that `clap::Arg::get_id` reports.
pub uninterp spec fn arg_id(arg: clap::Arg) -> Seq<char>;

/// The canonical long name that `clap::Arg::get_long` reports.
pub uninterp spec fn arg_long(arg: clap::Arg) -> Option<Seq<char>>;

/// The long aliases that `clap::Arg::get_all_aliases` reports.
pub uninterp spec fn arg_aliases(arg: clap::Arg) -> Option<Seq<Seq<char>>>;

/// The canonical short name that `clap::Arg::get_short` reports.
pub uninterp spec fn arg_short(arg: clap::Arg) -> Option<char>;

/// The short aliases that `clap::Arg::get_all_short_aliases` reports.
pub uninterp spec fn arg_short_aliases(arg: clap::Arg) -> Option<Seq<char>>;

/// Whether the action that `clap::Arg::get_action` reports takes values.
pub uninterp spec fn arg_takes_values(arg: clap::Arg) -> bool;

/// The upper end of the range that `clap::Arg::get_num_args` reports.
pub uninterp spec fn arg_max_values(arg: clap::Arg) -> Option<usize>;

/// What `clap::Arg::is_allow_hyphen_values_set` reports.
pub uninterp spec fn arg_allows_hyphen_values(arg: clap::Arg) -> bool;

/// The arguments that `clap::Command::get_arguments` walks through, in its order.
pub uninterp spec fn command_arguments(command: clap::Command) -> Seq<clap::Arg>;

/// The subcommands that `clap::Command::get_subcommands` walks through, in its order.
pub uninterp spec fn command_subcommands(command: clap::Command) -> Seq<clap::Command>;

/// The name that `clap::Command::get_name` reports.
pub uninterp spec fn command_name(command: clap::Command) -> Seq<char>;

/// The aliases that `clap::Command::get_all_aliases` walks through, in its order.
pub uninterp spec fn command_aliases(command: clap::Command) -> Seq<Seq<char>>;

/// Calls `clap::Arg::get_id`: the argument's identifier, as text.
#[verifier::external_body]
pub(crate) fn read_id(arg: &clap::Arg) -> (r: String)
    ensures
        r@ == arg_id(*arg),
{
    arg.get_id().as_str().to_owned()
}

/// Calls `clap::Arg::get_long`: the canonical long name, if the argument has one.
#[verifier::external_body]
pub(crate) fn read_long(arg: &clap::Arg) -> (r: Option<String>)
    ensures
        text_of(r) == arg_long(*arg),
{
    arg.get_long().map(|name| name.to_owned())
}

/// Calls `clap::Arg::get_all_aliases`: the long aliases, visible and hidden,
/// if the argument has any.
#[verifier::external_body]
pub(crate) fn read_aliases(arg: &clap::Arg) -> (r: Option<Vec<String>>)
    ensures
        match r {
            Some(names) => arg_aliases(*arg) == Some(texts(names@)),
            None => arg_aliases(*arg) is None,
        },
{
    arg.get_all_aliases().map(|names| names.into_iter().map(|name| name.to_owned()).collect())
}

/// Calls `clap::Arg::get_short`: the canonical short name, if the argument has one.
#[verifier::external_body]
pub(crate) fn read_short(arg: &clap::Arg) -> (r: Option<char>)
    ensures
        r == arg_short(*arg),
{
    arg.get_short()
}

/// Calls `clap::Arg::get_all_short_aliases`: the short aliases, visible and
/// hidden, if the argument has any.
#[verifier::external_body]
pub(crate) fn read_short_aliases(arg: &clap::Arg) -> (r: Option<Vec<char>>)
    ensures
        match r {
            Some(names) => arg_short_aliases(*arg) == Some(names@),
            None => arg_short_aliases(*arg) is None,
        },
{
    arg.get_all_short_aliases()
}

/// Calls `clap::Arg::get_action` and asks the action whether it takes values
/// (`clap::ArgAction::takes_values`).
#[verifier::external_body]
pub(crate) fn read_takes_values(arg: &clap::Arg) -> (r: bool)
    ensures
        r == arg_takes_values(*arg),
{
    arg.get_action().takes_values()
}

/// Calls `clap::Arg::get_num_args` and takes the upper end of the range
/// (`clap::builder::ValueRange::max_values`), where a range is set.
#[verifier::external_body]
pub(crate) fn read_max_values(arg: &clap::Arg) -> (r: Option<usize>)
    ensures
        r == arg_max_values(*arg),
{
    arg.get_num_args().map(|range| range.max_values())
}

/// Calls `clap::Arg::is_allow_hyphen_values_set`.
#[verifier::external_body]
pub(crate) fn read_allows_hyphen_values(arg: &clap::Arg) -> (r: bool)
    ensures
        r == arg_allows_hyphen_values(*arg),
{
    arg.is_allow_hyphen_values_set()
}

/// Calls `clap::Command::get_arguments` and clones each argument it yields.
#[verifier::external_body]
pub(crate) fn read_arguments(command: &clap::Command) -> (r: Vec<clap::Arg>)
    ensures
        r@ == command_arguments(*command),
{
    command.get_arguments().cloned().collect()
}

/// Calls `clap::Command::get_subcommands` and clones each subcommand it yields.
#[verifier::external_body]
pub(crate) fn read_subcommands(command: &clap::Command) -> (r: Vec<clap::Command>)
    ensures
        r@ == command_subcommands(*command),
{
    command.get_subcommands().cloned().collect()
}

/// Calls `clap::Command::get_name`.
#[verifier::external_body]
pub(crate) fn read_name(command: &clap::Command) -> (r: String)
    ensures
        r@ == command_name(*command),
{
    command.get_name().to_owned()
}

/// Calls `clap::Command::get_all_aliases`: the aliases of the command,
/// visible and hidden.
#[verifier::external_body]
pub(crate) fn read_command_aliases(command: &clap::Command) -> (r: Vec<String>)
    ensures
        texts(r@) == command_aliases(*command),
{
    command.get_all_aliases().map(|name| name.to_owned()).collect()
}

/// The one value of an option as a sequence, or the empty sequence.
pub open spec fn one_or_none<T>(value: Option<T>) -> Seq<T> {
    match value {
        Some(v) => seq![v],
        None => Seq::empty(),
    }
}

/// The sequence in an option, or the empty sequence.
pub open spec fn some_or_empty<T>(values: Option<Seq<T>>) -> Seq<T> {
    match values {
        Some(v) => v,
        None => Seq::empty(),
    }
}

/// What the library makes of an argument of `clap`. The canonical name
/// comes before the aliases. Where no number of values is set, an argument
/// whose action takes values takes one, and any other takes none.
pub open spec fn described(arg: clap::Arg) -> ArgInfoView {
    ArgInfoView {
        id: arg_id(arg),
        longs: one_or_none(arg_long(arg)) + some_or_empty(arg_aliases(arg)),
        shorts: one_or_none(arg_short(arg)) + some_or_empty(arg_short_aliases(arg)),
        takes_values: arg_takes_values(arg),
        max_values: match arg_max_values(arg) {
            Some(most) => most,
            None => if arg_takes_values(arg) {
                1
            } else {
                0
            },
        },
        allow_hyphen_values: arg_allows_hyphen_values(arg),
    }
}

/// The arguments of a command as the library sees them.
pub open spec fn declared(command: clap::Command) -> Seq<ArgInfoView> {
    Seq::new(
        command_arguments(command).len(),
        |q: int| described(command_arguments(command)[q]),
    )
}

/// A subcommand as a record whose long names are the aliases of the
/// subcommand. Its own name identifies it and is no alias.
pub open spec fn named(command: clap::Command) -> ArgInfoView {
    ArgInfoView {
        id: command_name(command),
        longs: command_aliases(command),
        shorts: Seq::empty(),
        takes_values: false,
        max_values: 0,
        allow_hyphen_values: false,
    }
}

/// The subcommands of a command, each as the record of its aliases.
pub open spec fn declared_subcommands(command: clap::Command) -> Seq<ArgInfoView> {
    Seq::new(
        command_subcommands(command).len(),
        |q: int| named(command_subcommands(command)[q]),
    )
}

impl ArgInfo {
    /// Reads what the scan needs to know of `arg`.
    pub fn from_arg(arg: &clap::Arg) -> (r: Self)
        ensures
            r@ == described(*arg),
    {
        let mut longs: Vec<String> = Vec::new();
        match read_long(arg) {
            Some(name) => {
                longs.push(name);
            },
            None => {},
        }
        match read_aliases(arg) {
            Some(mut names) => {
                let ghost front = longs@;
                let ghost back = names@;
                longs.append(&mut names);
                assert(texts(longs@) == texts(front) + texts(back));
            },
            None => {},
        }
        assert(texts(longs@) == described(*arg).longs);
        let mut shorts: Vec<char> = Vec::new();
        match read_short(arg) {
            Some(name) => {
                shorts.push(name);
            },
            None => {},
        }
        match read_short_aliases(arg) {
            Some(mut names) => {
                shorts.append(&mut names);
            },
            None => {},
        }
        assert(shorts@ == described(*arg).shorts);
        let takes_values = read_takes_values(arg);
        let max_values = match read_max_values(arg) {
            Some(most) => most,
            None => if takes_values {
                1
            } else {
                0
            },
        };
        ArgInfo {
            id: read_id(arg),
            longs,
            shorts,
            takes_values,
            max_values,
            allow_hyphen_values: read_allows_hyphen_values(arg),
        }
    }

    /// The record of the aliases of the subcommand `command`, under the
    /// name of the subcommand.
    pub fn from_subcommand(command: &clap::Command) -> (r: Self)
        ensures
            r@ == named(*command),
    {
        ArgInfo {
            id: read_name(command),
            longs: read_command_aliases(command),
            shorts: Vec::new(),
            takes_values: false,
            max_values: 0,
            allow_hyphen_values: false,
        }
    }
}

} // verus!

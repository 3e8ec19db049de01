use arg_locator::alias::{AliasToArgMapper, ArgAlias, ArgInfo};
use arg_locator::index::AliasIndex;
use arg_locator::mapper::ClapAliasesMapper;
use arg_locator::parse::ArgLocator;
use arg_locator::table::AliasTable;
use clap::{Arg, ArgAction, Command};

fn long(name: &str) -> ArgAlias {
    ArgAlias::Long(name.to_string())
}

fn texts(items: &[&str]) -> Vec<String> {
    items.iter().map(|item| item.to_string()).collect()
}

fn info(id: &str, longs: &[&str], shorts: &[char]) -> ArgInfo {
    ArgInfo {
        id: id.to_string(),
        longs: texts(longs),
        shorts: shorts.to_vec(),
        takes_values: false,
        max_values: 0,
        allow_hyphen_values: false,
    }
}

#[test]
fn order_of_aliases_is_that_of_their_derived_comparison() {
    let samples = vec![
        long(""),
        long("a"),
        long("ab"),
        long("b"),
        long("B"),
        long("\u{e9}"),
        long("z"),
        long("\u{20ac}"),
        long("\u{1f600}"),
        ArgAlias::Short('a'),
        ArgAlias::Short('b'),
        ArgAlias::Short('A'),
        ArgAlias::Short('\u{e9}'),
        ArgAlias::Short('\u{1f600}'),
    ];
    for first in &samples {
        for second in &samples {
            assert_eq!(first.before(second), first < second);
        }
    }
}

#[test]
fn long_and_short_names_are_kept_apart() {
    assert!(long("e").before(&ArgAlias::Short('e')));
    assert!(!ArgAlias::Short('e').before(&long("e")));
    assert_ne!(long("e"), ArgAlias::Short('e'));
    let index = AliasIndex::build(vec![info("long", &["e"], &[]), info("short", &[], &['e'])]);
    assert_eq!(index.lookup(&long("e")).map(|found| found.id.as_str()), Some("long"));
    assert_eq!(index.lookup(&ArgAlias::Short('e')).map(|found| found.id.as_str()), Some("short"));
}

#[test]
fn table_keeps_the_first_index_of_an_alias() {
    let mut table = AliasTable::new();
    for (place, name) in ["m", "c", "x", "a", "m", "q", "c"].iter().enumerate() {
        table.insert_absent(long(name), place);
    }
    table.insert_absent(ArgAlias::Short('m'), 9);
    assert_eq!(table.get(&long("m")), Some(0));
    assert_eq!(table.get(&long("c")), Some(1));
    assert_eq!(table.get(&long("x")), Some(2));
    assert_eq!(table.get(&long("a")), Some(3));
    assert_eq!(table.get(&long("q")), Some(5));
    assert_eq!(table.get(&ArgAlias::Short('m')), Some(9));
    assert_eq!(table.get(&long("b")), None);
    assert_eq!(table.get(&ArgAlias::Short('c')), None);
}

#[test]
fn index_resolves_every_alias_to_its_argument() {
    let index = AliasIndex::build(vec![
        info("example", &["example", "e"], &['e', 'x']),
        info("other", &["other"], &['o']),
        info("positional", &[], &[]),
    ]);
    for alias in [long("example"), long("e"), ArgAlias::Short('e'), ArgAlias::Short('x')] {
        assert_eq!(index.lookup(&alias).map(|found| found.id.as_str()), Some("example"));
        assert_eq!(index.get_arg(&alias).map(|found| found.id.as_str()), Ok("example"));
    }
    assert_eq!(index.lookup(&long("other")).map(|found| found.id.as_str()), Some("other"));
    assert_eq!(index.lookup(&long("x")), None);
    assert_eq!(index.lookup(&long("positional")), None);
    assert_eq!(index.get_arg(&long("x")), Err("Unknown alias"));
    assert_eq!(index.get_derived_mapper("other").err(), Some("Unknown alias"));
}

#[test]
fn alias_of_two_arguments_leads_to_the_first() {
    let index = AliasIndex::build(vec![info("first", &["same"], &['s']), info("second", &["same", "own"], &['s'])]);
    assert_eq!(index.lookup(&long("same")).map(|found| found.id.as_str()), Some("first"));
    assert_eq!(index.lookup(&ArgAlias::Short('s')).map(|found| found.id.as_str()), Some("first"));
    assert_eq!(index.lookup(&long("own")).map(|found| found.id.as_str()), Some("second"));
}

fn command() -> Command {
    Command::new("tool")
        .arg(
            Arg::new("example")
                .short('e')
                .short_alias('x')
                .visible_short_alias('y')
                .long("example")
                .alias("e")
                .visible_alias("sample")
                .action(ArgAction::SetTrue),
        )
        .arg(Arg::new("count").long("count").action(ArgAction::Count))
        .arg(Arg::new("name").long("name").short('n').allow_hyphen_values(true))
        .arg(Arg::new("few").long("few").num_args(2..=3))
        .arg(Arg::new("all").long("all").action(ArgAction::Append).num_args(1..))
        .arg(Arg::new("file"))
        .subcommand(
            Command::new("build")
                .alias("b")
                .visible_alias("make")
                .arg(Arg::new("release").long("release").short('r').action(ArgAction::SetTrue)),
        )
        .subcommand(Command::new("clean").arg(Arg::new("force").short('f').action(ArgAction::SetTrue)))
}

#[test]
fn arguments_of_a_command_are_read() {
    let arguments: Vec<Arg> = command().get_arguments().cloned().collect();
    let read: Vec<ArgInfo> = arguments.iter().map(ArgInfo::from_arg).collect();
    let mut name = info("name", &["name"], &['n']);
    name.takes_values = true;
    name.max_values = 1;
    name.allow_hyphen_values = true;
    let mut few = info("few", &["few"], &[]);
    few.takes_values = true;
    few.max_values = 3;
    let mut all = info("all", &["all"], &[]);
    all.takes_values = true;
    all.max_values = usize::MAX;
    let mut file = info("file", &[], &[]);
    file.takes_values = true;
    file.max_values = 1;
    assert_eq!(
        read,
        vec![
            info("example", &["example", "e", "sample"], &['e', 'x', 'y']),
            info("count", &["count"], &[]),
            name,
            few,
            all,
            file,
        ]
    );
}

#[test]
fn aliases_of_a_subcommand_are_read() {
    let subcommands: Vec<Command> = command().get_subcommands().cloned().collect();
    assert_eq!(ArgInfo::from_subcommand(&subcommands[0]), info("build", &["b", "make"], &[]));
    assert_eq!(ArgInfo::from_subcommand(&subcommands[1]), info("clean", &[], &[]));
}

#[test]
fn mapper_resolves_the_aliases_of_its_command() {
    let mapper = ClapAliasesMapper::new(command());
    assert_eq!(mapper.command().get_name(), "tool");
    assert!(mapper.has_narrow_shorts());
    for alias in [
        long("example"),
        long("e"),
        long("sample"),
        ArgAlias::Short('e'),
        ArgAlias::Short('x'),
        ArgAlias::Short('y'),
    ] {
        assert_eq!(mapper.get_arg(&alias).map(|found| found.id.as_str()), Ok("example"));
    }
    assert_eq!(mapper.get_arg(&ArgAlias::Short('n')).map(|found| found.id.as_str()), Ok("name"));
    assert_eq!(mapper.get_arg(&long("x")), Err("Unknown alias"));
    assert_eq!(mapper.get_arg(&long("release")), Err("Unknown alias"));
    assert_eq!(mapper.get_arg(&long("build")), Err("Unknown alias"));
}

fn derived_command_names(mapper: &ClapAliasesMapper, name: &str) -> Vec<String> {
    mapper
        .get_derived_mapper(name)
        .ok()
        .into_iter()
        .map(|derived| derived.command().get_name().to_string())
        .collect()
}

#[test]
fn mapper_derives_a_mapper_for_a_subcommand() {
    let mapper = ClapAliasesMapper::new(command());
    for name in ["b", "make"] {
        let derived = mapper.get_derived_mapper(name).ok().unwrap();
        assert_eq!(derived.command().get_name(), "build");
        assert_eq!(derived.get_arg(&long("release")).map(|found| found.id.as_str()), Ok("release"));
        assert_eq!(derived.get_arg(&ArgAlias::Short('r')).map(|found| found.id.as_str()), Ok("release"));
        assert_eq!(derived.get_arg(&long("example")), Err("Unknown alias"));
        assert!(derived.get_derived_mapper("b").is_err());
    }
    assert!(mapper.get_derived_mapper("example").is_err());
    assert_eq!(mapper.get_derived_mapper("nope").err(), Some("Unknown alias"));
    assert_eq!(derived_command_names(&mapper, "make"), vec!["build".to_string()]);
    assert!(mapper.get_derived_mapper("tool").is_err());
}

#[test]
fn name_of_a_subcommand_is_no_alias() {
    let mapper = ClapAliasesMapper::new(command());
    assert_eq!(mapper.get_derived_mapper("build").err(), Some("Unknown alias"));
    assert_eq!(mapper.get_derived_mapper("clean").err(), Some("Unknown alias"));
    let shadowed = ClapAliasesMapper::new(
        Command::new("tool")
            .subcommand(Command::new("x").arg(Arg::new("first").long("first")))
            .subcommand(Command::new("second").alias("x").arg(Arg::new("own").long("own")))
            .subcommand(Command::new("third").alias("x").alias("t")),
    );
    let derived = shadowed.get_derived_mapper("x").ok().unwrap();
    assert_eq!(derived.command().get_name(), "second");
    assert_eq!(derived.get_arg(&long("own")).map(|found| found.id.as_str()), Ok("own"));
    assert_eq!(derived.get_arg(&long("first")), Err("Unknown alias"));
    assert_eq!(derived_command_names(&shadowed, "t"), vec!["third".to_string()]);
    assert!(shadowed.get_derived_mapper("second").is_err());
}

#[test]
fn locator_shows_the_aliases_of_its_command() {
    let locator = ArgLocator::from_command(command());
    let index = locator.get_arg_aliases();
    assert_eq!(index.lookup(&long("sample")).map(|found| found.id.as_str()), Some("example"));
    assert_eq!(index.lookup(&ArgAlias::Short('n')).map(|found| found.max_values), Some(1));
    assert_eq!(index.lookup(&long("few")).map(|found| found.max_values), Some(3));
    assert_eq!(index.lookup(&long("build")), None);
}

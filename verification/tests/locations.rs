use arg_locator::mapper::ClapAliasesMapper;
use arg_locator::parse::{ArgLocation, ArgLocator, ArgPart};
use clap::builder::ValueParser;
use clap::{Arg, ArgAction, Command};

fn strings(items: &[&str]) -> Vec<String> {
    items.iter().map(|item| item.to_string()).collect()
}

fn locator(command: Command) -> ArgLocator<ClapAliasesMapper> {
    ArgLocator::from_command(command)
}

#[test]
fn test_get_location_short_equals() {
    let command = Command::new("program_name")
        .arg(Arg::new("should_stick").short('s').action(ArgAction::Set).required(true));
    let locator = locator(command);
    let env_args = strings(&["program_name", "-s=Value"]);
    let location = locator.get_location_first(&env_args, "should_stick");
    assert_eq!(
        location,
        Some(ArgLocation::Complete {
            declaration: ArgPart { offset: 13, length: 1 },
            name: ArgPart { offset: 14, length: 1 },
            delimiter: ArgPart { offset: 15, length: 1 },
            content: ArgPart { offset: 16, length: 5 },
        })
    );
}

#[test]
fn test_get_location_hyphen_values() {
    let command = Command::new("program_name")
        .arg(
            Arg::new("complete")
                .long("complete")
                .allow_hyphen_values(true)
                .action(ArgAction::Set)
                .required(true),
        )
        .arg(Arg::new("should_absent").long("should-absent").action(ArgAction::SetTrue))
        .arg(
            Arg::new("stuck")
                .short('s')
                .allow_hyphen_values(true)
                .action(ArgAction::Set)
                .required(true),
        );
    let locator = locator(command);
    let env_args = strings(&["program_name", "--complete", "--should-absent", "-s-2."]);
    assert_eq!(
        locator.get_location_first(&env_args, "complete"),
        Some(ArgLocation::Complete {
            declaration: ArgPart { offset: 13, length: 2 },
            name: ArgPart { offset: 15, length: 8 },
            delimiter: ArgPart { offset: 23, length: 1 },
            content: ArgPart { offset: 24, length: 15 },
        })
    );
    // Searched for together with `complete`, `should_absent` does not occur:
    // the token that spells it is the value of `--complete`.
    let both = strings(&["complete", "should_absent"]);
    let found = locator.get_locations(&env_args, &both, 1);
    assert_eq!(found.iter().filter(|(target, _)| target.as_str() == "should_absent").count(), 0);
    // Searched for alone it is found, since a token that spells no target is
    // passed over whole and takes nothing with it.
    assert_eq!(
        locator.get_location_first(&env_args, "should_absent"),
        Some(ArgLocation::Discrete {
            declaration: ArgPart { offset: 24, length: 2 },
            name: ArgPart { offset: 26, length: 13 },
        })
    );
    assert_eq!(
        locator.get_location_first(&env_args, "stuck"),
        Some(ArgLocation::Stuck {
            declaration: ArgPart { offset: 40, length: 1 },
            name: ArgPart { offset: 41, length: 1 },
            content: ArgPart { offset: 42, length: 3 },
        })
    );
}

#[derive(Clone)]
struct NewFlag;

impl std::str::FromStr for NewFlag {
    type Err = String;

    fn from_str(_: &str) -> Result<Self, Self::Err> {
        Ok(NewFlag)
    }
}

fn parse_new_flag(text: &str) -> Result<NewFlag, String> {
    text.parse::<NewFlag>()
}

#[test]
fn test_get_location_stuck_derived_bool() {
    let command = Command::new("program_name")
        .arg(
            Arg::new("new_flag")
                .short('n')
                .action(ArgAction::SetFalse)
                .value_parser(ValueParser::new(parse_new_flag)),
        )
        .arg(Arg::new("should_stick").short('s').action(ArgAction::Set).required(true))
        .arg(Arg::new("primitive_flag").short('p').action(ArgAction::SetTrue));
    let locator = locator(command);
    let args_env = strings(&["program_name", "-npspn"]);
    assert_eq!(
        locator.get_location_first(&args_env, "new_flag"),
        Some(ArgLocation::Discrete {
            declaration: ArgPart { offset: 13, length: 1 },
            name: ArgPart { offset: 14, length: 1 },
        })
    );
    assert_eq!(
        locator.get_location_first(&args_env, "primitive_flag"),
        Some(ArgLocation::Discrete {
            declaration: ArgPart { offset: 13, length: 1 },
            name: ArgPart { offset: 15, length: 1 },
        })
    );
    assert_eq!(
        locator.get_location_first(&args_env, "should_stick"),
        Some(ArgLocation::Stuck {
            declaration: ArgPart { offset: 13, length: 1 },
            name: ArgPart { offset: 16, length: 1 },
            content: ArgPart { offset: 17, length: 2 },
        })
    );
}

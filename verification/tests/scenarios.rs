use arg_locator::alias::ArgInfo;
use arg_locator::index::AliasIndex;
use arg_locator::parse::{ArgLocation, ArgLocator, ArgPart};

fn strings(items: &[&str]) -> Vec<String> {
    items.iter().map(|item| item.to_string()).collect()
}

fn flag(id: &str, longs: &[&str], shorts: &[char]) -> ArgInfo {
    ArgInfo {
        id: id.to_string(),
        longs: strings(longs),
        shorts: shorts.to_vec(),
        takes_values: false,
        max_values: 0,
        allow_hyphen_values: false,
    }
}

fn option(id: &str, longs: &[&str], shorts: &[char]) -> ArgInfo {
    ArgInfo {
        id: id.to_string(),
        longs: strings(longs),
        shorts: shorts.to_vec(),
        takes_values: true,
        max_values: 1,
        allow_hyphen_values: false,
    }
}

fn sample() -> ArgLocator<AliasIndex> {
    ArgLocator::new(AliasIndex::build(vec![
        flag("discrete", &["discrete"], &['d']),
        option("stuck", &[], &['s']),
        option("complete", &["complete"], &['c']),
        option("optional", &["optional"], &['o']),
    ]))
}

#[test]
fn cluster_and_inline_value() {
    let locator = sample();
    let args = strings(&["-dsValue", "--complete=1"]);
    assert_eq!(
        locator.get_location_first(&args, "discrete"),
        Some(ArgLocation::Discrete {
            declaration: ArgPart { offset: 0, length: 1 },
            name: ArgPart { offset: 1, length: 1 },
        })
    );
    assert_eq!(
        locator.get_location_first(&args, "stuck"),
        Some(ArgLocation::Stuck {
            declaration: ArgPart { offset: 0, length: 1 },
            name: ArgPart { offset: 2, length: 1 },
            content: ArgPart { offset: 3, length: 5 },
        })
    );
    assert_eq!(
        locator.get_location_first(&args, "complete"),
        Some(ArgLocation::Complete {
            declaration: ArgPart { offset: 9, length: 2 },
            name: ArgPart { offset: 11, length: 8 },
            delimiter: ArgPart { offset: 19, length: 1 },
            content: ArgPart { offset: 20, length: 1 },
        })
    );
    assert_eq!(locator.get_location_first(&args, "optional"), None);
}

use arg_locator::parse::{ArgLocation, ArgPart};

#[test]
fn new_complete_places_delimiter_and_content() {
    let declaration = ArgPart { offset: 9, length: 2 };
    let name = ArgPart { offset: 11, length: 8 };
    assert_eq!(
        ArgLocation::new_complete(declaration, name, 1),
        ArgLocation::Complete {
            declaration,
            name,
            delimiter: ArgPart { offset: 19, length: 1 },
            content: ArgPart { offset: 20, length: 1 },
        }
    );
}

#[test]
fn default_part_is_empty_at_the_start() {
    assert_eq!(ArgPart::default(), ArgPart { offset: 0, length: 0 });
}

#[test]
fn new_complete_takes_an_empty_value() {
    let declaration = ArgPart { offset: 0, length: 1 };
    let name = ArgPart { offset: 3, length: 1 };
    assert_eq!(
        ArgLocation::new_complete(declaration, name, 0),
        ArgLocation::Complete {
            declaration,
            name,
            delimiter: ArgPart { offset: 4, length: 1 },
            content: ArgPart { offset: 5, length: 0 },
        }
    );
}

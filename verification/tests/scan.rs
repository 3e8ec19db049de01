use arg_locator::alias::{ArgAlias, ArgInfo};
use arg_locator::index::AliasIndex;
use arg_locator::parse::{ArgLocation, ArgLocator, ArgPart, LocateError};
use arg_locator::raw::LengthMode;
use arg_locator::scan::Hit;

fn texts(items: &[&str]) -> Vec<String> {
    items.iter().map(|item| item.to_string()).collect()
}

fn info(id: &str, longs: &[&str], shorts: &[char], takes_values: bool, max_values: usize) -> ArgInfo {
    ArgInfo {
        id: id.to_string(),
        longs: texts(longs),
        shorts: shorts.to_vec(),
        takes_values,
        max_values,
        allow_hyphen_values: false,
    }
}

fn schema() -> ArgLocator<AliasIndex> {
    let mut hyphen = info("hyphen", &["hyphen"], &['y'], true, 1);
    hyphen.allow_hyphen_values = true;
    ArgLocator::new(AliasIndex::build(vec![
        info("discrete", &["discrete"], &['d'], false, 0),
        info("stuck", &[], &['s'], true, 1),
        info("complete", &["complete", "comp"], &['c'], true, 1),
        info("optional", &["optional"], &['o'], true, 1),
        info("many", &["many"], &['m'], true, usize::MAX),
        info("pair", &["pair"], &[], true, 2),
        hyphen,
        info("verbose", &["verbose"], &['v'], false, 0),
    ]))
}

fn part(offset: usize, length: usize) -> ArgPart {
    ArgPart { offset, length }
}

fn discrete(declaration: ArgPart, name: ArgPart) -> ArgLocation {
    ArgLocation::Discrete { declaration, name }
}

fn complete(declaration: ArgPart, name: ArgPart, delimiter: ArgPart, content: ArgPart) -> ArgLocation {
    ArgLocation::Complete { declaration, name, delimiter, content }
}

#[test]
fn option_shaped_token_is_no_value() {
    let args = texts(&["--complete", "--looks-like-flag"]);
    assert_eq!(
        schema().get_location_first(&args, "complete"),
        Some(discrete(part(0, 2), part(2, 8)))
    );
}

#[test]
fn short_with_equals_is_complete() {
    let args = texts(&["-s=Value"]);
    assert_eq!(
        schema().get_location_first(&args, "stuck"),
        Some(complete(part(0, 1), part(1, 1), part(2, 1), part(3, 5)))
    );
}

#[test]
fn value_in_the_next_token() {
    let args = texts(&["--complete", "1"]);
    assert_eq!(
        schema().get_location_first(&args, "complete"),
        Some(complete(part(0, 2), part(2, 8), part(10, 1), part(11, 1)))
    );
}

#[test]
fn unbounded_argument_takes_values_up_to_an_option() {
    let args = texts(&["--many", "a", "bb", "-v", "c"]);
    assert_eq!(
        schema().get_location_first(&args, "many"),
        Some(complete(part(0, 2), part(2, 4), part(6, 1), part(7, 4)))
    );
}

#[test]
fn bounded_argument_takes_no_more_than_its_bound() {
    let args = texts(&["--pair", "a", "b", "c"]);
    assert_eq!(
        schema().get_location_first(&args, "pair"),
        Some(complete(part(0, 2), part(2, 4), part(6, 1), part(7, 3)))
    );
}

#[test]
fn hyphen_value_is_taken_where_allowed() {
    let args = texts(&["--hyphen", "-v", "-v"]);
    let targets = texts(&["hyphen", "verbose"]);
    let locator = schema();
    let found = locator.get_locations(&args, &targets, 1);
    assert_eq!(
        found,
        vec![
            (&targets[0], complete(part(0, 2), part(2, 6), part(8, 1), part(9, 2))),
            (&targets[1], discrete(part(12, 1), part(13, 1))),
        ]
    );
}

#[test]
fn last_short_of_a_cluster_takes_the_next_token() {
    let args = texts(&["-dc", "7"]);
    assert_eq!(
        schema().get_location_first(&args, "complete"),
        Some(complete(part(0, 1), part(2, 1), part(3, 1), part(4, 1)))
    );
}

#[test]
fn occurrences_come_in_the_order_of_the_tokens() {
    let args = texts(&["-d", "--complete=1", "-d"]);
    let targets = texts(&["complete", "discrete"]);
    let locator = schema();
    let found = locator.get_locations(&args, &targets, 2);
    assert_eq!(
        found,
        vec![
            (&targets[1], discrete(part(0, 1), part(1, 1))),
            (&targets[0], complete(part(3, 2), part(5, 8), part(13, 1), part(14, 1))),
            (&targets[1], discrete(part(16, 1), part(17, 1))),
        ]
    );
}

#[test]
fn no_target_is_found_more_often_than_the_limit() {
    let args = texts(&["-d", "-d", "-d"]);
    let targets = texts(&["discrete"]);
    let locator = schema();
    assert_eq!(locator.get_locations(&args, &targets, 2).len(), 2);
    assert_eq!(locator.get_locations(&args, &targets, 1).len(), 1);
    assert_eq!(locator.get_locations(&args, &targets, 0).len(), 0);
    assert_eq!(locator.get_locations(&args, &targets, 5).len(), 3);
}

#[test]
fn target_at_its_limit_is_passed_over() {
    let args = texts(&["-d", "-d", "--complete=1"]);
    let targets = texts(&["discrete", "complete"]);
    let locator = schema();
    let found = locator.get_locations(&args, &targets, 1);
    assert_eq!(
        found,
        vec![
            (&targets[0], discrete(part(0, 1), part(1, 1))),
            (&targets[1], complete(part(6, 2), part(8, 8), part(16, 1), part(17, 1))),
        ]
    );
}

#[test]
fn target_named_twice_is_found_for_its_first_entry() {
    let args = texts(&["-d", "-d"]);
    let targets = texts(&["discrete", "discrete"]);
    let locator = schema();
    let hits = locator.locate_text(&args, &targets, 1).unwrap();
    assert_eq!(hits, vec![Hit { target: 0, location: discrete(part(0, 1), part(1, 1)) }]);
}

#[test]
fn scan_without_targets_finds_nothing() {
    let args = texts(&["-d", "--nope"]);
    let targets: Vec<String> = Vec::new();
    assert_eq!(schema().try_get_locations(&args, &targets, 3), Ok(vec![]));
}

#[test]
fn unknown_alias_is_reported() {
    let locator = schema();
    let targets = texts(&["discrete"]);
    assert_eq!(
        locator.try_get_locations(&texts(&["--nope", "-d"]), &targets, 1),
        Err(ArgAlias::Long("nope".to_string()))
    );
    assert_eq!(
        locator.try_get_locations(&texts(&["-dx"]), &targets, 2),
        Err(ArgAlias::Short('x'))
    );
    assert_eq!(
        locator.try_get_location_first(&texts(&["-v", "--nope=1"]), "discrete"),
        Err(ArgAlias::Long("nope".to_string()))
    );
}

#[test]
fn unknown_alias_behind_the_last_occurrence_is_not_met() {
    let locator = schema();
    assert_eq!(
        locator.try_get_location_first(&texts(&["-dx", "--nope"]), "discrete"),
        Ok(Some(discrete(part(0, 1), part(1, 1))))
    );
}

#[test]
fn token_that_spells_no_target_moves_the_cursor_behind_it() {
    let locator = schema();
    assert_eq!(
        locator.get_location_first(&texts(&["--optional=x", "-d"]), "discrete"),
        Some(discrete(part(13, 1), part(14, 1)))
    );
    assert_eq!(
        locator.get_location_first(&texts(&["positional", "-vd"]), "discrete"),
        Some(discrete(part(11, 1), part(13, 1)))
    );
}

#[test]
fn value_of_a_short_ends_the_cluster() {
    let locator = schema();
    assert_eq!(
        locator.get_location_first(&texts(&["-ovd", "-d"]), "discrete"),
        Some(discrete(part(5, 1), part(6, 1)))
    );
    assert_eq!(
        locator.get_location_first(&texts(&["-sd"]), "discrete"),
        None
    );
}

#[test]
fn hyphens_alone_and_the_empty_token_are_plain() {
    let locator = schema();
    assert_eq!(
        locator.get_location_first(&texts(&["--", "-", "", "-d"]), "discrete"),
        Some(discrete(part(6, 1), part(7, 1)))
    );
    assert_eq!(
        locator.get_location_first(&texts(&["--many", "-", "--", "x"]), "many"),
        Some(complete(part(0, 2), part(2, 4), part(6, 1), part(7, 6)))
    );
}

#[test]
fn lengths_count_bytes() {
    let locator = schema();
    assert_eq!(
        locator.get_location_first(&texts(&["-s\u{e9}\u{20ac}"]), "stuck"),
        Some(ArgLocation::Stuck {
            declaration: part(0, 1),
            name: part(1, 1),
            content: part(2, 5),
        })
    );
    assert_eq!(
        locator.get_location_first(&texts(&["--complete=\u{e9}", "\u{1f600}", "-d"]), "discrete"),
        Some(discrete(part(19, 1), part(20, 1)))
    );
}

#[test]
fn empty_value_is_a_value() {
    let locator = schema();
    assert_eq!(
        locator.get_location_first(&texts(&["--complete="]), "complete"),
        Some(complete(part(0, 2), part(2, 8), part(10, 1), part(11, 0)))
    );
    assert_eq!(
        locator.get_location_first(&texts(&["--complete", ""]), "complete"),
        Some(complete(part(0, 2), part(2, 8), part(10, 1), part(11, 0)))
    );
    assert_eq!(
        locator.get_location_first(&texts(&["--complete"]), "complete"),
        Some(discrete(part(0, 2), part(2, 8)))
    );
}

#[test]
fn long_name_may_be_empty() {
    let locator = ArgLocator::new(AliasIndex::build(vec![info("odd", &[""], &[], true, 1)]));
    assert_eq!(
        locator.get_location_first(&texts(&["--=v"]), "odd"),
        Some(complete(part(0, 2), part(2, 0), part(2, 1), part(3, 1)))
    );
}

#[test]
fn aliases_of_one_argument_stand_for_each_other() {
    let locator = schema();
    let targets = texts(&["complete"]);
    let by_name = locator.locate_text(&texts(&["--complete=1"]), &targets, 1).unwrap();
    let by_alias = locator.locate_text(&texts(&["--comp=1"]), &targets, 1).unwrap();
    let by_short = locator.locate_text(&texts(&["-c=1"]), &targets, 1).unwrap();
    assert_eq!(
        by_name,
        vec![Hit { target: 0, location: complete(part(0, 2), part(2, 8), part(10, 1), part(11, 1)) }]
    );
    assert_eq!(
        by_alias,
        vec![Hit { target: 0, location: complete(part(0, 2), part(2, 4), part(6, 1), part(7, 1)) }]
    );
    assert_eq!(
        by_short,
        vec![Hit { target: 0, location: complete(part(0, 1), part(1, 1), part(2, 1), part(3, 1)) }]
    );
}

#[test]
fn same_input_gives_the_same_output() {
    let args = texts(&["-dsValue", "--complete=1", "--many", "a", "b"]);
    let targets = texts(&["many", "stuck", "discrete", "complete"]);
    let first = schema().locate_text(&args, &targets, 2);
    let second = schema().locate_text(&args, &targets, 2);
    assert_eq!(first, second);
    assert_eq!(first.unwrap().len(), 4);
}

fn cut(argv: &str, part: ArgPart) -> &str {
    &argv[part.offset..part.offset + part.length]
}

#[test]
fn parts_cut_their_texts_out_of_the_argv_string() {
    let args = texts(&["bin", "-vdsValue", "--comp=\u{e9}t\u{e9}", "-c", "7", "--many", "a b", "c", "-d"]);
    let argv = args.join(" ");
    let targets = texts(&["discrete", "stuck", "complete", "many"]);
    let locator = schema();
    let found = locator.get_locations(&args, &targets, 2);
    let shown: Vec<(String, Vec<String>)> = found
        .iter()
        .map(|(target, location)| {
            let cuts = match *location {
                ArgLocation::Discrete { declaration, name } => vec![declaration, name],
                ArgLocation::Stuck { declaration, name, content } => vec![declaration, name, content],
                ArgLocation::Complete { declaration, name, delimiter, content } => {
                    vec![declaration, name, delimiter, content]
                }
            };
            (target.to_string(), cuts.into_iter().map(|part| cut(&argv, part).to_string()).collect())
        })
        .collect();
    let expected: Vec<(String, Vec<String>)> = vec![
        ("discrete".to_string(), texts(&["-", "d"])),
        ("stuck".to_string(), texts(&["-", "s", "Value"])),
        ("complete".to_string(), texts(&["--", "comp", "=", "\u{e9}t\u{e9}"])),
        ("complete".to_string(), texts(&["-", "c", " ", "7"])),
        ("many".to_string(), texts(&["--", "many", " ", "a b c"])),
        ("discrete".to_string(), texts(&["-", "d"])),
    ];
    assert_eq!(shown, expected);
}

fn bytes(items: &[&[u8]]) -> Vec<Vec<u8>> {
    items.iter().map(|item| item.to_vec()).collect()
}

#[test]
fn raw_mode_counts_the_bytes_as_they_are() {
    let args = bytes(&[b"bin", b"-dsValue", b"--complete=1"]);
    let targets = texts(&["complete"]);
    assert_eq!(
        schema().locate(&args, &targets, 1, LengthMode::Raw),
        Ok(vec![Hit { target: 0, location: complete(part(13, 2), part(15, 8), part(23, 1), part(24, 1)) }])
    );
}

#[test]
fn raw_mode_counts_what_is_no_text_byte_by_byte() {
    let args = bytes(&[b"bin", b"\xff\xfe", b"-d"]);
    let targets = texts(&["discrete"]);
    assert_eq!(
        schema().locate(&args, &targets, 1, LengthMode::Raw),
        Ok(vec![Hit { target: 0, location: discrete(part(7, 1), part(8, 1)) }])
    );
}

#[test]
fn argument_that_is_no_text_is_no_option() {
    let args = bytes(&[b"--na\xff=1", b"-\xffd", b"-d"]);
    let targets = texts(&["discrete"]);
    assert_eq!(
        schema().locate(&args, &targets, 1, LengthMode::Raw),
        Ok(vec![Hit { target: 0, location: discrete(part(12, 1), part(13, 1)) }])
    );
    assert_eq!(
        schema().locate(&args, &targets, 1, LengthMode::Lossy),
        Ok(vec![Hit { target: 0, location: discrete(part(16, 1), part(17, 1)) }])
    );
}

#[test]
fn argument_that_is_no_text_may_be_a_value() {
    let args = bytes(&[b"--many", b"\xff", b"x"]);
    let targets = texts(&["many"]);
    assert_eq!(
        schema().locate(&args, &targets, 1, LengthMode::Raw),
        Ok(vec![Hit { target: 0, location: complete(part(0, 2), part(2, 4), part(6, 1), part(7, 3)) }])
    );
    assert_eq!(
        schema().locate(&args, &targets, 1, LengthMode::Lossy),
        Ok(vec![Hit { target: 0, location: complete(part(0, 2), part(2, 4), part(6, 1), part(7, 5)) }])
    );
}

#[test]
fn lossy_mode_counts_the_replacement_characters() {
    let args = bytes(&[b"bin", b"\xff\xfe", b"-d"]);
    let targets = texts(&["discrete"]);
    assert_eq!(
        schema().locate(&args, &targets, 1, LengthMode::Lossy),
        Ok(vec![Hit { target: 0, location: discrete(part(11, 1), part(12, 1)) }])
    );
}

#[test]
fn locate_reports_an_unknown_alias() {
    let args = bytes(&[b"--nope"]);
    let targets = texts(&["discrete"]);
    assert_eq!(
        schema().locate(&args, &targets, 1, LengthMode::Lossy),
        Err(LocateError::UnknownAlias(ArgAlias::Long("nope".to_string())))
    );
}

#[test]
fn span_shows_the_value_or_all_of_the_occurrence() {
    let locator = schema();
    let args = texts(&["bin", "--many=value1", "value2", "--discrete", "-dsValue"]);
    assert_eq!(locator.get_location(&args, "many", true), Some((4, 13)));
    assert_eq!(locator.get_location(&args, "many", false), Some((11, 6)));
    assert_eq!(locator.get_location(&args, "discrete", true), Some((25, 10)));
    assert_eq!(locator.get_location(&args, "discrete", false), Some((25, 10)));
    assert_eq!(locator.get_location(&args, "stuck", true), Some((38, 6)));
    assert_eq!(locator.get_location(&args, "stuck", false), Some((39, 5)));
    assert_eq!(locator.get_location(&args, "optional", true), None);
    let spaced = texts(&["--many", "value1", "value2"]);
    assert_eq!(locator.get_location(&spaced, "many", true), Some((0, 20)));
    assert_eq!(locator.get_location(&spaced, "many", false), Some((7, 13)));
    let cluster = texts(&["-vd"]);
    assert_eq!(locator.get_location(&cluster, "discrete", false), Some((2, 1)));
    assert_eq!(locator.get_location(&cluster, "discrete", true), Some((2, 1)));
    assert_eq!(locator.get_location(&cluster, "verbose", false), Some((1, 1)));
    assert_eq!(locator.get_location(&texts(&["-d"]), "discrete", false), Some((1, 1)));
}

#[test]
fn empty_value_is_shown_by_the_name() {
    let locator = schema();
    assert_eq!(locator.get_location(&texts(&["--complete="]), "complete", false), Some((0, 10)));
    assert_eq!(locator.get_location(&texts(&["--complete="]), "complete", true), Some((0, 10)));
    assert_eq!(locator.get_location(&texts(&["--complete", ""]), "complete", false), Some((0, 10)));
    assert_eq!(locator.get_location(&texts(&["-vs="]), "stuck", false), Some((2, 1)));
    assert_eq!(locator.get_location(&texts(&["-s=Value"]), "stuck", true), Some((1, 7)));
    assert_eq!(locator.get_location(&texts(&["-s=Value"]), "stuck", false), Some((3, 5)));
}

#[test]
fn span_of_a_location() {
    let location = complete(part(3, 2), part(5, 8), part(13, 1), part(14, 4));
    assert_eq!(location.span(true), (3, 15));
    assert_eq!(location.span(false), (14, 4));
    let stuck = ArgLocation::Stuck { declaration: part(0, 1), name: part(2, 1), content: part(3, 5) };
    assert_eq!(stuck.span(true), (2, 6));
    assert_eq!(stuck.span(false), (3, 5));
    assert_eq!(discrete(part(9, 1), part(11, 1)).span(false), (11, 1));
    assert_eq!(discrete(part(9, 2), part(11, 4)).span(false), (9, 6));
    let empty = complete(part(3, 2), part(5, 8), part(13, 1), part(14, 0));
    assert_eq!(empty.span(false), (3, 10));
    assert_eq!(empty.span(true), (3, 10));
}

#[test]
fn span_is_found_in_raw_arguments() {
    let locator = schema();
    let args = bytes(&[b"bin", b"\xff", b"--complete=1"]);
    assert_eq!(locator.try_get_location(&args, "complete", false, LengthMode::Lossy), Ok(Some((19, 1))));
    assert_eq!(locator.try_get_location(&args, "complete", true, LengthMode::Lossy), Ok(Some((8, 12))));
    assert_eq!(locator.try_get_location(&args, "complete", true, LengthMode::Raw), Ok(Some((6, 12))));
    assert_eq!(locator.try_get_location(&args, "complete", false, LengthMode::Raw), Ok(Some((17, 1))));
    let plain = bytes(&[b"bin", b"--nope"]);
    assert_eq!(
        locator.try_get_location(&plain, "complete", true, LengthMode::Raw),
        Err(LocateError::UnknownAlias(ArgAlias::Long("nope".to_string())))
    );
    assert_eq!(locator.try_get_location(&bytes(&[b"bin"]), "complete", true, LengthMode::Raw), Ok(None));
}

#[test]
fn short_name_counts_as_one_byte() {
    let mut wide = info("wide", &[], &['\u{e9}'], false, 0);
    wide.allow_hyphen_values = false;
    let index = AliasIndex::build(vec![wide, info("discrete", &[], &['d'], false, 0)]);
    assert!(!index.has_narrow_shorts());
    let locator = ArgLocator::new(index);
    assert_eq!(
        locator.get_location_first(&texts(&["-\u{e9}d"]), "discrete"),
        Some(discrete(part(0, 1), part(2, 1)))
    );
    assert_eq!(
        locator.get_location_first(&texts(&["-\u{e9}", "-d"]), "discrete"),
        Some(discrete(part(3, 1), part(4, 1)))
    );
    assert_eq!(
        locator.get_location_first(&texts(&["-\u{e9}"]), "wide"),
        Some(discrete(part(0, 1), part(1, 1)))
    );
}

#[test]
fn narrow_short_names_are_recognised() {
    assert!(AliasIndex::build(vec![
        info("a", &["\u{e9}"], &['a', 'Z'], false, 0),
        info("b", &[], &[], false, 0),
        info("c", &[], &['\u{7f}', '='], true, 1),
    ])
    .has_narrow_shorts());
    assert!(AliasIndex::build(vec![]).has_narrow_shorts());
    assert!(!AliasIndex::build(vec![
        info("a", &[], &['a'], false, 0),
        info("b", &[], &['b', '\u{80}'], false, 0),
    ])
    .has_narrow_shorts());
}

#[test]
fn undecodable_value_is_counted_under_the_mode() {
    let locator = schema();
    let targets = texts(&["complete", "stuck"]);
    let args = bytes(&[b"--complete=\xff\xfe", b"-s\xff", b"-d"]);
    assert_eq!(
        locator.locate(&args, &targets, 1, LengthMode::Raw),
        Ok(vec![
            Hit { target: 0, location: complete(part(0, 2), part(2, 8), part(10, 1), part(11, 2)) },
            Hit {
                target: 1,
                location: ArgLocation::Stuck {
                    declaration: part(14, 1),
                    name: part(15, 1),
                    content: part(16, 1),
                },
            },
        ])
    );
    assert_eq!(
        locator.locate(&args, &targets, 1, LengthMode::Lossy),
        Ok(vec![
            Hit { target: 0, location: complete(part(0, 2), part(2, 8), part(10, 1), part(11, 6)) },
            Hit {
                target: 1,
                location: ArgLocation::Stuck {
                    declaration: part(18, 1),
                    name: part(19, 1),
                    content: part(20, 3),
                },
            },
        ])
    );
}

#[test]
fn undecodable_character_ends_a_cluster() {
    let locator = schema();
    let targets = texts(&["discrete", "verbose"]);
    let args = bytes(&[b"-d\xffv", b"-v"]);
    assert_eq!(
        locator.locate(&args, &targets, 1, LengthMode::Raw),
        Ok(vec![
            Hit { target: 0, location: discrete(part(0, 1), part(1, 1)) },
            Hit { target: 1, location: discrete(part(5, 1), part(6, 1)) },
        ])
    );
    assert_eq!(
        locator.locate(&args, &targets, 1, LengthMode::Lossy),
        Ok(vec![
            Hit { target: 0, location: discrete(part(0, 1), part(1, 1)) },
            Hit { target: 1, location: discrete(part(7, 1), part(8, 1)) },
        ])
    );
}

#[test]
fn control_character_in_text_is_a_character_like_any_other() {
    let locator = schema();
    assert_eq!(
        locator.try_get_location_first(&texts(&["--na\u{1a}me", "-d"]), "discrete"),
        Err(ArgAlias::Long("na\u{1a}me".to_string()))
    );
    assert_eq!(
        locator.try_get_location_first(&texts(&["-\u{1a}x", "-d"]), "discrete"),
        Err(ArgAlias::Short('\u{1a}'))
    );
    let args = bytes(&[b"-\x1a", b"-d"]);
    let targets = texts(&["discrete"]);
    assert_eq!(
        locator.locate(&args, &targets, 1, LengthMode::Raw),
        Err(LocateError::UnknownAlias(ArgAlias::Short('\u{1a}')))
    );
    let odd = ArgLocator::new(AliasIndex::build(vec![info("odd", &["na\u{1a}me"], &['\u{1a}'], false, 0)]));
    assert_eq!(
        odd.get_location_first(&texts(&["-\u{1a}"]), "odd"),
        Some(discrete(part(0, 1), part(1, 1)))
    );
    assert_eq!(
        odd.get_location_first(&texts(&["--na\u{1a}me"]), "odd"),
        Some(discrete(part(0, 2), part(2, 5)))
    );
}


#[test]
fn aliases_stand_for_each_other_anywhere() {
    let locator = schema();
    let targets = texts(&["complete"]);
    let by_name = locator.locate_text(&texts(&["bin", "-v", "--complete=1", "-c=2"]), &targets, 1).unwrap();
    let by_alias = locator.locate_text(&texts(&["bin", "-v", "--comp=1", "-c=2"]), &targets, 1).unwrap();
    let by_short = locator.locate_text(&texts(&["bin", "-v", "-c=1", "-c=2"]), &targets, 1).unwrap();
    assert_eq!(
        by_name,
        vec![Hit { target: 0, location: complete(part(7, 2), part(9, 8), part(17, 1), part(18, 1)) }]
    );
    assert_eq!(
        by_alias,
        vec![Hit { target: 0, location: complete(part(7, 2), part(9, 4), part(13, 1), part(14, 1)) }]
    );
    assert_eq!(
        by_short,
        vec![Hit { target: 0, location: complete(part(7, 1), part(8, 1), part(9, 1), part(10, 1)) }]
    );
}

use rmines::command::{parse_arguments, ParseResult};

#[test]
fn reads_every_argument() {
    let mut args = [0usize; 3];
    assert!(matches!(parse_arguments("3,4,5", &mut args, false), ParseResult::Parsed));
    assert_eq!(args, [3, 4, 5]);
}

#[test]
fn left_out_arguments_keep_their_defaults() {
    let mut args = [7usize, 8, 9];
    assert!(matches!(parse_arguments(",4,", &mut args, false), ParseResult::Parsed));
    assert_eq!(args, [7, 4, 9]);
    let mut args = [1usize, 2];
    assert!(matches!(parse_arguments("", &mut args, false), ParseResult::Parsed));
    assert_eq!(args, [1, 2]);
}

#[test]
fn mandatory_arguments_must_be_given() {
    let mut args = [0usize; 2];
    assert!(matches!(parse_arguments("", &mut args, true), ParseResult::MissingArgument));
    let mut args = [0usize; 2];
    assert!(matches!(parse_arguments("5,", &mut args, true), ParseResult::MissingArgument));
    assert_eq!(args, [5, 0]);
    let mut args = [0usize; 2];
    assert!(matches!(parse_arguments("5,6", &mut args, true), ParseResult::Parsed));
    assert_eq!(args, [5, 6]);
}

#[test]
fn one_argument_too_many() {
    let mut args = [0usize; 2];
    assert!(matches!(parse_arguments("1,2,3", &mut args, false), ParseResult::TooManyArguments));
    assert_eq!(args, [1, 2]);
    let mut args: [usize; 0] = [];
    assert!(matches!(parse_arguments("", &mut args, false), ParseResult::TooManyArguments));
}

#[test]
fn invalid_arguments_are_named() {
    let mut args = [0usize; 2];
    match parse_arguments("2,x", &mut args, false) {
        ParseResult::InvalidArgument(s) => assert_eq!(s, "x"),
        other => panic!("{:?}", other),
    }
    assert_eq!(args[0], 2);
    match parse_arguments("0", &mut args, false) {
        ParseResult::InvalidArgument(s) => assert_eq!(s, "0"),
        other => panic!("{:?}", other),
    }
    match parse_arguments("+", &mut args, false) {
        ParseResult::InvalidArgument(s) => assert_eq!(s, "+"),
        other => panic!("{:?}", other),
    }
    match parse_arguments("1,-3", &mut args, false) {
        ParseResult::InvalidArgument(s) => assert_eq!(s, "-3"),
        other => panic!("{:?}", other),
    }
    match parse_arguments("4é", &mut args, false) {
        ParseResult::InvalidArgument(s) => assert_eq!(s, "4é"),
        other => panic!("{:?}", other),
    }
}

#[test]
fn a_plus_sign_is_accepted() {
    let mut args = [0usize; 1];
    assert!(matches!(parse_arguments("+7", &mut args, false), ParseResult::Parsed));
    assert_eq!(args, [7]);
    assert!(matches!(parse_arguments("007", &mut args, false), ParseResult::Parsed));
    assert_eq!(args, [7]);
}

#[test]
fn numbers_must_fit_a_usize() {
    let mut args = [0usize; 1];
    let max = usize::MAX.to_string();
    assert!(matches!(parse_arguments(&max, &mut args, false), ParseResult::Parsed));
    assert_eq!(args, [usize::MAX]);
    let over = format!("{}0", max);
    match parse_arguments(&over, &mut args, false) {
        ParseResult::InvalidArgument(s) => assert_eq!(s, over),
        other => panic!("{:?}", other),
    }
}

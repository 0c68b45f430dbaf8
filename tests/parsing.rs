use schema_args::{parse, ParseErr, Token, TokensIterator};

#[test]
fn test_token_iter() {
    let mut iter = TokensIterator::from("-d /var/logs -p 8080 -l".to_string());
    assert_eq!(
        iter.next().unwrap(),
        Token {
            modifier: 'd'.to_string(),
            values: vec!["/var/logs".to_string()],
        }
    );
    assert_eq!(
        iter.next().unwrap(),
        Token {
            modifier: 'p'.to_string(),
            values: vec!["8080".to_string()],
        }
    );
    assert_eq!(
        iter.next().unwrap(),
        Token {
            modifier: 'l'.to_string(),
            values: vec![],
        }
    );
    assert_eq!(iter.next(), None);
}

#[test]
fn parse_bool_arg_true() {
    let args = parse("l", "-l").unwrap();
    assert_eq!(args.get("l").unwrap().as_bool().unwrap(), true);
}

#[test]
fn parse_bool_arg_false() {
    let args = parse("l", "").unwrap();
    assert_eq!(args.get("l").unwrap().as_bool().unwrap(), false);
}

#[test]
#[should_panic]
fn no_args() {
    let args = parse("", "").unwrap();
    assert!(args.get("d").is_none());
}

#[test]
fn parses_single_arg() {
    let args = parse("d*", "-d /var/logs").unwrap();
    assert_eq!(args.get("d").unwrap().get().unwrap(), "/var/logs");
}

#[test]
fn parse_single_arg_2() {
    let args = parse("n*", "-n foo").unwrap();
    assert_eq!(args.get("n").unwrap().get().unwrap(), "foo");
}

#[test]
fn parses_multiple_args() {
    let args = parse("d*,n*", "-d /var/logs -n foo").unwrap();
    assert_eq!(args.get("d").unwrap().get().unwrap(), "/var/logs");
    assert_eq!(args.get("n").unwrap().get().unwrap(), "foo");
}

#[test]
fn parse_number_arg() {
    let args = parse("p#", "-p 8080").unwrap();
    assert_eq!(args.get("p").unwrap().as_number().unwrap(), 8080);
}

#[test]
fn should_return_err_if_no_schema() {
    let args = parse("", "");
    assert_eq!(args.unwrap_err(), ParseErr::InvalidSchema);
}

#[test]
fn should_return_invalid_arg_type_err() {
    let args = parse("p!", "-p 8080");
    assert_eq!(
        args.unwrap_err(),
        ParseErr::UnsupportedArgType("!".to_string())
    );
}

#[test]
fn should_return_unknown_arg_err() {
    let args = parse("d*", "-p 8080");
    assert_eq!(args.unwrap_err(), ParseErr::UnknownArg("p".to_string()));
}

#[test]
fn should_return_number_format_err() {
    let args = parse("p#", "-p foo");
    assert_eq!(args.unwrap_err(), ParseErr::NumberFormatErr("foo".to_string()));
}

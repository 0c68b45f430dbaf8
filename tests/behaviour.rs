use schema_args::{parse, token_to_kv, Args, ParseErr, Token, TokensIterator};

#[test]
fn empty_input_leaves_every_holder_at_its_default() {
    let args = parse("l,s*,n#,a[*],b[#]", "").unwrap();
    assert_eq!(args.get("l").unwrap().as_bool(), Some(false));
    assert_eq!(args.get("s").unwrap().get(), None);
    assert_eq!(args.get("n").unwrap().get(), None);
    assert_eq!(args.get("n").unwrap().as_number(), None);
    assert!(args.get("a").unwrap().as_str_array().is_empty());
    assert!(args.get("b").unwrap().as_num_array().is_empty());
}

#[test]
fn empty_schema_is_invalid_whatever_the_input() {
    assert_eq!(parse("", "-x 1").unwrap_err(), ParseErr::InvalidSchema);
    assert_eq!(parse("", "anything").unwrap_err(), ParseErr::InvalidSchema);
}

#[test]
fn empty_schema_token_is_invalid() {
    assert_eq!(parse("d*,,l", "").unwrap_err(), ParseErr::InvalidSchema);
    assert_eq!(parse("d*, ", "").unwrap_err(), ParseErr::InvalidSchema);
}

#[test]
fn unknown_suffix_is_refused_whatever_the_input() {
    assert_eq!(
        parse("p!", "").unwrap_err(),
        ParseErr::UnsupportedArgType("!".to_string())
    );
    assert_eq!(
        parse("p!", "-q 3").unwrap_err(),
        ParseErr::UnsupportedArgType("!".to_string())
    );
    assert_eq!(
        parse("p[x]", "").unwrap_err(),
        ParseErr::UnsupportedArgType("[x]".to_string())
    );
    assert_eq!(
        parse("ab", "").unwrap_err(),
        ParseErr::UnsupportedArgType("b".to_string())
    );
}

#[test]
fn schema_error_comes_before_any_input_error() {
    assert_eq!(
        parse("d*,x?", "-q 1").unwrap_err(),
        ParseErr::UnsupportedArgType("?".to_string())
    );
}

#[test]
fn schema_tokens_are_trimmed() {
    let args = parse(" d* ,\tl ", "-d x -l").unwrap();
    assert_eq!(args.get("d").unwrap().get().unwrap(), "x");
    assert_eq!(args.get("l").unwrap().as_bool(), Some(true));
}

#[test]
fn later_declaration_of_a_name_wins() {
    let args = parse("d*,d#", "-d 5").unwrap();
    assert_eq!(args.get("d").unwrap().as_number(), Some(5));
    assert_eq!(
        parse("d*,d#", "-d five").unwrap_err(),
        ParseErr::NumberFormatErr("five".to_string())
    );
}

#[test]
fn multi_character_modifier_is_unknown() {
    assert_eq!(
        parse("d*", "-dd x").unwrap_err(),
        ParseErr::UnknownArg("dd".to_string())
    );
}

#[test]
fn first_bad_token_stops_the_parse() {
    assert_eq!(
        parse("p#,d*", "-d ok -p bad -q 1").unwrap_err(),
        ParseErr::NumberFormatErr("bad".to_string())
    );
}

#[test]
fn flags_bind_whatever_their_order() {
    let args = parse("n*,d*", "-d /var/logs -n foo").unwrap();
    assert_eq!(args.get("d").unwrap().get().unwrap(), "/var/logs");
    assert_eq!(args.get("n").unwrap().get().unwrap(), "foo");
    let args = parse("d*,n*", "-n foo -d /var/logs").unwrap();
    assert_eq!(args.get("d").unwrap().get().unwrap(), "/var/logs");
    assert_eq!(args.get("n").unwrap().get().unwrap(), "foo");
}

#[test]
fn switch_truthiness() {
    assert_eq!(parse("l", "-l").unwrap().get("l").unwrap().as_bool(), Some(true));
    assert_eq!(parse("l", "-l True").unwrap().get("l").unwrap().as_bool(), Some(true));
    assert_eq!(parse("l", "-l TRUE").unwrap().get("l").unwrap().as_bool(), Some(true));
    assert_eq!(parse("l", "-l false").unwrap().get("l").unwrap().as_bool(), Some(false));
    assert_eq!(parse("l", "-l yes").unwrap().get("l").unwrap().as_bool(), Some(false));
    assert_eq!(parse("l", "").unwrap().get("l").unwrap().as_bool(), Some(false));
    assert_eq!(
        parse("l", "-l").unwrap().get("l").unwrap().get(),
        Some("true".to_string())
    );
}

#[test]
fn string_array_gathers_every_word() {
    let args = parse("s[*]", "-s this is an array").unwrap();
    assert_eq!(
        args.get("s").unwrap().as_str_array(),
        vec!["this", "is", "an", "array"]
    );
    assert_eq!(
        args.get("s").unwrap().get(),
        Some("this,is,an,array".to_string())
    );
}

#[test]
fn number_array_drops_words_that_are_not_integers() {
    let args = parse("p[#]", "-p 1 2 x 4").unwrap();
    assert_eq!(args.get("p").unwrap().as_num_array(), vec![1, 2, 4]);
    assert_eq!(args.get("p").unwrap().get(), Some("1,2,4".to_string()));
}

#[test]
fn rebinding_a_scalar_keeps_the_last_value() {
    let args = parse("d*", "-d a -d b").unwrap();
    assert_eq!(args.get("d").unwrap().get().unwrap(), "b");
    let args = parse("p#", "-p 1 -p 2").unwrap();
    assert_eq!(args.get("p").unwrap().as_number(), Some(2));
}

#[test]
fn rebinding_an_array_appends() {
    let args = parse("s[*]", "-s a b -s c").unwrap();
    assert_eq!(args.get("s").unwrap().as_str_array(), vec!["a", "b", "c"]);
    let args = parse("p[#]", "-p 1 -p 2 3").unwrap();
    assert_eq!(args.get("p").unwrap().as_num_array(), vec![1, 2, 3]);
}

#[test]
fn words_of_a_scalar_are_joined() {
    let args = parse("d*,p#", "-d a b -p 1 2").unwrap();
    assert_eq!(args.get("d").unwrap().get().unwrap(), "ab");
    assert_eq!(args.get("p").unwrap().as_number(), Some(12));
}

#[test]
fn number_text_follows_integer_syntax() {
    let args = parse("p#", "-p +42").unwrap();
    assert_eq!(args.get("p").unwrap().as_number(), Some(42));
    assert_eq!(args.get("p").unwrap().get(), Some("42".to_string()));
    assert_eq!(
        parse("p#", "-p 99999999999999999999").unwrap_err(),
        ParseErr::NumberFormatErr("99999999999999999999".to_string())
    );
    assert_eq!(
        parse("p#", "-p").unwrap_err(),
        ParseErr::NumberFormatErr("".to_string())
    );
}

#[test]
fn readings_of_a_string_holder() {
    let args = parse("d*,e*", "-d 12 -e 3,x,4").unwrap();
    assert_eq!(args.get("d").unwrap().as_number(), Some(12));
    assert_eq!(args.get("d").unwrap().as_bool(), None);
    assert_eq!(args.get("e").unwrap().as_str_array(), vec!["3", "x", "4"]);
    assert_eq!(args.get("e").unwrap().as_num_array(), vec![3, 4]);
}

#[test]
fn lookup_needs_a_declared_single_character() {
    let args = parse("d*", "").unwrap();
    assert!(args.get("x").is_none());
    assert!(args.get("dd").is_none());
    assert!(args.get("").is_none());
}

#[test]
fn text_before_the_first_dash_is_ignored() {
    let args = parse("d*", "junk -d x").unwrap();
    assert_eq!(args.get("d").unwrap().get().unwrap(), "x");
    let args = parse("d*", "no dash at all").unwrap();
    assert_eq!(args.get("d").unwrap().get(), None);
}

#[test]
fn tokenizer_skips_empty_segments_and_words() {
    let mut iter = TokensIterator::from("--d  a   b - x".to_string());
    assert_eq!(
        iter.next(),
        Some(Token {
            modifier: "d".to_string(),
            values: vec!["a".to_string(), "b".to_string()],
        })
    );
    assert_eq!(
        iter.next(),
        Some(Token {
            modifier: "".to_string(),
            values: vec!["x".to_string()],
        })
    );
    assert_eq!(iter.next(), None);
    assert_eq!(iter.next(), None);
}

#[test]
fn schema_tokens_compile_to_empty_holders() {
    let (name, holder) = token_to_kv("x[#]").unwrap();
    assert_eq!(name, 'x');
    assert!(matches!(holder, Args::NumArray(ref v) if v.is_empty()));
    let (name, holder) = token_to_kv("y").unwrap();
    assert_eq!(name, 'y');
    assert!(matches!(holder, Args::Bool(false)));
    assert_eq!(token_to_kv("").unwrap_err(), ParseErr::InvalidSchema);
    assert_eq!(
        token_to_kv("z[*").unwrap_err(),
        ParseErr::UnsupportedArgType("[*".to_string())
    );
}

#[test]
fn set_on_a_number_keeps_the_old_value_on_failure() {
    let mut holder = Args::Number(Some(7));
    assert_eq!(
        holder.set(vec!["x".to_string()]),
        Err(ParseErr::NumberFormatErr("x".to_string()))
    );
    assert_eq!(holder.as_number(), Some(7));
    let mut negative = Args::Number(Some(-15));
    assert_eq!(negative.get(), Some("-15".to_string()));
    assert_eq!(negative.as_number(), Some(-15));
    assert_eq!(negative.set(vec!["0".to_string()]), Ok(()));
    assert_eq!(negative.get(), Some("0".to_string()));
}

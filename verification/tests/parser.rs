use ctf::parser::{
    get_quoted, match_quote, match_word, parse_input, parse_key_values, parse_keyval, parse_words,
    ParseError,
};
use indexmap::IndexMap;

#[test]
fn can_get_word() {
    let (_processed, output) = match_word("ayy lmao").unwrap();
    assert_eq!(output, "ayy");
}

#[test]
fn can_get_quoted() {
    let (_processed, output) = get_quoted("'ayy lmao' lol").unwrap();
    assert_eq!(output, "ayy lmao");
    let (_processed, output) = get_quoted("\"ayy lmao\" lol").unwrap();
    assert_eq!(output, "ayy lmao");
}

#[test]
fn can_parse_quotes_and_words() {
    let (_processed, output) = parse_words("ayy lmao").unwrap();
    assert_eq!(output, vec!["ayy", "lmao"]);
    let (_processed, output) = parse_words("ayy 'lmao dude sup' lol").unwrap();
    assert_eq!(output, vec!["ayy", "lmao dude sup", "lol"]);
    let (_processed, output) =
        parse_words("ayy lmao this is a really long string boiii").unwrap();
    assert_eq!(
        output,
        vec!["ayy", "lmao", "this", "is", "a", "really", "long", "string", "boiii"]
    );
    let (_processed, output) = parse_words("ayy 'lmao o' \"this is\" my 'string g\"").unwrap();
    assert_eq!(output, vec!["ayy", "lmao o", "this is", "my", "string g"]);
}

#[test]
fn can_parse_keyval() {
    let output = parse_keyval("--key=val").unwrap();
    assert_eq!(output.key, "--key");
    assert_eq!(output.value, "val");
    let output = parse_keyval("-key=val").unwrap();
    assert_eq!(output.key, "-key");
    assert_eq!(output.value, "val");
    let output = parse_keyval("key=").unwrap_err();
    assert_eq!(
        output,
        "Please specify your arguments with \'--key=val\' syntax."
    );
}

#[test]
fn can_parse_key_values() {
    let output = parse_key_values(&vec!["--key", "val", "--test=testa"]);
    assert_eq!(
        output,
        [
            ("--key".to_string(), "val".to_string()),
            ("--test".to_string(), "testa".to_string())
        ]
        .iter()
        .cloned()
        .collect::<IndexMap<String, String>>()
    );

    let output = parse_key_values(&vec!["test", "--key", "--key1"]);
    assert_eq!(
        output,
        [
            ("test".to_string(), String::default()),
            ("--key".to_string(), String::default()),
            ("--key1".to_string(), String::default())
        ]
        .iter()
        .cloned()
        .collect::<IndexMap<String, String>>()
    );

    let output = parse_key_values(&vec!["--key1=\"value1\"", "--key2='value2'"]);
    assert_eq!(
        output,
        [
            ("--key1".to_string(), "value1".to_string()),
            ("--key2".to_string(), "value2".to_string())
        ]
        .iter()
        .cloned()
        .collect::<IndexMap<String, String>>()
    );
}

#[test]
fn can_parse_entire_command_input() {
    let x = "test stuff --arg1=val1 --arg2 --arg3".to_string();
    let output = parse_input(&x).unwrap();
    assert_eq!(output.name, "test");
    assert_eq!(
        output.parameters,
        vec!["stuff", "--arg1=val1", "--arg2", "--arg3"]
    );
    assert_eq!(
        output.args,
        [
            ("stuff".to_string(), String::default()),
            ("--arg1".to_string(), "val1".to_string()),
            ("--arg2".to_string(), String::default()),
            ("--arg3".to_string(), String::default())
        ]
        .iter()
        .cloned()
        .collect::<IndexMap<String, String>>()
    );
}

#[test]
fn empty_line_is_refused_with_empty_message() {
    let x = String::new();
    let r = parse_input(&x);
    assert!(matches!(r, Err("")));
}

#[test]
fn leading_space_has_no_first_word() {
    assert_eq!(parse_words(" a").unwrap_err(), ParseError::SeparatedList);
    assert_eq!(parse_words("").unwrap_err(), ParseError::SeparatedList);
    assert!(parse_words("\na").is_ok());
}

#[test]
fn double_space_gives_an_empty_word() {
    let (rest, words) = parse_words("a  b").unwrap();
    assert_eq!(words, vec!["a", "", "b"]);
    assert_eq!(rest, "");
}

#[test]
fn quoted_word_followed_by_text_ends_the_list() {
    let (rest, words) = parse_words("'a'b c").unwrap();
    assert_eq!(words, vec!["a"]);
    assert_eq!(rest, "b c");
}

#[test]
fn unclosed_quote_runs_to_the_next_space_or_newline() {
    let (rest, words) = parse_words("'ab c").unwrap();
    assert_eq!(words, vec!["'ab", "c"]);
    assert_eq!(rest, "");
    let (rest, out) = match_word("'ab\nc").unwrap();
    assert_eq!(out, "'ab");
    assert_eq!(rest, "\nc");
}

#[test]
fn match_quote_errors() {
    assert_eq!(match_quote(" x").unwrap_err(), ParseError::IsNot);
    assert_eq!(match_quote("'x").unwrap_err(), ParseError::Tag);
    assert_eq!(get_quoted("x'").unwrap_err(), ParseError::Tag);
    let (rest, out) = match_quote("a\nb c").unwrap();
    assert_eq!(out, "a\nb");
    assert_eq!(rest, " c");
}

#[test]
fn keyval_needs_exactly_two_parts() {
    assert!(parse_keyval("a=b=c").is_err());
    assert!(parse_keyval("=b").is_err());
    assert!(parse_keyval("--k").is_err());
    let kv = parse_keyval("'a=b'=\"c\"").unwrap();
    assert_eq!(kv.key, "a=b");
    assert_eq!(kv.value, "c");
    let kv = parse_keyval("k=v=").unwrap();
    assert_eq!(kv.key, "k");
    assert_eq!(kv.value, "v");
}

#[test]
fn lone_flag_at_the_end_is_dropped() {
    let output = parse_key_values(&vec!["--a"]);
    assert!(output.is_empty());
    let output = parse_key_values(&vec!["x", "--a"]);
    assert_eq!(output.len(), 1);
    assert_eq!(output.get("x").unwrap(), "");
}

#[test]
fn later_value_replaces_earlier_in_place() {
    let output = parse_key_values(&vec!["--k=1", "--j=2", "--k=3"]);
    let entries: Vec<(String, String)> =
        output.iter().map(|(k, v)| (k.clone(), v.clone())).collect();
    assert_eq!(
        entries,
        vec![
            ("--k".to_string(), "3".to_string()),
            ("--j".to_string(), "2".to_string())
        ]
    );
}

#[test]
fn flag_value_pairs() {
    let output = parse_key_values(&vec!["--user", "zac", "plain", "-p", "x"]);
    let entries: Vec<(String, String)> =
        output.iter().map(|(k, v)| (k.clone(), v.clone())).collect();
    assert_eq!(
        entries,
        vec![
            ("--user".to_string(), "zac".to_string()),
            ("plain".to_string(), String::new()),
            ("-p".to_string(), "x".to_string())
        ]
    );
}

#[test]
fn keys_keep_the_place_of_their_first_entry() {
    let output = parse_key_values(&vec!["--x", "1", "--y=2", "--x", "3"]);
    let entries: Vec<(String, String)> =
        output.iter().map(|(k, v)| (k.clone(), v.clone())).collect();
    assert_eq!(
        entries,
        vec![
            ("--x".to_string(), "3".to_string()),
            ("--y".to_string(), "2".to_string())
        ]
    );
}

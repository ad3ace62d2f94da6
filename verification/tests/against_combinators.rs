//! The grammar, checked against the same grammar written with nom's combinators on
//! every short line over an alphabet of the characters that matter.

use ctf::parser::{get_quoted, match_quote, match_word, parse_input, parse_key_values, parse_keyval, parse_words};
use indexmap::IndexMap;
use nom::branch::alt;
use nom::bytes::complete::{is_not, tag, take_till};
use nom::multi::separated_list;
use nom::sequence::delimited;
use nom::IResult;

fn nom_match_word(i: &str) -> IResult<&str, &str> {
    take_till(|c| c == ' ' || c == '\n')(i)
}

fn nom_get_quoted(i: &str) -> IResult<&str, &str> {
    delimited(
        alt((tag("'"), tag("\""))),
        take_till(|c| c == '\'' || c == '"'),
        alt((tag("'"), tag("\""))),
    )(i)
}

fn nom_match_quote(i: &str) -> IResult<&str, &str> {
    if i.starts_with('\'') || i.starts_with('"') {
        nom_get_quoted(i)
    } else {
        is_not(" ")(i)
    }
}

fn nom_parse_words(i: &str) -> IResult<&str, Vec<&str>> {
    separated_list(tag(" "), alt((nom_match_quote, nom_match_word)))(i)
}

fn nom_parse_keyval(i: &str) -> Option<(String, String)> {
    let output: IResult<&str, Vec<&str>> =
        separated_list(tag("="), alt((nom_get_quoted, is_not("="))))(i);
    let (_, result) = output.unwrap();
    if result.len() != 2 {
        return None;
    }
    Some((result[0].to_string(), result[1].to_string()))
}

fn nom_parse_key_values(input: &Vec<&str>) -> IndexMap<String, String> {
    let mut args: IndexMap<String, String> = IndexMap::new();
    let mut key: String = String::default();
    let mut in_key: bool = false;
    for i in 0..input.len() {
        if input[i].starts_with("-") {
            if in_key && i == input.len() - 1 {
                args.insert(key.to_string(), String::default());
                args.insert(input[i].to_string(), String::default());
            }
            match nom_parse_keyval(input[i]) {
                Some((k, v)) => {
                    args.insert(k, v);
                    in_key = false;
                }
                None => {
                    key = input[i].to_string();
                    in_key = true;
                }
            };
            continue;
        }
        if in_key {
            args.insert(key, input[i].to_string());
            in_key = !in_key;
            key = String::default();
        } else {
            args.insert(input[i].to_string(), String::default());
        }
    }
    args
}

fn all_lines(max_len: usize) -> Vec<String> {
    let alphabet = ['a', ' ', '\'', '"', '=', '-', '\n', 'é'];
    let mut out = vec![String::new()];
    let mut layer = vec![String::new()];
    for _ in 0..max_len {
        let mut next = Vec::new();
        for s in &layer {
            for c in alphabet.iter() {
                let mut t = s.clone();
                t.push(*c);
                next.push(t);
            }
        }
        out.extend(next.iter().cloned());
        layer = next;
    }
    out
}

fn entries(m: &IndexMap<String, String>) -> Vec<(String, String)> {
    m.iter().map(|(k, v)| (k.clone(), v.clone())).collect()
}

#[test]
fn words_agree_with_combinators() {
    for line in all_lines(5) {
        let ours = match_word(&line).unwrap();
        assert_eq!(Some(ours), nom_match_word(&line).ok(), "{:?}", line);
        assert_eq!(get_quoted(&line).ok(), nom_get_quoted(&line).ok(), "{:?}", line);
        assert_eq!(match_quote(&line).ok(), nom_match_quote(&line).ok(), "{:?}", line);
        assert_eq!(parse_words(&line).ok(), nom_parse_words(&line).ok(), "{:?}", line);
    }
}

#[test]
fn keyvals_agree_with_combinators() {
    for line in all_lines(5) {
        let ours = parse_keyval(&line).ok().map(|kv| (kv.key, kv.value));
        assert_eq!(ours, nom_parse_keyval(&line), "{:?}", line);
    }
}

#[test]
fn arguments_agree_with_combinators() {
    let words = ["a", "-a", "--k=v", "-k", "'x'", "--q='v'", "-", "k=v"];
    let mut lists: Vec<Vec<&str>> = vec![vec![]];
    let mut layer: Vec<Vec<&str>> = vec![vec![]];
    for _ in 0..4 {
        let mut next = Vec::new();
        for l in &layer {
            for w in words.iter() {
                let mut t = l.clone();
                t.push(*w);
                next.push(t);
            }
        }
        lists.extend(next.iter().cloned());
        layer = next;
    }
    for l in lists {
        assert_eq!(entries(&parse_key_values(&l)), entries(&nom_parse_key_values(&l)), "{:?}", l);
    }
}

#[test]
fn command_lines_agree_with_combinators() {
    for line in all_lines(5) {
        if line.is_empty() || line.starts_with(' ') {
            continue;
        }
        let token = parse_input(&line).unwrap();
        let (_, words) = nom_parse_words(&line).unwrap();
        assert_eq!(token.name, words[0], "{:?}", line);
        assert_eq!(token.parameters, words[1..].to_vec(), "{:?}", line);
        let expected = nom_parse_key_values(&words[1..].to_vec());
        assert_eq!(entries(&token.args), entries(&expected), "{:?}", line);
    }
}

//! The command-line grammar.
//!
//! A line is a list of words separated by single spaces. A word is either quoted
//! (a quote of either kind, any characters but quotes, then a quote of either kind)
//! or runs up to the next space. Among the words after the first, those that start
//! with `-` name arguments, written `--key=value` or `--key value`.

use crate::commands::Token;
use crate::index_map::{
    first_occurrences, insert_all, insert_entry, keys_distinct, keys_of, latest_value, lemma_insert_all_append,
    lemma_insert_all_from_empty, lemma_insert_entry, lookup, map_entries, map_insert, map_new,
};
use crate::text::chars_of;
use indexmap::IndexMap;
use vstd::prelude::*;
use vstd::string::StrSliceExecFns;

verus! {

broadcast use vstd::string::group_string_axioms;

/// The character classes at which a scan stops.
#[derive(Clone, Copy, Debug)]
pub enum Stop {
    /// A space or a newline.
    WordEnd,
    /// A single or a double quote.
    Quote,
    /// A space.
    Space,
    /// An equals sign.
    Equals,
}

/// Why a word could not be read.
#[derive(Clone, Copy, Debug, PartialEq, Eq)]
pub enum ParseError {
    /// An expected quote is missing.
    Tag,
    /// No character before the stopping one.
    IsNot,
    /// The first word of a list is empty.
    SeparatedList,
}

/// `c` stops a scan of class `stop`.
pub open spec fn stops(stop: Stop, c: char) -> bool {
    match stop {
        Stop::WordEnd => c == ' ' || c == '\n',
        Stop::Quote => c == '\'' || c == '"',
        Stop::Space => c == ' ',
        Stop::Equals => c == '=',
    }
}

/// `c` is a single or a double quote.
pub open spec fn is_quote(c: char) -> bool {
    stops(Stop::Quote, c)
}

/// The first position at or after `pos` whose character stops a scan of class `stop`,
/// or the length of `s` where there is none.
pub open spec fn span_from(s: Seq<char>, pos: int, stop: Stop) -> int
    decreases s.len() - pos,
{
    if pos < 0 || pos >= s.len() {
        s.len() as int
    } else if stops(stop, s[pos]) {
        pos
    } else {
        span_from(s, pos + 1, stop)
    }
}

/// A scan from `pos` ends within the input, after every character that does not stop it.
pub proof fn lemma_span_bounds(s: Seq<char>, pos: int, stop: Stop)
    requires
        0 <= pos <= s.len(),
    ensures
        pos <= span_from(s, pos, stop) <= s.len(),
        forall|j: int| pos <= j < span_from(s, pos, stop) ==> !stops(stop, #[trigger] s[j]),
        span_from(s, pos, stop) < s.len() ==> stops(stop, s[span_from(s, pos, stop)]),
    decreases s.len() - pos,
{
    if pos < s.len() && !stops(stop, s[pos]) {
        lemma_span_bounds(s, pos + 1, stop);
    }
}

/// A quoted word starts at `pos`: an opening quote with a closing quote after it.
pub open spec fn quoted_at(s: Seq<char>, pos: int) -> bool {
    0 <= pos < s.len() && is_quote(s[pos]) && span_from(s, pos + 1, Stop::Quote) < s.len()
}

/// The word at `pos`, as `(start, end, next)`: its characters are `s[start..end]`,
/// and the line goes on at `next`. A quoted word drops its quotes; a word that does
/// not start with a quote runs to the next space; where neither applies (an unclosed
/// quote, a space, or the end) the word runs to the next space or newline.
pub open spec fn word_at(s: Seq<char>, pos: int) -> (int, int, int) {
    if quoted_at(s, pos) {
        let q = span_from(s, pos + 1, Stop::Quote);
        (pos + 1, q, q + 1)
    } else if 0 <= pos < s.len() && !is_quote(s[pos]) && span_from(s, pos, Stop::Space) > pos {
        let e = span_from(s, pos, Stop::Space);
        (pos, e, e)
    } else {
        let e = span_from(s, pos, Stop::WordEnd);
        (pos, e, e)
    }
}

/// A word lies within the line and does not go backwards.
pub proof fn lemma_word_at_bounds(s: Seq<char>, pos: int)
    requires
        0 <= pos <= s.len(),
    ensures
        pos <= word_at(s, pos).0 <= word_at(s, pos).1 <= word_at(s, pos).2 <= s.len(),
        word_at(s, pos).2 == pos <==> (pos == s.len() || s[pos] == ' '),
{
    lemma_span_bounds(s, pos, Stop::WordEnd);
    lemma_span_bounds(s, pos, Stop::Space);
    if pos + 1 <= s.len() {
        lemma_span_bounds(s, pos + 1, Stop::Quote);
    }
}

/// The words after position `pos`, each preceded by one space: the position where the
/// list ends, and the span of each word.
pub open spec fn more_words(s: Seq<char>, pos: int) -> (int, Seq<(int, int)>)
    decreases s.len() - pos,
{
    if 0 <= pos < s.len() && s[pos] == ' ' {
        let w = word_at(s, pos + 1);
        proof {
            lemma_word_at_bounds(s, pos + 1);
        }
        let rest = more_words(s, w.2);
        (rest.0, seq![(w.0, w.1)] + rest.1)
    } else {
        (pos, Seq::empty())
    }
}

/// The words of a line: where the list ends and the span of each word. The list is
/// refused when its first word takes no character.
pub open spec fn words_spec(s: Seq<char>) -> Result<(int, Seq<(int, int)>), ParseError> {
    let w = word_at(s, 0);
    if w.2 == 0 {
        Err(ParseError::SeparatedList)
    } else {
        let rest = more_words(s, w.2);
        Ok((rest.0, seq![(w.0, w.1)] + rest.1))
    }
}

/// The characters of each span.
pub open spec fn spans_text(s: Seq<char>, spans: Seq<(int, int)>) -> Seq<Seq<char>> {
    spans.map_values(|p: (int, int)| s.subrange(p.0, p.1))
}

/// The characters of each string.
pub open spec fn views(ws: Seq<&str>) -> Seq<Seq<char>> {
    ws.map_values(|w: &str| w@)
}

/// Whether a scan of class `stop` stops at `c`.
fn stops_at(stop: Stop, c: char) -> (b: bool)
    ensures
        b == stops(stop, c),
{
    match stop {
        Stop::WordEnd => c == ' ' || c == '\n',
        Stop::Quote => c == '\'' || c == '"',
        Stop::Space => c == ' ',
        Stop::Equals => c == '=',
    }
}

/// The first position at or after `pos` whose character stops the scan, or the length.
fn scan(cs: &Vec<char>, pos: usize, stop: Stop) -> (e: usize)
    requires
        pos <= cs.len(),
    ensures
        e == span_from(cs@, pos as int, stop),
        pos <= e <= cs.len(),
{
    let mut p = pos;
    while p < cs.len() && !stops_at(stop, cs[p])
        invariant
            pos <= p <= cs.len(),
            span_from(cs@, pos as int, stop) == span_from(cs@, p as int, stop),
        decreases cs.len() - p,
    {
        p = p + 1;
    }
    p
}

/// The word at `pos`, as `(start, end, next)`.
fn word_span(cs: &Vec<char>, pos: usize) -> (r: (usize, usize, usize))
    requires
        pos <= cs.len(),
    ensures
        (r.0 as int, r.1 as int, r.2 as int) == word_at(cs@, pos as int),
        pos <= r.0 <= r.1 <= r.2 <= cs.len(),
{
    proof {
        lemma_word_at_bounds(cs@, pos as int);
    }
    if pos < cs.len() && stops_at(Stop::Quote, cs[pos]) {
        let q = scan(cs, pos + 1, Stop::Quote);
        if q < cs.len() {
            return (pos + 1, q, q + 1);
        }
    } else if pos < cs.len() {
        let e = scan(cs, pos, Stop::Space);
        if e > pos {
            return (pos, e, e);
        }
    }
    let e = scan(cs, pos, Stop::WordEnd);
    (pos, e, e)
}

/// The characters of `s` from `start` to `end`.
fn piece<'a>(s: &'a str, start: usize, end: usize) -> (r: &'a str)
    requires
        start <= end <= s@.len(),
    ensures
        r@ == s@.subrange(start as int, end as int),
{
    s.substring_char(start, end)
}

/// What reading up to the next space or newline gives: the rest, then the word.
pub open spec fn match_word_spec(s: Seq<char>) -> Result<(Seq<char>, Seq<char>), ParseError> {
    let e = span_from(s, 0, Stop::WordEnd);
    Ok((s.skip(e), s.subrange(0, e)))
}

/// What reading a quoted word gives: the rest after the closing quote, then the
/// characters between the quotes.
pub open spec fn get_quoted_spec(s: Seq<char>) -> Result<(Seq<char>, Seq<char>), ParseError> {
    if quoted_at(s, 0) {
        let q = span_from(s, 1, Stop::Quote);
        Ok((s.skip(q + 1), s.subrange(1, q)))
    } else {
        Err(ParseError::Tag)
    }
}

/// What reading a quoted word, or else a run of characters up to a space, gives.
pub open spec fn match_quote_spec(s: Seq<char>) -> Result<(Seq<char>, Seq<char>), ParseError> {
    if s.len() > 0 && is_quote(s[0]) {
        get_quoted_spec(s)
    } else {
        let e = span_from(s, 0, Stop::Space);
        if e > 0 {
            Ok((s.skip(e), s.subrange(0, e)))
        } else {
            Err(ParseError::IsNot)
        }
    }
}

/// A read's result, with each string taken by its characters.
pub open spec fn pair_views(r: Result<(&str, &str), ParseError>) -> Result<
    (Seq<char>, Seq<char>),
    ParseError,
> {
    match r {
        Ok((a, b)) => Ok((a@, b@)),
        Err(e) => Err(e),
    }
}

/// Reads characters up to the next space or newline; never fails.
pub fn match_word<'a>(i: &'a str) -> (r: Result<(&'a str, &'a str), ParseError>)
    ensures
        pair_views(r) == match_word_spec(i@),
{
    let cs = chars_of(i);
    let e = scan(&cs, 0, Stop::WordEnd);
    Ok((piece(i, e, cs.len()), piece(i, 0, e)))
}

/// Reads a quoted word: a quote of either kind, the characters up to the next quote,
/// and that quote, which may be of either kind. Gives the characters between them.
pub fn get_quoted<'a>(i: &'a str) -> (r: Result<(&'a str, &'a str), ParseError>)
    ensures
        pair_views(r) == get_quoted_spec(i@),
{
    let cs = chars_of(i);
    if cs.len() > 0 && stops_at(Stop::Quote, cs[0]) {
        let q = scan(&cs, 1, Stop::Quote);
        if q < cs.len() {
            return Ok((piece(i, q + 1, cs.len()), piece(i, 1, q)));
        }
    }
    Err(ParseError::Tag)
}

/// Reads a quoted word where the input starts with a quote, and otherwise the
/// characters up to the next space, of which there must be at least one.
pub fn match_quote<'a>(i: &'a str) -> (r: Result<(&'a str, &'a str), ParseError>)
    ensures
        pair_views(r) == match_quote_spec(i@),
{
    let cs = chars_of(i);
    if cs.len() > 0 && stops_at(Stop::Quote, cs[0]) {
        get_quoted(i)
    } else {
        let e = scan(&cs, 0, Stop::Space);
        if e > 0 {
            Ok((piece(i, e, cs.len()), piece(i, 0, e)))
        } else {
            Err(ParseError::IsNot)
        }
    }
}

/// The word at the start of a line is what reading a quoted word or a run up to a
/// space gives, and where that fails, what reading up to a space or newline gives.
pub proof fn lemma_word_at_start(s: Seq<char>)
    ensures
        ({
            let w = word_at(s, 0);
            let read = match match_quote_spec(s) {
                Ok(r) => r,
                Err(_) => match_word_spec(s)->Ok_0,
            };
            read == (s.skip(w.2), s.subrange(w.0, w.1))
        }),
{
    lemma_word_at_bounds(s, 0);
}

/// The words of a line as text: the rest after the list, then each word.
pub open spec fn words_text(s: Seq<char>) -> Result<(Seq<char>, Seq<Seq<char>>), ParseError> {
    match words_spec(s) {
        Ok((p, spans)) => Ok((s.skip(p), spans_text(s, spans))),
        Err(e) => Err(e),
    }
}

/// A list's result, with each string taken by its characters.
pub open spec fn list_views(r: Result<(&str, Vec<&str>), ParseError>) -> Result<
    (Seq<char>, Seq<Seq<char>>),
    ParseError,
> {
    match r {
        Ok((rest, ws)) => Ok((rest@, views(ws@))),
        Err(e) => Err(e),
    }
}

/// Spans that lie within `n` characters, each start before its end.
pub open spec fn spans_within(spans: Seq<(int, int)>, n: int) -> bool {
    forall|k: int| 0 <= k < spans.len() ==> 0 <= (#[trigger] spans[k]).0 <= spans[k].1 <= n
}

/// The words after `pos` lie within the line.
pub proof fn lemma_more_words_within(s: Seq<char>, pos: int)
    requires
        0 <= pos <= s.len(),
    ensures
        spans_within(more_words(s, pos).1, s.len() as int),
        pos <= more_words(s, pos).0 <= s.len(),
    decreases s.len() - pos,
{
    if 0 <= pos < s.len() && s[pos] == ' ' {
        lemma_word_at_bounds(s, pos + 1);
        let w = word_at(s, pos + 1);
        lemma_more_words_within(s, w.2);
        let rest = more_words(s, w.2);
        assert forall|k: int| 0 <= k < (seq![(w.0, w.1)] + rest.1).len() implies 0 <= (#[trigger] (
        seq![(w.0, w.1)] + rest.1)[k]).0 <= (seq![(w.0, w.1)] + rest.1)[k].1 <= s.len() by {
            if k > 0 {
                assert((seq![(w.0, w.1)] + rest.1)[k] == rest.1[k - 1]);
            }
        }
    }
}

/// Splits a line into words separated by single spaces. Fails exactly when the line
/// is empty or starts with a space, as then the first word takes no character.
pub fn parse_words<'a>(i: &'a str) -> (r: Result<(&'a str, Vec<&'a str>), ParseError>)
    ensures
        list_views(r) == words_text(i@),
        r is Err <==> (i@.len() == 0 || i@[0] == ' '),
{
    let cs = chars_of(i);
    let ghost s = cs@;
    let (a, b, n) = word_span(&cs, 0);
    proof {
        lemma_word_at_bounds(s, 0);
    }
    if n == 0 {
        return Err(ParseError::SeparatedList);
    }
    let mut spans: Vec<(usize, usize)> = Vec::new();
    spans.push((a, b));
    let ghost mut acc: Seq<(int, int)> = seq![(a as int, b as int)];
    let mut pos = n;
    proof {
        lemma_more_words_within(s, n as int);
    }
    while pos < cs.len() && cs[pos] == ' '
        invariant
            s == cs@,
            s == i@,
            n <= pos <= cs.len(),
            0 < n,
            spans@.len() == acc.len(),
            forall|k: int|
                0 <= k < acc.len() ==> (#[trigger] acc[k]).0 == spans@[k].0 && acc[k].1
                    == spans@[k].1,
            spans_within(acc, s.len() as int),
            acc.len() >= 1,
            acc[0] == (word_at(s, 0).0, word_at(s, 0).1),
            more_words(s, n as int).0 == more_words(s, pos as int).0,
            more_words(s, n as int).1 == acc.drop_first() + more_words(s, pos as int).1,
        decreases cs.len() - pos,
    {
        proof {
            lemma_word_at_bounds(s, pos + 1);
        }
        let (a2, b2, n2) = word_span(&cs, pos + 1);
        proof {
            let w = word_at(s, pos + 1);
            let rest = more_words(s, n2 as int);
            assert(more_words(s, pos as int) == (rest.0, seq![(w.0, w.1)] + rest.1));
            assert(acc.push((a2 as int, b2 as int)).drop_first() + rest.1 =~= acc.drop_first() + (
            seq![(w.0, w.1)] + rest.1));
            acc = acc.push((a2 as int, b2 as int));
        }
        spans.push((a2, b2));
        pos = n2;
    }
    proof {
        assert(more_words(s, pos as int) == (pos as int, Seq::<(int, int)>::empty()));
        assert(acc.drop_first() + Seq::<(int, int)>::empty() =~= acc.drop_first());
        assert(seq![acc[0]] + acc.drop_first() =~= acc);
    }
    let mut words: Vec<&'a str> = Vec::new();
    for k in 0..spans.len()
        invariant
            s == i@,
            spans@.len() == acc.len(),
            forall|j: int|
                0 <= j < acc.len() ==> (#[trigger] acc[j]).0 == spans@[j].0 && acc[j].1
                    == spans@[j].1,
            spans_within(acc, s.len() as int),
            views(words@) =~= spans_text(s, acc).take(k as int),
    {
        let (x, y) = spans[k];
        assert(0 <= acc[k as int].0 <= acc[k as int].1 <= s.len());
        let w = piece(i, x, y);
        assert(w@ == spans_text(s, acc)[k as int]);
        let ghost before = words@;
        words.push(w);
        assert(views(words@) =~= views(before).push(w@));
        assert(views(words@) =~= spans_text(s, acc).take(k + 1));
    }
    assert(spans_text(s, acc).take(acc.len() as int) =~= spans_text(s, acc));
    Ok((piece(i, pos, cs.len()), words))
}

/// A key and its value, as written `key=value`.
#[derive(Debug)]
pub struct KeyVal {
    pub key: String,
    pub value: String,
}

/// The message for an argument that is not written `key=value`.
pub open spec fn keyval_syntax_message() -> Seq<char> {
    "Please specify your arguments with '--key=val' syntax."@
}

/// The part of an argument at `pos`, as `(start, end, next)`: a quoted word without
/// its quotes, or else the characters up to the next `=`, of which there must be one.
pub open spec fn item_at(s: Seq<char>, pos: int) -> Option<(int, int, int)> {
    if quoted_at(s, pos) {
        let q = span_from(s, pos + 1, Stop::Quote);
        Some((pos + 1, q, q + 1))
    } else {
        let e = span_from(s, pos, Stop::Equals);
        if 0 <= pos && e > pos {
            Some((pos, e, e))
        } else {
            None
        }
    }
}

/// A part lies within the argument and takes at least one character.
pub proof fn lemma_item_at_bounds(s: Seq<char>, pos: int)
    requires
        0 <= pos <= s.len(),
    ensures
        item_at(s, pos) matches Some((a, b, n)) ==> pos <= a <= b < n <= s.len() || (pos <= a
            <= b == n <= s.len() && pos < n),
{
    lemma_span_bounds(s, pos, Stop::Equals);
    if pos + 1 <= s.len() {
        lemma_span_bounds(s, pos + 1, Stop::Quote);
    }
}

/// The parts after `pos`, each preceded by one `=`.
pub open spec fn items_more(s: Seq<char>, pos: int) -> Seq<(int, int)>
    decreases s.len() - pos,
{
    if 0 <= pos < s.len() && s[pos] == '=' {
        proof {
            lemma_item_at_bounds(s, pos + 1);
        }
        match item_at(s, pos + 1) {
            Some((a, b, n)) => seq![(a, b)] + items_more(s, n),
            None => Seq::empty(),
        }
    } else {
        Seq::empty()
    }
}

/// The parts of an argument separated by `=`.
pub open spec fn keyval_items(s: Seq<char>) -> Seq<(int, int)> {
    match item_at(s, 0) {
        Some((a, b, n)) => seq![(a, b)] + items_more(s, n),
        None => Seq::empty(),
    }
}

/// An argument of exactly two parts gives the key and the value; any other is refused.
pub open spec fn keyval_spec(s: Seq<char>) -> Option<(Seq<char>, Seq<char>)> {
    let items = keyval_items(s);
    if items.len() == 2 {
        Some((s.subrange(items[0].0, items[0].1), s.subrange(items[1].0, items[1].1)))
    } else {
        None
    }
}

/// The part of an argument at `pos`.
fn item_span(cs: &Vec<char>, pos: usize) -> (r: Option<(usize, usize, usize)>)
    requires
        pos <= cs.len(),
    ensures
        match r {
            Some((a, b, n)) => item_at(cs@, pos as int) == Some((a as int, b as int, n as int)),
            None => item_at(cs@, pos as int) is None,
        },
{
    if pos < cs.len() && stops_at(Stop::Quote, cs[pos]) {
        let q = scan(cs, pos + 1, Stop::Quote);
        if q < cs.len() {
            return Some((pos + 1, q, q + 1));
        }
    }
    let e = scan(cs, pos, Stop::Equals);
    if e > pos {
        Some((pos, e, e))
    } else {
        None
    }
}

/// Reads an argument written `key=value`; either side may be quoted.
pub fn parse_keyval(i: &str) -> (r: Result<KeyVal, &'static str>)
    ensures
        match keyval_spec(i@) {
            Some((k, v)) => r matches Ok(kv) && kv.key@ == k && kv.value@ == v,
            None => r matches Err(m) && m@ == keyval_syntax_message(),
        },
{
    let cs = chars_of(i);
    let ghost s = cs@;
    let mut spans: Vec<(usize, usize)> = Vec::new();
    let ghost mut acc: Seq<(int, int)> = Seq::empty();
    let mut pos: usize = 0;
    match item_span(&cs, 0) {
        Some((a, b, n)) => {
            proof {
                lemma_item_at_bounds(s, 0);
                acc = seq![(a as int, b as int)];
            }
            spans.push((a, b));
            pos = n;
            while pos < cs.len() && cs[pos] == '='
                invariant
                    s == cs@,
                    pos <= cs.len(),
                    spans@.len() == acc.len(),
                    forall|k: int|
                        0 <= k < acc.len() ==> (#[trigger] acc[k]).0 == spans@[k].0 && acc[k].1
                            == spans@[k].1,
                    keyval_items(s) == acc + items_more(s, pos as int),
                ensures
                    s == cs@,
                    spans@.len() == acc.len(),
                    forall|k: int|
                        0 <= k < acc.len() ==> (#[trigger] acc[k]).0 == spans@[k].0 && acc[k].1
                            == spans@[k].1,
                    keyval_items(s) == acc,
                decreases cs.len() - pos,
            {
                proof {
                    lemma_item_at_bounds(s, pos + 1);
                }
                assert(pos < cs.len() && cs[pos as int] == '=');
                match item_span(&cs, pos + 1) {
                    Some((a2, b2, n2)) => {
                        proof {
                            assert(acc + items_more(s, pos as int) =~= acc.push(
                                (a2 as int, b2 as int),
                            ) + items_more(s, n2 as int));
                            acc = acc.push((a2 as int, b2 as int));
                        }
                        spans.push((a2, b2));
                        pos = n2;
                    },
                    None => {
                        assert(items_more(s, pos as int) =~= Seq::<(int, int)>::empty());
                        assert(acc + items_more(s, pos as int) =~= acc);
                        break ;
                    },
                }
            }
        },
        None => {},
    }
    if spans.len() != 2 {
        return Err("Please specify your arguments with '--key=val' syntax.");
    }
    proof {
        lemma_keyval_items_within(s);
    }
    let (k0, k1) = spans[0];
    let (v0, v1) = spans[1];
    let key = piece(i, k0, k1);
    let value = piece(i, v0, v1);
    Ok(KeyVal { key: key.to_string(), value: value.to_string() })
}

/// The parts after `pos` lie within the argument.
pub proof fn lemma_items_more_within(s: Seq<char>, pos: int)
    requires
        0 <= pos <= s.len(),
    ensures
        spans_within(items_more(s, pos), s.len() as int),
    decreases s.len() - pos,
{
    if 0 <= pos < s.len() && s[pos] == '=' {
        lemma_item_at_bounds(s, pos + 1);
        if let Some((a, b, n)) = item_at(s, pos + 1) {
            lemma_items_more_within(s, n);
            let rest = items_more(s, n);
            assert forall|k: int| 0 <= k < (seq![(a, b)] + rest).len() implies 0 <= (
            #[trigger] (seq![(a, b)] + rest)[k]).0 <= (seq![(a, b)] + rest)[k].1 <= s.len() by {
                if k > 0 {
                    assert((seq![(a, b)] + rest)[k] == rest[k - 1]);
                }
            }
        }
    }
}

/// The parts of an argument lie within it.
pub proof fn lemma_keyval_items_within(s: Seq<char>)
    ensures
        spans_within(keyval_items(s), s.len() as int),
{
    lemma_item_at_bounds(s, 0);
    if let Some((a, b, n)) = item_at(s, 0) {
        lemma_items_more_within(s, n);
        let rest = items_more(s, n);
        assert forall|k: int| 0 <= k < (seq![(a, b)] + rest).len() implies 0 <= (
        #[trigger] (seq![(a, b)] + rest)[k]).0 <= (seq![(a, b)] + rest)[k].1 <= s.len() by {
            if k > 0 {
                assert((seq![(a, b)] + rest)[k] == rest[k - 1]);
            }
        }
    }
}

/// The entries of an argument map, each key and value by its characters.
pub type Entries = Seq<(Seq<char>, Seq<char>)>;

/// The word names an argument: it starts with `-`.
pub open spec fn is_flag(w: Seq<char>) -> bool {
    w.len() > 0 && w[0] == '-'
}

/// One step over the words after a command's name, from `(entries, pending key,
/// whether a key waits for its value)`. A flag written `key=value` is entered at once;
/// another flag waits for the next word as its value, and a flag that ends the line
/// first enters the waiting key and itself with empty values. Any other word is the
/// waiting key's value, or else a key of its own with an empty value.
pub open spec fn kv_step(st: (Entries, Seq<char>, bool), w: Seq<char>, last: bool) -> (
    Entries,
    Seq<char>,
    bool,
) {
    let (entries, key, in_key) = st;
    if is_flag(w) {
        let e1 = if in_key && last {
            insert_entry(insert_entry(entries, key, Seq::empty()), w, Seq::empty())
        } else {
            entries
        };
        match keyval_spec(w) {
            Some((k, v)) => (insert_entry(e1, k, v), key, false),
            None => (e1, w, true),
        }
    } else if in_key {
        (insert_entry(entries, key, w), Seq::empty(), false)
    } else {
        (insert_entry(entries, w, Seq::empty()), key, false)
    }
}

/// The state after the first `n` words.
pub open spec fn kv_fold(words: Seq<Seq<char>>, n: int) -> (Entries, Seq<char>, bool)
    decreases n,
{
    if n <= 0 {
        (Seq::empty(), Seq::empty(), false)
    } else {
        kv_step(kv_fold(words, n - 1), words[n - 1], n - 1 == words.len() - 1)
    }
}

/// The arguments that the words give.
pub open spec fn key_values_spec(words: Seq<Seq<char>>) -> Entries {
    kv_fold(words, words.len() as int).0
}

/// The pairs that a step enters into the arguments, in order: the waiting key and a
/// flag that ends the line, each with an empty value; a flag written `key=value`; a
/// word with the waiting key; a word on its own with an empty value.
pub open spec fn step_entries(st: (Entries, Seq<char>, bool), w: Seq<char>, last: bool) -> Entries {
    let (entries, key, in_key) = st;
    if is_flag(w) {
        let e1 = if in_key && last {
            seq![(key, Seq::<char>::empty()), (w, Seq::<char>::empty())]
        } else {
            Seq::empty()
        };
        match keyval_spec(w) {
            Some((k, v)) => e1.push((k, v)),
            None => e1,
        }
    } else if in_key {
        seq![(key, w)]
    } else {
        seq![(w, Seq::<char>::empty())]
    }
}

/// The pairs that the first `n` words enter, in order.
pub open spec fn produced(words: Seq<Seq<char>>, n: int) -> Entries
    decreases n,
{
    if n <= 0 {
        Seq::empty()
    } else {
        produced(words, n - 1) + step_entries(kv_fold(words, n - 1), words[n - 1], n - 1 == words.len() - 1)
    }
}

/// A step enters its pairs into the arguments one after another.
proof fn lemma_step_inserts(st: (Entries, Seq<char>, bool), w: Seq<char>, last: bool)
    ensures
        kv_step(st, w, last).0 == insert_all(st.0, step_entries(st, w, last)),
{
    reveal_with_fuel(insert_all, 4);
    let (entries, key, in_key) = st;
    let ps = step_entries(st, w, last);
    if is_flag(w) {
        let e1: Entries = if in_key && last {
            seq![(key, Seq::<char>::empty()), (w, Seq::<char>::empty())]
        } else {
            Seq::empty()
        };
        if in_key && last {
            assert(e1.drop_last() =~= seq![(key, Seq::<char>::empty())]);
            assert(e1.drop_last().drop_last() =~= Seq::<(Seq<char>, Seq<char>)>::empty());
        }
        if let Some((k, v)) = keyval_spec(w) {
            assert(ps.drop_last() =~= e1);
        }
    } else {
        assert(ps.drop_last() =~= Seq::<(Seq<char>, Seq<char>)>::empty());
    }
}

/// The arguments of the first `n` words are the pairs they produce, entered in turn.
proof fn lemma_fold_inserts(words: Seq<Seq<char>>, n: int)
    requires
        0 <= n <= words.len(),
    ensures
        kv_fold(words, n).0 == insert_all(Seq::empty(), produced(words, n)),
    decreases n,
{
    if n > 0 {
        lemma_fold_inserts(words, n - 1);
        let st = kv_fold(words, n - 1);
        let w = words[n - 1];
        let last = n - 1 == words.len() - 1;
        lemma_step_inserts(st, w, last);
        lemma_insert_all_append(Seq::empty(), produced(words, n - 1), step_entries(st, w, last));
    }
}

/// The arguments hold each key that the words enter once, in the order in which it was
/// first entered, with the value entered last for it.
pub proof fn lemma_arguments_in_entry_order(words: Seq<Seq<char>>)
    ensures
        keys_of(key_values_spec(words)) == first_occurrences(keys_of(produced(words, words.len() as int))),
        forall|k: Seq<char>|
            #[trigger] lookup(key_values_spec(words), k) == latest_value(produced(words, words.len() as int), k),
{
    lemma_fold_inserts(words, words.len() as int);
    lemma_insert_all_from_empty(produced(words, words.len() as int));
}

/// A flag that is not written `key=value`, followed by a word that is not a flag, enters
/// that word as its value, and those two words enter nothing else.
pub proof fn lemma_flag_takes_next_word(words: Seq<Seq<char>>, i: int)
    requires
        0 <= i,
        i + 1 < words.len(),
        is_flag(words[i]),
        keyval_spec(words[i]) is None,
        !is_flag(words[i + 1]),
    ensures
        produced(words, i + 2) == produced(words, i) + seq![(words[i], words[i + 1])],
{
    assert(produced(words, i + 2) == produced(words, i + 1) + step_entries(kv_fold(words, i + 1), words[i + 1], i + 1 == words.len() - 1));
    assert(step_entries(kv_fold(words, i), words[i], false) =~= Seq::<(Seq<char>, Seq<char>)>::empty());
    assert(produced(words, i + 1) =~= produced(words, i));
}

/// Whether `w` starts with `-`.
fn starts_with_dash(w: &str) -> (b: bool)
    ensures
        b == is_flag(w@),
{
    if w.is_empty() {
        false
    } else {
        w.get_char(0) == '-'
    }
}

/// Collects the arguments among the words after a command's name, in the order in
/// which their keys first appear.
pub fn parse_key_values(input: &Vec<&str>) -> (args: IndexMap<String, String>)
    ensures
        map_entries(args) == key_values_spec(views(input@)),
        keys_distinct(map_entries(args)),
{
    let ghost words = views(input@);
    let mut args: IndexMap<String, String> = map_new();
    let mut key: String = String::default();
    let mut in_key: bool = false;
    for i in 0..input.len()
        invariant
            words == views(input@),
            (map_entries(args), key@, in_key) == kv_fold(words, i as int),
            keys_distinct(map_entries(args)),
    {
        let w: &str = input[i];
        assert(words[i as int] == w@);
        assert(words.len() == input.len());
        assert(kv_fold(words, i + 1) == kv_step(kv_fold(words, i as int), w@, i == input.len() - 1));
        if starts_with_dash(w) {
            if in_key && i == input.len() - 1 {
                proof {
                    lemma_insert_entry(map_entries(args), key@, Seq::empty());
                }
                map_insert(&mut args, key.clone(), String::default());
                proof {
                    lemma_insert_entry(map_entries(args), w@, Seq::empty());
                }
                map_insert(&mut args, w.to_string(), String::default());
            }
            let output = parse_keyval(w);
            match output {
                Ok(v) => {
                    proof {
                        lemma_insert_entry(map_entries(args), v.key@, v.value@);
                    }
                    map_insert(&mut args, v.key, v.value);
                    in_key = false;
                },
                Err(_) => {
                    key = w.to_string();
                    in_key = true;
                },
            };
        } else if in_key {
            proof {
                lemma_insert_entry(map_entries(args), key@, w@);
            }
            map_insert(&mut args, key, w.to_string());
            in_key = !in_key;
            key = String::default();
        } else {
            proof {
                lemma_insert_entry(map_entries(args), w@, Seq::empty());
            }
            map_insert(&mut args, w.to_string(), String::default());
        }
    }
    args
}

/// The words of a line that splits into words; no words for one that does not.
pub open spec fn line_words(s: Seq<char>) -> Seq<Seq<char>> {
    match words_text(s) {
        Ok((_, ws)) => ws,
        Err(_) => Seq::empty(),
    }
}

/// The words of a line, the first holding at least one character, cannot be empty.
pub proof fn lemma_line_words_nonempty(s: Seq<char>)
    requires
        s.len() > 0,
        s[0] != ' ',
    ensures
        line_words(s).len() >= 1,
{
    lemma_word_at_bounds(s, 0);
}

/// Parses a command line: the first word names the command, the others are its
/// parameters, and the arguments among the parameters are collected. An empty line is
/// refused with an empty message. A line that starts with a space has no first word
/// and is outside the contract.
pub fn parse_input<'a>(i: &'a String) -> (r: Result<Token<'a>, &'a str>)
    requires
        i@.len() == 0 || i@[0] != ' ',
    ensures
        i@.len() == 0 <==> r is Err,
        r matches Err(m) ==> m@ == Seq::<char>::empty(),
        r matches Ok(t) ==> {
            &&& t.name@ == line_words(i@)[0]
            &&& views(t.parameters@) == line_words(i@).drop_first()
            &&& map_entries(t.args) == key_values_spec(line_words(i@).drop_first())
            &&& map_entries(t.args) == key_values_spec(views(t.parameters@))
        },
{
    if i.as_str().is_empty() {
        proof {
            reveal_strlit("");
        }
        return Err("");
    }
    let (_, parsed_words) = parse_words(i.as_str()).unwrap();
    proof {
        lemma_line_words_nonempty(i@);
    }
    assert(views(parsed_words@) == line_words(i@));
    let mut rest: Vec<&'a str> = Vec::new();
    for k in 1..parsed_words.len()
        invariant
            parsed_words@.len() >= 1,
            views(rest@) =~= views(parsed_words@).drop_first().take(k - 1),
    {
        let ghost before = rest@;
        rest.push(parsed_words[k]);
        assert(views(rest@) =~= views(before).push(parsed_words@[k as int]@));
        assert(views(rest@) =~= views(parsed_words@).drop_first().take(k as int));
    }
    assert(views(parsed_words@).drop_first().take(parsed_words.len() - 1) =~= views(
        parsed_words@,
    ).drop_first());
    let args = parse_key_values(&rest);
    let name = parsed_words[0].to_string();
    Ok(Token { name: name, parameters: rest, args: args })
}

/// A scan from `pos` stops at `e` when no character in between stops it and the one
/// at `e`, if any, does.
pub proof fn lemma_span_at(s: Seq<char>, pos: int, e: int, stop: Stop)
    requires
        0 <= pos <= e <= s.len(),
        forall|j: int| pos <= j < e ==> !stops(stop, #[trigger] s[j]),
        e < s.len() ==> stops(stop, s[e]),
    ensures
        span_from(s, pos, stop) == e,
{
    lemma_span_bounds(s, pos, stop);
    let f = span_from(s, pos, stop);
    if f < e {
        assert(!stops(stop, s[f]));
    } else if f > e {
        assert(!stops(stop, s[e]));
    }
}

/// Writing a key and a value with `=` between them reads back as that key and value,
/// where neither is empty nor holds an `=` or a quote.
pub proof fn lemma_keyval_roundtrip(k: Seq<char>, v: Seq<char>)
    requires
        k.len() > 0,
        v.len() > 0,
        forall|j: int| 0 <= j < k.len() ==> #[trigger] k[j] != '=' && !is_quote(k[j]),
        forall|j: int| 0 <= j < v.len() ==> #[trigger] v[j] != '=' && !is_quote(v[j]),
    ensures
        keyval_spec(k + seq!['='] + v) == Some((k, v)),
{
    let s = k + seq!['='] + v;
    let kl = k.len() as int;
    assert(s[0] == k[0]);
    assert forall|j: int| 0 <= j < kl implies !stops(Stop::Equals, #[trigger] s[j]) by {
        assert(s[j] == k[j]);
    }
    assert(s[kl] == '=');
    lemma_span_at(s, 0, kl, Stop::Equals);
    assert(item_at(s, 0) == Some((0int, kl, kl)));
    assert(s[kl + 1] == v[0]);
    assert forall|j: int| kl + 1 <= j < s.len() implies !stops(Stop::Equals, #[trigger] s[j]) by {
        assert(s[j] == v[j - kl - 1]);
    }
    lemma_span_at(s, kl + 1, s.len() as int, Stop::Equals);
    assert(item_at(s, kl + 1) == Some((kl + 1, s.len() as int, s.len() as int)));
    assert(items_more(s, s.len() as int) == Seq::<(int, int)>::empty());
    assert(items_more(s, kl) =~= seq![(kl + 1, s.len() as int)]);
    assert(keyval_items(s) =~= seq![(0int, kl), (kl + 1, s.len() as int)]);
    assert(s.subrange(0, kl) =~= k);
    assert(s.subrange(kl + 1, s.len() as int) =~= v);
}

/// A flag that is not written `key=value`, followed by a word that is not a flag,
/// takes that word as its value; a flag written `key=value` is entered at once.
pub proof fn lemma_flag_arguments(st: (Entries, Seq<char>, bool), f: Seq<char>, v: Seq<char>, last: bool)
    requires
        !st.2,
        is_flag(f),
    ensures
        keyval_spec(f) is None && !is_flag(v) ==> kv_step(kv_step(st, f, false), v, last) == (
            insert_entry(st.0, f, v),
            Seq::<char>::empty(),
            false,
        ),
        keyval_spec(f) matches Some((k, w)) ==> kv_step(st, f, last).0 == insert_entry(st.0, k, w)
            && !kv_step(st, f, last).2,
{
}

/// A word written as it is: not empty, and without a space or a quote of either kind.
pub open spec fn plain_word(w: Seq<char>) -> bool {
    w.len() > 0 && forall|j: int| 0 <= j < w.len() ==> #[trigger] w[j] != ' ' && w[j] != '\'' && w[j] != '"'
}

/// Each word preceded by one space, one after another.
pub open spec fn spaced(ws: Seq<Seq<char>>) -> Seq<char>
    decreases ws.len(),
{
    if ws.len() == 0 {
        Seq::empty()
    } else {
        seq![' '] + ws[0] + spaced(ws.drop_first())
    }
}

/// The words joined by single spaces.
pub open spec fn joined(ws: Seq<Seq<char>>) -> Seq<char> {
    ws[0] + spaced(ws.drop_first())
}

/// A plain word at `pos`, followed by a space or the end, is read whole.
proof fn lemma_plain_word_at(s: Seq<char>, pos: int, w: Seq<char>)
    requires
        plain_word(w),
        0 <= pos,
        pos + w.len() <= s.len(),
        s.subrange(pos, pos + w.len()) == w,
        pos + w.len() == s.len() || s[pos + w.len()] == ' ',
    ensures
        word_at(s, pos) == (pos, pos + w.len(), pos + w.len()),
{
    let e = pos + w.len();
    assert(s[pos] == w[0]);
    assert forall|j: int| pos <= j < e implies !stops(Stop::Space, #[trigger] s[j]) by {
        assert(s[j] == w[j - pos]);
    }
    lemma_span_at(s, pos, e, Stop::Space);
}

/// The plain words after `pos`, each after one space, are the rest of the line's words.
proof fn lemma_more_plain_words(s: Seq<char>, pos: int, ws: Seq<Seq<char>>)
    requires
        0 <= pos <= s.len(),
        s.skip(pos) == spaced(ws),
        forall|k: int| 0 <= k < ws.len() ==> plain_word(#[trigger] ws[k]),
    ensures
        more_words(s, pos).0 == s.len(),
        spans_text(s, more_words(s, pos).1) == ws,
    decreases ws.len(),
{
    if ws.len() == 0 {
        assert(s.skip(pos).len() == 0);
        assert(spans_text(s, Seq::<(int, int)>::empty()) =~= ws);
    } else {
        let w = ws[0];
        let rest = ws.drop_first();
        assert(plain_word(w));
        let t = spaced(ws);
        assert(t == seq![' '] + w + spaced(rest));
        assert(s.skip(pos)[0] == ' ');
        assert(s[pos] == ' ');
        let e = pos + 1 + w.len();
        assert(s.subrange(pos + 1, e) =~= w) by {
            assert forall|j: int| 0 <= j < w.len() implies s.subrange(pos + 1, e)[j] == w[j] by {
                assert(s.skip(pos)[1 + j] == t[1 + j]);
            }
        }
        if e < s.len() {
            assert(s.skip(pos)[e - pos] == t[e - pos]);
            assert(rest.len() > 0);
            assert(spaced(rest)[0] == ' ');
        }
        lemma_plain_word_at(s, pos + 1, w);
        assert(s.skip(e) =~= spaced(rest)) by {
            assert forall|j: int| 0 <= j < s.skip(e).len() implies s.skip(e)[j] == spaced(rest)[j] by {
                assert(s.skip(pos)[1 + w.len() + j] == t[1 + w.len() + j]);
            }
        }
        assert forall|k: int| 0 <= k < rest.len() implies plain_word(#[trigger] rest[k]) by {
            assert(rest[k] == ws[k + 1]);
        }
        lemma_more_plain_words(s, e, rest);
        let more = more_words(s, e);
        assert(more_words(s, pos) == (more.0, seq![(pos + 1, e)] + more.1));
        assert(spans_text(s, seq![(pos + 1, e)] + more.1) =~= seq![w] + spans_text(s, more.1));
        assert(seq![w] + rest =~= ws);
    }
}

/// A line made of plain words joined by single spaces splits into exactly those words,
/// with nothing left over: the command's name is the first and its parameters are the
/// others, character for character.
pub proof fn lemma_plain_line_splits_into_its_words(ws: Seq<Seq<char>>)
    requires
        ws.len() > 0,
        forall|k: int| 0 <= k < ws.len() ==> plain_word(#[trigger] ws[k]),
    ensures
        words_text(joined(ws)) == Ok::<(Seq<char>, Seq<Seq<char>>), ParseError>((Seq::<char>::empty(), ws)),
        line_words(joined(ws)) == ws,
        line_words(joined(ws))[0] == ws[0],
        line_words(joined(ws)).drop_first() == ws.drop_first(),
{
    let s = joined(ws);
    let w = ws[0];
    let rest = ws.drop_first();
    assert(plain_word(w));
    let n = w.len() as int;
    assert(s.subrange(0, n) =~= w);
    if n < s.len() {
        assert(rest.len() > 0);
        assert(s[n] == spaced(rest)[0]);
    }
    lemma_plain_word_at(s, 0, w);
    assert(s.skip(n) =~= spaced(rest));
    assert forall|k: int| 0 <= k < rest.len() implies plain_word(#[trigger] rest[k]) by {
        assert(rest[k] == ws[k + 1]);
    }
    lemma_more_plain_words(s, n, rest);
    let more = more_words(s, n);
    assert(s.skip(s.len() as int) =~= Seq::<char>::empty());
    assert(spans_text(s, seq![(0int, n)] + more.1) =~= seq![w] + spans_text(s, more.1));
    assert(seq![w] + rest =~= ws);
}

/// A word as written on a line: in double quotes, or as it is.
pub open spec fn written(w: Seq<char>, quoted: bool) -> Seq<char> {
    if quoted {
        seq!['"'] + w + seq!['"']
    } else {
        w
    }
}

/// A word that can be written so: in quotes, any characters but quotes; as it is, a
/// plain word.
pub open spec fn writable(w: Seq<char>, quoted: bool) -> bool {
    if quoted {
        forall|j: int| 0 <= j < w.len() ==> #[trigger] w[j] != '\'' && w[j] != '"'
    } else {
        plain_word(w)
    }
}

/// Each word written as told, preceded by one space, one after another.
pub open spec fn spaced_written(ws: Seq<Seq<char>>, qs: Seq<bool>) -> Seq<char>
    decreases ws.len(),
{
    if ws.len() == 0 {
        Seq::empty()
    } else {
        seq![' '] + written(ws[0], qs[0]) + spaced_written(ws.drop_first(), qs.drop_first())
    }
}

/// A quoted word at `pos` is read without its quotes, and the line goes on after the
/// closing quote.
proof fn lemma_quoted_word_at(s: Seq<char>, pos: int, w: Seq<char>)
    requires
        writable(w, true),
        0 <= pos,
        pos + w.len() + 2 <= s.len(),
        s.subrange(pos, pos + w.len() + 2) == written(w, true),
    ensures
        word_at(s, pos) == (pos + 1, pos + 1 + w.len(), pos + 2 + w.len()),
{
    let q = pos + 1 + w.len();
    let t = written(w, true);
    assert(s[pos] == t[0]);
    assert(s[q] == t[q - pos]);
    assert forall|j: int| pos + 1 <= j < q implies !stops(Stop::Quote, #[trigger] s[j]) by {
        assert(s[j] == t[j - pos]);
        assert(t[j - pos] == w[j - pos - 1]);
    }
    lemma_span_at(s, pos + 1, q, Stop::Quote);
}

/// A word written as told at `pos`, followed by a space or the end, is read as that word.
proof fn lemma_written_word_at(s: Seq<char>, pos: int, w: Seq<char>, quoted: bool)
    requires
        writable(w, quoted),
        0 <= pos,
        pos + written(w, quoted).len() <= s.len(),
        s.subrange(pos, pos + written(w, quoted).len()) == written(w, quoted),
        pos + written(w, quoted).len() == s.len() || s[pos + written(w, quoted).len()] == ' ',
    ensures
        word_at(s, pos).2 == pos + written(w, quoted).len(),
        s.subrange(word_at(s, pos).0, word_at(s, pos).1) == w,
{
    if quoted {
        lemma_quoted_word_at(s, pos, w);
        assert(s.subrange(pos + 1, pos + 1 + w.len()) =~= w) by {
            assert forall|j: int| 0 <= j < w.len() implies s.subrange(pos + 1, pos + 1 + w.len())[j] == w[j] by {
                assert(s.subrange(pos, pos + w.len() + 2)[j + 1] == written(w, true)[j + 1]);
            }
        }
    } else {
        lemma_plain_word_at(s, pos, w);
    }
}

/// The words after `pos`, each written as told after one space, are the rest of the
/// line's words.
proof fn lemma_more_written_words(s: Seq<char>, pos: int, ws: Seq<Seq<char>>, qs: Seq<bool>)
    requires
        0 <= pos <= s.len(),
        ws.len() == qs.len(),
        s.skip(pos) == spaced_written(ws, qs),
        forall|k: int| 0 <= k < ws.len() ==> writable(#[trigger] ws[k], qs[k]),
    ensures
        more_words(s, pos).0 == s.len(),
        spans_text(s, more_words(s, pos).1) == ws,
    decreases ws.len(),
{
    if ws.len() == 0 {
        assert(s.skip(pos).len() == 0);
        assert(spans_text(s, Seq::<(int, int)>::empty()) =~= ws);
    } else {
        let w = ws[0];
        let q = qs[0];
        let rest = ws.drop_first();
        let qrest = qs.drop_first();
        assert(writable(w, q));
        let f = written(w, q);
        let t = spaced_written(ws, qs);
        assert(t == seq![' '] + f + spaced_written(rest, qrest));
        assert(s.skip(pos)[0] == ' ');
        assert(s[pos] == ' ');
        let e = pos + 1 + f.len();
        assert(s.subrange(pos + 1, e) =~= f) by {
            assert forall|j: int| 0 <= j < f.len() implies s.subrange(pos + 1, e)[j] == f[j] by {
                assert(s.skip(pos)[1 + j] == t[1 + j]);
            }
        }
        if e < s.len() {
            assert(s.skip(pos)[e - pos] == t[e - pos]);
            assert(rest.len() > 0);
            assert(spaced_written(rest, qrest)[0] == ' ');
        }
        lemma_written_word_at(s, pos + 1, w, q);
        assert(s.skip(e) =~= spaced_written(rest, qrest)) by {
            assert forall|j: int| 0 <= j < s.skip(e).len() implies s.skip(e)[j] == spaced_written(rest, qrest)[j] by {
                assert(s.skip(pos)[1 + f.len() + j] == t[1 + f.len() + j]);
            }
        }
        assert forall|k: int| 0 <= k < rest.len() implies writable(#[trigger] rest[k], qrest[k]) by {
            assert(rest[k] == ws[k + 1]);
            assert(qrest[k] == qs[k + 1]);
        }
        lemma_more_written_words(s, e, rest, qrest);
        let wa = word_at(s, pos + 1);
        let more = more_words(s, e);
        assert(more_words(s, pos) == (more.0, seq![(wa.0, wa.1)] + more.1));
        assert(spans_text(s, seq![(wa.0, wa.1)] + more.1) =~= seq![w] + spans_text(s, more.1));
        assert(seq![w] + rest =~= ws);
    }
}

/// A line made of words joined by single spaces, each written in double quotes or as a
/// plain word, splits into exactly those words, the quotes taken off, with nothing left
/// over: the command's name is the first and its parameters are the others.
pub proof fn lemma_line_splits_into_its_words(ws: Seq<Seq<char>>, qs: Seq<bool>)
    requires
        ws.len() > 0,
        ws.len() == qs.len(),
        forall|k: int| 0 <= k < ws.len() ==> writable(#[trigger] ws[k], qs[k]),
    ensures
        words_text(written(ws[0], qs[0]) + spaced_written(ws.drop_first(), qs.drop_first())) == Ok::<
            (Seq<char>, Seq<Seq<char>>),
            ParseError,
        >((Seq::<char>::empty(), ws)),
        line_words(written(ws[0], qs[0]) + spaced_written(ws.drop_first(), qs.drop_first())) == ws,
{
    let f = written(ws[0], qs[0]);
    let rest = ws.drop_first();
    let qrest = qs.drop_first();
    let s = f + spaced_written(rest, qrest);
    assert(writable(ws[0], qs[0]));
    let n = f.len() as int;
    assert(s.subrange(0, n) =~= f);
    if n < s.len() {
        assert(rest.len() > 0);
        assert(s[n] == spaced_written(rest, qrest)[0]);
    }
    lemma_written_word_at(s, 0, ws[0], qs[0]);
    assert(s.skip(n) =~= spaced_written(rest, qrest));
    assert forall|k: int| 0 <= k < rest.len() implies writable(#[trigger] rest[k], qrest[k]) by {
        assert(rest[k] == ws[k + 1]);
        assert(qrest[k] == qs[k + 1]);
    }
    lemma_more_written_words(s, n, rest, qrest);
    let wa = word_at(s, 0);
    let more = more_words(s, n);
    assert(s.skip(s.len() as int) =~= Seq::<char>::empty());
    assert(spans_text(s, seq![(wa.0, wa.1)] + more.1) =~= seq![ws[0]] + spans_text(s, more.1));
    assert(seq![ws[0]] + rest =~= ws);
}

/// Writing a key, `=`, and a value in double quotes reads back as that key and the
/// value without its quotes, where the key is not empty and holds no `=` or quote and
/// the value holds no quote.
pub proof fn lemma_keyval_quoted_roundtrip(k: Seq<char>, v: Seq<char>)
    requires
        k.len() > 0,
        forall|j: int| 0 <= j < k.len() ==> #[trigger] k[j] != '=' && !is_quote(k[j]),
        forall|j: int| 0 <= j < v.len() ==> !is_quote(#[trigger] v[j]),
    ensures
        keyval_spec(k + seq!['='] + (seq!['"'] + v + seq!['"'])) == Some((k, v)),
{
    let s = k + seq!['='] + (seq!['"'] + v + seq!['"']);
    let kl = k.len() as int;
    let vl = v.len() as int;
    assert(s.len() == kl + vl + 3);
    assert(s[0] == k[0]);
    assert forall|j: int| 0 <= j < kl implies !stops(Stop::Equals, #[trigger] s[j]) by {
        assert(s[j] == k[j]);
    }
    assert(s[kl] == '=');
    lemma_span_at(s, 0, kl, Stop::Equals);
    assert(item_at(s, 0) == Some((0int, kl, kl)));
    assert(s[kl + 1] == '"');
    assert(s[kl + 2 + vl] == '"');
    assert forall|j: int| kl + 2 <= j < kl + 2 + vl implies !stops(Stop::Quote, #[trigger] s[j]) by {
        assert(s[j] == v[j - kl - 2]);
    }
    lemma_span_at(s, kl + 2, kl + 2 + vl, Stop::Quote);
    assert(item_at(s, kl + 1) == Some((kl + 2, kl + 2 + vl, s.len() as int)));
    assert(items_more(s, s.len() as int) == Seq::<(int, int)>::empty());
    assert(items_more(s, kl) =~= seq![(kl + 2, kl + 2 + vl)]);
    assert(keyval_items(s) =~= seq![(0int, kl), (kl + 2, kl + 2 + vl)]);
    assert(s.subrange(0, kl) =~= k);
    assert(s.subrange(kl + 2, kl + 2 + vl) =~= v);
}

/// A word without `=` is not an argument written `key=value`.
pub proof fn lemma_keyval_needs_equals(w: Seq<char>)
    requires
        forall|j: int| 0 <= j < w.len() ==> #[trigger] w[j] != '=',
    ensures
        keyval_spec(w) is None,
{
    lemma_item_at_bounds(w, 0);
    match item_at(w, 0) {
        Some((a, b, n)) => {
            if n < w.len() {
                assert(w[n] != '=');
            }
            assert(items_more(w, n) == Seq::<(int, int)>::empty());
            assert(keyval_items(w).len() == 1);
        },
        None => {},
    }
}

} // verus!

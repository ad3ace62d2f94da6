//! The `test` command, which shows how a command line was parsed.

use crate::commands::Token;
use crate::index_map::map_entries;
use crate::parser::views;
use crate::sock::Sock;
use crate::text::concat;
use indexmap::IndexMap;
use vstd::prelude::*;

verus! {

broadcast use vstd::string::group_string_axioms;

/// Shows the parameters and the arguments of the command line.
pub struct TestCommand {}

/// What `{:?}` shows of a list of strings.
pub uninterp spec fn debug_str_list(items: Seq<Seq<char>>) -> Seq<char>;

/// What `{:?}` shows of an argument map with these entries.
pub uninterp spec fn debug_arg_map(entries: Seq<(Seq<char>, Seq<char>)>) -> Seq<char>;

/// Calls the `Debug` formatting of `Vec<&str>` through `format!("{:?}", ..)`. Claimed:
/// the text depends on the strings' characters and their order only; it is not
/// stated further.
#[verifier::external_body]
fn format_str_list(items: &Vec<&str>) -> (s: String)
    ensures
        s@ == debug_str_list(views(items@)),
{
    format!("{:?}", items)
}

/// Calls the `Debug` formatting of `IndexMap<String, String>` (indexmap's impl, which
/// lists the entries in order) through `format!("{:?}", ..)`. Claimed: the text
/// depends on the entries in order only; it is not stated further.
#[verifier::external_body]
fn format_arg_map(args: &IndexMap<String, String>) -> (s: String)
    ensures
        s@ == debug_arg_map(map_entries(*args)),
{
    format!("{:?}", args)
}

/// The answer to `test`.
pub open spec fn test_text(parameters: Seq<Seq<char>>, entries: Seq<(Seq<char>, Seq<char>)>) -> Seq<char> {
    "This is my test str! Args: "@ + debug_str_list(parameters) + "\n"@
        + "This is my test str! Parsed: "@ + debug_arg_map(entries)
}

impl TestCommand {
    pub fn new() -> Box<TestCommand> {
        Box::new(TestCommand {})
    }

    fn test(&self, token: &Token) -> (s: String)
        ensures
            s@ == test_text(views(token.parameters@), map_entries(token.args)),
    {
        let args = format_str_list(&token.parameters);
        let parsed = format_arg_map(&token.args);
        let first = concat("This is my test str! Args: ", args.as_str());
        let second = concat("This is my test str! Parsed: ", parsed.as_str());
        let a = concat(first.as_str(), "\n");
        concat(a.as_str(), second.as_str())
    }

    /// Answers `test` with the parsed parameters and arguments; refuses any other name
    /// with `Err(false)`.
    pub fn handle(&mut self, name: &str, token: &Token, _sock: &mut Sock) -> (r: Result<String, bool>)
        ensures
            name@ == "test"@ ==> (r matches Ok(s) && s@ == test_text(views(token.parameters@), map_entries(token.args))),
            name@ != "test"@ ==> r == Err::<String, bool>(false),
            *final(_sock) == *old(_sock),
    {
        if crate::text::same_chars(name, "test") {
            Ok(self.test(token))
        } else {
            Err(false)
        }
    }
}

} // verus!

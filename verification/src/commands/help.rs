//! The `help` command.

use crate::commands::Token;
use crate::sock::Sock;
use vstd::prelude::*;

verus! {

broadcast use vstd::string::group_string_axioms;

/// Lists the available commands.
pub struct HelpCommand {}

/// The list of available commands.
pub open spec fn help_text() -> Seq<char> {
    "Available commands:\n\ttest: Does things\n"@
}

impl HelpCommand {
    pub fn new() -> Box<HelpCommand> {
        Box::new(HelpCommand {})
    }

    fn show_help(&self, _token: &Token, _sock: &mut Sock) -> (s: String)
        ensures
            s@ == help_text(),
            *final(_sock) == *old(_sock),
    {
        let comments = "Available commands:\n\ttest: Does things\n";
        comments.to_string()
    }

    /// Answers `help` with the list of commands; refuses any other name with `Err(false)`.
    pub fn handle(&mut self, name: &str, token: &Token, sock: &mut Sock) -> (r: Result<String, bool>)
        ensures
            name@ == "help"@ ==> (r matches Ok(s) && s@ == help_text()),
            name@ != "help"@ ==> r == Err::<String, bool>(false),
            *final(sock) == *old(sock),
    {
        if crate::text::same_chars(name, "help") {
            Ok(self.show_help(token, sock))
        } else {
            Err(false)
        }
    }
}

} // verus!

//! Commands: the parsed command line and the handler that answers it.

pub mod auth;
pub mod challenge;
pub mod help;
pub mod test;

use crate::commands::auth::{ask_credentials, credential_questions, question_views, Question, account_name, account_password, given_password, given_username, login_message, login_outcome, Auth};
use crate::console::{Console, ConsoleView};
use crate::index_map::map_entries;
use crate::text::{concat, same_chars, trim_spec};
use indexmap::IndexMap;
use vstd::prelude::*;

verus! {

broadcast use vstd::string::group_string_axioms;

/// A parsed command line: the command's name, the words after it, and the
/// `--key=value` / `--key value` arguments found among those words.
pub struct Token<'a> {
    pub name: String,
    pub parameters: Vec<&'a str>,
    pub args: IndexMap<String, String>,
}

/// What the console does after a command.
pub enum Response {
    /// Show the text, then a fresh prompt.
    Reply(String),
    /// Clear the screen; the answer is empty.
    Clear,
    /// Ask these questions in order, then finish the login with the answers.
    AskCredentials(Vec<Question>),
    /// Leave the console.
    Exit,
}

/// Answers the commands typed at the console.
pub struct CommandHandler {
    auth: Auth,
}

/// The answer to `whoami`.
pub open spec fn whoami_message(user: Option<Seq<char>>) -> Seq<char> {
    match user {
        Some(u) => "Logged in as: "@ + u,
        None => "You are not logged in!"@,
    }
}

/// The answer to a command that does not exist.
pub open spec fn not_found_message(name: Seq<char>) -> Seq<char> {
    "'"@ + name + "' not found! Type 'help' to see a list of available commands."@
}

/// What answering the command `name` with the arguments `entries` does: the
/// response, and the login state and console before and after.
pub open spec fn handle_spec(
    before: Auth,
    after: Auth,
    console_before: ConsoleView,
    console_after: ConsoleView,
    name: Seq<char>,
    entries: Seq<(Seq<char>, Seq<char>)>,
    r: Response,
) -> bool {
    if name == "whoami"@ {
        &&& r matches Response::Reply(m) && m@ == whoami_message(before.logged_in_as())
        &&& after == before
        &&& console_after == console_before
    } else if name == "login"@ {
        let u = given_username(entries);
        let p = given_password(entries);
        if u is Some && p is Some {
            &&& r matches Response::Reply(m) && m@ == login_message(u.unwrap(), p.unwrap())
            &&& login_outcome(before, after, console_before, console_after, u.unwrap(), p.unwrap())
        } else {
            &&& r matches Response::AskCredentials(q) && question_views(q@) == credential_questions()
            &&& after == before
            &&& console_after == console_before
        }
    } else if name == "logout"@ {
        &&& r matches Response::Reply(m) && m@ == "Logged out!"@
        &&& !after.is_logged_in()
        &&& after.logged_in_as() is None
        &&& console_after == (ConsoleView { prompt: "$"@, ..console_before })
    } else if name == "clear"@ {
        r is Clear && after == before && console_after == console_before
    } else if name == "exit"@ {
        r is Exit && after == before && console_after == console_before
    } else {
        &&& r matches Response::Reply(m) && m@ == not_found_message(name)
        &&& after == before
        &&& console_after == console_before
    }
}

impl CommandHandler {
    /// Who is logged in.
    pub closed spec fn auth(&self) -> Auth {
        self.auth
    }

    pub fn new() -> (h: Self)
        ensures
            !h.auth().is_logged_in(),
            h.auth().logged_in_as() is None,
    {
        CommandHandler { auth: Auth::new() }
    }

    /// Answers a command: `whoami` names the logged-in user, `login` logs in with the
    /// credentials given as arguments or asks for them, `logout` logs out, `clear`
    /// clears the screen, `exit` leaves; any other name is not found.
    pub fn handle(&mut self, token: &Token<'_>, console: &mut Console) -> (r: Response)
        ensures
            handle_spec(old(self).auth(), final(self).auth(), old(console)@, final(console)@, token.name@, map_entries(token.args), r),
    {
        proof {
            reveal_strlit("whoami");
            reveal_strlit("login");
            reveal_strlit("logout");
            reveal_strlit("clear");
            reveal_strlit("exit");
            assert("whoami"@[0] != "logout"@[0]);
            assert("login"@[0] != "clear"@[0]);
            assert("whoami"@ != "logout"@);
            assert("login"@ != "clear"@);
            assert("login"@.len() != "logout"@.len());
        }
        let name = token.name.as_str();
        if same_chars(name, "whoami") {
            match self.auth.user() {
                Some(u) => Response::Reply(concat("Logged in as: ", u.username.as_str())),
                None => Response::Reply("You are not logged in!".to_string()),
            }
        } else if same_chars(name, "login") {
            match self.auth.login(token, console) {
                Some(m) => Response::Reply(m),
                None => Response::AskCredentials(ask_credentials()),
            }
        } else if same_chars(name, "logout") {
            Response::Reply(self.auth.logout(console))
        } else if same_chars(name, "clear") {
            Response::Clear
        } else if same_chars(name, "exit") {
            Response::Exit
        } else {
            let m = concat("'", name);
            Response::Reply(
                concat(m.as_str(), "' not found! Type 'help' to see a list of available commands."),
            )
        }
    }

    /// Finishes a login whose credentials were typed at the console.
    pub fn finish_login(&mut self, read_user: &str, read_pass: &str, console: &mut Console) -> (msg: String)
        ensures
            msg@ == login_message(trim_spec(read_user@), trim_spec(read_pass@)),
            login_outcome(old(self).auth(), final(self).auth(), old(console)@, final(console)@, trim_spec(read_user@), trim_spec(read_pass@)),
    {
        self.auth.login_typed(read_user, read_pass, console)
    }
}

/// The command names differ from one another.
proof fn lemma_command_names_differ()
    ensures
        "whoami"@ != "login"@,
        "whoami"@ != "logout"@,
        "login"@ != "logout"@,
{
    reveal_strlit("whoami");
    reveal_strlit("login");
    reveal_strlit("logout");
    assert("whoami"@[0] != "logout"@[0]);
    assert("whoami"@.len() != "login"@.len());
    assert("login"@.len() != "logout"@.len());
}

/// Logging in with the account's credentials names that user in the answer, in the
/// prompt, and in the answer to a `whoami` that follows.
pub proof fn lemma_login_then_whoami(
    a0: Auth,
    a1: Auth,
    a2: Auth,
    c0: ConsoleView,
    c1: ConsoleView,
    c2: ConsoleView,
    login_args: Seq<(Seq<char>, Seq<char>)>,
    whoami_args: Seq<(Seq<char>, Seq<char>)>,
    r1: Response,
    r2: Response,
)
    requires
        given_username(login_args) == Some(account_name()),
        given_password(login_args) == Some(account_password()),
        handle_spec(a0, a1, c0, c1, "login"@, login_args, r1),
        handle_spec(a1, a2, c1, c2, "whoami"@, whoami_args, r2),
    ensures
        r1 matches Response::Reply(m) && m@ == "Logged in as "@ + account_name() + "!"@,
        c1.prompt == account_name() + "@ctf$"@,
        r2 matches Response::Reply(m) && m@ == "Logged in as: "@ + account_name(),
{
    lemma_command_names_differ();
}

/// After `logout`, the prompt is `$` and `whoami` answers that nobody is logged in.
pub proof fn lemma_logout_then_whoami(
    a0: Auth,
    a1: Auth,
    a2: Auth,
    c0: ConsoleView,
    c1: ConsoleView,
    c2: ConsoleView,
    logout_args: Seq<(Seq<char>, Seq<char>)>,
    whoami_args: Seq<(Seq<char>, Seq<char>)>,
    r1: Response,
    r2: Response,
)
    requires
        handle_spec(a0, a1, c0, c1, "logout"@, logout_args, r1),
        handle_spec(a1, a2, c1, c2, "whoami"@, whoami_args, r2),
    ensures
        c1.prompt == "$"@,
        r2 matches Response::Reply(m) && m@ == "You are not logged in!"@,
{
    lemma_command_names_differ();
}

/// A login with any other credentials is refused and changes nothing.
pub proof fn lemma_wrong_login(
    a0: Auth,
    a1: Auth,
    c0: ConsoleView,
    c1: ConsoleView,
    login_args: Seq<(Seq<char>, Seq<char>)>,
    r: Response,
)
    requires
        given_username(login_args) is Some,
        given_password(login_args) is Some,
        given_username(login_args) != Some(account_name()) || given_password(login_args) != Some(
            account_password(),
        ),
        handle_spec(a0, a1, c0, c1, "login"@, login_args, r),
    ensures
        r matches Response::Reply(m) && m@ == "Incorrect username or password!"@,
        a1 == a0,
        c1 == c0,
{
    lemma_command_names_differ();
}

} // verus!

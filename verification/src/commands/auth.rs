//! Logging in and out.

use crate::commands::Token;
use crate::console::{Console, ConsoleView};
use crate::index_map::{map_entries, map_get_index, map_len};
use crate::text::{concat, same_chars, trim, trim_spec};
use vstd::prelude::*;

verus! {

broadcast use vstd::string::group_string_axioms;

/// Whether someone is logged in, and who.
pub struct Auth {
    logged_in: bool,
    user: Option<User>,
}

/// A logged-in user.
pub struct User {
    pub username: String,
}

/// The one account: its user name.
pub open spec fn account_name() -> Seq<char> {
    "zac"@
}

/// The one account: its password.
pub open spec fn account_password() -> Seq<char> {
    "09820"@
}

/// The value of the last argument whose key is `a` or `b`.
pub open spec fn last_value(entries: Seq<(Seq<char>, Seq<char>)>, a: Seq<char>, b: Seq<char>) -> Option<Seq<char>>
    decreases entries.len(),
{
    if entries.len() == 0 {
        None
    } else if entries.last().0 == a || entries.last().0 == b {
        Some(entries.last().1)
    } else {
        last_value(entries.drop_last(), a, b)
    }
}

/// The user name given among a command's arguments.
pub open spec fn given_username(entries: Seq<(Seq<char>, Seq<char>)>) -> Option<Seq<char>> {
    last_value(entries, "-u"@, "--username"@)
}

/// The password given among a command's arguments.
pub open spec fn given_password(entries: Seq<(Seq<char>, Seq<char>)>) -> Option<Seq<char>> {
    last_value(entries, "-p"@, "--password"@)
}

/// The prompt shown to a logged-in user.
pub open spec fn user_prompt(username: Seq<char>) -> Seq<char> {
    username + "@ctf$"@
}

/// The answer to a login attempt.
pub open spec fn login_message(username: Seq<char>, password: Seq<char>) -> Seq<char> {
    if username == account_name() && password == account_password() {
        "Logged in as "@ + username + "!"@
    } else {
        "Incorrect username or password!"@
    }
}

/// A question that the console asks: the text shown before the answer, and whether
/// the answer is typed masked.
pub struct Question {
    pub prompt: String,
    pub masked: bool,
}

/// Each question as its text and mask flag.
pub open spec fn question_views(q: Seq<Question>) -> Seq<(Seq<char>, bool)> {
    q.map_values(|x: Question| (x.prompt@, x.masked))
}

/// The questions asked when a login lacks credentials: the user name in the clear,
/// then the password masked.
pub open spec fn credential_questions() -> Seq<(Seq<char>, bool)> {
    seq![("Username: "@, false), ("Password: "@, true)]
}

/// The questions to ask, in order, when a login lacks credentials; their answers go
/// to `login_typed` in the same order.
pub fn ask_credentials() -> (q: Vec<Question>)
    ensures
        question_views(q@) == credential_questions(),
{
    let mut q: Vec<Question> = Vec::new();
    q.push(Question { prompt: "Username: ".to_string(), masked: false });
    q.push(Question { prompt: "Password: ".to_string(), masked: true });
    assert(question_views(q@) =~= credential_questions());
    q
}

impl User {
    pub fn new(username: &str) -> (u: User)
        ensures
            u.username@ == username@,
    {
        User { username: username.to_string() }
    }
}

/// What a login attempt with `u` and `p` leaves: on the account's credentials, that
/// user logged in and the prompt naming them; otherwise everything as it was.
pub open spec fn login_outcome(
    before: Auth,
    after: Auth,
    console_before: ConsoleView,
    console_after: ConsoleView,
    u: Seq<char>,
    p: Seq<char>,
) -> bool {
    if u == account_name() && p == account_password() {
        &&& after.is_logged_in()
        &&& after.logged_in_as() == Some(u)
        &&& console_after == ConsoleView { prompt: user_prompt(u), ..console_before }
    } else {
        &&& after == before
        &&& console_after == console_before
    }
}

impl Auth {
    /// Someone is logged in exactly when a user is set, and that user is the account.
    #[verifier::type_invariant]
    spec fn consistent(self) -> bool {
        &&& self.logged_in == self.user is Some
        &&& self.user matches Some(u) ==> u.username@ == account_name()
    }

    /// Someone is logged in.
    pub closed spec fn is_logged_in(&self) -> bool {
        self.logged_in
    }

    /// The logged-in user.
    pub closed spec fn current_user(&self) -> Option<User> {
        self.user
    }

    /// The name of the logged-in user.
    pub open spec fn logged_in_as(&self) -> Option<Seq<char>> {
        match self.current_user() {
            Some(u) => Some(u.username@),
            None => None,
        }
    }

    /// Nobody is logged in.
    pub fn new() -> (a: Self)
        ensures
            !a.is_logged_in(),
            a.logged_in_as() is None,
    {
        Auth { logged_in: false, user: None }
    }

    /// The logged-in user, if any: there is one exactly when someone is logged in, and
    /// it is the account.
    pub fn user(&self) -> (u: &Option<User>)
        ensures
            *u == self.current_user(),
            u.is_some() == self.is_logged_in(),
            u matches Some(user) ==> user.username@ == account_name(),
    {
        proof {
            use_type_invariant(self);
        }
        &self.user
    }

    /// Logs out: nobody is logged in and the prompt is `$` again.
    pub fn logout(&mut self, console: &mut Console) -> (msg: String)
        ensures
            !final(self).is_logged_in(),
            final(self).logged_in_as() is None,
            final(console)@ == (ConsoleView { prompt: "$"@, ..old(console)@ }),
            msg@ == "Logged out!"@,
    {
        *self = Auth { logged_in: false, user: None };
        console.set_prompt("$".to_string());
        "Logged out!".to_string()
    }

    /// Checks the credentials: on the account's, logs that user in and sets the prompt.
    fn log_in_as(&mut self, username: &str, password: &str, console: &mut Console) -> (msg: String)
        ensures
            msg@ == login_message(username@, password@),
            login_outcome(*old(self), *final(self), old(console)@, final(console)@, username@, password@),
    {
        proof {
            reveal_strlit("zac");
            reveal_strlit("09820");
        }
        if same_chars(username, "zac") && same_chars(password, "09820") {
            *self = Auth { logged_in: true, user: Some(User::new(username)) };
            console.set_prompt(concat(username, "@ctf$"));
            let m = concat("Logged in as ", username);
            concat(m.as_str(), "!")
        } else {
            "Incorrect username or password!".to_string()
        }
    }

    /// Logs in with the user name and password given as arguments (`-u`/`--username`,
    /// `-p`/`--password`; the last of each counts). Where either is missing, nothing
    /// changes and `None` asks for both to be typed in.
    pub fn login(&mut self, token: &Token<'_>, console: &mut Console) -> (msg: Option<String>)
        ensures
            ({
                let u = given_username(map_entries(token.args));
                let p = given_password(map_entries(token.args));
                if u is Some && p is Some {
                    &&& msg matches Some(m) && m@ == login_message(u.unwrap(), p.unwrap())
                    &&& login_outcome(*old(self), *final(self), old(console)@, final(console)@, u.unwrap(), p.unwrap())
                } else {
                    &&& msg is None
                    &&& *final(self) == *old(self)
                    &&& final(console)@ == old(console)@
                }
            }),
    {
        let ghost entries = map_entries(token.args);
        let mut username: Option<&String> = None;
        let mut password: Option<&String> = None;
        let n = map_len(&token.args);
        proof {
            reveal_strlit("-u");
            reveal_strlit("--username");
            reveal_strlit("-p");
            reveal_strlit("--password");
            assert("-u"@[1] != "-p"@[1]);
            assert("--username"@[2] != "--password"@[2]);
            assert("-u"@.len() != "--password"@.len());
            assert("--username"@.len() != "-p"@.len());
        }
        for i in 0..n
            invariant
                n == entries.len(),
                entries == map_entries(token.args),
                "-u"@ != "-p"@,
                "-u"@ != "--password"@,
                "--username"@ != "-p"@,
                "--username"@ != "--password"@,
                match username {
                    Some(v) => last_value(entries.take(i as int), "-u"@, "--username"@) == Some(v@),
                    None => last_value(entries.take(i as int), "-u"@, "--username"@) is None,
                },
                match password {
                    Some(v) => last_value(entries.take(i as int), "-p"@, "--password"@) == Some(v@),
                    None => last_value(entries.take(i as int), "-p"@, "--password"@) is None,
                },
        {
            let entry = map_get_index(&token.args, i);
            let (key, val) = entry.unwrap();
            assert(entries.take(i + 1).drop_last() =~= entries.take(i as int));
            assert(entries.take(i + 1).last() == entries[i as int]);
            if same_chars(key.as_str(), "-u") || same_chars(key.as_str(), "--username") {
                username = Some(val);
            } else if same_chars(key.as_str(), "-p") || same_chars(key.as_str(), "--password") {
                password = Some(val);
            }
        }
        assert(entries.take(n as int) =~= entries);
        match (username, password) {
            (Some(u), Some(p)) => Some(self.log_in_as(u.as_str(), p.as_str(), console)),
            _ => None,
        }
    }

    /// Logs in with a user name and password typed at the console, without the
    /// whitespace around them.
    pub fn login_typed(&mut self, read_user: &str, read_pass: &str, console: &mut Console) -> (msg: String)
        ensures
            msg@ == login_message(trim_spec(read_user@), trim_spec(read_pass@)),
            login_outcome(*old(self), *final(self), old(console)@, final(console)@, trim_spec(read_user@), trim_spec(read_pass@)),
    {
        let u = trim(read_user);
        let p = trim(read_pass);
        self.log_in_as(u, p, console)
    }
}

/// A step on the login state: a login attempt with a user name and a password, or a
/// logout.
pub enum LoginStep {
    Attempt(Seq<char>, Seq<char>),
    Logout,
}

/// What a step does, as `login`, `login_typed` and `logout` state it.
pub open spec fn login_step(before: Auth, after: Auth, console_before: ConsoleView, console_after: ConsoleView, step: LoginStep) -> bool {
    match step {
        LoginStep::Attempt(u, p) => login_outcome(before, after, console_before, console_after, u, p),
        LoginStep::Logout => {
            &&& !after.is_logged_in()
            &&& after.logged_in_as() is None
            &&& console_after == (ConsoleView { prompt: "$"@, ..console_before })
        },
    }
}

/// The step is a login attempt with the account's credentials.
pub open spec fn succeeds(step: LoginStep) -> bool {
    step matches LoginStep::Attempt(u, p) && u == account_name() && p == account_password()
}

/// Some attempt among the steps succeeded and no logout came after it.
pub open spec fn logged_in_by(steps: Seq<LoginStep>) -> bool {
    exists|i: int|
        0 <= i < steps.len() && #[trigger] succeeds(steps[i]) && forall|j: int| i < j < steps.len() ==> !(#[trigger] steps[j] is Logout)
}

/// Whether the steps log someone in, told from the last step.
proof fn lemma_logged_in_by_last(steps: Seq<LoginStep>)
    requires
        steps.len() > 0,
    ensures
        logged_in_by(steps) == (succeeds(steps.last()) || (!(steps.last() is Logout) && logged_in_by(steps.drop_last()))),
{
    let n = steps.len() as int;
    let t0 = steps.drop_last();
    if succeeds(steps.last()) {
        assert(succeeds(steps[n - 1]));
    } else if logged_in_by(steps) {
        let i = choose|i: int|
            0 <= i < steps.len() && #[trigger] succeeds(steps[i]) && forall|j: int| i < j < steps.len() ==> !(#[trigger] steps[j] is Logout);
        assert(i < n - 1);
        assert(!(steps[n - 1] is Logout));
        assert(succeeds(t0[i]));
        assert forall|j: int| i < j < t0.len() implies !(#[trigger] t0[j] is Logout) by {
            assert(t0[j] == steps[j]);
        }
    } else if !(steps.last() is Logout) && logged_in_by(t0) {
        let i = choose|i: int|
            0 <= i < t0.len() && #[trigger] succeeds(t0[i]) && forall|j: int| i < j < t0.len() ==> !(#[trigger] t0[j] is Logout);
        assert(succeeds(steps[i]));
        assert forall|j: int| i < j < steps.len() implies !(#[trigger] steps[j] is Logout) by {
            if j < n - 1 {
                assert(t0[j] == steps[j]);
            }
        }
        assert(false);
    }
}

/// From a fresh `Auth`, after any steps: someone is logged in exactly when a user is
/// set; that user is the account; and someone is logged in exactly when an attempt
/// with the account's credentials succeeded and no logout came after it.
pub proof fn lemma_login_state(states: Seq<Auth>, consoles: Seq<ConsoleView>, steps: Seq<LoginStep>)
    requires
        states.len() == steps.len() + 1,
        consoles.len() == steps.len() + 1,
        !states[0].is_logged_in(),
        states[0].logged_in_as() is None,
        forall|i: int|
            0 <= i < steps.len() ==> login_step(#[trigger] states[i], states[i + 1], consoles[i], consoles[i + 1], steps[i]),
    ensures
        states.last().is_logged_in() == states.last().logged_in_as() is Some,
        states.last().logged_in_as() is Some ==> states.last().logged_in_as() == Some(account_name()),
        states.last().logged_in_as() is Some <==> logged_in_by(steps),
    decreases steps.len(),
{
    let n = steps.len() as int;
    if n == 0 {
        assert(!logged_in_by(steps));
    } else {
        let s0 = states.drop_last();
        let c0 = consoles.drop_last();
        let t0 = steps.drop_last();
        assert forall|i: int| 0 <= i < t0.len() implies login_step(#[trigger] s0[i], s0[i + 1], c0[i], c0[i + 1], t0[i]) by {
            assert(login_step(states[i], states[i + 1], consoles[i], consoles[i + 1], steps[i]));
        }
        lemma_login_state(s0, c0, t0);
        lemma_logged_in_by_last(steps);
        assert(s0.last() == states[n - 1]);
        assert(login_step(states[n - 1], states[n], consoles[n - 1], consoles[n], steps[n - 1]));
    }
}

} // verus!

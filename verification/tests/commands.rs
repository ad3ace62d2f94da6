use ctf::commands::auth::{Auth, User};
use ctf::commands::challenge::{Challenge, ChallengeCommand};
use ctf::commands::help::HelpCommand;
use ctf::commands::test::TestCommand;
use ctf::commands::{CommandHandler, Response};
use ctf::console::Console;
use ctf::parser::parse_input;
use ctf::sock::Sock;

fn reply(r: Response) -> String {
    match r {
        Response::Reply(m) => m,
        Response::Clear => "<clear>".to_string(),
        Response::AskCredentials(q) => {
            let asked: Vec<(String, bool)> = q.into_iter().map(|x| (x.prompt, x.masked)).collect();
            assert_eq!(
                asked,
                vec![("Username: ".to_string(), false), ("Password: ".to_string(), true)]
            );
            "<ask>".to_string()
        }
        Response::Exit => "<exit>".to_string(),
    }
}

fn run(handler: &mut CommandHandler, console: &mut Console, line: &str) -> String {
    let line = line.to_string();
    let token = parse_input(&line).unwrap();
    reply(handler.handle(&token, console))
}

#[test]
fn nobody_is_logged_in_at_first() {
    let mut h = CommandHandler::new();
    let mut c = Console::new();
    assert_eq!(run(&mut h, &mut c, "whoami"), "You are not logged in!");
    assert_eq!(c.prompt_str(), "$");
}

#[test]
fn login_with_arguments_then_whoami_then_logout() {
    let mut h = CommandHandler::new();
    let mut c = Console::new();
    assert_eq!(run(&mut h, &mut c, "login -u zac -p 09820"), "Logged in as zac!");
    assert_eq!(c.prompt_str(), "zac@ctf$");
    assert_eq!(run(&mut h, &mut c, "whoami"), "Logged in as: zac");
    assert_eq!(run(&mut h, &mut c, "logout"), "Logged out!");
    assert_eq!(c.prompt_str(), "$");
    assert_eq!(run(&mut h, &mut c, "whoami"), "You are not logged in!");
}

#[test]
fn login_with_long_flags_and_equals() {
    let mut h = CommandHandler::new();
    let mut c = Console::new();
    assert_eq!(run(&mut h, &mut c, "login --username=zac --password=09820"), "Logged in as zac!");
}

#[test]
fn wrong_password_is_refused() {
    let mut h = CommandHandler::new();
    let mut c = Console::new();
    assert_eq!(run(&mut h, &mut c, "login -u zac -p nope"), "Incorrect username or password!");
    assert_eq!(c.prompt_str(), "$");
    assert_eq!(run(&mut h, &mut c, "whoami"), "You are not logged in!");
}

#[test]
fn last_credentials_count() {
    let mut h = CommandHandler::new();
    let mut c = Console::new();
    assert_eq!(
        run(&mut h, &mut c, "login -u bob -p 09820 --username zac"),
        "Logged in as zac!"
    );
}

#[test]
fn missing_credentials_are_asked_for() {
    let mut h = CommandHandler::new();
    let mut c = Console::new();
    assert_eq!(run(&mut h, &mut c, "login -u zac"), "<ask>");
    assert_eq!(h.finish_login("  zac \n", "\t09820  ", &mut c), "Logged in as zac!");
    assert_eq!(c.prompt_str(), "zac@ctf$");
    assert_eq!(run(&mut h, &mut c, "whoami"), "Logged in as: zac");
}

#[test]
fn other_commands() {
    let mut h = CommandHandler::new();
    let mut c = Console::new();
    assert_eq!(run(&mut h, &mut c, "clear"), "<clear>");
    assert_eq!(run(&mut h, &mut c, "exit"), "<exit>");
    assert_eq!(
        run(&mut h, &mut c, "dance now"),
        "'dance' not found! Type 'help' to see a list of available commands."
    );
}

#[test]
fn auth_and_user() {
    let mut a = Auth::new();
    assert!(a.user().is_none());
    let mut c = Console::new();
    let line = "login -u zac -p 09820".to_string();
    let token = parse_input(&line).unwrap();
    assert_eq!(a.login(&token, &mut c).unwrap(), "Logged in as zac!");
    assert_eq!(a.user().as_ref().unwrap().username, "zac");
    a.logout(&mut c);
    assert!(a.user().is_none());
    assert_eq!(a.login_typed(" bob ", "09820", &mut c), "Incorrect username or password!");
    assert!(a.user().is_none());
    let u = User::new("zac");
    assert_eq!(u.username, "zac");
}

#[test]
fn help_lists_commands() {
    let mut cmd = HelpCommand::new();
    let mut sock = Sock::new();
    let line = "help".to_string();
    let token = parse_input(&line).unwrap();
    assert_eq!(
        cmd.handle("help", &token, &mut sock).unwrap(),
        "Available commands:\n\ttest: Does things\n"
    );
    assert_eq!(cmd.handle("other", &token, &mut sock), Err(false));
}

#[test]
fn test_command_shows_the_parse() {
    let mut cmd = TestCommand::new();
    let mut sock = Sock::new();
    let line = "test a --k=v".to_string();
    let token = parse_input(&line).unwrap();
    assert_eq!(
        cmd.handle("test", &token, &mut sock).unwrap(),
        "This is my test str! Args: [\"a\", \"--k=v\"]\nThis is my test str! Parsed: {\"a\": \"\", \"--k\": \"v\"}"
    );
    assert_eq!(cmd.handle("help", &token, &mut sock), Err(false));
}

#[test]
fn challenge_command() {
    let challenges = vec![
        Challenge { name: "one".to_string(), description: "first".to_string() },
        Challenge { name: "two".to_string(), description: "second".to_string() },
    ];
    let mut cmd = ChallengeCommand::new(challenges);
    let mut sock = Sock::new();
    let answer = |cmd: &mut ChallengeCommand, sock: &mut Sock, line: &str| {
        let line = line.to_string();
        let token = parse_input(&line).unwrap();
        cmd.handle("challenge", &token, sock)
    };
    assert_eq!(
        answer(&mut cmd, &mut sock, "challenge").unwrap(),
        "Usage: challenge [COMMAND] [OPTION]...\nFor more info, type: challenge -h"
    );
    assert_eq!(answer(&mut cmd, &mut sock, "challenge list").unwrap(), "List of challenges:\nonetwo");
    assert_eq!(answer(&mut cmd, &mut sock, "challenge -h").unwrap(), "Challenge help:\n\t");
    assert_eq!(answer(&mut cmd, &mut sock, "challenge x").unwrap(), "Not recognized: 'x'.");
    let line = "x".to_string();
    let token = parse_input(&line).unwrap();
    assert_eq!(cmd.handle("help", &token, &mut sock), Err(false));
}

#[test]
fn logged_in_until_the_next_logout() {
    let mut a = Auth::new();
    let mut c = Console::new();
    assert_eq!(a.login_typed("zac", "wrong", &mut c), "Incorrect username or password!");
    assert!(a.user().is_none());
    assert_eq!(a.login_typed(" zac\n", " 09820 ", &mut c), "Logged in as zac!");
    assert_eq!(a.user().as_ref().unwrap().username, "zac");
    assert_eq!(c.prompt_str(), "zac@ctf$");
    assert_eq!(a.login_typed("bob", "09820", &mut c), "Incorrect username or password!");
    assert_eq!(a.user().as_ref().unwrap().username, "zac");
    assert_eq!(a.logout(&mut c), "Logged out!");
    assert!(a.user().is_none());
    assert_eq!(c.prompt_str(), "$");
}

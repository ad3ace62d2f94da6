use ctf::commands::{CommandHandler, Response};
use ctf::console::{Console, Cursor, Key, ScreenAction};

fn at(x: i32) -> Cursor {
    Cursor { y: 5, x, beg_x: 0, max_x: 80 }
}

fn press(c: &mut Console, input: &mut String, line: &mut u32, key: Key, x: i32, mask: bool) -> (bool, Vec<ScreenAction>) {
    assert!(c.accepts_key(input, *line, key, at(x)));
    c.handle_key(input, line, key, at(x), mask)
}

fn type_line(c: &mut Console, text: &str, mask: bool) -> String {
    let mut input = String::new();
    let mut line = 0u32;
    let mut x = 2;
    for ch in text.chars() {
        let (done, _) = press(c, &mut input, &mut line, Key::Char(ch), x, mask);
        assert!(!done);
        x += 1;
    }
    let (done, acts) = press(c, &mut input, &mut line, Key::Char('\n'), x, mask);
    assert!(done);
    assert_eq!(acts[1], ScreenAction::Write("\n".to_string()));
    c.finish_line(&input, mask);
    input
}

#[test]
fn typing_at_the_end_echoes_each_character() {
    let mut c = Console::new();
    let mut input = String::new();
    let mut line = 0u32;
    let (done, acts) = press(&mut c, &mut input, &mut line, Key::Char('a'), 2, false);
    assert!(!done);
    assert_eq!(acts, vec![ScreenAction::PutChar('a')]);
    let (_, acts) = press(&mut c, &mut input, &mut line, Key::Char('b'), 3, true);
    assert_eq!(acts, vec![ScreenAction::PutChar('*')]);
    assert_eq!(input, "ab");
    let (done, acts) = press(&mut c, &mut input, &mut line, Key::Char('\r'), 4, false);
    assert!(done);
    assert_eq!(acts, vec![ScreenAction::MoveToColumn(4), ScreenAction::Write("\n".to_string())]);
}

#[test]
fn entered_lines_come_back_with_up_and_down() {
    let mut c = Console::new();
    assert_eq!(type_line(&mut c, "ab", false), "ab");
    assert_eq!(type_line(&mut c, "secret", true), "secret");
    let mut input = String::new();
    let mut line = 0u32;
    press(&mut c, &mut input, &mut line, Key::Char('c'), 2, false);
    let (_, acts) = press(&mut c, &mut input, &mut line, Key::Up, 3, false);
    assert_eq!(input, "ab");
    assert_eq!(
        acts,
        vec![ScreenAction::ClearLine, ScreenAction::Write("$ ".to_string()), ScreenAction::Write("ab".to_string())]
    );
    let (_, acts) = press(&mut c, &mut input, &mut line, Key::Up, 4, false);
    assert_eq!(input, "ab");
    assert!(acts.is_empty());
    let (_, _) = press(&mut c, &mut input, &mut line, Key::Down, 4, false);
    assert_eq!(input, "c");
    let (_, acts) = press(&mut c, &mut input, &mut line, Key::Down, 3, false);
    assert_eq!(input, "c");
    assert!(acts.is_empty());
}

#[test]
fn erasing() {
    let mut c = Console::new();
    let mut input = "ab".to_string();
    let mut line = 0u32;
    let (_, acts) = press(&mut c, &mut input, &mut line, Key::Backspace, 4, false);
    assert_eq!(input, "a");
    assert_eq!(
        acts,
        vec![ScreenAction::PutChar('\u{8}'), ScreenAction::PutChar(' '), ScreenAction::PutChar('\u{8}')]
    );
    let mut input = "abc".to_string();
    let (_, acts) = press(&mut c, &mut input, &mut line, Key::Char('\u{8}'), 3, false);
    assert_eq!(input, "bc");
    assert_eq!(
        acts,
        vec![
            ScreenAction::ClearLine,
            ScreenAction::Write("$ ".to_string()),
            ScreenAction::Write("bc".to_string()),
            ScreenAction::MoveToColumn(2)
        ]
    );
    let mut input = String::new();
    let (_, acts) = press(&mut c, &mut input, &mut line, Key::Backspace, 2, false);
    assert_eq!(acts, vec![ScreenAction::Beep]);
}

#[test]
fn inserting_in_the_middle_redraws() {
    let mut c = Console::new();
    let mut input = "ac".to_string();
    let mut line = 0u32;
    let (_, acts) = press(&mut c, &mut input, &mut line, Key::Char('b'), 3, false);
    assert_eq!(input, "abc");
    assert_eq!(
        acts,
        vec![
            ScreenAction::ClearLine,
            ScreenAction::Write("$ ".to_string()),
            ScreenAction::Write("abc".to_string()),
            ScreenAction::MoveToColumn(4)
        ]
    );
}

#[test]
fn ctrl_c_drops_the_line() {
    let mut c = Console::new();
    let mut input = "abc".to_string();
    let mut line = 0u32;
    let (done, acts) = press(&mut c, &mut input, &mut line, Key::Char('\u{3}'), 5, false);
    assert!(!done);
    assert_eq!(input, "");
    assert_eq!(acts, vec![ScreenAction::Write("^C\n".to_string()), ScreenAction::Write("$ ".to_string())]);
}

#[test]
fn cursor_keys_and_others() {
    let mut c = Console::new();
    let mut input = "abc".to_string();
    let mut line = 0u32;
    let (_, acts) = press(&mut c, &mut input, &mut line, Key::Left, 5, false);
    assert_eq!(acts, vec![ScreenAction::MoveTo(5, 4)]);
    let (_, acts) = press(&mut c, &mut input, &mut line, Key::Left, 2, false);
    assert!(acts.is_empty());
    let (_, acts) = press(&mut c, &mut input, &mut line, Key::Right, 5, false);
    assert_eq!(acts, vec![ScreenAction::MoveTo(5, 6)]);
    let (_, acts) = press(&mut c, &mut input, &mut line, Key::Right, 80, false);
    assert!(acts.is_empty());
    assert_eq!(line, 1);
    let (_, acts) = press(&mut c, &mut input, &mut line, Key::Left, 10, false);
    assert_eq!(line, 0);
    assert_eq!(acts, vec![ScreenAction::MoveTo(4, 9)]);
    let (_, acts) = press(&mut c, &mut input, &mut line, Key::Nothing, 10, false);
    assert_eq!(acts, vec![ScreenAction::Pause]);
    let (_, acts) = press(&mut c, &mut input, &mut line, Key::Other, 10, false);
    assert_eq!(acts, vec![ScreenAction::ShowKey]);
    assert_eq!(input, "abc");
}

#[test]
fn long_lines_move_to_the_next_row() {
    let mut c = Console::new();
    let mut input = "x".repeat(80);
    let mut line = 0u32;
    let cursor = Cursor { y: 5, x: 82, beg_x: 0, max_x: 80 };
    assert!(c.accepts_key(&input, line, Key::Char('y'), cursor));
    c.handle_key(&mut input, &mut line, Key::Char('y'), cursor, false);
    assert_eq!(line, 1);
}

#[test]
fn keys_outside_the_contract_are_refused() {
    let c = Console::new();
    let input = "é".to_string();
    assert!(!c.accepts_key(&input, 0, Key::Backspace, at(1)));
    assert!(!c.accepts_key(&input, 0, Key::Char('a'), at(3)));
    assert!(c.accepts_key(&input, 0, Key::Char('a'), at(4)));
    assert!(!c.accepts_key(&input, 0, Key::Char('a'), at(1)));
}

#[test]
fn non_ascii_is_edited_by_bytes() {
    let mut c = Console::new();
    let mut input = "éa".to_string();
    let mut line = 0u32;
    let (_, _) = press(&mut c, &mut input, &mut line, Key::Char('z'), 4, false);
    assert_eq!(input, "éza");
}

#[test]
fn prompt_and_answer() {
    let mut c = Console::new();
    assert_eq!(c.prompt(true), vec![ScreenAction::Write("\n".to_string()), ScreenAction::Write("$ ".to_string())]);
    assert_eq!(c.prompt(false), vec![ScreenAction::Write("$ ".to_string())]);
    let mut h = CommandHandler::new();
    assert!(c.answer(&mut h, &String::new()).is_none());
    match c.answer(&mut h, &"whoami".to_string()) {
        Some(Response::Reply(m)) => assert_eq!(m, "You are not logged in!"),
        _ => panic!("expected a reply"),
    }
    c.set_prompt("#".to_string());
    assert_eq!(c.prompt_str(), "#");
}

#[test]
fn erasing_right_after_typing_gives_the_line_back() {
    let mut c = Console::new();
    let mut input = "ab".to_string();
    let mut line = 0u32;
    press(&mut c, &mut input, &mut line, Key::Char('z'), 4, false);
    assert_eq!(input, "abz");
    press(&mut c, &mut input, &mut line, Key::Backspace, 5, false);
    assert_eq!(input, "ab");
}

#[test]
fn up_then_down_gives_the_fresh_line_back() {
    let mut c = Console::new();
    type_line(&mut c, "old", false);
    let mut input = "new".to_string();
    let mut line = 0u32;
    press(&mut c, &mut input, &mut line, Key::Up, 5, false);
    assert_eq!(input, "old");
    press(&mut c, &mut input, &mut line, Key::Down, 5, false);
    assert_eq!(input, "new");
}

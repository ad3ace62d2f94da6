//! The console's line editor: the prompt, the history of entered lines, and what
//! each key does to the line being typed and to the screen.

use crate::commands::{handle_spec, CommandHandler, Response};
use crate::parser::{key_values_spec, line_words, parse_input};
use crate::text::{
    byte_len, byte_length, char_at_byte, checked_byte_length, concat, insert_at_byte, is_boundary,
    lemma_boundary_unique, lemma_byte_len_insert, lemma_byte_len_nonneg, lemma_byte_len_take, on_boundary,
    remove_at_byte, string_push,
};
use vstd::prelude::*;

verus! {

/// A key read from the keyboard, or none.
#[derive(Clone, Copy, Debug, PartialEq, Eq)]
pub enum Key {
    /// No key was waiting.
    Nothing,
    /// Backspace (also ctrl-H).
    Backspace,
    Up,
    Down,
    Left,
    Right,
    /// A character.
    Char(char),
    /// Any other key.
    Other,
}

/// Where the cursor stands when a key is read, and the window's first and last column.
#[derive(Clone, Copy, Debug, PartialEq, Eq)]
pub struct Cursor {
    pub y: i32,
    pub x: i32,
    pub beg_x: i32,
    pub max_x: i32,
}

/// One thing to do to the screen.
#[derive(Debug, PartialEq, Eq)]
pub enum ScreenAction {
    /// Wait a moment before looking for a key again.
    Pause,
    /// Write text at the cursor.
    Write(String),
    /// Write one character at the cursor.
    PutChar(char),
    /// Sound the bell.
    Beep,
    /// Go to the start of the cursor's row and clear it.
    ClearLine,
    /// Move the cursor to a row and column.
    MoveTo(i32, i32),
    /// Move the cursor to a column of the row where it stands.
    MoveToColumn(i32),
    /// Show the key that was read, which means nothing here.
    ShowKey,
}

/// A screen action as values.
pub enum ActionView {
    Pause,
    Write(Seq<char>),
    PutChar(char),
    Beep,
    ClearLine,
    MoveTo(i32, i32),
    MoveToColumn(i32),
    ShowKey,
}

impl View for ScreenAction {
    type V = ActionView;

    open spec fn view(&self) -> ActionView {
        match self {
            ScreenAction::Pause => ActionView::Pause,
            ScreenAction::Write(s) => ActionView::Write(s@),
            ScreenAction::PutChar(c) => ActionView::PutChar(*c),
            ScreenAction::Beep => ActionView::Beep,
            ScreenAction::ClearLine => ActionView::ClearLine,
            ScreenAction::MoveTo(y, x) => ActionView::MoveTo(*y, *x),
            ScreenAction::MoveToColumn(x) => ActionView::MoveToColumn(*x),
            ScreenAction::ShowKey => ActionView::ShowKey,
        }
    }
}

/// Each action as values.
pub open spec fn actions_view(a: Seq<ScreenAction>) -> Seq<ActionView> {
    a.map_values(|x: ScreenAction| x@)
}

/// The prompt as written before a line: the prompt and a space.
pub open spec fn prompt_text(prompt: Seq<char>) -> Seq<char> {
    prompt + " "@
}

/// Redrawing the line: clear it, write the prompt, write the line.
pub open spec fn redraw_actions(prompt: Seq<char>, input: Seq<char>) -> Seq<ActionView> {
    seq![ActionView::ClearLine, ActionView::Write(prompt_text(prompt)), ActionView::Write(input)]
}

/// The key erases: backspace, or the character ctrl-H.
pub open spec fn is_erase(key: Key) -> bool {
    key == Key::Backspace || key == Key::Char('\u{8}')
}

/// The character removed at byte offset `idx`.
pub open spec fn removed_at_byte(s: Seq<char>, idx: int) -> Seq<char> {
    s.remove(char_at_byte(s, idx))
}

/// The character `c` put in at byte offset `idx`.
pub open spec fn inserted_at_byte(s: Seq<char>, idx: int, c: char) -> Seq<char> {
    s.insert(char_at_byte(s, idx), c)
}

/// What a typed character does, with the cursor at column `offset`, which is byte
/// `calc` of the line: a return finishes the line; ctrl-C drops it and shows a fresh
/// prompt; any other character goes in at `calc` (shown as `*` when masked, where it
/// goes at the end).
pub open spec fn char_spec(st: ConsoleView, input: Seq<char>, offset: int, calc: int, c: char, mask: bool) -> (
    ConsoleView,
    Seq<char>,
    bool,
    Seq<ActionView>,
) {
    if c == '\n' || c == '\r' {
        (
            st,
            input,
            true,
            seq![
                ActionView::MoveToColumn((byte_len(input) + byte_len(st.prompt) + 1) as i32),
                ActionView::Write("\n"@),
            ],
        )
    } else if c == '\u{3}' {
        (
            ConsoleView { current_history: -1, ..st },
            Seq::empty(),
            false,
            seq![ActionView::Write("^C\n"@), ActionView::Write(prompt_text(st.prompt))],
        )
    } else if byte_len(input) == calc {
        (st, input.push(c), false, seq![ActionView::PutChar(if mask { '*' } else { c })])
    } else {
        let line = inserted_at_byte(input, calc, c);
        (st, line, false, redraw_actions(st.prompt, line) + seq![ActionView::MoveToColumn((offset + 1) as i32)])
    }
}

/// What a key does, from the console `st` with the line `input` on screen row `line`
/// of the entry (counted from 0) and the cursor at `cur`: the new console, the new
/// line, the new row, whether the line is finished, and the screen actions, in order.
pub open spec fn key_spec(st: ConsoleView, input: Seq<char>, line: int, key: Key, cur: Cursor, mask: bool) -> (
    ConsoleView,
    Seq<char>,
    int,
    bool,
    Seq<ActionView>,
) {
    let p = byte_len(st.prompt);
    let n = byte_len(input);
    let hl = st.history.len() as int;
    let ch = st.current_history;
    if key == Key::Nothing {
        (st, input, line, false, seq![ActionView::Pause])
    } else if is_erase(key) {
        let offset = (cur.x as int) * (line + 1);
        let calc = offset - p - 1;
        if n > 0 && calc > 0 {
            if n == calc {
                (
                    st,
                    removed_at_byte(input, n - 1),
                    line,
                    false,
                    seq![ActionView::PutChar('\u{8}'), ActionView::PutChar(' '), ActionView::PutChar('\u{8}')],
                )
            } else {
                let rest = removed_at_byte(input, calc - 1);
                (st, rest, line, false, redraw_actions(st.prompt, rest) + seq![ActionView::MoveToColumn((offset - 1) as i32)])
            }
        } else {
            (st, input, line, false, seq![ActionView::Beep])
        }
    } else if key == Key::Up {
        if ch < hl - 1 && !(ch == -1 && hl == 0) {
            let saved = if ch == -1 { input } else { st.current_string };
            let h = st.history[ch + 1];
            (
                ConsoleView { current_history: ch + 1, current_string: saved, ..st },
                h,
                line,
                false,
                redraw_actions(st.prompt, h),
            )
        } else {
            (st, input, line, false, Seq::empty())
        }
    } else if key == Key::Down {
        if ch >= 0 {
            let h = if ch - 1 > -1 { st.history[ch - 1] } else { st.current_string };
            (ConsoleView { current_history: ch - 1, ..st }, h, line, false, redraw_actions(st.prompt, h))
        } else {
            (st, input, line, false, Seq::empty())
        }
    } else if key == Key::Left {
        let min_x = cur.beg_x + p + 1;
        let l2 = if line > 0 { line - 1 } else { line };
        let y2 = if line > 0 { cur.y - 1 } else { cur.y as int };
        (
            st,
            input,
            l2,
            false,
            if cur.x > min_x { seq![ActionView::MoveTo(y2 as i32, (cur.x - 1) as i32)] } else { Seq::empty() },
        )
    } else if key == Key::Right {
        if cur.x < cur.max_x {
            (st, input, line, false, seq![ActionView::MoveTo(cur.y, (cur.x + 1) as i32)])
        } else {
            (st, input, line + 1, false, Seq::empty())
        }
    } else if let Key::Char(c) = key {
        let offset = cur.x as int;
        let calc = offset - (if line > 0 { 0 } else { p + 1 });
        let (st2, line_text, done, acts) = char_spec(st, input, offset, calc, c, mask);
        if done {
            (ConsoleView { current_history: -1, ..st2 }, line_text, line, true, acts)
        } else {
            let l2 = if byte_len(line_text) > (cur.max_x as int) * (line + 1) { line + 1 } else { line };
            (st2, line_text, l2, false, acts)
        }
    } else {
        (st, input, line, false, seq![ActionView::ShowKey])
    }
}

/// The keys on which the editor does not fail: the prompt and the line are no longer
/// in bytes than a string in memory can be; the cursor column and the row count stay
/// within the arithmetic done on them; a byte offset where a character is removed or
/// put in lies on a character; the up arrow counts the history as an `i32`, and the
/// left arrow the prompt's length.
pub open spec fn key_ok(st: ConsoleView, input: Seq<char>, line: int, key: Key, cur: Cursor) -> bool {
    let p = byte_len(st.prompt);
    let n = byte_len(input);
    let hl = st.history.len() as int;
    &&& 0 <= line <= u32::MAX
    &&& p <= isize::MAX
    &&& n <= isize::MAX
    &&& is_erase(key) ==> {
        let offset = (cur.x as int) * (line + 1);
        let calc = offset - p - 1;
        &&& cur.x >= 0
        &&& line < u32::MAX
        &&& offset <= u32::MAX
        &&& offset >= p + 1
        &&& (n > 0 && calc > 0) ==> if n == calc {
            is_boundary(input, n - 1)
        } else {
            is_boundary(input, calc - 1) && calc - 1 < n
        }
    }
    &&& key == Key::Up ==> hl <= i32::MAX
    &&& key == Key::Left ==> {
        &&& p <= i32::MAX
        &&& i32::MIN <= cur.beg_x + p + 1 <= i32::MAX
        &&& line > 0 ==> cur.y > i32::MIN
    }
    &&& key == Key::Right ==> (cur.x >= cur.max_x ==> line < u32::MAX)
    &&& key matches Key::Char(c) ==> c != '\u{8}' ==> {
        let calc = cur.x - (if line > 0 { 0 } else { p + 1 });
        &&& cur.x >= 0
        &&& calc >= 0
        &&& (c != '\n' && c != '\r' && c != '\u{3}' && n != calc) ==> is_boundary(input, calc)
        &&& (c != '\n' && c != '\r') ==> {
            &&& line < u32::MAX
            &&& cur.max_x >= 0
            &&& (cur.max_x as int) * (line + 1) <= u32::MAX
        }
    }
}

/// The state of the console between keys: the prompt, the position in the history
/// (`-1` while editing a fresh line), the lines entered so far (newest first), and
/// the fresh line that browsing the history put aside.
pub struct Console {
    prompt: String,
    current_history: i32,
    history: Vec<String>,
    current_string: String,
}

/// The console's state as values.
pub struct ConsoleView {
    pub prompt: Seq<char>,
    pub current_history: int,
    pub history: Seq<Seq<char>>,
    pub current_string: Seq<char>,
}

impl Console {
    /// The history position is `-1` or the index of a line in the history.
    #[verifier::type_invariant]
    spec fn history_position_ok(self) -> bool {
        -1 <= self.current_history < self.history.len()
    }
}

impl View for Console {
    type V = ConsoleView;

    closed spec fn view(&self) -> ConsoleView {
        ConsoleView {
            prompt: self.prompt@,
            current_history: self.current_history as int,
            history: self.history@.map_values(|h: String| h@),
            current_string: self.current_string@,
        }
    }
}

impl Console {
    /// A console with the prompt `$`, an empty history, editing a fresh line.
    pub fn new() -> (c: Console)
        ensures
            c@.prompt == "$"@,
            c@.current_history == -1,
            c@.history == Seq::<Seq<char>>::empty(),
            c@.current_string == Seq::<char>::empty(),
    {
        let c = Console {
            prompt: "$".to_string(),
            current_history: -1,
            history: Vec::new(),
            current_string: String::new(),
        };
        assert(c@.history =~= Seq::<Seq<char>>::empty());
        c
    }

    /// Replaces the prompt.
    pub fn set_prompt(&mut self, prompt: String)
        ensures
            final(self)@ == (ConsoleView { prompt: prompt@, ..old(self)@ }),
    {
        proof {
            use_type_invariant(&*self);
        }
        self.prompt = prompt;
    }

    /// Whether the cursor stands on the window's last row, where the window must scroll.
    pub fn at_bottom(max_y: i32, cur_y: i32) -> (b: bool)
        requires
            max_y > i32::MIN,
        ensures
            b == (max_y - 1 == cur_y),
    {
        max_y - 1 == cur_y
    }

    /// The prompt.
    pub fn prompt_str(&self) -> (p: &str)
        ensures
            p@ == self@.prompt,
    {
        self.prompt.as_str()
    }

    /// The prompt as written before a line.
    fn prompt_write(&self) -> (a: ScreenAction)
        ensures
            a@ == ActionView::Write(prompt_text(self@.prompt)),
    {
        ScreenAction::Write(concat(self.prompt.as_str(), " "))
    }

    /// The screen actions that show the prompt, on a new line when `pre` is set.
    pub fn prompt(&self, pre: bool) -> (a: Vec<ScreenAction>)
        ensures
            actions_view(a@) == (if pre {
                seq![ActionView::Write("\n"@), ActionView::Write(prompt_text(self@.prompt))]
            } else {
                seq![ActionView::Write(prompt_text(self@.prompt))]
            }),
    {
        let mut a: Vec<ScreenAction> = Vec::new();
        if pre {
            a.push(ScreenAction::Write("\n".to_string()));
        }
        a.push(self.prompt_write());
        proof {
            if pre {
                assert(actions_view(a@) =~= seq![ActionView::Write("\n"@), ActionView::Write(prompt_text(self@.prompt))]);
            } else {
                assert(actions_view(a@) =~= seq![ActionView::Write(prompt_text(self@.prompt))]);
            }
        }
        a
    }

    /// Redrawing the line.
    fn redraw(&self, input: &String) -> (a: Vec<ScreenAction>)
        ensures
            actions_view(a@) == redraw_actions(self@.prompt, input@),
    {
        let mut a: Vec<ScreenAction> = Vec::new();
        a.push(ScreenAction::ClearLine);
        a.push(self.prompt_write());
        a.push(ScreenAction::Write(input.clone()));
        assert(actions_view(a@) =~= redraw_actions(self@.prompt, input@));
        a
    }

    /// A typed character, with the cursor at column `offset`, byte `calculated_offset`
    /// of the line. Returns whether the line is finished.
    fn handle_char(&mut self, input: &mut String, offset: usize, calculated_offset: usize, c: char, mask: bool) -> (r: (bool, Vec<ScreenAction>))
        requires
            offset <= i32::MAX,
            calculated_offset <= offset,
            byte_len(old(input)@) <= isize::MAX,
            byte_len(old(self)@.prompt) <= isize::MAX,
            (c != '\n' && c != '\r' && c != '\u{3}' && byte_len(old(input)@) != calculated_offset)
                ==> is_boundary(old(input)@, calculated_offset as int),
        ensures
            ({
                let (st, line, done, acts) = char_spec(old(self)@, old(input)@, offset as int, calculated_offset as int, c, mask);
                &&& final(self)@ == st
                &&& final(input)@ == line
                &&& r.0 == done
                &&& actions_view(r.1@) == acts
            }),
    {
        proof {
            lemma_byte_len_nonneg(input@);
            lemma_byte_len_nonneg(self@.prompt);
        }
        let mut a: Vec<ScreenAction> = Vec::new();
        if c == '\n' || c == '\r' {
            let n = byte_length(input.as_str());
            let p = byte_length(self.prompt.as_str());
            a.push(ScreenAction::MoveToColumn((n + p + 1) as i32));
            a.push(ScreenAction::Write("\n".to_string()));
            assert(actions_view(a@) =~= char_spec(old(self)@, old(input)@, offset as int, calculated_offset as int, c, mask).3);
            return (true, a);
        }
        if c == '\u{3}' {
            self.current_history = -1;
            *input = String::new();
            a.push(ScreenAction::Write("^C\n".to_string()));
            a.push(self.prompt_write());
            assert(actions_view(a@) =~= char_spec(old(self)@, old(input)@, offset as int, calculated_offset as int, c, mask).3);
            return (false, a);
        }
        if byte_length(input.as_str()) == calculated_offset {
            string_push(input, c);
        } else {
            *input = insert_at_byte(input, calculated_offset, c);
            let a = self.redraw(input);
            let mut a = a;
            a.push(ScreenAction::MoveToColumn((offset + 1) as i32));
            assert(actions_view(a@) =~= char_spec(old(self)@, old(input)@, offset as int, calculated_offset as int, c, mask).3);
            return (false, a);
        }
        if mask {
            a.push(ScreenAction::PutChar('*'));
        } else {
            a.push(ScreenAction::PutChar(c));
        }
        assert(actions_view(a@) =~= char_spec(old(self)@, old(input)@, offset as int, calculated_offset as int, c, mask).3);
        (false, a)
    }

    /// What a key does to the line `input`, typed on row `line` of the entry with the
    /// cursor at `cursor`: erasing, browsing the history, moving the cursor, or typing.
    /// Returns whether the line is finished, and what to do to the screen.
    pub fn handle_key(&mut self, input: &mut String, line: &mut u32, key: Key, cursor: Cursor, mask: bool) -> (r: (bool, Vec<ScreenAction>))
        requires
            key_ok(old(self)@, old(input)@, *old(line) as int, key, cursor),
        ensures
            ({
                let (st, text, l, done, acts) = key_spec(old(self)@, old(input)@, *old(line) as int, key, cursor, mask);
                &&& final(self)@ == st
                &&& final(input)@ == text
                &&& *final(line) == l
                &&& r.0 == done
                &&& actions_view(r.1@) == acts
            }),
            -1 <= old(self)@.current_history < old(self)@.history.len(),
            -1 <= final(self)@.current_history < final(self)@.history.len(),
    {
        let ghost st = self@;
        let ghost inp = input@;
        let ghost ln = *line as int;
        let ghost out = key_spec(st, inp, ln, key, cursor, mask);
        proof {
            use_type_invariant(&*self);
            lemma_byte_len_nonneg(input@);
            lemma_byte_len_nonneg(self@.prompt);
        }
        let mut a: Vec<ScreenAction> = Vec::new();
        let erase = match key {
            Key::Backspace => true,
            Key::Char(c) => c == '\u{8}',
            _ => false,
        };
        match key {
            Key::Nothing => {
                a.push(ScreenAction::Pause);
                assert(actions_view(a@) =~= out.4);
                return (false, a);
            },
            _ => {},
        }
        if erase {
            let offset = ((cursor.x as u32) * (*line + 1)) as usize;
            let p = byte_length(self.prompt.as_str());
            let calculated_offset = offset - p - 1;
            let n = byte_length(input.as_str());
            if n > 0 && calculated_offset > 0 {
                if n == calculated_offset {
                    proof {
                        assert(input@.take(input@.len() as int) =~= input@);
                        if char_at_byte(input@, n - 1) == input@.len() {
                            assert(byte_len(input@.take(input@.len() as int)) == n - 1);
                        }
                    }
                    *input = remove_at_byte(input, n - 1);
                    a.push(ScreenAction::PutChar('\u{8}'));
                    a.push(ScreenAction::PutChar(' '));
                    a.push(ScreenAction::PutChar('\u{8}'));
                } else {
                    proof {
                        assert(input@.take(input@.len() as int) =~= input@);
                        if char_at_byte(input@, calculated_offset - 1) == input@.len() {
                            assert(byte_len(input@.take(input@.len() as int)) == calculated_offset - 1);
                        }
                    }
                    *input = remove_at_byte(input, calculated_offset - 1);
                    a = self.redraw(input);
                    a.push(ScreenAction::MoveToColumn((offset - 1) as i32));
                }
            } else {
                a.push(ScreenAction::Beep);
            }
            assert(actions_view(a@) =~= out.4);
            return (false, a);
        }
        match key {
            Key::Up => {
                if self.current_history < self.history.len() as i32 - 1 {
                    if self.current_history == -1 && self.history.len() == 0 {
                        assert(actions_view(a@) =~= out.4);
                        return (false, a);
                    }
                    if self.current_history == -1 {
                        self.current_string = input.clone();
                    }
                    self.current_history = self.current_history + 1;
                    *input = self.history[self.current_history as usize].clone();
                    a = self.redraw(input);
                }
            },
            Key::Down => {
                if self.current_history >= 0 {
                    self.current_history = self.current_history - 1;
                    if self.current_history > -1 {
                        *input = self.history[self.current_history as usize].clone();
                    } else {
                        *input = self.current_string.clone();
                    }
                    a = self.redraw(input);
                }
            },
            Key::Left => {
                let p = byte_length(self.prompt.as_str());
                let min_x = cursor.beg_x + p as i32 + 1;
                let mut curr_y = cursor.y;
                let curr_x = cursor.x;
                if *line > 0 {
                    *line = *line - 1;
                    curr_y = curr_y - 1;
                }
                if curr_x > min_x {
                    a.push(ScreenAction::MoveTo(curr_y, curr_x - 1));
                }
            },
            Key::Right => {
                if cursor.x < cursor.max_x {
                    a.push(ScreenAction::MoveTo(cursor.y, cursor.x + 1));
                } else {
                    *line = *line + 1;
                }
            },
            Key::Char(c) => {
                let offset = cursor.x as usize;
                let p = byte_length(self.prompt.as_str());
                let calculated_offset = offset - (if *line > 0 { 0 } else { p + 1 });
                let (done, acts) = self.handle_char(input, offset, calculated_offset, c, mask);
                proof {
                    if !done {
                        if byte_len(inp) == calculated_offset {
                            lemma_byte_len_insert(inp, 0, c);
                        } else if c != '\u{3}' {
                            lemma_byte_len_insert(inp, char_at_byte(inp, calculated_offset as int), c);
                        }
                    }
                }
                a = acts;
                if done {
                    self.current_history = -1;
                    assert(actions_view(a@) =~= out.4);
                    return (true, a);
                }
                if byte_length(input.as_str()) > ((cursor.max_x as u32) * (*line + 1)) as usize {
                    *line = *line + 1;
                }
            },
            _ => {
                a.push(ScreenAction::ShowKey);
            },
        }
        assert(actions_view(a@) =~= out.4);
        (false, a)
    }

    /// Ends a line: a line that is not masked and not empty goes first in the history.
    pub fn finish_line(&mut self, input: &String, mask: bool)
        ensures
            final(self)@ == (if !mask && input@.len() > 0 {
                ConsoleView { history: seq![input@] + old(self)@.history, ..old(self)@ }
            } else {
                old(self)@
            }),
    {
        if !mask && input.as_str().unicode_len() > 0 {
            let mut taken = Console::new();
            std::mem::swap(self, &mut taken);
            proof {
                use_type_invariant(&taken);
            }
            let Console { prompt, current_history, history, current_string } = taken;
            let ghost before = history@;
            let mut history = history;
            history.insert(0, input.clone());
            assert(history@.map_values(|h: String| h@) =~= seq![input@] + before.map_values(|h: String| h@));
            *self = Console { prompt, current_history, history, current_string };
        }
    }

    /// Answers an entered line: `None` for an empty line, which only shows the prompt
    /// again; otherwise the handler's response to the parsed command. A line that
    /// starts with a space has no first word and is outside the contract.
    pub fn answer(&mut self, handler: &mut CommandHandler, input: &String) -> (r: Option<Response>)
        requires
            input@.len() == 0 || input@[0] != ' ',
        ensures
            input@.len() == 0 ==> r is None && final(self)@ == old(self)@ && final(handler).auth() == old(handler).auth(),
            input@.len() > 0 ==> (r matches Some(resp) && handle_spec(
                old(handler).auth(),
                final(handler).auth(),
                old(self)@,
                final(self)@,
                line_words(input@)[0],
                key_values_spec(line_words(input@).drop_first()),
                resp,
            )),
    {
        match parse_input(input) {
            Err(_) => None,
            Ok(token) => Some(handler.handle(&token, self)),
        }
    }

    /// Whether `handle_key` can take this key: exactly the keys that `key_ok` admits.
    pub fn accepts_key(&self, input: &String, line: u32, key: Key, cursor: Cursor) -> (b: bool)
        ensures
            b == key_ok(self@, input@, line as int, key, cursor),
    {
        let p = match checked_byte_length(self.prompt.as_str()) {
            Some(p) => p,
            None => return false,
        };
        if p > isize::MAX as usize {
            return false;
        }
        let n = match checked_byte_length(input.as_str()) {
            Some(n) => n,
            None => return false,
        };
        if n > isize::MAX as usize {
            return false;
        }
        let hl = self.history.len();
        proof {
            lemma_byte_len_nonneg(input@);
            lemma_byte_len_nonneg(self@.prompt);
        }
        let p = p as i128;
        let n = n as i128;
        let l = line as i128;
        let x = cursor.x as i128;
        let erase = match key {
            Key::Backspace => true,
            Key::Char(c) => c == '\u{8}',
            _ => false,
        };
        if erase {
            if x < 0 || l >= 0xffff_ffff {
                return false;
            }
            assert(0 <= x * (l + 1) <= 0x7fff_ffff * 0x1_0000_0000) by (nonlinear_arith)
                requires
                    0 <= x <= 0x7fff_ffff,
                    0 <= l < 0xffff_ffff,
            ;
            let offset = x * (l + 1);
            if offset > 0xffff_ffff || offset < p + 1 {
                return false;
            }
            let calc = offset - p - 1;
            if n > 0 && calc > 0 {
                if n == calc {
                    return on_boundary(input.as_str(), (n - 1) as usize);
                } else {
                    return calc - 1 < n && on_boundary(input.as_str(), (calc - 1) as usize);
                }
            }
            return true;
        }
        match key {
            Key::Up => hl <= 0x7fff_ffff,
            Key::Left => {
                if p > 0x7fff_ffff {
                    return false;
                }
                let min_x = cursor.beg_x as i128 + p + 1;
                if min_x < -0x8000_0000 || min_x > 0x7fff_ffff {
                    return false;
                }
                if l > 0 {
                    cursor.y > i32::MIN
                } else {
                    true
                }
            },
            Key::Right => {
                if cursor.x >= cursor.max_x {
                    line < u32::MAX
                } else {
                    true
                }
            },
            Key::Char(c) => {
                let calc = x - (if l > 0 { 0 } else { p + 1 });
                if x < 0 || calc < 0 {
                    return false;
                }
                if c != '\n' && c != '\r' && c != '\u{3}' && n != calc {
                    if !on_boundary(input.as_str(), calc as usize) {
                        return false;
                    }
                }
                if c != '\n' && c != '\r' {
                    if l >= 0xffff_ffff || cursor.max_x < 0 {
                        return false;
                    }
                    let mx = cursor.max_x as i128;
                    assert(0 <= mx * (l + 1) <= 0x7fff_ffff * 0x1_0000_0000) by (nonlinear_arith)
                        requires
                            0 <= mx <= 0x7fff_ffff,
                            0 <= l < 0xffff_ffff,
                    ;
                    if mx * (l + 1) > 0xffff_ffff {
                        return false;
                    }
                }
                true
            },
            _ => true,
        }
    }
}

/// Browsing up the history from a fresh line and back down gives the fresh line back,
/// with the history and the prompt as they were.
pub proof fn lemma_up_then_down(st: ConsoleView, input: Seq<char>, line: int, cur1: Cursor, cur2: Cursor, mask: bool)
    requires
        st.current_history == -1,
        st.history.len() >= 1,
    ensures
        ({
            let (st1, in1, l1, d1, a1) = key_spec(st, input, line, Key::Up, cur1, mask);
            let (st2, in2, l2, d2, a2) = key_spec(st1, in1, l1, Key::Down, cur2, mask);
            &&& in1 == st.history[0]
            &&& in2 == input
            &&& st2.current_history == -1
            &&& st2.history == st.history
            &&& st2.prompt == st.prompt
            &&& l2 == line
            &&& !d1 && !d2
        }),
{
}

/// A line just entered comes back with the up arrow.
pub proof fn lemma_entered_line_comes_back(st: ConsoleView, entered: Seq<char>, input: Seq<char>, line: int, cur: Cursor, mask: bool)
    requires
        st.current_history == -1,
        entered.len() > 0,
    ensures
        key_spec(ConsoleView { history: seq![entered] + st.history, ..st }, input, line, Key::Up, cur, mask).1 == entered,
{
    assert((seq![entered] + st.history)[0] == entered);
}

/// Erasing right after typing an ASCII character at the end of the line, on the
/// first row, gives the line back.
#[verifier::spinoff_prover]
pub proof fn lemma_type_then_erase(st: ConsoleView, input: Seq<char>, c: char, cur: Cursor, mask: bool)
    requires
        (c as u32) < 0x80,
        c != '\n' && c != '\r' && c != '\u{3}' && c != '\u{8}',
        cur.x == byte_len(st.prompt) + 1 + byte_len(input),
        cur.x < i32::MAX,
        byte_len(input) + 1 <= cur.max_x,
    ensures
        ({
            let (st1, in1, l1, d1, a1) = key_spec(st, input, 0, Key::Char(c), cur, mask);
            let cur2 = Cursor { x: (cur.x + 1) as i32, ..cur };
            let (st2, in2, l2, d2, a2) = key_spec(st1, in1, l1, Key::Backspace, cur2, mask);
            &&& in1 == input.push(c)
            &&& l1 == 0
            &&& in2 == input
            &&& st2 == st
        }),
{
    lemma_byte_len_insert(input, 0, c);
    lemma_byte_len_nonneg(input);
    lemma_byte_len_nonneg(st.prompt);
    let pushed = input.push(c);
    assert(pushed.take(input.len() as int) =~= input);
    lemma_boundary_unique(pushed, byte_len(input), input.len() as int);
    assert(pushed.remove(input.len() as int) =~= input);
    assert(Key::Char(c) != Key::Backspace && Key::Char(c) != Key::Char('\u{8}'));
}

/// The history arrows leave the history alone and move one step at most: up to the
/// next older line where there is one, down to the next newer one while browsing.
/// Whenever the position is then on a line of the history, the line being edited is
/// exactly that entry of the history; down from the newest entry gives back the line
/// that was put aside.
pub proof fn lemma_browsing_shows_the_entry(st: ConsoleView, input: Seq<char>, line: int, key: Key, cur: Cursor, mask: bool)
    requires
        -1 <= st.current_history < st.history.len(),
        key == Key::Up || key == Key::Down,
    ensures
        ({
            let (st2, in2, l2, d2, a2) = key_spec(st, input, line, key, cur, mask);
            let p = st.current_history;
            &&& st2.history == st.history
            &&& st2.prompt == st.prompt
            &&& l2 == line
            &&& !d2
            &&& key == Key::Up ==> st2.current_history == (if p + 1 < st.history.len() { p + 1 } else { p })
            &&& key == Key::Down ==> st2.current_history == (if p >= 0 { p - 1 } else { p })
            &&& -1 <= st2.current_history < st2.history.len()
            &&& st2.current_history != p ==> (if st2.current_history >= 0 {
                in2 == st.history[st2.current_history]
            } else {
                in2 == st.current_string
            })
            &&& st2.current_history == p ==> in2 == input
        }),
{
}

/// From a line of the history, up and then down shows that line again, at the same
/// position.
pub proof fn lemma_up_then_down_from_entry(st: ConsoleView, line: int, cur1: Cursor, cur2: Cursor, mask: bool)
    requires
        0 <= st.current_history,
        st.current_history + 1 < st.history.len(),
    ensures
        ({
            let p = st.current_history;
            let (st1, in1, l1, d1, a1) = key_spec(st, st.history[p], line, Key::Up, cur1, mask);
            let (st2, in2, l2, d2, a2) = key_spec(st1, in1, l1, Key::Down, cur2, mask);
            &&& in1 == st.history[p + 1]
            &&& in2 == st.history[p]
            &&& st2.current_history == p
            &&& st2.history == st.history
        }),
{
}

/// Typing a character other than a return, ctrl-C or ctrl-H on the first row, with the
/// cursor after the first `k` characters of the line, puts that character in at
/// position `k` and leaves the console as it was. At the end of the line it is written
/// at the cursor, as `*` when masked; inside the line, the line is redrawn after the
/// prompt and the cursor moves one column right.
pub proof fn lemma_typing_inserts(st: ConsoleView, input: Seq<char>, k: int, c: char, cur: Cursor, mask: bool)
    requires
        0 <= k <= input.len(),
        c != '\n' && c != '\r' && c != '\u{3}' && c != '\u{8}',
        cur.x == byte_len(st.prompt) + 1 + byte_len(input.take(k)),
        cur.x < i32::MAX,
    ensures
        ({
            let (st1, in1, l1, d1, a1) = key_spec(st, input, 0, Key::Char(c), cur, mask);
            &&& in1 == input.insert(k, c)
            &&& st1 == st
            &&& !d1
            &&& k == input.len() ==> a1 == seq![ActionView::PutChar(if mask { '*' } else { c })]
            &&& k < input.len() ==> a1 == seq![
                ActionView::ClearLine,
                ActionView::Write(st.prompt + " "@),
                ActionView::Write(input.insert(k, c)),
                ActionView::MoveToColumn((cur.x + 1) as i32),
            ]
        }),
{
    lemma_byte_len_nonneg(st.prompt);
    lemma_byte_len_take(input, k, input.len() as int);
    assert(input.take(input.len() as int) =~= input);
    assert(Key::Char(c) != Key::Backspace && Key::Char(c) != Key::Char('\u{8}'));
    if k == input.len() {
        assert(input.insert(k, c) =~= input.push(c));
    } else {
        lemma_boundary_unique(input, byte_len(input.take(k)), k);
    }
}

/// Erasing on the first row, with the cursor after the first `k` characters of the
/// line where the `k`-th is ASCII, takes that character out and leaves the console as
/// it was. At the end of the line the character is rubbed out on screen; inside the
/// line, the line is redrawn and the cursor moves one column left. With the cursor
/// right after the prompt, nothing changes and the bell sounds.
pub proof fn lemma_erasing_removes(st: ConsoleView, input: Seq<char>, k: int, cur: Cursor, mask: bool)
    requires
        0 <= k <= input.len(),
        k > 0 ==> (input[k - 1] as u32) < 0x80,
        cur.x == byte_len(st.prompt) + 1 + byte_len(input.take(k)),
    ensures
        ({
            let (st1, in1, l1, d1, a1) = key_spec(st, input, 0, Key::Backspace, cur, mask);
            &&& st1 == st
            &&& !d1
            &&& l1 == 0
            &&& k == 0 ==> in1 == input && a1 == seq![ActionView::Beep]
            &&& k > 0 ==> in1 == input.remove(k - 1)
            &&& k > 0 && k == input.len() ==> a1 == seq![
                ActionView::PutChar('\u{8}'),
                ActionView::PutChar(' '),
                ActionView::PutChar('\u{8}'),
            ]
            &&& 0 < k < input.len() ==> a1 == seq![
                ActionView::ClearLine,
                ActionView::Write(st.prompt + " "@),
                ActionView::Write(input.remove(k - 1)),
                ActionView::MoveToColumn((cur.x - 1) as i32),
            ]
        }),
{
    lemma_byte_len_nonneg(st.prompt);
    lemma_byte_len_nonneg(input.take(k));
    lemma_byte_len_take(input, k, input.len() as int);
    assert(input.take(input.len() as int) =~= input);
    let calc = byte_len(input.take(k));
    assert((cur.x as int) * (0int + 1) == cur.x as int) by (nonlinear_arith);
    assert(is_erase(Key::Backspace));
    if k > 0 {
        assert(input.take(k).drop_last() =~= input.take(k - 1));
        assert(input.take(k).last() == input[k - 1]);
        assert(byte_len(input.take(k)) == byte_len(input.take(k - 1)) + 1);
        lemma_byte_len_nonneg(input.take(k - 1));
        lemma_boundary_unique(input, calc - 1, k - 1);
        assert(removed_at_byte(input, calc - 1) == input.remove(k - 1));
        if k == input.len() {
            assert(calc == byte_len(input));
        } else {
            assert(calc < byte_len(input));
        }
    } else {
        assert(input.take(0) =~= Seq::<char>::empty());
        assert(calc == 0);
    }
}

/// A return finishes the line as it stands and leaves the history browsing; ctrl-C
/// drops the line, leaves the history browsing and shows `^C` and a fresh prompt.
pub proof fn lemma_return_and_interrupt(st: ConsoleView, input: Seq<char>, line: int, c: char, cur: Cursor, mask: bool)
    requires
        c == '\n' || c == '\r' || c == '\u{3}',
    ensures
        ({
            let (st1, in1, l1, d1, a1) = key_spec(st, input, line, Key::Char(c), cur, mask);
            &&& st1 == ConsoleView { current_history: -1, ..st }
            &&& (c == '\u{3}') ==> !d1 && in1 == Seq::<char>::empty() && a1 == seq![
                ActionView::Write("^C\n"@),
                ActionView::Write(st.prompt + " "@),
            ]
            &&& (c != '\u{3}') ==> d1 && in1 == input && l1 == line
        }),
{
    assert(Key::Char(c) != Key::Backspace && Key::Char(c) != Key::Char('\u{8}'));
}

/// The left and right arrows move the cursor by one column and change neither the line
/// nor the console: right moves it while it is left of the window's last column, and
/// otherwise counts one more row; left moves it while it is right of the prompt, one
/// row up when the entry runs over several rows.
pub proof fn lemma_arrows_move_the_cursor(st: ConsoleView, input: Seq<char>, line: int, key: Key, cur: Cursor, mask: bool)
    requires
        key == Key::Left || key == Key::Right,
        line >= 0,
    ensures
        ({
            let (st1, in1, l1, d1, a1) = key_spec(st, input, line, key, cur, mask);
            let min_x = cur.beg_x + byte_len(st.prompt) + 1;
            &&& st1 == st
            &&& in1 == input
            &&& !d1
            &&& key == Key::Right && cur.x < cur.max_x ==> l1 == line && a1 == seq![ActionView::MoveTo(cur.y, (cur.x + 1) as i32)]
            &&& key == Key::Right && cur.x >= cur.max_x ==> l1 == line + 1 && a1 == Seq::<ActionView>::empty()
            &&& key == Key::Left ==> l1 == (if line > 0 { line - 1 } else { 0 })
            &&& key == Key::Left && cur.x > min_x ==> a1 == seq![
                ActionView::MoveTo((if line > 0 { cur.y - 1 } else { cur.y as int }) as i32, (cur.x - 1) as i32),
            ]
            &&& key == Key::Left && cur.x <= min_x ==> a1 == Seq::<ActionView>::empty()
        }),
{
    assert(!is_erase(key));
}

} // verus!

//! The telnet session's line editor: the answers to option negotiation, and what
//! each chunk of received bytes does to the line being typed and to the peer's screen.

use vstd::prelude::*;
use vstd::string::StrSliceExecFns;
use vstd::utf8::encode_utf8;
use crate::text::{concat, string_push};

verus! {

broadcast use vstd::string::group_string_axioms;

/// The state of a telnet session between reads: the position in the history (`-1`
/// while editing a fresh line), the lines entered so far (newest first), the fresh
/// line that browsing the history put aside, and the prompt.
pub struct Sock {
    current_history: i32,
    history: Vec<String>,
    current_string: String,
    prompt: String,
}

impl Sock {
    /// The history position is `-1` or the index of a line in the history.
    #[verifier::type_invariant]
    spec fn history_position_ok(self) -> bool {
        -1 <= self.current_history < self.history.len()
    }
}

/// A session's state as values.
pub struct SockView {
    pub current_history: int,
    pub history: Seq<Seq<char>>,
    pub current_string: Seq<char>,
    pub prompt: Seq<char>,
}

impl View for Sock {
    type V = SockView;

    closed spec fn view(&self) -> SockView {
        SockView {
            current_history: self.current_history as int,
            history: self.history@.map_values(|h: String| h@),
            current_string: self.current_string@,
            prompt: self.prompt@,
        }
    }
}

/// The bytes sent for some text.
pub open spec fn text(s: Seq<char>) -> Seq<u8> {
    encode_utf8(s)
}

/// The 65 spaces that blank a line.
pub open spec fn blanks() -> Seq<char> {
    Seq::new(65, |i: int| ' ')
}

/// The prompt on a new line.
pub open spec fn prompt_line(prompt: Seq<char>) -> Seq<u8> {
    text("\r\n"@ + prompt + " "@)
}

/// The prompt at the start of the current line.
pub open spec fn prompt_return(prompt: Seq<char>) -> Seq<u8> {
    text("\r"@ + prompt + " "@)
}

/// What clearing the line sends: erase-line, blanks, and an empty prompt line.
pub open spec fn clear_line_writes(prompt: Seq<char>) -> Seq<Seq<u8>> {
    seq![seq![0xffu8, 0xf8u8], text(blanks()), prompt_return(prompt), text(Seq::empty())]
}

/// What redrawing the line with `input` sends.
pub open spec fn redraw_writes(prompt: Seq<char>, input: Seq<char>) -> Seq<Seq<u8>> {
    clear_line_writes(prompt) + seq![prompt_return(prompt), text(input)]
}

/// A telnet command with an option code.
pub open spec fn telnet(verb: u8, code: u8) -> Seq<u8> {
    seq![0xffu8, verb, code]
}

/// Whether the byte at `i` follows an unanswered interpret-as-command byte (`0xff`).
pub open spec fn iac_before(recv: Seq<u8>, i: int) -> bool
    decreases i,
{
    if i <= 0 {
        false
    } else {
        !iac_before(recv, i - 1) && recv[i - 1] == 0xff
    }
}

/// The byte at `i` asks for an option (`DO` or `WILL`), whose code is the next byte.
pub open spec fn asks_option(recv: Seq<u8>, i: int) -> bool {
    iac_before(recv, i) && (recv[i] == 0xfd || recv[i] == 0xfb)
}

/// The answer to the command byte at `i`: to `DO` echo (`0x01`) or `0x34`, `WILL`, to
/// any other `DO`, `WON'T`; to `WILL` echo, `DO`, to any other `WILL`, `DON'T`.
pub open spec fn reply_at(recv: Seq<u8>, i: int) -> Seq<Seq<u8>> {
    if asks_option(recv, i) {
        let code = recv[i + 1];
        if recv[i] == 0xfd {
            if code == 0x34 || code == 0x01 {
                seq![telnet(0xfb, code)]
            } else {
                seq![telnet(0xfc, code)]
            }
        } else {
            if code == 0x01 {
                seq![telnet(0xfd, code)]
            } else {
                seq![telnet(0xfe, code)]
            }
        }
    } else {
        Seq::empty()
    }
}

/// The answers to the negotiation in the first `n` bytes.
pub open spec fn replies(recv: Seq<u8>, n: int) -> Seq<Seq<u8>>
    decreases n,
{
    if n <= 0 {
        Seq::empty()
    } else {
        replies(recv, n - 1) + reply_at(recv, n - 1)
    }
}

/// A key whose byte is shown: printable ASCII, space, tilde or tab.
pub open spec fn typed_byte(b: u8) -> bool {
    (b > 32 && b < 126) || b == 0x20 || b == 0x7e || b == 0x09
}

/// The received bytes are exactly `pattern`.
pub open spec fn chunk_is(recv: Seq<u8>, read: int, pattern: Seq<u8>) -> bool {
    read == pattern.len() && forall|i: int| 0 <= i < read ==> recv[i] == pattern[i]
}

pub open spec fn is_backspace(recv: Seq<u8>, read: int) -> bool {
    chunk_is(recv, read, seq![0x7fu8]) || chunk_is(recv, read, seq![0x08u8])
}

pub open spec fn is_interrupt(recv: Seq<u8>, read: int) -> bool {
    chunk_is(recv, read, seq![0x03u8])
}

pub open spec fn is_newline(recv: Seq<u8>, read: int) -> bool {
    chunk_is(recv, read, seq![0x0du8, 0x00u8]) || chunk_is(recv, read, seq![0x0du8, 0x0au8])
}

pub open spec fn is_up(recv: Seq<u8>, read: int) -> bool {
    chunk_is(recv, read, seq![0x1bu8, 0x5bu8, 0x41u8])
}

pub open spec fn is_down(recv: Seq<u8>, read: int) -> bool {
    chunk_is(recv, read, seq![0x1bu8, 0x5bu8, 0x42u8])
}

pub open spec fn is_sideways(recv: Seq<u8>, read: int) -> bool {
    chunk_is(recv, read, seq![0x1bu8, 0x5bu8, 0x43u8]) || chunk_is(
        recv,
        read,
        seq![0x1bu8, 0x5bu8, 0x44u8],
    )
}

/// What a chunk of `read` received bytes does, from the session `st` with the line
/// `input`: the new session, the new line, whether the line is finished, and the
/// writes to the peer, in order.
pub open spec fn handle_spec(st: SockView, recv: Seq<u8>, read: int, input: Seq<char>, mask: bool) -> (
    SockView,
    Seq<char>,
    bool,
    Seq<Seq<u8>>,
) {
    let hl = st.history.len() as int;
    let ch = st.current_history;
    if recv[0] == 0xff {
        (st, input, false, replies(recv, read))
    } else if is_backspace(recv, read) {
        if input.len() > 0 {
            (st, input.drop_last(), false, seq![seq![0x08u8, 0x20u8, 0x08u8]])
        } else {
            (st, input, false, seq![seq![0x07u8]])
        }
    } else if is_interrupt(recv, read) {
        (
            SockView { current_history: -1, ..st },
            Seq::empty(),
            false,
            seq![text("^C"@), prompt_line(st.prompt)],
        )
    } else if is_newline(recv, read) {
        (SockView { current_history: -1, ..st }, input, true, seq![text("\r\n"@)])
    } else if is_up(recv, read) {
        if ch < hl - 1 && !(ch == -1 && hl == 0) {
            let line = st.history[ch + 1];
            (
                SockView { current_history: ch + 1, current_string: input, ..st },
                line,
                false,
                redraw_writes(st.prompt, line),
            )
        } else {
            (st, input, false, Seq::empty())
        }
    } else if is_down(recv, read) {
        if ch >= 0 {
            if ch - 1 > -1 {
                let line = st.history[ch - 1];
                (
                    SockView { current_history: ch - 1, current_string: Seq::empty(), ..st },
                    line,
                    false,
                    redraw_writes(st.prompt, line),
                )
            } else {
                (
                    SockView { current_history: ch - 1, ..st },
                    st.current_string,
                    false,
                    redraw_writes(st.prompt, st.current_string),
                )
            }
        } else {
            (st, input, false, Seq::empty())
        }
    } else if is_sideways(recv, read) {
        (st, input, false, Seq::empty())
    } else if typed_byte(recv[0]) {
        (
            st,
            input.push(recv[0] as char),
            false,
            if mask {
                seq![text("*"@)]
            } else {
                seq![recv.take(read)]
            },
        )
    } else {
        (st, input, false, Seq::empty())
    }
}

/// The inputs on which handling a chunk does not fail: a chunk holds at least one
/// byte; a negotiation command in the last byte of the buffer has no code to read;
/// only an ASCII character can be erased; and the up arrow counts the history as an
/// `i32`.
pub open spec fn handle_ok(st: SockView, recv: Seq<u8>, read: int, input: Seq<char>) -> bool {
    &&& recv.len() == 512
    &&& 0 < read <= 512
    &&& recv[0] == 0xff ==> forall|i: int| 0 <= i < read && #[trigger] asks_option(recv, i) ==> i + 1 < 512
    &&& (recv[0] != 0xff && is_backspace(recv, read) && input.len() > 0) ==> (input.last() as u32) < 0x80
    &&& (recv[0] != 0xff && is_up(recv, read)) ==> st.history.len() <= i32::MAX
}

impl Sock {
    /// A session with the prompt `$`, an empty history, editing a fresh line.
    pub fn new() -> (s: Sock)
        ensures
            s@.current_history == -1,
            s@.history == Seq::<Seq<char>>::empty(),
            s@.current_string == Seq::<char>::empty(),
            s@.prompt == "$"@,
    {
        let s = Sock {
            current_history: -1,
            history: Vec::new(),
            current_string: String::new(),
            prompt: "$".to_string(),
        };
        assert(s@.history =~= Seq::<Seq<char>>::empty());
        s
    }

    /// Replaces the prompt.
    pub fn set_prompt(&mut self, prompt: String)
        ensures
            final(self)@ == (SockView { prompt: prompt@, ..old(self)@ }),
    {
        proof {
            use_type_invariant(&*self);
        }
        self.prompt = prompt;
    }

    /// The position in the history: `-1` while editing a fresh line.
    pub fn current_history(&self) -> (h: i32)
        ensures
            h == self@.current_history,
    {
        self.current_history
    }

    /// The lines entered so far, newest first.
    pub fn history(&self) -> (h: &Vec<String>)
        ensures
            h@.map_values(|l: String| l@) == self@.history,
    {
        &self.history
    }

    /// Handles a chunk of `read` bytes received into `recv`, editing the line `input`.
    /// A chunk that starts with `0xff` is option negotiation and is only answered. A
    /// backspace erases the last character, ctrl-C drops the line, a return finishes
    /// it, the up and down arrows browse the history, and a printable byte is added to
    /// the line. Returns whether the line is finished, and the writes to the peer.
    pub fn handle_string(&mut self, recv: [u8; 512], read: usize, input: &mut String, mask_input: bool) -> (r: (bool, Vec<Vec<u8>>))
        requires
            handle_ok(old(self)@, recv@, read as int, old(input)@),
        ensures
            ({
                let (st, line, done, writes) = handle_spec(old(self)@, recv@, read as int, old(input)@, mask_input);
                &&& final(self)@ == st
                &&& final(input)@ == line
                &&& r.0 == done
                &&& writes_view(r.1@) == writes
            }),
            -1 <= old(self)@.current_history < old(self)@.history.len(),
            -1 <= final(self)@.current_history < final(self)@.history.len(),
    {
        proof {
            use_type_invariant(&*self);
        }
        let ghost rv = recv@;
        let mut writes: Vec<Vec<u8>> = Vec::new();
        if recv[0] == 0xff {
            let mut iac = false;
            for i in 0..read
                invariant
                    rv == recv@,
                    handle_ok(old(self)@, rv, read as int, old(input)@),
                    rv[0] == 0xff,
                    read <= 512,
                    iac == iac_before(rv, i as int),
                    writes_view(writes@) == replies(rv, i as int),
            {
                let b = recv[i];
                let ghost before = writes@;
                if b == 0xff && !iac {
                    iac = true;
                } else if iac {
                    if b == 0xfd {
                        assert(asks_option(rv, i as int));
                        let code = recv[i + 1];
                        if code == 0x34 || code == 0x01 {
                            writes.push(will(code));
                        } else {
                            writes.push(wont(code));
                        }
                    } else if b == 0xfb {
                        assert(asks_option(rv, i as int));
                        let code = recv[i + 1];
                        if code == 0x01 {
                            writes.push(should(code));
                        } else {
                            writes.push(dont(code));
                        }
                    }
                    iac = false;
                }
                proof {
                    lemma_writes_view_push(before, writes@);
                    assert(writes_view(writes@) =~= replies(rv, i + 1));
                }
            }
            return (false, writes);
        }
        proof {
            lemma_chunks(rv, read as int);
            assert(writes_view(writes@) =~= Seq::<Seq<u8>>::empty());
        }
        if read == 1 && (recv[0] == 0x7f || recv[0] == 0x08) {
            if input.as_str().unicode_len() > 0 {
                *input = drop_last_char(input);
                writes.push(backspace());
                assert(writes_view(writes@) =~= seq![seq![0x08u8, 0x20u8, 0x08u8]]);
            } else {
                writes.push(bell());
                assert(writes_view(writes@) =~= seq![seq![0x07u8]]);
            }
        } else if read == 1 && recv[0] == 0x03 {
            self.current_history = -1;
            *input = String::new();
            writes = self.prompt_with_pre_input("^C");
        } else if read == 2 && recv[0] == 0x0d && (recv[1] == 0 || recv[1] == 0x0a) {
            self.current_history = -1;
            writes.push(text_bytes("\r\n"));
            assert(writes_view(writes@) =~= seq![text("\r\n"@)]);
            return (true, writes);
        } else if read == 3 && recv[0] == 0x1b && recv[1] == 0x5b && recv[2] == 0x41 {
            if self.current_history < self.history.len() as i32 - 1 {
                if self.current_history == -1 && self.history.len() == 0 {
                    return (false, writes);
                }
                self.current_string = input.clone();
                self.current_history = self.current_history + 1;
                *input = self.history[self.current_history as usize].clone();
                writes = self.redraw(input.as_str());
            }
        } else if read == 3 && recv[0] == 0x1b && recv[1] == 0x5b && recv[2] == 0x42 {
            if self.current_history >= 0 {
                self.current_history = self.current_history - 1;
                if self.current_history > -1 {
                    self.current_string = String::new();
                    *input = self.history[self.current_history as usize].clone();
                } else {
                    *input = self.current_string.clone();
                }
                writes = self.redraw(input.as_str());
            }
        } else if read == 3 && recv[0] == 0x1b && recv[1] == 0x5b && (recv[2] == 0x43 || recv[2]
            == 0x44) {
        } else {
            assert(writes_view(writes@) =~= Seq::<Seq<u8>>::empty());
            let b = recv[0];
            if (b > 32 && b < 126) || b == 0x20 || b == 0x7e || b == 0x09 {
                string_push(input, b as char);
                if mask_input {
                    writes.push(text_bytes("*"));
                    assert(writes_view(writes@) =~= seq![text("*"@)]);
                } else {
                    writes.push(prefix_bytes(&recv, read));
                    assert(writes_view(writes@) =~= seq![rv.take(read as int)]);
                }
            }
        }
        (false, writes)
    }

    /// Whether `handle_string` can take this chunk: exactly the chunks that
    /// `handle_ok` admits.
    pub fn accepts_chunk(&self, recv: &[u8; 512], read: usize, input: &String) -> (b: bool)
        ensures
            b == handle_ok(self@, recv@, read as int, input@),
    {
        if read == 0 || read > 512 {
            return false;
        }
        if recv[0] == 0xff {
            let mut iac = false;
            for i in 0..read
                invariant
                    0 < read <= 512,
                    recv@[0] == 0xff,
                    iac == iac_before(recv@, i as int),
                    forall|j: int| 0 <= j < i && #[trigger] asks_option(recv@, j) ==> j + 1 < 512,
            {
                let b = recv[i];
                if iac && (b == 0xfd || b == 0xfb) && i + 1 >= 512 {
                    assert(asks_option(recv@, i as int));
                    return false;
                }
                iac = !iac && b == 0xff;
            }
            return true;
        }
        let n = input.as_str().unicode_len();
        if read == 1 && (recv[0] == 0x7f || recv[0] == 0x08) && n > 0 {
            let last = input.as_str().get_char(n - 1);
            if last as u32 >= 0x80 {
                return false;
            }
        }
        proof {
            lemma_chunks(recv@, read as int);
        }
        if read == 3 && recv[0] == 0x1b && recv[1] == 0x5b && recv[2] == 0x41 {
            return self.history.len() <= 0x7fff_ffff;
        }
        true
    }

    /// Ends a line: a line that is not masked and not empty goes first in the history.
    pub fn finish_line(&mut self, output: &String, mask_password: bool)
        ensures
            final(self)@ == (if !mask_password && output@.len() > 0 {
                SockView { history: seq![output@] + old(self)@.history, ..old(self)@ }
            } else {
                old(self)@
            }),
    {
        if !mask_password && output.as_str().unicode_len() > 0 {
            let mut taken = Sock::new();
            std::mem::swap(self, &mut taken);
            proof {
                use_type_invariant(&taken);
            }
            let Sock { current_history, history, current_string, prompt } = taken;
            let ghost before = history@;
            let mut history = history;
            history.insert(0, output.clone());
            assert(history@.map_values(|h: String| h@) =~= seq![output@] + before.map_values(|h: String| h@));
            *self = Sock { current_history, history, current_string, prompt };
        }
    }

    /// The write that shows the prompt on a new line.
    pub fn prompt(&self) -> (w: Vec<Vec<u8>>)
        ensures
            writes_view(w@) == seq![prompt_line(self@.prompt)],
    {
        let a = concat("\r\n", self.prompt.as_str());
        let l = concat(a.as_str(), " ");
        let mut w: Vec<Vec<u8>> = Vec::new();
        w.push(text_bytes(l.as_str()));
        assert(writes_view(w@) =~= seq![prompt_line(self@.prompt)]);
        w
    }

    /// The writes that show the prompt and then `input` at the start of the line.
    pub fn prompt_with_input_no_newline(&self, input: &str) -> (w: Vec<Vec<u8>>)
        ensures
            writes_view(w@) == seq![prompt_return(self@.prompt), text(input@)],
    {
        let a = concat("\r", self.prompt.as_str());
        let l = concat(a.as_str(), " ");
        let mut w: Vec<Vec<u8>> = Vec::new();
        w.push(text_bytes(l.as_str()));
        w.push(text_bytes(input));
        assert(writes_view(w@) =~= seq![prompt_return(self@.prompt), text(input@)]);
        w
    }

    /// The writes that show the prompt on a new line, then `input`.
    pub fn prompt_with_input(&self, input: &str) -> (w: Vec<Vec<u8>>)
        ensures
            writes_view(w@) == seq![prompt_line(self@.prompt), text(input@)],
    {
        let mut w = self.prompt();
        let ghost before = w@;
        w.push(text_bytes(input));
        proof {
            lemma_writes_view_append(before, seq![w@.last()]);
            assert(w@ =~= before + seq![w@.last()]);
        }
        assert(writes_view(w@) =~= seq![prompt_line(self@.prompt), text(input@)]);
        w
    }

    /// The writes that show `pre_input`, then the prompt on a new line.
    pub fn prompt_with_pre_input(&self, pre_input: &str) -> (w: Vec<Vec<u8>>)
        ensures
            writes_view(w@) == seq![text(pre_input@), prompt_line(self@.prompt)],
    {
        let mut w: Vec<Vec<u8>> = Vec::new();
        w.push(text_bytes(pre_input));
        let mut rest = self.prompt();
        let ghost before = w@;
        let ghost r = rest@;
        w.append(&mut rest);
        proof {
            lemma_writes_view_append(before, r);
        }
        assert(writes_view(w@) =~= seq![text(pre_input@), prompt_line(self@.prompt)]);
        w
    }

    /// The writes that show `pre_input`, then the prompt on a new line, then `post_input`.
    pub fn prompt_with_pre_and_post_input(&self, pre_input: &str, post_input: &str) -> (w: Vec<Vec<u8>>)
        ensures
            writes_view(w@) == seq![text(pre_input@), prompt_line(self@.prompt), text(post_input@)],
    {
        let mut w: Vec<Vec<u8>> = Vec::new();
        w.push(text_bytes(pre_input));
        let mut rest = self.prompt_with_input(post_input);
        let ghost before = w@;
        let ghost r = rest@;
        w.append(&mut rest);
        proof {
            lemma_writes_view_append(before, r);
        }
        assert(writes_view(w@) =~= seq![text(pre_input@), prompt_line(self@.prompt), text(post_input@)]);
        w
    }

    /// The writes that clear the line: erase-line, blanks, and an empty prompt line.
    pub fn clear_line(&self) -> (w: Vec<Vec<u8>>)
        ensures
            writes_view(w@) == clear_line_writes(self@.prompt),
    {
        proof {
            reveal_strlit("                                                                 ");
            reveal_strlit("");
        }
        let mut w: Vec<Vec<u8>> = Vec::new();
        w.push(vec![0xffu8, 0xf8u8]);
        w.push(text_bytes("                                                                 "));
        let mut rest = self.prompt_with_input_no_newline("");
        let ghost before = w@;
        let ghost r = rest@;
        w.append(&mut rest);
        proof {
            lemma_writes_view_append(before, r);
        }
        assert("                                                                 "@ =~= blanks());
        assert(writes_view(w@) =~= clear_line_writes(self@.prompt));
        w
    }

    /// What redrawing the line with `line` sends.
    fn redraw(&self, line: &str) -> (w: Vec<Vec<u8>>)
        ensures
            writes_view(w@) == redraw_writes(self@.prompt, line@),
    {
        let mut w = self.clear_line();
        let mut rest = self.prompt_with_input_no_newline(line);
        let ghost before = w@;
        let ghost r = rest@;
        w.append(&mut rest);
        proof {
            lemma_writes_view_append(before, r);
        }
        assert(writes_view(w@) =~= redraw_writes(self@.prompt, line@));
        w
    }
}

/// The write that sounds the bell.
pub fn bell() -> (w: Vec<u8>)
    ensures
        w@ == seq![0x07u8],
{
    let mut w: Vec<u8> = Vec::new();
    w.push(0x07u8);
    assert(w@ =~= seq![0x07u8]);
    w
}

/// The write that erases the character before the cursor.
pub fn backspace() -> (w: Vec<u8>)
    ensures
        w@ == seq![0x08u8, 0x20u8, 0x08u8],
{
    vec![0x08u8, 0x20u8, 0x08u8]
}

/// The write that asks the peer not to use the option `code`.
pub fn dont(code: u8) -> (w: Vec<u8>)
    ensures
        w@ == telnet(0xfe, code),
{
    vec![0xffu8, 0xfeu8, code]
}

/// The write that refuses to use the option `code`.
pub fn wont(code: u8) -> (w: Vec<u8>)
    ensures
        w@ == telnet(0xfc, code),
{
    vec![0xffu8, 0xfcu8, code]
}

/// The write that agrees to use the option `code`.
pub fn will(code: u8) -> (w: Vec<u8>)
    ensures
        w@ == telnet(0xfb, code),
{
    vec![0xffu8, 0xfbu8, code]
}

/// The write that asks the peer to use the option `code`.
pub fn should(code: u8) -> (w: Vec<u8>)
    ensures
        w@ == telnet(0xfd, code),
{
    vec![0xffu8, 0xfdu8, code]
}

/// Each write's bytes.
pub open spec fn writes_view(w: Seq<Vec<u8>>) -> Seq<Seq<u8>> {
    w.map_values(|b: Vec<u8>| b@)
}

proof fn lemma_writes_view_push(before: Seq<Vec<u8>>, after: Seq<Vec<u8>>)
    requires
        after =~= before || (after.len() == before.len() + 1 && after.drop_last() =~= before),
    ensures
        after == before ==> writes_view(after) == writes_view(before),
        after != before ==> writes_view(after) == writes_view(before).push(after.last()@),
{
    if after != before {
        assert(writes_view(after) =~= writes_view(before).push(after.last()@));
    } else {
        assert(writes_view(after) =~= writes_view(before));
    }
}

proof fn lemma_writes_view_append(a: Seq<Vec<u8>>, b: Seq<Vec<u8>>)
    ensures
        writes_view(a + b) =~= writes_view(a) + writes_view(b),
{
}

/// The chunk patterns in terms of the first bytes.
proof fn lemma_chunks(recv: Seq<u8>, read: int)
    requires
        recv.len() == 512,
        0 < read <= 512,
    ensures
        is_backspace(recv, read) <==> read == 1 && (recv[0] == 0x7f || recv[0] == 0x08),
        is_interrupt(recv, read) <==> read == 1 && recv[0] == 0x03,
        is_newline(recv, read) <==> read == 2 && recv[0] == 0x0d && (recv[1] == 0 || recv[1] == 0x0a),
        is_up(recv, read) <==> read == 3 && recv[0] == 0x1b && recv[1] == 0x5b && recv[2] == 0x41,
        is_down(recv, read) <==> read == 3 && recv[0] == 0x1b && recv[1] == 0x5b && recv[2] == 0x42,
        is_sideways(recv, read) <==> read == 3 && recv[0] == 0x1b && recv[1] == 0x5b && (recv[2] == 0x43 || recv[2] == 0x44),
{
}

/// The bytes sent for some text.
pub fn text_bytes(s: &str) -> (b: Vec<u8>)
    ensures
        b@ == text(s@),
{
    s.as_bytes_vec()
}

/// The first `read` bytes of the buffer.
fn prefix_bytes(recv: &[u8; 512], read: usize) -> (b: Vec<u8>)
    requires
        read <= 512,
    ensures
        b@ == recv@.take(read as int),
{
    let mut b: Vec<u8> = Vec::new();
    for i in 0..read
        invariant
            read <= 512,
            b@ == recv@.take(i as int),
    {
        b.push(recv[i]);
        assert(recv@.take(i as int).push(recv@[i as int]) =~= recv@.take(i + 1));
    }
    b
}

/// `s` without its last character.
fn drop_last_char(s: &String) -> (r: String)
    requires
        s@.len() > 0,
    ensures
        r@ == s@.drop_last(),
{
    let n = s.as_str().unicode_len();
    s.as_str().substring_char(0, n - 1).to_string()
}

/// Browsing up the history from a fresh line and back down gives the fresh line back,
/// with the history as it was.
pub proof fn lemma_up_then_down(st: SockView, input: Seq<char>, up: Seq<u8>, down: Seq<u8>, mask: bool)
    requires
        st.current_history == -1,
        st.history.len() >= 1,
        up.len() == 512,
        down.len() == 512,
        is_up(up, 3),
        is_down(down, 3),
    ensures
        ({
            let (st1, in1, d1, w1) = handle_spec(st, up, 3, input, mask);
            let (st2, in2, d2, w2) = handle_spec(st1, down, 3, in1, mask);
            &&& in1 == st.history[0]
            &&& in2 == input
            &&& st2.current_history == -1
            &&& st2.history == st.history
            &&& !d1 && !d2
        }),
{
    lemma_chunks(up, 3);
    lemma_chunks(down, 3);
}

/// Erasing right after typing a character gives the line back.
pub proof fn lemma_type_then_erase(st: SockView, input: Seq<char>, typed: Seq<u8>, erase: Seq<u8>, mask: bool)
    requires
        typed.len() == 512,
        erase.len() == 512,
        typed_byte(typed[0]),
        is_backspace(erase, 1),
    ensures
        ({
            let (st1, in1, d1, w1) = handle_spec(st, typed, 1, input, mask);
            let (st2, in2, d2, w2) = handle_spec(st1, erase, 1, in1, mask);
            &&& in1 == input.push(typed[0] as char)
            &&& in2 == input
            &&& st2 == st
            &&& w2 == seq![seq![0x08u8, 0x20u8, 0x08u8]]
        }),
{
    lemma_chunks(typed, 1);
    lemma_chunks(erase, 1);
    assert(input.push(typed[0] as char).drop_last() =~= input);
}

/// Negotiation answers every `DO` and `WILL` in the chunk, once each and in order, and
/// leaves the session and the line alone.
pub proof fn lemma_negotiation_only_answers(st: SockView, recv: Seq<u8>, read: int, input: Seq<char>, mask: bool)
    requires
        recv.len() == 512,
        0 < read <= 512,
        recv[0] == 0xff,
    ensures
        handle_spec(st, recv, read, input, mask) == (st, input, false, replies(recv, read)),
        replies(recv, read).len() == count_asks(recv, read),
{
    lemma_replies_count(recv, read);
}

/// The number of `DO` and `WILL` commands in the first `n` bytes.
pub open spec fn count_asks(recv: Seq<u8>, n: int) -> int
    decreases n,
{
    if n <= 0 {
        0
    } else {
        count_asks(recv, n - 1) + if asks_option(recv, n - 1) { 1int } else { 0int }
    }
}

proof fn lemma_replies_count(recv: Seq<u8>, n: int)
    ensures
        replies(recv, n).len() == count_asks(recv, n),
    decreases n,
{
    if n > 0 {
        lemma_replies_count(recv, n - 1);
    }
}

/// A printable ASCII byte, a space, a tilde or a tab received alone is typed: it goes
/// at the end of the line as that character and is echoed back as it came, or as `*`
/// when the line is masked; nothing else changes.
pub proof fn lemma_printable_byte_is_typed(st: SockView, recv: Seq<u8>, input: Seq<char>, mask: bool)
    requires
        recv.len() == 512,
        (0x20 <= recv[0] && recv[0] <= 0x7e) || recv[0] == 0x09,
    ensures
        handle_spec(st, recv, 1, input, mask) == (
            st,
            input.push(recv[0] as char),
            false,
            if mask {
                seq![text("*"@)]
            } else {
                seq![seq![recv[0]]]
            },
        ),
{
    lemma_chunks(recv, 1);
    assert(recv.take(1) =~= seq![recv[0]]);
}

/// A chunk that is exactly `IAC WILL c` is answered `IAC DO c` when `c` is echo and
/// `IAC DON'T c` otherwise; one that is exactly `IAC DO c` is answered `IAC WILL c`
/// when `c` is echo or `0x34` and `IAC WON'T c` otherwise. The session and the line
/// stay as they were.
pub proof fn lemma_single_request_answer(st: SockView, recv: Seq<u8>, input: Seq<char>, mask: bool)
    requires
        recv.len() == 512,
        recv[0] == 0xff,
        recv[1] == 0xfb || recv[1] == 0xfd,
    ensures
        ({
            let c = recv[2];
            let verb: u8 = if recv[1] == 0xfb {
                if c == 0x01 { 0xfdu8 } else { 0xfeu8 }
            } else {
                if c == 0x01 || c == 0x34 { 0xfbu8 } else { 0xfcu8 }
            };
            handle_spec(st, recv, 3, input, mask) == (st, input, false, seq![seq![0xffu8, verb, c]])
        }),
{
    assert(!iac_before(recv, 0));
    assert(iac_before(recv, 1));
    assert(!iac_before(recv, 2));
    assert(!asks_option(recv, 0));
    assert(asks_option(recv, 1));
    assert(!asks_option(recv, 2));
    assert(replies(recv, 0) =~= Seq::<Seq<u8>>::empty());
    assert(replies(recv, 1) =~= Seq::<Seq<u8>>::empty());
    assert(replies(recv, 2) =~= reply_at(recv, 1));
    assert(replies(recv, 3) =~= replies(recv, 2));
}

/// The history arrows leave the history alone and move one step at most. Whenever the
/// position is then on a line of the history, the line being edited is exactly that
/// entry; down from the newest entry gives back the line put aside by the up arrow.
pub proof fn lemma_browsing_shows_the_entry(st: SockView, recv: Seq<u8>, input: Seq<char>, mask: bool)
    requires
        -1 <= st.current_history < st.history.len(),
        recv.len() == 512,
        is_up(recv, 3) || is_down(recv, 3),
    ensures
        ({
            let (st2, in2, d2, w2) = handle_spec(st, recv, 3, input, mask);
            let p = st.current_history;
            &&& st2.history == st.history
            &&& st2.prompt == st.prompt
            &&& !d2
            &&& is_up(recv, 3) ==> st2.current_history == (if p + 1 < st.history.len() { p + 1 } else { p })
            &&& is_down(recv, 3) ==> st2.current_history == (if p >= 0 { p - 1 } else { p })
            &&& -1 <= st2.current_history < st2.history.len()
            &&& st2.current_history != p ==> (if st2.current_history >= 0 {
                in2 == st.history[st2.current_history]
            } else {
                in2 == st.current_string
            })
            &&& st2.current_history == p ==> in2 == input
        }),
{
    lemma_chunks(recv, 3);
}

/// A lone backspace (`0x7f` or `0x08`) takes the last character off the line and
/// rubs it out on the peer's screen, or rings the bell on an empty line; a lone ctrl-C
/// drops the line, leaves the history browsing and shows `^C` and the prompt on a new
/// line; a carriage return followed by NUL or a line feed finishes the line as it
/// stands and leaves the history browsing.
pub proof fn lemma_control_chunks(st: SockView, recv: Seq<u8>, read: int, input: Seq<char>, mask: bool)
    requires
        recv.len() == 512,
        (read == 1 && (recv[0] == 0x7f || recv[0] == 0x08 || recv[0] == 0x03)) || (read == 2 && recv[0] == 0x0d
            && (recv[1] == 0x00 || recv[1] == 0x0a)),
    ensures
        ({
            let (st1, in1, d1, w1) = handle_spec(st, recv, read, input, mask);
            &&& read == 1 && recv[0] != 0x03 && input.len() > 0 ==> st1 == st && in1 == input.drop_last()
                && !d1 && w1 == seq![seq![0x08u8, 0x20u8, 0x08u8]]
            &&& read == 1 && recv[0] != 0x03 && input.len() == 0 ==> st1 == st && in1 == input && !d1
                && w1 == seq![seq![0x07u8]]
            &&& read == 1 && recv[0] == 0x03 ==> st1 == (SockView { current_history: -1, ..st })
                && in1 == Seq::<char>::empty() && !d1 && w1 == seq![text("^C"@), text("\r\n"@ + st.prompt + " "@)]
            &&& read == 2 ==> st1 == (SockView { current_history: -1, ..st }) && in1 == input && d1
                && w1 == seq![text("\r\n"@)]
        }),
{
    lemma_chunks(recv, read);
}

} // verus!

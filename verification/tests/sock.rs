use ctf::sock::{backspace, bell, dont, should, will, wont, Sock};

fn chunk(bytes: &[u8]) -> ([u8; 512], usize) {
    let mut buf = [0u8; 512];
    buf[..bytes.len()].copy_from_slice(bytes);
    (buf, bytes.len())
}

fn feed(s: &mut Sock, input: &mut String, bytes: &[u8], mask: bool) -> (bool, Vec<Vec<u8>>) {
    let (buf, read) = chunk(bytes);
    assert!(s.accepts_chunk(&buf, read, input));
    s.handle_string(buf, read, input, mask)
}

fn prompt_return(p: &str) -> Vec<u8> {
    format!("\r{} ", p).into_bytes()
}

fn redraw(p: &str, line: &str) -> Vec<Vec<u8>> {
    vec![
        vec![0xff, 0xf8],
        vec![b' '; 65],
        prompt_return(p),
        vec![],
        prompt_return(p),
        line.as_bytes().to_vec(),
    ]
}

#[test]
fn negotiation_is_answered() {
    let mut s = Sock::new();
    let mut input = "x".to_string();
    let (done, writes) = feed(
        &mut s,
        &mut input,
        &[0xff, 0xfd, 0x01, 0xff, 0xfd, 0x22, 0xff, 0xfb, 0x01, 0xff, 0xfb, 0x1f, 0xff, 0xff, 0xfd, 0x34],
        false,
    );
    assert!(!done);
    assert_eq!(input, "x");
    assert_eq!(
        writes,
        vec![
            vec![0xff, 0xfb, 0x01],
            vec![0xff, 0xfc, 0x22],
            vec![0xff, 0xfd, 0x01],
            vec![0xff, 0xfe, 0x1f],
        ]
    );
}

#[test]
fn typing_and_erasing() {
    let mut s = Sock::new();
    let mut input = String::new();
    let (_, writes) = feed(&mut s, &mut input, b"a", false);
    assert_eq!(writes, vec![b"a".to_vec()]);
    let (_, writes) = feed(&mut s, &mut input, b"b", true);
    assert_eq!(writes, vec![b"*".to_vec()]);
    assert_eq!(input, "ab");
    let (_, writes) = feed(&mut s, &mut input, &[0x7f], false);
    assert_eq!(input, "a");
    assert_eq!(writes, vec![vec![0x08, 0x20, 0x08]]);
    let (_, _) = feed(&mut s, &mut input, &[0x08], false);
    let (_, writes) = feed(&mut s, &mut input, &[0x08], false);
    assert_eq!(input, "");
    assert_eq!(writes, vec![vec![0x07]]);
    let (_, writes) = feed(&mut s, &mut input, &[0x01], false);
    assert!(writes.is_empty());
    assert_eq!(input, "");
}

#[test]
fn pasted_chunk_keeps_its_first_character_and_echoes_all() {
    let mut s = Sock::new();
    let mut input = String::new();
    let (_, writes) = feed(&mut s, &mut input, b"hello", false);
    assert_eq!(input, "h");
    assert_eq!(writes, vec![b"hello".to_vec()]);
}

#[test]
fn newline_and_interrupt() {
    let mut s = Sock::new();
    let mut input = "abc".to_string();
    let (done, writes) = feed(&mut s, &mut input, &[0x0d, 0x0a], false);
    assert!(done);
    assert_eq!(writes, vec![b"\r\n".to_vec()]);
    let (done, _) = feed(&mut s, &mut input, &[0x0d, 0x00], false);
    assert!(done);
    let (done, writes) = feed(&mut s, &mut input, &[0x03], false);
    assert!(!done);
    assert_eq!(input, "");
    assert_eq!(writes, vec![b"^C".to_vec(), b"\r\n$ ".to_vec()]);
}

#[test]
fn history_with_arrows() {
    let mut s = Sock::new();
    s.finish_line(&"first".to_string(), false);
    s.finish_line(&"pass".to_string(), true);
    s.finish_line(&"second".to_string(), false);
    s.finish_line(&String::new(), false);
    let mut input = "typing".to_string();
    let (_, writes) = feed(&mut s, &mut input, &[0x1b, 0x5b, 0x41], false);
    assert_eq!(input, "second");
    assert_eq!(writes, redraw("$", "second"));
    let (_, _) = feed(&mut s, &mut input, &[0x1b, 0x5b, 0x41], false);
    assert_eq!(input, "first");
    let (_, writes) = feed(&mut s, &mut input, &[0x1b, 0x5b, 0x41], false);
    assert_eq!(input, "first");
    assert!(writes.is_empty());
    let (_, _) = feed(&mut s, &mut input, &[0x1b, 0x5b, 0x42], false);
    assert_eq!(input, "second");
    let (_, _) = feed(&mut s, &mut input, &[0x1b, 0x5b, 0x42], false);
    assert_eq!(input, "");
    let (_, writes) = feed(&mut s, &mut input, &[0x1b, 0x5b, 0x44], false);
    assert!(writes.is_empty());
}

#[test]
fn up_with_no_history_does_nothing() {
    let mut s = Sock::new();
    let mut input = "x".to_string();
    let (_, writes) = feed(&mut s, &mut input, &[0x1b, 0x5b, 0x41], false);
    assert!(writes.is_empty());
    assert_eq!(input, "x");
    assert_eq!(s.current_history(), -1);
}

#[test]
fn chunks_outside_the_contract_are_refused() {
    let s = Sock::new();
    let (buf, _) = chunk(&[0x61]);
    assert!(!s.accepts_chunk(&buf, 0, &String::new()));
    let (buf, read) = chunk(&[0x7f]);
    assert!(!s.accepts_chunk(&buf, read, &"é".to_string()));
    let mut buf = [0u8; 512];
    buf[0] = 0xff;
    buf[510] = 0xff;
    buf[511] = 0xfd;
    assert!(!s.accepts_chunk(&buf, 512, &String::new()));
    assert!(s.accepts_chunk(&buf, 511, &String::new()));
}

#[test]
fn prompt_writes() {
    let mut s = Sock::new();
    s.set_prompt("zac@ctf$".to_string());
    assert_eq!(s.prompt(), vec![b"\r\nzac@ctf$ ".to_vec()]);
    assert_eq!(s.prompt_with_input_no_newline("ab"), vec![b"\rzac@ctf$ ".to_vec(), b"ab".to_vec()]);
    assert_eq!(s.prompt_with_input("ab"), vec![b"\r\nzac@ctf$ ".to_vec(), b"ab".to_vec()]);
    assert_eq!(s.prompt_with_pre_input("^C"), vec![b"^C".to_vec(), b"\r\nzac@ctf$ ".to_vec()]);
    assert_eq!(
        s.prompt_with_pre_and_post_input("x", "y"),
        vec![b"x".to_vec(), b"\r\nzac@ctf$ ".to_vec(), b"y".to_vec()]
    );
    assert_eq!(s.clear_line(), redraw("zac@ctf$", "")[..4].to_vec());
    assert_eq!(bell(), vec![0x07]);
    assert_eq!(backspace(), vec![0x08, 0x20, 0x08]);
    assert_eq!(dont(1), vec![0xff, 0xfe, 1]);
    assert_eq!(wont(1), vec![0xff, 0xfc, 1]);
    assert_eq!(will(1), vec![0xff, 0xfb, 1]);
    assert_eq!(should(1), vec![0xff, 0xfd, 1]);
}

#[test]
fn session_up_then_down_gives_the_fresh_line_back() {
    let mut s = Sock::new();
    s.finish_line(&"old".to_string(), false);
    let mut input = "new".to_string();
    feed(&mut s, &mut input, &[0x1b, 0x5b, 0x41], false);
    assert_eq!(input, "old");
    feed(&mut s, &mut input, &[0x1b, 0x5b, 0x42], false);
    assert_eq!(input, "new");
    assert_eq!(s.current_history(), -1);
    assert_eq!(s.history(), &vec!["old".to_string()]);
}

use ctf::guess::{decimal_string, is_correct_guess, trim_line_end};
use ctf::text::{trim, byte_length, on_boundary};

#[test]
fn decimal_forms() {
    for n in [0, 7, 10, 42, -1, -10, 2147483647, -2147483648, 1000000] {
        assert_eq!(decimal_string(n), n.to_string());
    }
}

#[test]
fn guesses() {
    assert!(is_correct_guess("1234\n", 1234));
    assert!(is_correct_guess("-5\r\n", -5));
    assert!(is_correct_guess("0", 0));
    assert!(!is_correct_guess(" 1234\n", 1234));
    assert!(!is_correct_guess("1234 \n", 1234));
    assert!(!is_correct_guess("01", 1));
    assert!(!is_correct_guess("", 0));
}

#[test]
fn line_ends() {
    assert_eq!(trim_line_end("abc\r\n\n"), "abc");
    assert_eq!(trim_line_end("a\nb\n"), "a\nb");
    assert_eq!(trim_line_end("\r\n"), "");
    assert_eq!(trim_line_end("plain"), "plain");
}

#[test]
fn trimming_whitespace() {
    for s in ["  zac \n", "\tx y\u{3000}", "", "   ", "a", "\u{85}b\u{a0}"] {
        assert_eq!(trim(s), s.trim());
    }
}

#[test]
fn bytes_and_boundaries() {
    assert_eq!(byte_length("aé€😀"), "aé€😀".len());
    let s = "aé€";
    for i in 0..8 {
        assert_eq!(on_boundary(s, i), s.is_char_boundary(i), "{}", i);
    }
}

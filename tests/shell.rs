use bin_alloc::shell::{echo_cmd, edit_line, Command, Edit, Outcome, ParseError};

fn strings(args: &[Vec<u8>]) -> Vec<String> {
    args.iter().map(|a| String::from_utf8(a.clone()).unwrap()).collect()
}

#[test]
fn parse_splits_on_spaces() {
    let cmd = Command::parse(b"echo hello  world", 64).unwrap();
    assert_eq!(strings(cmd.args()), vec!["echo", "hello", "world"]);
    assert_eq!(cmd.path(), &b"echo".to_vec());
}

#[test]
fn parse_skips_leading_and_trailing_spaces() {
    let cmd = Command::parse(b"   ls   -l ", 64).unwrap();
    assert_eq!(strings(cmd.args()), vec!["ls", "-l"]);
}

#[test]
fn parse_empty_line() {
    assert!(matches!(Command::parse(b"", 64), Err(ParseError::Empty)));
    assert!(matches!(Command::parse(b"    ", 64), Err(ParseError::Empty)));
}

#[test]
fn parse_too_many_args() {
    assert!(matches!(Command::parse(b"a b c", 2), Err(ParseError::TooManyArgs)));
    assert!(matches!(Command::parse(b"a", 0), Err(ParseError::TooManyArgs)));
    assert!(Command::parse(b"a b", 2).is_ok());
}

#[test]
fn echo_prints_the_other_arguments() {
    let args = vec![b"echo".to_vec(), b"hello".to_vec(), b"world".to_vec()];
    assert_eq!(echo_cmd(&args), b"hello world ".to_vec());
    assert_eq!(echo_cmd(&vec![b"echo".to_vec()]), Vec::<u8>::new());
}

#[test]
fn execute_dispatches_on_path() {
    match Command::parse(b"echo a b", 64).unwrap().execute() {
        Outcome::Print(out) => assert_eq!(out, b"a b ".to_vec()),
        Outcome::ListAtags => panic!("echo printed nothing"),
    }
    assert!(matches!(
        Command::parse(b"atags", 64).unwrap().execute(),
        Outcome::ListAtags
    ));
    match Command::parse(b"frob x", 64).unwrap().execute() {
        Outcome::Print(out) => assert_eq!(out, b"unknown command: frob".to_vec()),
        Outcome::ListAtags => panic!("unknown command listed tags"),
    }
}

#[test]
fn editor_types_erases_and_submits() {
    let mut line: Vec<u8> = Vec::new();
    assert!(matches!(edit_line(&mut line, b'h', 4), Edit::Typed(b'h')));
    assert!(matches!(edit_line(&mut line, b'i', 4), Edit::Typed(b'i')));
    assert!(matches!(edit_line(&mut line, 127, 4), Edit::Erased));
    assert_eq!(line, b"h".to_vec());
    assert!(matches!(edit_line(&mut line, 8, 4), Edit::Erased));
    assert!(matches!(edit_line(&mut line, 8, 4), Edit::Ignored));
    assert!(line.is_empty());
    edit_line(&mut line, b'o', 4);
    edit_line(&mut line, b'k', 4);
    match edit_line(&mut line, b'\r', 4) {
        Edit::Submitted(done) => assert_eq!(done, b"ok".to_vec()),
        _ => panic!("carriage return did not submit"),
    }
    assert!(line.is_empty());
}

#[test]
fn editor_rings_bell_and_respects_capacity() {
    let mut line: Vec<u8> = Vec::new();
    assert!(matches!(edit_line(&mut line, 0x01, 2), Edit::Bell));
    assert!(matches!(edit_line(&mut line, 0x80, 2), Edit::Bell));
    assert!(matches!(edit_line(&mut line, b' ', 2), Edit::Typed(b' ')));
    assert!(matches!(edit_line(&mut line, b'x', 2), Edit::Typed(b'x')));
    assert!(matches!(edit_line(&mut line, b'y', 2), Edit::Ignored));
    assert_eq!(line, b" x".to_vec());
    match edit_line(&mut line, b'\n', 2) {
        Edit::Submitted(done) => assert_eq!(done, b" x".to_vec()),
        _ => panic!("line feed did not submit"),
    }
}

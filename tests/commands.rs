use hexagondb::codec::{encode, encode_request, Reply};
use hexagondb::database::DB;
use hexagondb::error::HexagonError;
use hexagondb::interpreter::{Interpreter, Step};
use hexagondb::text::{equal_ignore_case, format_i64, format_u64, parse_i64};

fn run(it: &mut Interpreter, line: &[&str], now: u64) -> Vec<u8> {
    let args: Vec<String> = line.iter().map(|x| x.to_string()).collect();
    encode(&it.exec_args_at(args, now))
}

#[test]
fn set_and_get_scenario() {
    let mut it = Interpreter::new(DB::new());
    assert_eq!(run(&mut it, &["SET", "x", "10"], 0), b"+OK\r\n".to_vec());
    assert_eq!(run(&mut it, &["GET", "x"], 0), b"$2\r\n10\r\n".to_vec());
    assert_eq!(run(&mut it, &["GET", "missing"], 0), b"$-1\r\n".to_vec());
}

#[test]
fn arity_error_scenario() {
    let mut it = Interpreter::new(DB::new());
    assert_eq!(run(&mut it, &["GET"], 0), b"-wrong number of arguments for 'GET' command\r\n".to_vec());
    assert_eq!(run(&mut it, &["set", "a"], 0), b"-wrong number of arguments for 'SET' command\r\n".to_vec());
    assert_eq!(run(&mut it, &["EXPIRE", "a", "1", "2"], 0), b"-wrong number of arguments for 'EXPIRE' command\r\n".to_vec());
}

#[test]
fn ttl_lifecycle_scenario() {
    let mut it = Interpreter::new(DB::new());
    assert_eq!(run(&mut it, &["SET", "k", "v"], 0), b"+OK\r\n".to_vec());
    assert_eq!(run(&mut it, &["TTL", "k"], 0), b":-1\r\n".to_vec());
    assert_eq!(run(&mut it, &["EXPIRE", "k", "10"], 0), b":1\r\n".to_vec());
    assert_eq!(run(&mut it, &["TTL", "k"], 0), b":10\r\n".to_vec());
    assert_eq!(run(&mut it, &["TTL", "k"], 4_200), b":5\r\n".to_vec());
    assert_eq!(run(&mut it, &["GET", "k"], 10_001), b"$-1\r\n".to_vec());
    assert_eq!(run(&mut it, &["EXISTS", "k"], 10_001), b":0\r\n".to_vec());
}

#[test]
fn unknown_command_reply() {
    let mut it = Interpreter::new(DB::new());
    assert_eq!(run(&mut it, &["FLY", "x"], 0), b"-unknown command 'FLY'\r\n".to_vec());
}

#[test]
fn names_ignore_case() {
    let mut it = Interpreter::new(DB::new());
    assert_eq!(run(&mut it, &["sEt", "a", "1"], 0), b"+OK\r\n".to_vec());
    assert_eq!(run(&mut it, &["incr", "a"], 0), b":2\r\n".to_vec());
    assert_eq!(run(&mut it, &["Decr", "a"], 0), b":1\r\n".to_vec());
}

#[test]
fn del_exists_and_keys_replies() {
    let mut it = Interpreter::new(DB::new());
    run(&mut it, &["SET", "a", "1"], 0);
    run(&mut it, &["SET", "ab", "2"], 0);
    assert_eq!(run(&mut it, &["EXISTS", "a"], 0), b":1\r\n".to_vec());
    assert_eq!(run(&mut it, &["KEYS", "ab*"], 0), b"*1\r\n$2\r\nab\r\n".to_vec());
    assert_eq!(run(&mut it, &["KEYS", "zz*"], 0), b"*0\r\n".to_vec());
    assert_eq!(run(&mut it, &["DEL", "a"], 0), b":1\r\n".to_vec());
    assert_eq!(run(&mut it, &["DEL", "a"], 0), b":0\r\n".to_vec());
    assert_eq!(run(&mut it, &["EXISTS", "a"], 0), b":0\r\n".to_vec());
}

#[test]
fn incr_error_and_bad_expire() {
    let mut it = Interpreter::new(DB::new());
    run(&mut it, &["SET", "t", "abc"], 0);
    assert_eq!(run(&mut it, &["INCR", "t"], 0), b"-value is not an integer or out of range\r\n".to_vec());
    assert_eq!(run(&mut it, &["EXPIRE", "t", "soon"], 0), b"-value is not an integer or out of range\r\n".to_vec());
    assert_eq!(run(&mut it, &["EXPIRE", "t", "-3"], 0), b"-value is not an integer or out of range\r\n".to_vec());
    assert_eq!(run(&mut it, &["EXPIRE", "none", "3"], 0), b":0\r\n".to_vec());
    assert_eq!(run(&mut it, &["PERSIST", "t"], 0), b":0\r\n".to_vec());
    assert_eq!(run(&mut it, &["EXPIRE", "t", "3"], 0), b":1\r\n".to_vec());
    assert_eq!(run(&mut it, &["PERSIST", "t"], 0), b":1\r\n".to_vec());
}

#[test]
fn clock_reading_exec() {
    let mut it = Interpreter::new(DB::new());
    assert!(matches!(it.exec_args(vec!["SET".to_string(), "a".to_string(), "b".to_string()]), Reply::SimpleString(_)));
    assert_eq!(encode(&it.exec_args(vec!["GET".to_string(), "a".to_string()])), b"$1\r\nb\r\n".to_vec());
}

#[test]
fn decimal_text() {
    assert_eq!(format_u64(0), "0");
    assert_eq!(format_u64(18446744073709551615), "18446744073709551615");
    assert_eq!(format_i64(-120), "-120");
    assert_eq!(format_i64(i64::MIN), "-9223372036854775808");
    assert_eq!(parse_i64("+7"), Some(7));
    assert_eq!(parse_i64("-0"), Some(0));
    assert_eq!(parse_i64("12a"), None);
    assert_eq!(parse_i64(""), None);
    assert_eq!(parse_i64("-"), None);
    assert_eq!(parse_i64(" 1"), None);
    assert_eq!(parse_i64("9223372036854775808"), None);
    assert_eq!(parse_i64("-9223372036854775808"), Some(i64::MIN));
    assert!(equal_ignore_case("PerSist", "PERSIST"));
    assert!(!equal_ignore_case("PERSIS", "PERSIST"));
    assert!(!equal_ignore_case("ä", "Ä"));
}

#[test]
fn error_messages() {
    assert_eq!(HexagonError::KeyNotFound("k".to_string()).message(), "Key not found: k");
    assert_eq!(HexagonError::InvalidValue("v".to_string()).message(), "Invalid value: v");
    assert_eq!(HexagonError::UnknownCommand("X".to_string()).message(), "Unknown command: X");
    assert_eq!(
        HexagonError::WrongNumberOfArguments { command: "GET".to_string(), expected: 1, got: 0 }.message(),
        "Wrong number of arguments for 'GET' command (expected 1, got 0)"
    );
    assert_eq!(HexagonError::InvalidArgument("a".to_string()).message(), "Invalid argument: a");
    assert_eq!(HexagonError::ConnectionClosed.message(), "Connection closed");
    let e = HexagonError::from(std::io::Error::new(std::io::ErrorKind::Other, "boom"));
    assert_eq!(e.message(), "I/O error: boom");
    assert!(e.source().is_some());
    assert!(HexagonError::ConnectionClosed.source().is_none());
}

#[test]
fn step_handles_one_request_at_a_time() {
    let mut it = Interpreter::new(DB::new());
    let mut buf = encode_request(&vec!["SET".to_string(), "x".to_string(), "10".to_string()]);
    let first = buf.len();
    buf.extend_from_slice(&encode_request(&vec!["GET".to_string(), "x".to_string()]));
    match it.step_at(&buf, 0) {
        Step::Respond(out, n) => {
            assert_eq!(out, b"+OK\r\n".to_vec());
            assert_eq!(n, first);
        }
        _ => panic!("expected a reply"),
    }
    match it.step_at(&buf[first..], 0) {
        Step::Respond(out, n) => {
            assert_eq!(out, b"$2\r\n10\r\n".to_vec());
            assert_eq!(n, buf.len() - first);
        }
        _ => panic!("expected a reply"),
    }
    assert!(matches!(it.step_at(&buf[..3], 0), Step::Wait));
    assert!(matches!(it.step_at(b"*0\r\n", 0), Step::Skip(4)));
    match it.step_at(b"hello\r\n", 0) {
        Step::Close(out) => assert_eq!(out, b"-Protocol error: malformed request\r\n".to_vec()),
        _ => panic!("expected a protocol error"),
    }
    match it.step_at(b"*1\r\n$1\r\n\xff\r\n", 0) {
        Step::Close(out) => assert_eq!(out, b"-Protocol error: argument is not UTF-8\r\n".to_vec()),
        _ => panic!("expected a protocol error"),
    }
}

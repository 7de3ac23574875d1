use hexagondb::codec::{decode, encode, encode_request, Decoded, Reply};

fn s(x: &str) -> String {
    x.to_string()
}

fn args(xs: &[&str]) -> Vec<String> {
    xs.iter().map(|x| x.to_string()).collect()
}

#[test]
fn encodes_each_variant() {
    assert_eq!(encode(&Reply::SimpleString(s("OK"))), b"+OK\r\n".to_vec());
    assert_eq!(encode(&Reply::Error(s("bad"))), b"-bad\r\n".to_vec());
    assert_eq!(encode(&Reply::Integer(-42)), b":-42\r\n".to_vec());
    assert_eq!(encode(&Reply::Integer(i64::MIN)), b":-9223372036854775808\r\n".to_vec());
    assert_eq!(encode(&Reply::Integer(0)), b":0\r\n".to_vec());
    assert_eq!(encode(&Reply::BulkString(Some(s("10")))), b"$2\r\n10\r\n".to_vec());
    assert_eq!(encode(&Reply::BulkString(Some(s("")))), b"$0\r\n\r\n".to_vec());
    assert_eq!(encode(&Reply::BulkString(None)), b"$-1\r\n".to_vec());
    assert_eq!(encode(&Reply::Array(None)), b"*-1\r\n".to_vec());
    assert_eq!(encode(&Reply::Array(Some(vec![]))), b"*0\r\n".to_vec());
}

#[test]
fn encodes_nested_arrays_in_order() {
    let r = Reply::Array(Some(vec![
        Reply::Integer(1),
        Reply::Array(Some(vec![Reply::BulkString(Some(s("é"))), Reply::BulkString(None)])),
    ]));
    assert_eq!(encode(&r), "*2\r\n:1\r\n*2\r\n$2\r\né\r\n$-1\r\n".as_bytes().to_vec());
}

#[test]
fn encodes_requests() {
    assert_eq!(encode_request(&args(&["GET", "x"])), b"*2\r\n$3\r\nGET\r\n$1\r\nx\r\n".to_vec());
    assert_eq!(encode_request(&args(&[])), b"*0\r\n".to_vec());
}

#[test]
fn decodes_a_whole_request() {
    let b = b"*2\r\n$3\r\nGET\r\n$1\r\nx\r\nrest";
    match decode(b) {
        Decoded::Parsed(a, n) => {
            assert_eq!(a, args(&["GET", "x"]));
            assert_eq!(n, 20);
        }
        _ => panic!("expected a request"),
    }
}

#[test]
fn round_trip_recovers_arguments() {
    let cases = vec![
        args(&["SET", "key", "value with spaces"]),
        args(&["PING"]),
        args(&["ECHO", "", "ünïcödé", "12345678901"]),
    ];
    for c in cases {
        let b = encode_request(&c);
        match decode(&b) {
            Decoded::Parsed(a, n) => {
                assert_eq!(a, c);
                assert_eq!(n, b.len());
            }
            _ => panic!("expected a request"),
        }
    }
}

#[test]
fn every_strict_prefix_is_incomplete() {
    let whole = encode_request(&args(&["SET", "k", "v10"]));
    for cut in 0..whole.len() {
        assert!(matches!(decode(&whole[..cut]), Decoded::Incomplete), "cut at {}", cut);
    }
    let mut joined = whole[..7].to_vec();
    joined.extend_from_slice(&whole[7..]);
    match decode(&joined) {
        Decoded::Parsed(a, n) => {
            assert_eq!(a, args(&["SET", "k", "v10"]));
            assert_eq!(n, whole.len());
        }
        _ => panic!("expected a request"),
    }
}

#[test]
fn malformed_requests_are_errors() {
    for b in [
        &b"+OK\r\n"[..],
        b"*x\r\n",
        b"*-1\r\n",
        b"*1\r\n:5\r\n",
        b"*1\r\n$2\r\nab!\n",
        b"*1\r\n$2\r\nabc",
        b"*01\r\n$1\r\na\r\n",
        b"*1\n",
        b"*1\r\n$1234567890123456789\r\n",
        b"*1\r\n$2\r\n\xff\xfe\r\n",
    ] {
        assert!(matches!(decode(b), Decoded::ProtocolError(_)), "{:?}", b);
    }
}

#[test]
fn two_requests_in_one_buffer() {
    let mut b = encode_request(&args(&["GET", "a"]));
    let first = b.len();
    b.extend_from_slice(&encode_request(&args(&["GET", "b"]))[..5]);
    match decode(&b) {
        Decoded::Parsed(a, n) => {
            assert_eq!(a, args(&["GET", "a"]));
            assert_eq!(n, first);
            assert!(matches!(decode(&b[n..]), Decoded::Incomplete));
        }
        _ => panic!("expected a request"),
    }
}

use rstredis::protocol::{Command, RedisValue, Response};
use rstredis::parser::parse_command;
use rstredis::resp::{read_command, read_response, write_command, write_response};

fn encode_command(c: Command) -> Vec<u8> {
    let mut out = Vec::new();
    write_command(&mut out, c);
    out
}

fn encode_response(r: Response) -> Vec<u8> {
    let mut out = Vec::new();
    write_response(&mut out, r);
    out
}

#[test]
fn writes_commands_as_arrays_of_bulk_strings() {
    let set = Command::SetKey { key: b"k".to_vec(), value: RedisValue::Str(b"hello".to_vec()) };
    assert_eq!(encode_command(set), b"*3\r\n$3\r\nSET\r\n$1\r\nk\r\n$5\r\nhello\r\n".to_vec());
    assert_eq!(encode_command(Command::Get { key: b"k".to_vec() }), b"*2\r\n$3\r\nGET\r\n$1\r\nk\r\n".to_vec());
    assert_eq!(
        encode_command(Command::Del { keys: vec![b"a".to_vec(), b"bb".to_vec()] }),
        b"*3\r\n$3\r\nDEL\r\n$1\r\na\r\n$2\r\nbb\r\n".to_vec()
    );
    assert_eq!(encode_command(Command::Save), b"*1\r\n$4\r\nSAVE\r\n".to_vec());
}

#[test]
fn writes_responses() {
    assert_eq!(encode_response(Response::Okay), b"+OK\r\n".to_vec());
    assert_eq!(encode_response(Response::Simple("hi".to_string())), b"+hi\r\n".to_vec());
    assert_eq!(encode_response(Response::Nil), b"$-1\r\n".to_vec());
    assert_eq!(encode_response(Response::Bulk(b"abc".to_vec())), b"$3\r\nabc\r\n".to_vec());
    assert_eq!(encode_response(Response::Integer(-7)), b":-7\r\n".to_vec());
    assert_eq!(encode_response(Response::Error("ERR x".to_string())), b"-ERR x\r\n".to_vec());
}

#[test]
fn reads_a_command_back() {
    let bytes = encode_command(Command::Del { keys: vec![b"a".to_vec(), b"b\r\nc".to_vec()] });
    let mut stream = bytes.clone();
    stream.extend_from_slice(b"*1\r\n");
    match read_command(&stream, false) {
        Some(Ok((parts, n))) => {
            assert_eq!(parts, vec![b"DEL".to_vec(), b"a".to_vec(), b"b\r\nc".to_vec()]);
            assert_eq!(n, bytes.len());
        }
        _ => panic!("expected the parts"),
    }
}

#[test]
fn incomplete_command_needs_more_until_the_stream_ends() {
    let bytes = b"*2\r\n$3\r\nGET\r\n$1\r\n".to_vec();
    assert!(read_command(&bytes, false).is_none());
    match read_command(&bytes, true) {
        Some(Err(e)) => assert_eq!(e, "failed to fill whole buffer"),
        _ => panic!("expected an error"),
    }
    let partial_body = b"*1\r\n$5\r\nab".to_vec();
    assert!(read_command(&partial_body, false).is_none());
    match read_command(&partial_body, true) {
        Some(Err(e)) => assert_eq!(e, "failed to fill whole buffer"),
        _ => panic!("expected an error"),
    }
}

#[test]
fn command_errors() {
    let expect = |input: &[u8], msg: &str| match read_command(input, true) {
        Some(Err(e)) => assert_eq!(e, msg),
        _ => panic!("expected an error for {:?}", input),
    };
    expect(b"", "ERR expected RESP array");
    expect(b"+OK\r\n", "ERR expected RESP array");
    expect(b"*x\r\n", "ERR invalid length");
    expect(b"*-1\r\n", "ERR invalid length");
    expect(b"*1\r\n:1\r\n", "ERR invalid command");
    expect(b"*1\r\n$2\r\nabXY", "ERR invalid bulk terminator");
    expect(b"*1\xff\r\n", "stream did not contain valid UTF-8");
    expect(b"*1\r\n$1\xff\r\n", "ERR stream did not contain valid UTF-8");
}

#[test]
fn empty_array_takes_only_its_header_line() {
    match read_command(b"*0\r\n\r\n", true) {
        Some(Ok((parts, n))) => {
            assert!(parts.is_empty());
            assert_eq!(n, 4);
        }
        _ => panic!("expected an empty request"),
    }
}

#[test]
fn reads_responses_back() {
    let rs = vec![
        Response::Simple("héllo".to_string()),
        Response::Nil,
        Response::Bulk(b"x\r\ny".to_vec()),
        Response::Integer(i64::MIN),
        Response::Error("ERR no".to_string()),
    ];
    for r in rs {
        let bytes = encode_response(clone_response(&r));
        match read_response(&bytes, false) {
            Some(Ok((back, n))) => {
                assert_eq!(n, bytes.len());
                assert!(same_response(&back, &r));
            }
            _ => panic!("expected a response"),
        }
    }
    match read_response(b"+OK\r\n", true) {
        Some(Ok((Response::Simple(s), 5))) => assert_eq!(s, "OK"),
        _ => panic!("expected OK"),
    }
}

#[test]
fn response_errors() {
    let expect = |input: &[u8], msg: &str| match read_response(input, true) {
        Some(Err(e)) => assert_eq!(e, msg),
        _ => panic!("expected an error for {:?}", input),
    };
    expect(b"", "failed to fill whole buffer");
    expect(b"?x\r\n", "unknown response type");
    expect(b"+no end", "invalid CRLF terminator");
    expect(b"+bad\xff\r\n", "invalid utf8 simple string");
    expect(b"-bad\xff\r\n", "invalid utf8 error");
    expect(b":12a\r\n", "invalid integer");
    expect(b":99999999999999999999\r\n", "invalid integer");
    expect(b"$-2\r\n", "invalid bulk length");
    expect(b"$x\r\n", "invalid bulk length");
    expect(b"$3\r\nab", "failed to fill whole buffer");
    expect(b"$2\r\nabcd", "invalid bulk terminator");
    assert!(read_response(b"$3\r\nab", false).is_none());
    assert!(read_response(b":1", false).is_none());
}

fn clone_response(r: &Response) -> Response {
    match r {
        Response::Okay => Response::Okay,
        Response::Simple(s) => Response::Simple(s.clone()),
        Response::Nil => Response::Nil,
        Response::Bulk(b) => Response::Bulk(b.clone()),
        Response::Integer(i) => Response::Integer(*i),
        Response::Error(e) => Response::Error(e.clone()),
    }
}

fn same_response(a: &Response, b: &Response) -> bool {
    match (a, b) {
        (Response::Okay, Response::Okay) | (Response::Nil, Response::Nil) => true,
        (Response::Simple(x), Response::Simple(y)) | (Response::Error(x), Response::Error(y)) => x == y,
        (Response::Bulk(x), Response::Bulk(y)) => x == y,
        (Response::Integer(x), Response::Integer(y)) => x == y,
        _ => false,
    }
}

#[test]
fn a_written_command_parses_back_to_itself() {
    let bytes = encode_command(Command::SetKey { key: b"k y".to_vec(), value: RedisValue::Str(b"\r\n".to_vec()) });
    let parts = match read_command(&bytes, true) {
        Some(Ok((parts, n))) => {
            assert_eq!(n, bytes.len());
            parts
        }
        _ => panic!("expected parts"),
    };
    match parse_command(&parts) {
        Ok(Command::SetKey { key, value: RedisValue::Str(value) }) => {
            assert_eq!(key, b"k y".to_vec());
            assert_eq!(value, b"\r\n".to_vec());
        }
        _ => panic!("expected SET"),
    }
}

use rstredis::parser::{generate_error, parse_command, parse_named_command};
use rstredis::protocol::{Command, RedisValue};

fn parts(items: &[&[u8]]) -> Vec<Vec<u8>> {
    items.iter().map(|p| p.to_vec()).collect()
}

#[test]
fn error_text_has_err_prefix() {
    assert_eq!(generate_error("boom".to_string()), "ERR boom");
}

#[test]
fn parses_set_in_any_case() {
    match parse_command(&parts(&[b"sEt", b"k", b"v"])) {
        Ok(Command::SetKey { key, value: RedisValue::Str(value) }) => {
            assert_eq!(key, b"k".to_vec());
            assert_eq!(value, b"v".to_vec());
        }
        _ => panic!("expected SET"),
    }
}

#[test]
fn parses_get_del_save() {
    match parse_command(&parts(&[b"get", b"k"])) {
        Ok(Command::Get { key }) => assert_eq!(key, b"k".to_vec()),
        _ => panic!("expected GET"),
    }
    match parse_command(&parts(&[b"DEL", b"a", b"b", b"a"])) {
        Ok(Command::Del { keys }) => assert_eq!(keys, parts(&[b"a", b"b", b"a"])),
        _ => panic!("expected DEL"),
    }
    assert!(matches!(parse_command(&parts(&[b"save"])), Ok(Command::Save)));
}

#[test]
fn empty_request_is_refused() {
    match parse_command(&Vec::new()) {
        Err(e) => assert_eq!(e, "empty command"),
        Ok(_) => panic!("expected an error"),
    }
}

#[test]
fn arity_errors() {
    let cases: Vec<(Vec<Vec<u8>>, &str)> = vec![
        (parts(&[b"SET", b"k"]), "ERR wrong number of arguments for SET"),
        (parts(&[b"SET", b"k", b"v", b"w"]), "ERR wrong number of arguments for SET"),
        (parts(&[b"GET"]), "ERR wrong number of arguments for GET"),
        (parts(&[b"GET", b"a", b"b"]), "ERR wrong number of arguments for GET"),
        (parts(&[b"DEL"]), "ERR wrong number of arguments for DEL"),
        (parts(&[b"SAVE", b"x"]), "ERR wrong number of arguments for SAVE"),
    ];
    for (p, msg) in cases {
        match parse_command(&p) {
            Err(e) => assert_eq!(e, msg),
            Ok(_) => panic!("expected an arity error"),
        }
    }
}

#[test]
fn unknown_command_is_named_in_upper_case() {
    match parse_command(&parts(&[b"ping"])) {
        Err(e) => assert_eq!(e, "ERR unknown command 'PING'"),
        Ok(_) => panic!("expected an error"),
    }
}

#[test]
fn unknown_command_with_bad_utf8_is_shown_lossily() {
    match parse_command(&parts(&[b"a\xffb"])) {
        Err(e) => assert_eq!(e, "ERR unknown command 'A\u{FFFD}B'"),
        Ok(_) => panic!("expected an error"),
    }
}

#[test]
fn named_command_uses_the_given_name() {
    match parse_named_command(&"GET".to_string(), &parts(&[b"whatever", b"k"])) {
        Ok(Command::Get { key }) => assert_eq!(key, b"k".to_vec()),
        _ => panic!("expected GET"),
    }
}

use rstredis::protocol::{Command, Response};
use rstredis::server::{next_client_step, ClientStep};

#[test]
fn forwards_a_complete_command() {
    let bytes = b"*2\r\n$3\r\nget\r\n$1\r\nk\r\nrest";
    match next_client_step(bytes, false) {
        ClientStep::Forward { command: Command::Get { key }, consumed } => {
            assert_eq!(key, b"k".to_vec());
            assert_eq!(consumed, bytes.len() - 4);
        }
        _ => panic!("expected a command"),
    }
}

#[test]
fn waits_for_more_bytes() {
    assert!(matches!(next_client_step(b"*2\r\n$3\r\nGET", false), ClientStep::NeedMore));
}

#[test]
fn rejects_an_unknown_command_and_goes_on() {
    match next_client_step(b"*1\r\n$4\r\nPING\r\n", false) {
        ClientStep::Reject { response: Response::Error(e), consumed } => {
            assert_eq!(e, "ERR unknown command 'PING'");
            assert_eq!(consumed, 14);
        }
        _ => panic!("expected a rejection"),
    }
}

#[test]
fn fails_on_a_malformed_request() {
    match next_client_step(b"GET k\r\n", false) {
        ClientStep::Fail { response: Response::Error(e) } => assert_eq!(e, "ERR expected RESP array"),
        _ => panic!("expected a failure"),
    }
}

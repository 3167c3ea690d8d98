use rstredis::cli::{can_split, display_response, is_exit_command, line_action, split, trim_line, LineAction};
use rstredis::protocol::{Command, RedisValue};
use rstredis::protocol::Response;

#[test]
fn splits_on_spaces() {
    assert_eq!(split("SET  key value"), vec!["SET", "key", "value"]);
    assert_eq!(split("  "), Vec::<&str>::new());
}

#[test]
fn quotes_keep_spaces() {
    assert_eq!(split("SET key \"hello world\""), vec!["SET", "key", "hello world"]);
}

#[test]
fn no_end_quote_means_the_token_runs_to_the_end() {
    assert_eq!(split("SET key \"hello world"), vec!["SET", "key", "\"hello world"]);
}

#[test]
fn quote_inside_a_word_closes_it_early() {
    assert_eq!(split("ab\"cd\""), vec!["b", "d"]);
}

#[test]
fn non_ascii_text_splits_by_characters() {
    assert!(can_split("SET clé \"été chaud\""));
    assert_eq!(split("SET clé \"été chaud\""), vec!["SET", "clé", "été chaud"]);
    assert!(!can_split("é\"x\""));
}

#[test]
fn exit_words() {
    assert!(is_exit_command("exit"));
    assert!(is_exit_command("QuIt"));
    assert!(!is_exit_command("exits"));
}

#[test]
fn shown_text_of_responses() {
    assert_eq!(display_response(&Response::Okay), b"OK".to_vec());
    assert_eq!(display_response(&Response::Nil), b"(nil)".to_vec());
    assert_eq!(display_response(&Response::Integer(-3)), b"-3".to_vec());
    assert_eq!(display_response(&Response::Bulk(b"v".to_vec())), b"v".to_vec());
    assert_eq!(display_response(&Response::Error("ERR x".to_string())), b"ERR x".to_vec());
    assert_eq!(display_response(&Response::Simple("é".to_string())), "é".as_bytes().to_vec());
}

#[test]
fn quoted_tokens_joined_by_spaces_split_back() {
    let ts = vec!["a b", "", "été", "x"];
    let line = ts.iter().map(|t| format!("\"{t}\"")).collect::<Vec<_>>().join(" ");
    assert!(can_split(&line));
    assert_eq!(split(&line), ts);
}

#[test]
fn plain_text_splits_into_runs_of_non_spaces() {
    assert_eq!(split(" one  two three "), vec!["one", "two", "three"]);
}

#[test]
fn trims_unicode_white_space() {
    assert_eq!(trim_line("\t\u{3000} get k \r\n"), "get k");
    assert_eq!(trim_line(" \n "), "");
}

#[test]
fn line_decisions() {
    assert!(matches!(line_action("   \n"), LineAction::Skip));
    assert!(matches!(line_action("  Exit\n"), LineAction::Quit));
    match line_action("set k \"a b\"\n") {
        LineAction::Send(Command::SetKey { key, value: RedisValue::Str(value) }) => {
            assert_eq!(key, b"k".to_vec());
            assert_eq!(value, b"a b".to_vec());
        }
        _ => panic!("expected SET"),
    }
    match line_action("get\n") {
        LineAction::Report(e) => assert_eq!(e, "ERR wrong number of arguments for GET"),
        _ => panic!("expected an error"),
    }
    match line_action("\"\"\n") {
        LineAction::Report(e) => assert_eq!(e, "ERR unknown command ''"),
        _ => panic!("expected an error"),
    }
}

//! Command parsing and execution against the store.

use tiny_redis::cmd::{Command, CommandError};
use tiny_redis::resp::types::RespType;
use tiny_redis::storage::db::DB;
use tiny_redis::text::{eq_ignore_case, parse_i64, str_eq};

fn bulk(s: &str) -> RespType {
    RespType::BulkString(String::from(s))
}

#[test]
fn parse_ping_without_message() {
    let cmd = Command::from_resp_command_frame(vec![bulk("PING")]).unwrap();
    let mut db = DB::new();
    assert_eq!(cmd.execute(&mut db), RespType::SimpleString(String::from("PONG")));
}

#[test]
fn parse_ping_with_message() {
    let cmd = Command::from_resp_command_frame(vec![bulk("ping"), bulk("hey")]).unwrap();
    let mut db = DB::new();
    assert_eq!(cmd.execute(&mut db), RespType::BulkString(String::from("hey")));
}

#[test]
fn ping_rejects_two_arguments() {
    let r = Command::from_resp_command_frame(vec![bulk("PING"), bulk("a"), bulk("b")]);
    assert!(matches!(r, Err(CommandError::InvalidFormat)));
}

#[test]
fn command_name_is_case_insensitive() {
    let cmd = Command::from_resp_command_frame(vec![bulk("SeT"), bulk("k"), bulk("v")]).unwrap();
    let mut db = DB::new();
    assert_eq!(cmd.execute(&mut db), RespType::BulkString(String::from("OK")));
    let get = Command::from_resp_command_frame(vec![bulk("GET"), bulk("k")]).unwrap();
    assert_eq!(get.execute(&mut db), RespType::BulkString(String::from("v")));
}

#[test]
fn unknown_command_reports_name() {
    let r = Command::from_resp_command_frame(vec![bulk("FLUSHALL")]);
    match r {
        Err(e @ CommandError::UnknownCommand(_)) => {
            assert_eq!(e.message(), String::from("Unknown command: FLUSHALL"));
        },
        _ => panic!("expected an unknown-command error"),
    }
}

#[test]
fn empty_frame_is_invalid() {
    let r = Command::from_resp_command_frame(Vec::new());
    assert!(matches!(r, Err(CommandError::InvalidFormat)));
}

#[test]
fn non_bulk_name_is_invalid() {
    let r = Command::from_resp_command_frame(vec![RespType::Integer(3)]);
    assert!(matches!(r, Err(CommandError::InvalidFormat)));
}

#[test]
fn set_requires_two_arguments() {
    let r = Command::from_resp_command_frame(vec![bulk("SET"), bulk("k")]);
    match r {
        Err(e @ CommandError::Other(_)) => {
            assert_eq!(
                e.message(),
                String::from("Wrong number of arguments specified for 'SET' command")
            );
        },
        _ => panic!("expected an arity error"),
    }
}

#[test]
fn get_requires_one_argument() {
    let r = Command::from_resp_command_frame(vec![bulk("GET")]);
    assert!(matches!(r, Err(CommandError::Other(_))));
}

#[test]
fn lpush_requires_key_and_value() {
    let r = Command::from_resp_command_frame(vec![bulk("LPUSH"), bulk("k")]);
    assert!(matches!(r, Err(CommandError::Other(_))));
}

#[test]
fn push_values_must_be_bulk() {
    let r = Command::from_resp_command_frame(vec![bulk("RPUSH"), bulk("k"), RespType::Integer(1)]);
    match r {
        Err(e @ CommandError::Other(_)) => {
            assert_eq!(e.message(), String::from("Invalid argument. Value must be a bulk string"));
        },
        _ => panic!("expected a bulk-string error"),
    }
}

#[test]
fn lrange_index_must_be_integer() {
    let r = Command::from_resp_command_frame(vec![bulk("LRANGE"), bulk("k"), bulk("x"), bulk("1")]);
    match r {
        Err(e @ CommandError::Other(_)) => {
            assert_eq!(e.message(), String::from("index should be an integer"));
        },
        _ => panic!("expected an index error"),
    }
}

#[test]
fn lrange_wrong_arity_is_invalid_format() {
    let r = Command::from_resp_command_frame(vec![bulk("LRANGE"), bulk("k"), bulk("0")]);
    assert!(matches!(r, Err(CommandError::InvalidFormat)));
}

#[test]
fn lrange_executes_against_store() {
    let mut db = DB::new();
    let push =
        Command::from_resp_command_frame(vec![bulk("RPUSH"), bulk("k"), bulk("a"), bulk("b")])
            .unwrap();
    assert_eq!(push.execute(&mut db), RespType::Integer(2));
    let range = Command::from_resp_command_frame(vec![
        bulk("LRANGE"),
        bulk("k"),
        bulk("0"),
        bulk("-1"),
    ])
    .unwrap();
    assert_eq!(range.execute(&mut db), RespType::Array(vec![bulk("a"), bulk("b")]));
}

#[test]
fn multi_family_rejects_extra_arguments() {
    for name in ["MULTI", "EXEC", "DISCARD"] {
        let r = Command::from_resp_command_frame(vec![bulk(name), bulk("x")]);
        match r {
            Err(e @ CommandError::Other(_)) => {
                assert_eq!(
                    e.message(),
                    format!("Wrong number of arguments specified for '{}' command", name)
                );
            },
            _ => panic!("expected an arity error"),
        }
    }
}

#[test]
fn parse_i64_accepts_signs_and_zeros() {
    assert_eq!(parse_i64("0"), Some(0));
    assert_eq!(parse_i64("-1"), Some(-1));
    assert_eq!(parse_i64("+7"), Some(7));
    assert_eq!(parse_i64("007"), Some(7));
    assert_eq!(parse_i64("9223372036854775807"), Some(i64::MAX));
    assert_eq!(parse_i64("-9223372036854775808"), Some(i64::MIN));
}

#[test]
fn parse_i64_rejects_garbage_and_overflow() {
    assert_eq!(parse_i64(""), None);
    assert_eq!(parse_i64("-"), None);
    assert_eq!(parse_i64("1a"), None);
    assert_eq!(parse_i64(" 1"), None);
    assert_eq!(parse_i64("9223372036854775808"), None);
    assert_eq!(parse_i64("-9223372036854775809"), None);
}

#[test]
fn text_helpers_compare_correctly() {
    assert!(str_eq("abc", "abc"));
    assert!(!str_eq("abc", "abd"));
    assert!(!str_eq("abc", "ab"));
    assert!(eq_ignore_case("LRange", "lrange"));
    assert!(!eq_ignore_case("lrange", "lrang"));
    assert!(!eq_ignore_case("a_", "A-"));
}

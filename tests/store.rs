use redis_lite::command::{
    dispatch, extract_command, parse_command, Redis, RedisCommand, RedisCommandType, Reply,
};
use redis_lite::error::RedisError;
use redis_lite::resp::RespType;

fn bulk(s: &str) -> RespType {
    RespType::BulkStrings(s.as_bytes().to_vec())
}

fn args(items: &[&str]) -> Vec<RespType> {
    items.iter().map(|s| bulk(s)).collect()
}

fn get(store: &mut Redis, key: &str, now: u64) -> RespType {
    let mut r = store.redis_get(bulk(key), now);
    assert_eq!(r.0.len(), 1);
    r.0.remove(0)
}

fn is_ok_reply(v: &RespType) -> bool {
    v.same_value(&RespType::SimpleStrings("OK".to_string()))
}

#[test]
fn unknown_command_is_reported() {
    let req = RespType::Arrays(vec![bulk("FOOBAR")]);
    assert_eq!(parse_command(req).unwrap_err(), RedisError::UnknownCommand);
}

#[test]
fn malformed_requests_are_reported() {
    assert_eq!(parse_command(RespType::Arrays(Vec::new())).unwrap_err(), RedisError::MalformedCommand);
    assert_eq!(parse_command(bulk("GET")).unwrap_err(), RedisError::MalformedCommand);
    let named_by_int = RespType::Arrays(vec![RespType::Integers(1)]);
    assert_eq!(parse_command(named_by_int).unwrap_err(), RedisError::MalformedCommand);
}

#[test]
fn command_names_ignore_case() {
    let (kind, rest) = parse_command(RespType::Arrays(args(&["gEt", "k"]))).unwrap();
    assert_eq!(kind, RedisCommandType::Get);
    assert_eq!(rest.len(), 1);
    assert!(rest[0].same_value(&bulk("k")));
    assert_eq!(RedisCommandType::from(b"set"), Some(RedisCommandType::SetKey));
    assert_eq!(RedisCommandType::from(b"PING"), Some(RedisCommandType::Ping));
    assert_eq!(RedisCommandType::from(b"Echo"), Some(RedisCommandType::Echo));
    assert_eq!(RedisCommandType::from(b"info"), Some(RedisCommandType::Info));
    assert_eq!(RedisCommandType::from(b"gets"), None);
}

#[test]
fn extract_command_splits_name_and_args() {
    let (name, rest) = extract_command(RespType::Arrays(args(&["ECHO", "hi"]))).unwrap();
    assert_eq!(name, b"ECHO".to_vec());
    assert_eq!(rest.len(), 1);
    assert!(rest[0].same_value(&bulk("hi")));
}

#[test]
fn set_with_one_argument_is_an_arity_error() {
    let mut store = Redis::new();
    assert_eq!(store.redis_set(args(&["k"]), 0).err(), Some(RedisError::ArityError));
    assert!(!store.contains_key(&bulk("k")));
}

#[test]
fn set_without_options_never_expires() {
    let mut store = Redis::new();
    let r = store.redis_set(args(&["k", "v"]), 0).unwrap();
    assert_eq!(r.0.len(), 1);
    assert!(is_ok_reply(&r.0[0]));
    assert!(get(&mut store, "k", 0).same_value(&bulk("v")));
    assert!(get(&mut store, "k", u64::MAX).same_value(&bulk("v")));
}

#[test]
fn ex_one_second_expires_after_a_second() {
    let mut store = Redis::new();
    store.redis_set(args(&["k", "v", "EX", "1"]), 5_000).unwrap();
    assert!(get(&mut store, "k", 5_000).same_value(&bulk("v")));
    assert!(get(&mut store, "k", 5_999).same_value(&bulk("v")));
    assert!(get(&mut store, "k", 6_000).same_value(&RespType::Nulls));
    assert!(!store.contains_key(&bulk("k")));
}

#[test]
fn expired_key_stays_gone() {
    let mut store = Redis::new();
    store.redis_set(args(&["k", "v", "px", "10"]), 0).unwrap();
    assert!(get(&mut store, "k", 10).same_value(&RespType::Nulls));
    assert!(get(&mut store, "k", 10).same_value(&RespType::Nulls));
    assert!(get(&mut store, "k", 1_000_000).same_value(&RespType::Nulls));
    assert!(!store.contains_key(&bulk("k")));
}

#[test]
fn missing_key_reads_null() {
    let mut store = Redis::new();
    assert!(get(&mut store, "nope", 0).same_value(&RespType::Nulls));
}

#[test]
fn options_add_up() {
    let mut store = Redis::new();
    store.redis_set(args(&["k", "v", "EX", "1", "PX", "500"]), 0).unwrap();
    assert!(get(&mut store, "k", 1_499).same_value(&bulk("v")));
    assert!(get(&mut store, "k", 1_500).same_value(&RespType::Nulls));
}

#[test]
fn integer_durations_are_accepted() {
    let mut store = Redis::new();
    let a = vec![bulk("k"), bulk("v"), bulk("PX"), RespType::Integers(20)];
    store.redis_set(a, 100).unwrap();
    assert!(get(&mut store, "k", 119).same_value(&bulk("v")));
    assert!(get(&mut store, "k", 120).same_value(&RespType::Nulls));
}

#[test]
fn zero_duration_means_no_expiry() {
    let mut store = Redis::new();
    store.redis_set(args(&["k", "v", "EX", "0"]), 0).unwrap();
    assert!(get(&mut store, "k", u64::MAX).same_value(&bulk("v")));
}

#[test]
fn other_tokens_and_a_trailing_option_are_passed_over() {
    let mut store = Redis::new();
    store.redis_set(args(&["k", "v", "NX", "EX"]), 0).unwrap();
    assert!(get(&mut store, "k", u64::MAX).same_value(&bulk("v")));
}

#[test]
fn bad_durations_are_malformed_and_change_nothing() {
    let mut store = Redis::new();
    assert_eq!(store.redis_set(args(&["k", "v", "EX", "soon"]), 0).err(), Some(RedisError::MalformedCommand));
    let negative = vec![bulk("k"), bulk("v"), bulk("EX"), RespType::Integers(-1)];
    assert_eq!(store.redis_set(negative, 0).err(), Some(RedisError::MalformedCommand));
    assert_eq!(
        store.redis_set(args(&["k", "v", "EX", "18446744073709552"]), 0).err(),
        Some(RedisError::MalformedCommand)
    );
    assert_eq!(
        store.redis_set(args(&["k", "v", "PX", "99999999999999999999"]), 0).err(),
        Some(RedisError::MalformedCommand)
    );
    assert_eq!(store.redis_set(args(&["k", "v", "PX", "10"]), u64::MAX - 5).err(), Some(RedisError::MalformedCommand));
    assert!(!store.contains_key(&bulk("k")));
}

#[test]
fn last_set_wins() {
    let mut store = Redis::new();
    store.redis_set(args(&["k", "first", "EX", "1"]), 0).unwrap();
    store.redis_set(args(&["k", "second"]), 0).unwrap();
    assert!(get(&mut store, "k", 1_000_000).same_value(&bulk("second")));
}

#[test]
fn keys_compare_by_value() {
    let mut store = Redis::new();
    store.redis_set(args(&["a", "1"]), 0).unwrap();
    store.redis_set(args(&["b", "2"]), 0).unwrap();
    let int_key = vec![RespType::Integers(7), bulk("3")];
    store.redis_set(int_key, 0).unwrap();
    assert!(get(&mut store, "a", 0).same_value(&bulk("1")));
    assert!(get(&mut store, "b", 0).same_value(&bulk("2")));
    let mut r = store.redis_get(RespType::Integers(7), 0);
    assert!(r.0.remove(0).same_value(&bulk("3")));
    assert!(get(&mut store, "7", 0).same_value(&RespType::Nulls));
}

#[test]
fn handle_answers_errors_with_an_error_value() {
    let mut store = Redis::new();
    let r = store.handle(RedisCommand::SetKey(args(&["k"])), 0);
    assert_eq!(r.0.len(), 1);
    assert!(r.0[0].same_value(&RespType::SimpleErrors("ERR wrong number of arguments".to_string())));
    let r = store.handle(RedisCommand::SetKey(args(&["k", "v"])), 0);
    assert!(is_ok_reply(&r.0[0]));
    let r = store.handle(RedisCommand::Get(bulk("k")), 0);
    assert!(r.0[0].same_value(&bulk("v")));
}

#[test]
fn error_messages() {
    assert_eq!(RedisError::UnknownCommand.message(), "ERR unknown command");
    assert_eq!(RedisError::ProtocolError.message(), "ERR Protocol error");
    assert_eq!(RedisError::MalformedCommand.message(), "ERR malformed command");
}

#[test]
fn dispatch_answers_ping_echo_info() {
    match dispatch(RedisCommandType::Ping, Vec::new(), false).unwrap() {
        Reply::Immediate(v) => assert!(v.same_value(&RespType::SimpleStrings("PONG".to_string()))),
        _ => panic!("PING is answered at once"),
    }
    match dispatch(RedisCommandType::Echo, args(&["hey"]), false).unwrap() {
        Reply::Immediate(v) => assert!(v.same_value(&bulk("hey"))),
        _ => panic!("ECHO is answered at once"),
    }
    match dispatch(RedisCommandType::Info, args(&["replication"]), true).unwrap() {
        Reply::Immediate(v) => assert!(v.same_value(&bulk("role:slave"))),
        _ => panic!("INFO is answered at once"),
    }
    match dispatch(RedisCommandType::Info, args(&["replication"]), false).unwrap() {
        Reply::Immediate(v) => assert!(v.same_value(&bulk("role:master"))),
        _ => panic!("INFO is answered at once"),
    }
    assert_eq!(dispatch(RedisCommandType::Echo, Vec::new(), false).err(), Some(RedisError::ArityError));
}

#[test]
fn dispatch_hands_set_and_get_to_the_store() {
    match dispatch(RedisCommandType::Get, args(&["k", "extra"]), false).unwrap() {
        Reply::Store(RedisCommand::Get(k)) => assert!(k.same_value(&bulk("k"))),
        _ => panic!("GET goes to the store"),
    }
    match dispatch(RedisCommandType::SetKey, args(&["k", "v"]), false).unwrap() {
        Reply::Store(RedisCommand::SetKey(a)) => assert_eq!(a.len(), 2),
        _ => panic!("SET goes to the store"),
    }
    assert_eq!(dispatch(RedisCommandType::Get, Vec::new(), false).err(), Some(RedisError::ArityError));
}

use redis_lite::redis::commands::KvStore;
use redis_lite::redis::commands::RedisCommand;
use redis_lite::redis::resp::RESPDataTypes;

fn request(parts: &[&str]) -> RESPDataTypes {
    RESPDataTypes::Array(
        parts
            .iter()
            .map(|p| RESPDataTypes::BulkString(p.to_string()))
            .collect(),
    )
}

fn error_text(r: Result<RedisCommand, RESPDataTypes>) -> String {
    match r {
        Err(RESPDataTypes::BulkError(message)) => message,
        Err(_) => panic!("error is not a bulk error"),
        Ok(_) => panic!("expected an error"),
    }
}

fn reply(command: RedisCommand, store: &mut KvStore) -> Vec<u8> {
    let mut command = command;
    let mut out = Vec::new();
    command.respond(store, &mut out);
    out
}

#[test]
fn echo() {
    let redis_command = RedisCommand::try_from(RESPDataTypes::Array(vec![
        RESPDataTypes::BulkString("echo".to_string()),
        RESPDataTypes::BulkString("Hello World!".to_string()),
    ]));

    assert!(match redis_command {
        Ok(RedisCommand::ECHO { message: _ }) => true,
        _ => false,
    });

    if let Ok(RedisCommand::ECHO { message }) = redis_command {
        assert_eq!(message, String::from("Hello World!"));
    }
}

#[test]
fn command_names_ignore_case() {
    assert!(matches!(
        RedisCommand::try_from(request(&["PiNg"])),
        Ok(RedisCommand::PING { message: None })
    ));
    match RedisCommand::try_from(request(&["SET", "k", "v"])) {
        Ok(RedisCommand::SET { key, value }) => {
            assert_eq!(key, "k");
            assert_eq!(value, "v");
        }
        _ => panic!("expected SET"),
    }
    match RedisCommand::try_from(request(&["GeT", "k"])) {
        Ok(RedisCommand::GET { key }) => assert_eq!(key, "k"),
        _ => panic!("expected GET"),
    }
}

#[test]
fn ping_with_message() {
    match RedisCommand::try_from(request(&["ping", "hi", "extra"])) {
        Ok(RedisCommand::PING { message: Some(m) }) => assert_eq!(m, "hi"),
        _ => panic!("expected PING with a message"),
    }
}

#[test]
fn set_ignores_extra_arguments() {
    match RedisCommand::try_from(request(&["set", "k", "v", "EX", "10"])) {
        Ok(RedisCommand::SET { key, value }) => {
            assert_eq!(key, "k");
            assert_eq!(value, "v");
        }
        _ => panic!("expected SET"),
    }
}

#[test]
fn request_errors() {
    assert_eq!(
        error_text(RedisCommand::try_from(RESPDataTypes::SimpleString("ping".to_string()))),
        "resp datatype other than array of bulk string not supported"
    );
    assert_eq!(
        error_text(RedisCommand::try_from(RESPDataTypes::Array(vec![]))),
        "no command provided"
    );
    assert_eq!(
        error_text(RedisCommand::try_from(RESPDataTypes::Array(vec![
            RESPDataTypes::SimpleString("ping".to_string())
        ]))),
        "command must be type of bulk string"
    );
    assert_eq!(
        error_text(RedisCommand::try_from(RESPDataTypes::Array(vec![
            RESPDataTypes::BulkString("echo".to_string()),
            RESPDataTypes::Integer(1),
        ]))),
        "argument must be type of bulk string"
    );
    assert_eq!(
        error_text(RedisCommand::try_from(request(&["echo"]))),
        "message not provided for echo command"
    );
    assert_eq!(
        error_text(RedisCommand::try_from(request(&["set", "k"]))),
        "both key and value should be provided"
    );
    assert_eq!(
        error_text(RedisCommand::try_from(request(&["get"]))),
        "key not provided"
    );
    assert_eq!(
        error_text(RedisCommand::try_from(request(&["del", "k"]))),
        "unknown command"
    );
}

#[test]
fn from_lowercase_needs_lowered_name() {
    assert!(matches!(
        RedisCommand::from_lowercase("ping".to_string(), vec![]),
        Ok(RedisCommand::PING { message: None })
    ));
    assert_eq!(
        error_text(RedisCommand::from_lowercase("PING".to_string(), vec![])),
        "unknown command"
    );
}

#[test]
fn ping_replies_pong() {
    let mut store = KvStore::new();
    assert_eq!(
        reply(RedisCommand::PING { message: None }, &mut store),
        b"+PONG\r\n".to_vec()
    );
    assert_eq!(
        reply(RedisCommand::PING { message: Some("hey".to_string()) }, &mut store),
        b"$3\r\nhey\r\n".to_vec()
    );
}

#[test]
fn echo_replies_message() {
    let mut store = KvStore::new();
    assert_eq!(
        reply(RedisCommand::ECHO { message: "Hello World!".to_string() }, &mut store),
        b"$12\r\nHello World!\r\n".to_vec()
    );
}

#[test]
fn get_after_set() {
    let mut store = KvStore::new();
    assert_eq!(
        reply(RedisCommand::SET { key: "k".to_string(), value: "v1".to_string() }, &mut store),
        b"+OK\r\n".to_vec()
    );
    assert_eq!(
        reply(RedisCommand::GET { key: "k".to_string() }, &mut store),
        b"$2\r\nv1\r\n".to_vec()
    );
}

#[test]
fn second_set_replies_previous_value() {
    let mut store = KvStore::new();
    reply(RedisCommand::SET { key: "k".to_string(), value: "first".to_string() }, &mut store);
    assert_eq!(
        reply(RedisCommand::SET { key: "k".to_string(), value: "second".to_string() }, &mut store),
        b"$5\r\nfirst\r\n".to_vec()
    );
    assert_eq!(
        reply(RedisCommand::GET { key: "k".to_string() }, &mut store),
        b"$6\r\nsecond\r\n".to_vec()
    );
}

#[test]
fn set_leaves_other_keys() {
    let mut store = KvStore::new();
    reply(RedisCommand::SET { key: "a".to_string(), value: "1".to_string() }, &mut store);
    reply(RedisCommand::SET { key: "b".to_string(), value: "2".to_string() }, &mut store);
    assert_eq!(
        reply(RedisCommand::GET { key: "a".to_string() }, &mut store),
        b"$1\r\n1\r\n".to_vec()
    );
}

#[test]
fn get_missing_key_replies_null() {
    let mut store = KvStore::new();
    assert_eq!(
        reply(RedisCommand::GET { key: "nope".to_string() }, &mut store),
        b"-Error\r\n".to_vec()
    );
}

#[test]
fn respond_appends_to_stream() {
    let mut store = KvStore::new();
    let mut command = RedisCommand::PING { message: None };
    let mut out = b"x".to_vec();
    command.respond(&mut store, &mut out);
    assert_eq!(out, b"x+PONG\r\n".to_vec());
}

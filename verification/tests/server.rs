use redis_lite::redis::commands::KvStore;
use redis_lite::redis::resp::RESPDataTypes;
use redis_lite::redis::server::handle_request;
use redis_lite::redis::server::HandleStep;

fn bytes_of(step: HandleStep) -> Vec<u8> {
    match step {
        HandleStep::Reply(bytes) => bytes,
        HandleStep::Close => panic!("unexpected Close"),
        HandleStep::Skip => panic!("unexpected Skip"),
        HandleStep::Abort => panic!("unexpected Abort"),
    }
}

fn read(bytes: &[u8]) -> Result<RESPDataTypes, RESPDataTypes> {
    RESPDataTypes::decode(bytes).expect("readable request")
}

#[test]
fn handler_answers_commands_from_bytes() {
    let mut store = KvStore::new();
    let set = read(b"*3\r\n$3\r\nSET\r\n$3\r\nkey\r\n$5\r\nvalue\r\n");
    assert_eq!(bytes_of(handle_request(set, &mut store)), b"+OK\r\n".to_vec());
    let get = read(b"*2\r\n$3\r\nGET\r\n$3\r\nkey\r\n");
    assert_eq!(bytes_of(handle_request(get, &mut store)), b"$5\r\nvalue\r\n".to_vec());
    let ping = read(b"*1\r\n$4\r\nPING\r\n");
    assert_eq!(bytes_of(handle_request(ping, &mut store)), b"+PONG\r\n".to_vec());
}

#[test]
fn handler_closes_on_empty_read() {
    let mut store = KvStore::new();
    assert!(matches!(handle_request(read(b""), &mut store), HandleStep::Close));
}

#[test]
fn handler_sends_bulk_errors_back() {
    let mut store = KvStore::new();
    let step = handle_request(Err(RESPDataTypes::BulkError("bad".to_string())), &mut store);
    assert_eq!(bytes_of(step), b"!3\r\nbad\r\n".to_vec());
}

#[test]
fn handler_skips_other_errors() {
    let mut store = KvStore::new();
    let step = handle_request(Err(RESPDataTypes::SimpleString("x".to_string())), &mut store);
    assert!(matches!(step, HandleStep::Skip));
}

#[test]
fn handler_gives_up_on_unknown_commands() {
    let mut store = KvStore::new();
    let step = handle_request(read(b"*1\r\n$4\r\nQUIT\r\n"), &mut store);
    assert!(matches!(step, HandleStep::Abort));
    let step = handle_request(read(b":5\r\n"), &mut store);
    assert!(matches!(step, HandleStep::Abort));
}

use rustcache::client::{build_array_from_cli, format_resp, join_host_port};
use rustcache::commands::process_command;
use rustcache::db::Database;
use rustcache::resp::RespValue;

fn req(words: &[&str]) -> RespValue {
    let w: Vec<String> = words.iter().map(|s| s.to_string()).collect();
    build_array_from_cli(&w)
}

fn wire(v: &RespValue) -> Vec<u8> {
    let mut out = Vec::new();
    v.encode(&mut out);
    out
}

fn run(db: &mut Database, words: &[&str], now: u64) -> Vec<u8> {
    wire(&process_command(db, req(words), now))
}

#[test]
fn set_then_get_scenario() {
    let mut db = Database::new();
    assert_eq!(run(&mut db, &["SET", "foo", "bar"], 0), b"+OK\r\n".to_vec());
    assert_eq!(run(&mut db, &["GET", "foo"], 0), b"$3\r\nbar\r\n".to_vec());
}

#[test]
fn set_ex_zero_scenario() {
    let mut db = Database::new();
    assert_eq!(run(&mut db, &["SET", "foo", "bar", "EX", "0"], 7), b"+OK\r\n".to_vec());
    assert_eq!(run(&mut db, &["GET", "foo"], 7), b"$-1\r\n".to_vec());
}

#[test]
fn set_ex_negative_expires_at_once() {
    let mut db = Database::new();
    assert_eq!(run(&mut db, &["set", "k", "v", "ex", "-5"], 7), b"+OK\r\n".to_vec());
    assert_eq!(run(&mut db, &["GET", "k"], 7), b"$-1\r\n".to_vec());
}

#[test]
fn set_ex_keeps_key_until_deadline() {
    let mut db = Database::new();
    assert_eq!(run(&mut db, &["SET", "k", "v", "Ex", "2"], 0), b"+OK\r\n".to_vec());
    assert_eq!(run(&mut db, &["TTL", "k"], 500), b":1\r\n".to_vec());
    assert_eq!(run(&mut db, &["GET", "k"], 1_999), b"$1\r\nv\r\n".to_vec());
    assert_eq!(run(&mut db, &["GET", "k"], 2_000), b"$-1\r\n".to_vec());
}

#[test]
fn set_errors() {
    let mut db = Database::new();
    assert_eq!(
        run(&mut db, &["SET", "k"], 0),
        b"-ERR wrong number of arguments for 'set' command\r\n".to_vec()
    );
    assert_eq!(run(&mut db, &["SET", "k", "v", "PX", "5"], 0), b"-ERR syntax error\r\n".to_vec());
    assert_eq!(run(&mut db, &["SET", "k", "v", "EX"], 0), b"-ERR syntax error\r\n".to_vec());
    assert_eq!(
        run(&mut db, &["SET", "k", "v", "EX", "soon"], 0),
        b"-ERR value is not an integer or out of range\r\n".to_vec()
    );
    assert_eq!(run(&mut db, &["GET", "k"], 0), b"$-1\r\n".to_vec());
}

#[test]
fn incr_scenario() {
    let mut db = Database::new();
    assert_eq!(run(&mut db, &["INCR", "counter"], 0), b":1\r\n".to_vec());
    assert_eq!(run(&mut db, &["INCR", "counter"], 0), b":2\r\n".to_vec());
    assert_eq!(run(&mut db, &["SET", "counter", "notanumber"], 0), b"+OK\r\n".to_vec());
    assert_eq!(
        run(&mut db, &["INCR", "counter"], 0),
        b"-ERR value is not an integer or out of range\r\n".to_vec()
    );
}

#[test]
fn decr_goes_below_zero() {
    let mut db = Database::new();
    assert_eq!(run(&mut db, &["DECR", "d"], 0), b":-1\r\n".to_vec());
    assert_eq!(run(&mut db, &["decr", "d"], 0), b":-2\r\n".to_vec());
    assert_eq!(
        run(&mut db, &["DECR"], 0),
        b"-ERR wrong number of arguments for 'decr' command\r\n".to_vec()
    );
}

#[test]
fn mset_mget_scenario() {
    let mut db = Database::new();
    assert_eq!(run(&mut db, &["MSET", "a", "1", "b", "2"], 0), b"+OK\r\n".to_vec());
    assert_eq!(
        run(&mut db, &["MGET", "a", "b", "c"], 0),
        b"*3\r\n$1\r\n1\r\n$1\r\n2\r\n$-1\r\n".to_vec()
    );
}

#[test]
fn mget_without_keys_is_empty() {
    let mut db = Database::new();
    assert_eq!(run(&mut db, &["MGET"], 0), b"*0\r\n".to_vec());
}

#[test]
fn mset_odd_leaves_store_unchanged() {
    let mut db = Database::new();
    run(&mut db, &["SET", "a", "old"], 0);
    assert_eq!(
        run(&mut db, &["MSET", "a", "1", "b"], 0),
        b"-ERR wrong number of arguments for 'mset' command\r\n".to_vec()
    );
    assert_eq!(run(&mut db, &["GET", "a"], 0), b"$3\r\nold\r\n".to_vec());
    assert_eq!(run(&mut db, &["EXISTS", "b"], 0), b":0\r\n".to_vec());
}

#[test]
fn mset_with_null_value_stores_nothing() {
    let mut db = Database::new();
    let frame = RespValue::Array(Some(vec![
        RespValue::BulkString(Some(b"MSET".to_vec())),
        RespValue::BulkString(Some(b"a".to_vec())),
        RespValue::BulkString(Some(b"1".to_vec())),
        RespValue::BulkString(Some(b"b".to_vec())),
        RespValue::BulkString(None),
    ]));
    assert_eq!(wire(&process_command(&mut db, frame, 0)), b"-ERR invalid value\r\n".to_vec());
    assert_eq!(run(&mut db, &["EXISTS", "a"], 0), b":0\r\n".to_vec());
}

#[test]
fn expire_missing_scenario() {
    let mut db = Database::new();
    assert_eq!(run(&mut db, &["EXPIRE", "missingkey", "10"], 0), b":0\r\n".to_vec());
    assert_eq!(run(&mut db, &["TTL", "missingkey"], 0), b":-2\r\n".to_vec());
}

#[test]
fn expire_ttl_persist() {
    let mut db = Database::new();
    run(&mut db, &["SET", "k", "v"], 0);
    assert_eq!(run(&mut db, &["TTL", "k"], 0), b":-1\r\n".to_vec());
    assert_eq!(run(&mut db, &["EXPIRE", "k", "100"], 0), b":1\r\n".to_vec());
    assert_eq!(run(&mut db, &["TTL", "k"], 1_500), b":98\r\n".to_vec());
    assert_eq!(run(&mut db, &["PERSIST", "k"], 1_500), b":1\r\n".to_vec());
    assert_eq!(run(&mut db, &["TTL", "k"], 200_000), b":-1\r\n".to_vec());
    assert_eq!(run(&mut db, &["PERSIST", "nope"], 0), b":0\r\n".to_vec());
    assert_eq!(
        run(&mut db, &["EXPIRE", "k", "ten"], 0),
        b"-ERR value is not an integer or out of range\r\n".to_vec()
    );
}

#[test]
fn del_scenario() {
    let mut db = Database::new();
    run(&mut db, &["SET", "a", "1"], 0);
    assert_eq!(run(&mut db, &["DEL", "a", "b", "a"], 0), b":1\r\n".to_vec());
    assert_eq!(
        run(&mut db, &["DEL"], 0),
        b"-ERR wrong number of arguments for 'del' command\r\n".to_vec()
    );
}

#[test]
fn exists_counts_each_occurrence() {
    let mut db = Database::new();
    run(&mut db, &["SET", "a", "1"], 0);
    assert_eq!(run(&mut db, &["EXISTS", "a", "a", "z"], 0), b":2\r\n".to_vec());
}

#[test]
fn ping_and_echo() {
    let mut db = Database::new();
    assert_eq!(run(&mut db, &["PING"], 0), b"+PONG\r\n".to_vec());
    assert_eq!(run(&mut db, &["ping", "hi"], 0), b"$2\r\nhi\r\n".to_vec());
    assert_eq!(
        run(&mut db, &["PING", "a", "b"], 0),
        b"-ERR wrong number of arguments for 'ping' command\r\n".to_vec()
    );
    assert_eq!(run(&mut db, &["ECHO", "x y"], 0), b"$3\r\nx y\r\n".to_vec());
    assert_eq!(
        run(&mut db, &["ECHO"], 0),
        b"-ERR wrong number of arguments for 'echo' command\r\n".to_vec()
    );
    let frame = RespValue::Array(Some(vec![
        RespValue::BulkString(Some(b"ECHO".to_vec())),
        RespValue::BulkString(None),
    ]));
    assert_eq!(wire(&process_command(&mut db, frame, 0)), b"$-1\r\n".to_vec());
}

#[test]
fn flushdb_clears() {
    let mut db = Database::new();
    run(&mut db, &["MSET", "a", "1", "b", "2"], 0);
    assert_eq!(run(&mut db, &["FLUSHDB"], 0), b"+OK\r\n".to_vec());
    assert_eq!(run(&mut db, &["EXISTS", "a", "b"], 0), b":0\r\n".to_vec());
}

#[test]
fn names_are_case_insensitive_and_simple_strings_work() {
    let mut db = Database::new();
    let frame = RespValue::Array(Some(vec![
        RespValue::SimpleString("sEt".to_string()),
        RespValue::SimpleString("k".to_string()),
        RespValue::SimpleString("v".to_string()),
    ]));
    assert_eq!(wire(&process_command(&mut db, frame, 0)), b"+OK\r\n".to_vec());
    assert_eq!(run(&mut db, &["GeT", "k"], 0), b"$1\r\nv\r\n".to_vec());
}

#[test]
fn protocol_and_unknown_errors() {
    let mut db = Database::new();
    assert_eq!(
        wire(&process_command(&mut db, RespValue::Integer(1), 0)),
        b"-ERR protocol error: expected command array\r\n".to_vec()
    );
    assert_eq!(
        wire(&process_command(&mut db, RespValue::Array(None), 0)),
        b"-ERR protocol error: expected command array\r\n".to_vec()
    );
    assert_eq!(
        wire(&process_command(&mut db, RespValue::Array(Some(Vec::new())), 0)),
        b"-ERR protocol error: empty command\r\n".to_vec()
    );
    assert_eq!(
        wire(&process_command(&mut db, RespValue::Array(Some(vec![RespValue::Integer(3)])), 0)),
        b"-ERR invalid command name\r\n".to_vec()
    );
    assert_eq!(run(&mut db, &["FROB", "x"], 0), b"-ERR unknown command 'frob'\r\n".to_vec());
}

#[test]
fn builds_requests_from_words() {
    assert_eq!(wire(&req(&["SET", "k", "v"])), b"*3\r\n$3\r\nSET\r\n$1\r\nk\r\n$1\r\nv\r\n".to_vec());
    assert_eq!(wire(&req(&[])), b"*0\r\n".to_vec());
}

#[test]
fn renders_replies() {
    assert_eq!(format_resp(&RespValue::SimpleString("OK".to_string())), "OK");
    assert_eq!(format_resp(&RespValue::Error("ERR x".to_string())), "(error) ERR x");
    assert_eq!(format_resp(&RespValue::Integer(-3)), "-3");
    assert_eq!(format_resp(&RespValue::BulkString(None)), "(nil)");
    assert_eq!(format_resp(&RespValue::Array(None)), "(nil)");
    assert_eq!(format_resp(&RespValue::BulkString(Some(b"hi".to_vec()))), "hi");
    assert_eq!(format_resp(&RespValue::BulkString(Some(vec![0xff, 0xfe]))), "(binary) 2 bytes");
    let arr = RespValue::Array(Some(vec![
        RespValue::BulkString(Some(b"1".to_vec())),
        RespValue::BulkString(None),
    ]));
    assert_eq!(format_resp(&arr), "1) 1\n2) (nil)");
    assert_eq!(format_resp(&RespValue::Array(Some(Vec::new()))), "");
}

#[test]
fn joins_host_and_port() {
    assert_eq!(join_host_port("127.0.0.1", 9973), "127.0.0.1:9973");
    assert_eq!(join_host_port("h", 0), "h:0");
}

use redis_imitate::commands::{CommandExecutor, CommandParser};
use redis_imitate::config::Config;
use redis_imitate::frame::{frame, unframe};
use redis_imitate::local_config::Config as LocalConfig;
use redis_imitate::session::Session;
use redis_imitate::storage::MemoryStorage;

fn send(session: &mut Session, ex: &mut CommandExecutor, line: &str) -> String {
    session.handle(ex, CommandParser::parse(line))
}

#[test]
fn test_invalid_transaction_commands() {
    let mut ex = CommandExecutor::new(MemoryStorage::new());
    let mut s = Session::new();
    assert_eq!(send(&mut s, &mut ex, "EXEC"), "ERR EXEC without MULTI");
    assert_eq!(send(&mut s, &mut ex, "DISCARD"), "ERR DISCARD without MULTI");
}

#[test]
fn session_queues_until_exec() {
    let mut ex = CommandExecutor::new(MemoryStorage::new());
    let mut s = Session::new();
    assert_eq!(send(&mut s, &mut ex, "SET key value"), "OK");
    assert_eq!(send(&mut s, &mut ex, "MULTI"), "OK");
    assert_eq!(send(&mut s, &mut ex, "SET key1 value1"), "QUEUED");
    assert_eq!(send(&mut s, &mut ex, "INCR n"), "QUEUED");
    assert_eq!(send(&mut s, &mut ex, "GET key1"), "QUEUED");
    assert_eq!(send(&mut s, &mut ex, "EXEC"), "OK\n1\nvalue1\nOK");
    assert_eq!(send(&mut s, &mut ex, "GET key1"), "value1");
}

#[test]
fn session_nested_and_discard() {
    let mut ex = CommandExecutor::new(MemoryStorage::new());
    let mut s = Session::new();
    send(&mut s, &mut ex, "MULTI");
    send(&mut s, &mut ex, "SET k1 v1");
    send(&mut s, &mut ex, "MULTI");
    send(&mut s, &mut ex, "SET k2 v2");
    assert_eq!(send(&mut s, &mut ex, "EXEC"), "OK");
    send(&mut s, &mut ex, "MULTI");
    send(&mut s, &mut ex, "SET k3 v3");
    assert_eq!(send(&mut s, &mut ex, "DISCARD"), "OK");
    assert_eq!(send(&mut s, &mut ex, "GET k2"), "QUEUED");
    let reply = send(&mut s, &mut ex, "EXEC");
    assert!(reply.ends_with("v2\nOK"));
    assert_eq!(send(&mut s, &mut ex, "GET k1"), "v1");
    assert_eq!(send(&mut s, &mut ex, "GET k3"), "(nil)");
}

#[test]
fn dropped_session_leaves_engine_untouched() {
    let mut ex = CommandExecutor::new(MemoryStorage::new());
    {
        let mut s = Session::new();
        send(&mut s, &mut ex, "MULTI");
        send(&mut s, &mut ex, "SET gone 1");
    }
    let mut s = Session::new();
    assert_eq!(send(&mut s, &mut ex, "GET gone"), "(nil)");
}

#[test]
fn frames_round_trip() {
    let payload = vec![7u8; 300];
    let mut bytes = frame(&payload);
    assert_eq!(&bytes[..4], &[0, 0, 1, 44]);
    bytes.extend_from_slice(&[9, 9]);
    assert_eq!(unframe(&bytes), Some((payload, 304)));
    assert_eq!(unframe(&vec![0, 0, 0, 5, 1]), None);
    assert_eq!(unframe(&vec![0, 0]), None);
    assert_eq!(unframe(&frame(&vec![])), Some((vec![], 4)));
}

#[test]
fn config_defaults() {
    let c = Config::new();
    assert_eq!((c.host.as_str(), c.port, c.max_connections, c.max_memory), ("0.0.0.0", 6379, 1000, 1 << 30));
    let l = LocalConfig::new();
    assert_eq!((l.host.as_str(), l.port, l.max_connections), ("127.0.0.1", 6379, 100));
}

#[test]
fn snapshot_lines_load_back() {
    let mut s = MemoryStorage::new();
    s.set("Name".to_string(), "ada".to_string());
    s.rpush("q", "a".to_string());
    s.rpush("q", "b".to_string());
    let mut lines = s.snapshot_lines();
    lines.sort();
    assert_eq!(lines, vec!["LIST q 2 a b".to_string(), "STRING name ada".to_string()]);
    let mut t = MemoryStorage::new();
    t.load_snapshot_lines(&vec![
        "STRING name ada".to_string(),
        "BOGUS x".to_string(),
        "LIST q 2 a b".to_string(),
        "STRING short".to_string(),
    ]);
    assert_eq!(t.get("name"), Some("ada".to_string()));
    assert_eq!(t.llen("q"), 2);
    assert_eq!(t.lpop("q"), Some("a".to_string()));
    assert_eq!(t.get("short"), None);
}

fn first_line(reply: String) -> String {
    reply.lines().next().unwrap_or("").trim().to_string()
}

#[test]
fn test_basic_command() {
    let mut ex = CommandExecutor::new(MemoryStorage::new());
    let mut s = Session::new();
    assert_eq!(first_line(send(&mut s, &mut ex, "SET key value")), "OK");
}

#[test]
fn connection_tests_test_nested_transactions() {
    let mut ex = CommandExecutor::new(MemoryStorage::new());
    let mut s = Session::new();
    assert_eq!(first_line(send(&mut s, &mut ex, "MULTI")), "OK");
    assert_eq!(first_line(send(&mut s, &mut ex, "MULTI")), "OK");
    assert_eq!(first_line(send(&mut s, &mut ex, "SET inner value")), "QUEUED");
    assert!(first_line(send(&mut s, &mut ex, "EXEC")).contains("OK"));
    assert!(first_line(send(&mut s, &mut ex, "EXEC")).contains("OK"));
}

#[test]
fn connection_tests_test_transaction_discard() {
    let mut ex = CommandExecutor::new(MemoryStorage::new());
    let mut s = Session::new();
    assert_eq!(first_line(send(&mut s, &mut ex, "MULTI")), "OK");
    assert_eq!(first_line(send(&mut s, &mut ex, "SET key value")), "QUEUED");
    assert_eq!(first_line(send(&mut s, &mut ex, "DISCARD")), "OK");
    assert_eq!(first_line(send(&mut s, &mut ex, "GET key")), "(nil)");
}

#[test]
fn empty_exec_replies_nothing() {
    let mut ex = CommandExecutor::new(MemoryStorage::new());
    let mut s = Session::new();
    send(&mut s, &mut ex, "MULTI");
    assert_eq!(send(&mut s, &mut ex, "EXEC"), "");
}

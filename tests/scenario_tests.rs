use redis_imitate::commands::{Command, CommandExecutor, CommandParser};
use redis_imitate::storage::MemoryStorage;
use redis_imitate::keys::normalize_key;
use redis_imitate::num::{format_i64, format_usize, parse_counter};

fn run(executor: &mut CommandExecutor, line: &str) -> String {
    executor.execute_command(CommandParser::parse(line))
}

#[test]
fn basic_round_trip() {
    let mut ex = CommandExecutor::new(MemoryStorage::new());
    assert_eq!(run(&mut ex, "SET foo bar"), "OK");
    assert_eq!(run(&mut ex, "GET foo"), "bar");
    assert_eq!(run(&mut ex, "GET FOO"), "bar");
    assert_eq!(run(&mut ex, "DEL foo"), "1");
    assert_eq!(run(&mut ex, "GET foo"), "(nil)");
}

#[test]
fn counter_resets_on_non_numeric() {
    let mut ex = CommandExecutor::new(MemoryStorage::new());
    assert_eq!(run(&mut ex, "INCR c"), "1");
    assert_eq!(run(&mut ex, "INCR c"), "2");
    assert_eq!(run(&mut ex, "SET c abc"), "OK");
    assert_eq!(run(&mut ex, "INCR c"), "1");
}

#[test]
fn list_semantics() {
    let mut ex = CommandExecutor::new(MemoryStorage::new());
    assert_eq!(run(&mut ex, "LPUSH L a"), "1");
    assert_eq!(run(&mut ex, "RPUSH L b"), "2");
    assert_eq!(run(&mut ex, "LPUSH L c"), "3");
    assert_eq!(run(&mut ex, "LPOP L"), "c");
    assert_eq!(run(&mut ex, "RPOP L"), "b");
    assert_eq!(run(&mut ex, "LLEN L"), "1");
}

#[test]
fn nested_transaction_commit() {
    let mut ex = CommandExecutor::new(MemoryStorage::new());
    assert_eq!(run(&mut ex, "MULTI"), "OK");
    run(&mut ex, "SET k1 v1");
    assert_eq!(run(&mut ex, "MULTI"), "OK");
    run(&mut ex, "SET k2 v2");
    assert_eq!(run(&mut ex, "EXEC"), "QUEUED\nOK\n");
    assert_eq!(run(&mut ex, "EXEC"), "OK\nOK\nOK\n");
    assert_eq!(run(&mut ex, "GET k1"), "v1");
    assert_eq!(run(&mut ex, "GET k2"), "v2");
}

#[test]
fn transaction_discard_scenario() {
    let mut ex = CommandExecutor::new(MemoryStorage::new());
    run(&mut ex, "MULTI");
    run(&mut ex, "SET k v");
    assert_eq!(run(&mut ex, "DISCARD"), "OK");
    assert_eq!(run(&mut ex, "GET k"), "(nil)");
}

#[test]
fn exec_and_discard_without_multi() {
    let mut ex = CommandExecutor::new(MemoryStorage::new());
    assert_eq!(run(&mut ex, "EXEC"), "ERR: No active transaction to commit\n");
    assert_eq!(run(&mut ex, "DISCARD"), "ERR: No active transaction to rollback");
    assert_eq!(run(&mut ex, "FOO bar"), "ERR unknown command 'FOO bar'");
}

#[test]
fn batch_runs_in_order() {
    let mut ex = CommandExecutor::new(MemoryStorage::new());
    let out = ex.execute_transaction(&[
        Command::SetValue("a".to_string(), "1".to_string()),
        Command::Incr("a".to_string()),
        Command::Get("A".to_string()),
        Command::LLen("none".to_string()),
    ]);
    assert_eq!(out, vec!["OK", "2", "2", "0"]);
}

#[test]
fn discard_restores_lists_and_strings() {
    let mut s = MemoryStorage::new();
    s.set("k".to_string(), "v".to_string());
    s.rpush("l", "x".to_string());
    s.start_transaction();
    s.set("k".to_string(), "w".to_string());
    s.del("l");
    s.incr("n");
    assert_eq!(s.get("k"), Some("w".to_string()));
    assert_eq!(s.llen("l"), 0);
    s.rollback_transaction().unwrap();
    assert_eq!(s.get("k"), Some("v".to_string()));
    assert_eq!(s.llen("l"), 1);
    assert_eq!(s.get("n"), None);
    assert!(s.rollback_transaction().is_err());
    assert!(s.commit_transaction().is_err());
}

#[test]
fn tombstone_hides_lower_value_and_commit_deletes() {
    let mut s = MemoryStorage::new();
    s.set("k".to_string(), "v".to_string());
    s.start_transaction();
    assert!(s.del("K"));
    assert_eq!(s.get("k"), None);
    assert_eq!(s.commit_transaction().unwrap(), vec!["OK", "OK"]);
    assert_eq!(s.get("k"), None);
    assert!(!s.del("k"));
}

#[test]
fn incr_n_times_counts_n() {
    let mut s = MemoryStorage::new();
    for i in 1..=25 {
        assert_eq!(s.incr("hits"), i);
    }
    assert_eq!(s.get("hits"), Some("25".to_string()));
    s.set("big".to_string(), "9223372036854775807".to_string());
    assert_eq!(s.incr("big"), i64::MIN);
    assert_eq!(s.decr("fresh"), -1);
}

#[test]
fn key_normalization() {
    let mut s = MemoryStorage::new();
    s.set("KEY".to_string(), "v".to_string());
    assert_eq!(s.get("key"), Some("v".to_string()));
    assert!(s.del("kEy"));
    assert_eq!(normalize_key("AbC-Ünï"), "abc-Ünï");
}

#[test]
fn numerals() {
    assert_eq!(parse_counter("42"), 42);
    assert_eq!(parse_counter("-7"), -7);
    assert_eq!(parse_counter("+3"), 3);
    assert_eq!(parse_counter("4x"), 0);
    assert_eq!(parse_counter(""), 0);
    assert_eq!(parse_counter("99999999999999999999"), 0);
    assert_eq!(format_i64(-120), "-120");
    assert_eq!(format_usize(0), "0");
}

#[test]
fn parse_splits_on_any_white_space() {
    assert_eq!(
        CommandParser::parse("rpush\u{3000}Key\tv"),
        Command::RPush("key".to_string(), "v".to_string())
    );
    assert_eq!(CommandParser::parse("   "), Command::Unknown("".to_string()));
}

#[test]
fn discard_after_inner_commit_restores() {
    let mut ex = CommandExecutor::new(MemoryStorage::new());
    run(&mut ex, "SET a 0");
    run(&mut ex, "MULTI");
    run(&mut ex, "SET a 1");
    run(&mut ex, "MULTI");
    run(&mut ex, "SET b 2");
    run(&mut ex, "EXEC");
    assert_eq!(run(&mut ex, "DISCARD"), "OK");
    assert_eq!(run(&mut ex, "GET a"), "0");
    assert_eq!(run(&mut ex, "GET b"), "(nil)");
}

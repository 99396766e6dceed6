use lsp_core::logs::{logs_to_prune, LogEntry};

fn log(seconds_ago: u128, size: u64, name: &str) -> LogEntry {
    (1_000_000 - seconds_ago * 10, size, format!("/w/logs/{name}"))
}

fn survivors(logs: &[LogEntry], pruned: &[usize]) -> Vec<String> {
    let mut names: Vec<String> = (0..logs.len())
        .filter(|i| !pruned.contains(i))
        .map(|i| logs[i].2.rsplit('/').next().unwrap().to_string())
        .collect();
    names.sort();
    names
}

#[test]
fn the_log_directory_keeps_the_newest_logs_and_deletes_the_rest() {
    let logs: Vec<LogEntry> = [(0u128, 10u64), (1, 10), (2, 10), (3, 10)]
        .iter()
        .map(|(i, size)| log(4 - i, *size, &format!("log-{i}.txt")))
        .collect();
    let pruned = logs_to_prune(&logs, 2, 1024);
    assert_eq!(pruned.len(), 2, "two of the four are older than the newest two");
    assert_eq!(survivors(&logs, &pruned), vec!["log-2.txt".to_string(), "log-3.txt".to_string()]);
}

#[test]
fn a_log_directory_over_its_byte_budget_is_trimmed_even_within_the_count() {
    let logs: Vec<LogEntry> = (0..3u128).map(|i| log(3 - i, 100, &format!("log-{i}.txt"))).collect();
    let pruned = logs_to_prune(&logs, 10, 150);
    assert_eq!(pruned.len(), 2, "only the newest fits in the budget, so the other two go");
    assert_eq!(survivors(&logs, &pruned), vec!["log-2.txt".to_string()]);
}

#[test]
fn the_newest_log_is_kept_whatever_its_size() {
    let logs = vec![log(1, 500, "big.txt"), log(2, 1, "small.txt")];
    assert_eq!(logs_to_prune(&logs, 5, 10), vec![1]);
}

#[test]
fn equal_times_are_ordered_by_path() {
    let logs = vec![(7u128, 1u64, "/l/b".to_string()), (7, 1, "/l/a".to_string())];
    assert_eq!(logs_to_prune(&logs, 1, 100), vec![0]);
}

#[test]
fn nothing_is_kept_when_the_count_is_zero() {
    let logs = vec![log(1, 1, "a"), log(2, 1, "b")];
    assert_eq!(logs_to_prune(&logs, 0, 100), vec![0, 1]);
}

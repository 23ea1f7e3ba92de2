use azookey::logs::{is_json_log_name, logs_to_remove, LogFile, LOG_DIR_NAME, MAX_LOG_FILES};

fn log(name: &str, modified: Option<i128>) -> LogFile {
    LogFile { name: name.to_string(), modified }
}

#[test]
fn test_log_dir_name_constant() {
    assert_eq!(LOG_DIR_NAME, "logs");
}

#[test]
fn test_max_log_files_constant() {
    assert_eq!(MAX_LOG_FILES, 10);
}

#[test]
fn json_extension_is_recognised() {
    assert!(is_json_log_name("2024-01-01-00.00.00.json"));
    assert!(is_json_log_name("a.json"));
    assert!(!is_json_log_name(".json"));
    assert!(!is_json_log_name("json"));
    assert!(!is_json_log_name("a.txt"));
    assert!(!is_json_log_name("a.JSON"));
    assert!(!is_json_log_name("a.json.bak"));
}

fn remaining_json(files: &[LogFile], removed: &[usize]) -> usize {
    (0..files.len())
        .filter(|i| is_json_log_name(&files[*i].name) && !removed.contains(i))
        .count()
}

#[test]
fn test_cleanup_old_logs_empty_directory() {
    assert!(logs_to_remove(&Vec::new(), MAX_LOG_FILES).is_empty());
}

#[test]
fn test_cleanup_old_logs_under_max() {
    let files: Vec<LogFile> = (0..5).map(|i| log(&format!("test_{}.json", i), Some(i))).collect();
    let removed = logs_to_remove(&files, MAX_LOG_FILES);
    assert_eq!(files.len() - removed.len(), 5);
}

#[test]
fn test_cleanup_old_logs_exactly_max() {
    let files: Vec<LogFile> = (0..10).map(|i| log(&format!("test_{}.json", i), Some(i))).collect();
    let removed = logs_to_remove(&files, MAX_LOG_FILES);
    assert_eq!(files.len() - removed.len(), 10);
}

#[test]
fn test_cleanup_old_logs_over_max() {
    let files: Vec<LogFile> =
        (0..12).map(|i| log(&format!("test_{:02}.json", i), Some(1000 + i * 50))).collect();
    let removed = logs_to_remove(&files, MAX_LOG_FILES);
    assert_eq!(remaining_json(&files, &removed), 10);
    assert_eq!(removed, vec![0, 1]);
}

#[test]
fn test_cleanup_old_logs_ignores_non_json_files() {
    let mut files: Vec<LogFile> =
        (0..11).map(|i| log(&format!("test_{:02}.json", i), Some(100 + i * 20))).collect();
    for i in 0..3 {
        files.push(log(&format!("test_{}.txt", i), Some(0)));
    }
    let removed = logs_to_remove(&files, MAX_LOG_FILES);
    assert_eq!(remaining_json(&files, &removed), 10);
    let remaining_txt = (11..14).filter(|i| !removed.contains(i)).count();
    assert_eq!(remaining_txt, 3);
    assert_eq!(removed, vec![0]);
}

#[test]
fn unknown_times_count_as_oldest() {
    let files = vec![log("a.json", None), log("b.json", Some(-5)), log("c.json", Some(7))];
    assert_eq!(logs_to_remove(&files, 2), vec![0]);
}

#[test]
fn equal_times_keep_listing_order() {
    let files = vec![log("a.json", Some(3)), log("b.json", Some(3)), log("c.json", Some(3))];
    assert_eq!(logs_to_remove(&files, 1), vec![1, 2]);
}

#[test]
fn newest_are_kept_in_unsorted_listing() {
    let files = vec![
        log("x.json", Some(50)),
        log("y.json", Some(10)),
        log("z.json", Some(90)),
        log("w.json", Some(30)),
    ];
    assert_eq!(logs_to_remove(&files, 2), vec![1, 3]);
}

#[test]
fn keep_zero_removes_every_json_file() {
    let files = vec![log("a.json", Some(1)), log("b.log", Some(2)), log("c.json", Some(3))];
    assert_eq!(logs_to_remove(&files, 0), vec![0, 2]);
}

use kvs::{log_id_of, sorted_file_list, stale_logs, to_log_file};

#[test]
fn log_names_parse() {
    assert_eq!(log_id_of("12.log"), Some(12));
    assert_eq!(log_id_of("0.log"), Some(0));
    assert_eq!(log_id_of("18446744073709551615.log"), Some(u64::MAX));
}

#[test]
fn other_names_do_not_parse() {
    assert_eq!(log_id_of("engine"), None);
    assert_eq!(log_id_of(".log"), None);
    assert_eq!(log_id_of("a1.log"), None);
    assert_eq!(log_id_of("12.txt"), None);
    assert_eq!(log_id_of("18446744073709551616.log"), None);
}

#[test]
fn file_list_is_sorted() {
    let names: Vec<String> = ["10.log", "engine", "2.log", "x.log", "1.log"].iter().map(|s| s.to_string()).collect();
    assert_eq!(sorted_file_list(&names), vec![1, 2, 10]);
}

#[test]
fn log_file_names() {
    assert_eq!(to_log_file(7), "7.log");
    assert_eq!(to_log_file(120), "120.log");
    assert_eq!(to_log_file(u64::MAX), "18446744073709551615.log");
}

#[test]
fn stale_logs_are_those_below_the_checkpoint() {
    assert_eq!(stale_logs(&vec![5, 1, 7, 6, 3], 6), vec![5, 1, 3]);
    assert_eq!(stale_logs(&vec![5, 6], 0), Vec::<u64>::new());
}

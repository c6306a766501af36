use kvs::scan::{log_path, parse_gen_name, sorted_gen_list};

#[test]
fn log_path_names() {
    assert_eq!(log_path(0), "0.log");
    assert_eq!(log_path(7), "7.log");
    assert_eq!(log_path(42), "42.log");
    assert_eq!(log_path(1048576), "1048576.log");
    assert_eq!(log_path(u64::MAX), "18446744073709551615.log");
}

#[test]
fn parse_recognizes_written_names() {
    for g in [0u64, 1, 9, 10, 99, 12345, u64::MAX] {
        assert_eq!(parse_gen_name(log_path(g).as_str()), Some(g));
    }
}

#[test]
fn parse_rejects_other_names() {
    assert_eq!(parse_gen_name("foo.txt"), None);
    assert_eq!(parse_gen_name(".log"), None);
    assert_eq!(parse_gen_name("x7.log"), None);
    assert_eq!(parse_gen_name("7x.log"), None);
    assert_eq!(parse_gen_name("7.logx"), None);
    assert_eq!(parse_gen_name(""), None);
    assert_eq!(parse_gen_name("7"), None);
    // One past u64::MAX.
    assert_eq!(parse_gen_name("18446744073709551616.log"), None);
}

#[test]
fn parse_accepts_leading_zeros() {
    assert_eq!(parse_gen_name("007.log"), Some(7));
}

#[test]
fn sorted_gen_list_filters_and_sorts() {
    let names = vec![
        "10.log".to_string(),
        "2.log".to_string(),
        "notes.txt".to_string(),
        "1.log".to_string(),
        "x.log".to_string(),
        "3.log".to_string(),
    ];
    assert_eq!(sorted_gen_list(&names), vec![1, 2, 3, 10]);
}

#[test]
fn sorted_gen_list_empty() {
    let names: Vec<String> = Vec::new();
    assert!(sorted_gen_list(&names).is_empty());
}

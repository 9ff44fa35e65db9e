use station_stats::args::{parse_usize_bytes, Args};

fn argv(items: &[&str]) -> Vec<String> {
    items.iter().map(|s| s.to_string()).collect()
}

#[test]
fn path_alone() {
    let a = Args::parse(&argv(&["tool", "data.txt"])).expect("should parse");
    assert_eq!(a.path, "data.txt");
    assert_eq!(a.threads, None);
}

#[test]
fn threads_flag_then_path() {
    let a = Args::parse(&argv(&["tool", "--threads=4", "data.txt"])).expect("should parse");
    assert_eq!(a.path, "data.txt");
    assert_eq!(a.threads, Some(4));
}

#[test]
fn no_arguments_at_all() {
    assert!(Args::parse(&argv(&[])).is_none());
}

#[test]
fn missing_path_is_refused() {
    assert!(Args::parse(&argv(&["tool"])).is_none());
    assert!(Args::parse(&argv(&["tool", "--threads=4"])).is_none());
}

#[test]
fn threads_flag_without_equals_is_refused() {
    assert!(Args::parse(&argv(&["tool", "--threads4", "data.txt"])).is_none());
}

#[test]
fn unparsable_thread_count_is_ignored() {
    let a = Args::parse(&argv(&["tool", "--threads=abc", "data.txt"])).expect("should parse");
    assert_eq!(a.threads, None);
    assert_eq!(a.path, "data.txt");
}

#[test]
fn oversized_thread_count_is_ignored() {
    let a = Args::parse(&argv(&["tool", "--threads=99999999999999999999999", "data.txt"]))
        .expect("should parse");
    assert_eq!(a.threads, None);
}

#[test]
fn plus_signed_thread_count() {
    let a = Args::parse(&argv(&["tool", "--threads=+7", "data.txt"])).expect("should parse");
    assert_eq!(a.threads, Some(7));
}

#[test]
fn parse_usize_accepts_digits() {
    assert_eq!(parse_usize_bytes(b"0"), Some(0));
    assert_eq!(parse_usize_bytes(b"123"), Some(123));
    assert_eq!(parse_usize_bytes(b"+42"), Some(42));
}

#[test]
fn parse_usize_rejects_non_numbers() {
    assert_eq!(parse_usize_bytes(b""), None);
    assert_eq!(parse_usize_bytes(b"+"), None);
    assert_eq!(parse_usize_bytes(b"1a"), None);
    assert_eq!(parse_usize_bytes(b"-1"), None);
    assert_eq!(parse_usize_bytes(b" 1"), None);
}

#[test]
fn parse_usize_rejects_overflow() {
    assert_eq!(parse_usize_bytes(b"99999999999999999999999999"), None);
    let max = usize::MAX.to_string();
    assert_eq!(parse_usize_bytes(max.as_bytes()), Some(usize::MAX));
}

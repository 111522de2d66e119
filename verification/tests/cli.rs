use duw::cli::display_addr;
use duw::cli::parse_size;
use duw::cli::report_line;
use duw::cli::Args;

fn args() -> Args {
    Args {
        path: ".".into(),
        port: 0,
        host: "127.0.0.1".into(),
        no_open: false,
        one_file_system: false,
        dereference: false,
        count_links: false,
        local_only: false,
        include_cloud: false,
        max_depth: None,
        exclude: Vec::new(),
        exclude_from: None,
        threads: None,
        duplicates: false,
        duplicates_min: 524288,
        demo: false,
        json: false,
        top: None,
    }
}

#[test]
fn sizes_accept_suffixes() {
    assert_eq!(parse_size("512K"), Ok(524288));
    assert_eq!(parse_size("10m"), Ok(10 * 1024 * 1024));
    assert_eq!(parse_size("4096"), Ok(4096));
    assert!(parse_size("nope").is_err());
    assert!(parse_size("99999999999999999999G").is_err());
}

#[test]
fn size_complaints_quote_what_was_given() {
    assert_eq!(parse_size(" 1 g "), Ok(1 << 30));
    assert_eq!(parse_size("+7"), Ok(7));
    assert_eq!(parse_size("18446744073709551615"), Ok(u64::MAX));
    assert_eq!(parse_size(" no\"pe "), Err("\"no\\\"pe\" is not a size".to_string()));
    assert_eq!(parse_size("k"), Err("\"k\" is not a size".to_string()));
    assert_eq!(parse_size(""), Err("\"\" is not a size".to_string()));
    assert_eq!(
        parse_size("18446744073709551615K"),
        Err("\"18446744073709551615K\" is too large".to_string())
    );
    assert_eq!(
        parse_size("18446744073709551616"),
        Err("\"18446744073709551616\" is not a size".to_string())
    );
}

#[test]
fn patterns_come_from_arguments_and_file() {
    let mut a = args();
    a.exclude = vec!["*.o".into()];
    let p = a.patterns(Some("# build\r\n  target  \n\n\t.git\n#x\n"));
    assert_eq!(p, vec!["*.o", "target", ".git"]);
    assert_eq!(a.patterns(None), vec!["*.o"]);
    assert!(args().patterns(Some("")).is_empty());
}

#[test]
fn flags_decide_what_is_done() {
    let mut a = args();
    assert!(a.hides_cloud(true));
    assert!(!a.hides_cloud(false));
    a.include_cloud = true;
    assert!(!a.hides_cloud(true));
    a.local_only = true;
    assert!(!a.hides_cloud(true));
    a.include_cloud = false;
    assert!(a.hides_cloud(true));
    assert!(!a.stays_on_one_file_system(true));
    a.one_file_system = true;
    assert!(a.stays_on_one_file_system(true));
    assert!(!a.stays_on_one_file_system(false));
    assert_eq!(a.auto_dupes(), None);
    a.duplicates = true;
    assert_eq!(a.auto_dupes(), Some(524288));
    assert!(!a.prints());
    assert_eq!(a.top_limit(), 100);
    a.top = Some(0);
    assert!(a.prints());
    assert_eq!(a.top_limit(), 1);
    a.top = Some(2_000_000);
    assert_eq!(a.top_limit(), 1_000_000);
}

#[test]
fn addresses_can_be_clicked() {
    assert_eq!(display_addr(true, "0.0.0.0:80", 80), "localhost:80");
    assert_eq!(display_addr(false, "127.0.0.1:8080", 8080), "127.0.0.1:8080");
    assert_eq!(report_line(1200, "a/b"), "1200\ta/b");
}

use duw::excludes::build_excludes;
use duw::excludes::Excludes;

fn set(patterns: &[&str]) -> Excludes {
    build_excludes(&patterns.iter().map(|p| p.to_string()).collect()).unwrap()
}

#[test]
fn entries_are_excluded_by_name_or_path() {
    let e = set(&["*.o", "/srv/**"]);
    assert!(e.excluded("main.o", b"/home/main.o"));
    assert!(e.excluded("x", b"/srv/a/x"));
    assert!(!e.excluded("main.c", b"/home/main.c"));
}

#[test]
fn no_patterns_exclude_nothing() {
    let e = set(&[]);
    assert!(!e.excluded("a", b"/a"));
    assert!(!Excludes::none().excluded("a", b"/a"));
}

#[test]
fn bad_patterns_are_reported() {
    let bad = vec!["ok".to_string(), "a[".to_string(), "b[".to_string()];
    let m = build_excludes(&bad).err().unwrap();
    assert!(m.starts_with("bad exclude pattern \"a[\": "));
    assert_eq!(
        m,
        format!("bad exclude pattern \"a[\": {}", globset::Glob::new("a[").unwrap_err())
    );
    assert_eq!(duw::excludes::bad_set("too big"), "cannot build exclude set: too big");
}

#[test]
fn the_set_matches_as_each_pattern_does() {
    let patterns = ["*.rs", "src/*", "{a,b}?"];
    let e = set(&patterns);
    for path in ["x.rs", "src/y", "ax", "b1", "c1", "src/deep/z", ""] {
        let any = patterns.iter().any(|p| globset::Glob::new(p).unwrap().compile_matcher().is_match(path));
        assert_eq!(e.excluded(path, path.as_bytes()), any, "{path}");
    }
}

#[test]
fn paths_need_not_be_text() {
    let e = set(&["*.o", "/srv/**"]);
    assert!(e.excluded("x", b"/srv/\xff/x"));
    assert!(e.excluded("x", b"/home/\xfe.o"));
    assert!(!e.excluded("x", b"/home/\xfe.c"));
}

use duw::snapshots::can_compare;
use duw::snapshots::data_dir;
use duw::snapshots::diff;
use duw::snapshots::file_name;
use duw::snapshots::listed;
use duw::snapshots::now;
use duw::snapshots::seconds_or_zero;
use duw::snapshots::total_size;
use duw::snapshots::valid_name;
use duw::snapshots::DataDir;
use duw::snapshots::Snapshot;
use duw::snapshots::SnapshotMeta;
use duw::snapshots::System;
use duw::tree::Kind;
use duw::tree::SnapEntry;

fn entry(path: &str, size: u64) -> SnapEntry {
    SnapEntry {
        path: path.into(),
        kind: Kind::File,
        size,
        alloc: size,
        mtime: 0,
    }
}

#[test]
fn diff_reports_added_removed_and_grown() {
    let old = vec![entry("a", 100), entry("b", 200), entry("c", 300)];
    let new = vec![entry("a", 100), entry("b", 500), entry("d", 50)];
    let d = diff(&old, &new, 100);

    assert_eq!(d.added_bytes, 350);
    assert_eq!(d.removed_bytes, 300);
    assert_eq!(d.net, 50);
    assert_eq!(d.total_changes, 3);

    let paths: Vec<&str> = d.changes.iter().map(|c| c.path.as_str()).collect();
    assert_eq!(paths.len(), 3);
    // The two 300-byte changes tie for first; the 50-byte add is last.
    assert!(paths[..2].contains(&"b") && paths[..2].contains(&"c"));
    assert_eq!(paths[2], "d");
    assert!(d.changes.iter().find(|c| c.path == "d").unwrap().added);
    assert!(d.changes.iter().find(|c| c.path == "c").unwrap().removed);
}

#[test]
fn snapshot_names_are_sanitized() {
    assert!(valid_name("before cleanup"));
    assert!(valid_name("2026-09-13"));
    assert!(!valid_name("../escape"));
    assert!(!valid_name("a/b"));
    assert!(!valid_name(""));
    assert!(!valid_name(".."));
}

#[test]
fn names_are_short_and_plain() {
    assert!(!valid_name("."));
    assert!(valid_name("..."));
    assert!(valid_name(&"a".repeat(64)));
    assert!(!valid_name(&"a".repeat(65)));
    assert!(!valid_name("naïve"));
    assert_eq!(file_name("x").as_deref(), Some("x.json"));
    assert_eq!(file_name("a/b"), None);
}

#[test]
fn the_last_entry_at_a_path_counts() {
    let old = vec![entry("a", 1), entry("a", 5)];
    let new = vec![entry("a", 9), entry("a", 5)];
    let d = diff(&old, &new, 10);
    assert_eq!(d.total_changes, 0);
    let d = diff(&old, &[entry("a", 2)], 10);
    assert_eq!((d.added_bytes, d.removed_bytes, d.net), (0, 3, -3));
    assert_eq!(d.changes[0].delta, -3);
    assert!(!d.changes[0].added && !d.changes[0].removed);
}

#[test]
fn a_scan_compared_with_itself_shows_no_change() {
    let v = vec![entry("a", 1), entry("b", 2)];
    let d = diff(&v, &v, 10);
    assert_eq!((d.added_bytes, d.removed_bytes, d.net, d.total_changes), (0, 0, 0, 0));
    assert!(d.changes.is_empty());
}

#[test]
fn the_net_is_the_difference_in_bytes() {
    let old = vec![entry("a", 10), entry("b", 20), entry("c", 30)];
    let new = vec![entry("b", 5), entry("c", 31), entry("x", 100)];
    let d = diff(&old, &new, 1);
    assert_eq!(d.net, 136 - 60);
    assert_eq!(d.total_changes, 4);
    assert_eq!(d.changes.len(), 1);
    assert_eq!(d.changes[0].path, "x");
    assert_eq!((d.changes[0].old, d.changes[0].new), (0, 100));
}

#[test]
fn metas_sum_up_and_are_listed_newest_first() {
    let meta = |name: &str, created| {
        SnapshotMeta::of(&Snapshot {
            name: name.into(),
            root: "/r".into(),
            created,
            entries: vec![entry("a", 3), entry("b", 4)],
        })
    };
    let m = meta("one", 5);
    assert_eq!((m.entries, m.bytes, m.created), (2, 7, 5));
    assert_eq!(m.root, "/r");
    let names: Vec<String> = listed(vec![meta("old", 1), meta("new", 9), meta("mid", 5)])
        .into_iter()
        .map(|m| m.name)
        .collect();
    assert_eq!(names, vec!["new", "mid", "old"]);
}

#[test]
fn the_clock_reads_seconds() {
    assert_eq!(seconds_or_zero(Some(12)), 12);
    assert_eq!(seconds_or_zero(None), 0);
    // Some time after the year 2020.
    assert!(now() > 1_577_836_800);
}

#[test]
fn data_goes_where_the_system_keeps_it() {
    let at = |s, l, h, x| data_dir(s, l, h, x);
    assert!(matches!(at(System::Windows, Some("l"), Some("h"), Some("x")), DataDir::In("l")));
    assert!(matches!(at(System::Windows, None, Some("h"), Some("x")), DataDir::Temporary));
    assert!(matches!(at(System::MacOs, Some("l"), Some("h"), Some("x")), DataDir::Library("h")));
    assert!(matches!(at(System::MacOs, Some("l"), None, Some("x")), DataDir::Temporary));
    assert!(matches!(at(System::Other, Some("l"), Some("h"), Some("x")), DataDir::In("x")));
    assert!(matches!(at(System::Other, Some("l"), Some("h"), None), DataDir::LocalShare("h")));
    assert!(matches!(at(System::Other, Some("l"), None, None), DataDir::Temporary));
}

#[test]
fn lists_that_are_too_large_are_not_compared() {
    let small = vec![entry("a", 1), entry("b", 2)];
    let large = vec![entry("a", u64::MAX), entry("b", u64::MAX)];
    assert_eq!(total_size(&small), 3);
    assert_eq!(total_size(&large), 2 * (u64::MAX as u128));
    assert!(can_compare(&small, &small));
    assert!(!can_compare(&small, &large));
    assert!(!can_compare(&large, &small));
}

#[test]
fn a_limit_only_trims_the_list() {
    let old = vec![entry("a", 10), entry("b", 20), entry("c", 5)];
    let new = vec![entry("a", 11), entry("b", 2), entry("d", 7)];
    let full = diff(&old, &new, usize::MAX);
    assert_eq!(full.changes.len() as u64, full.total_changes);
    for limit in 0..6 {
        let r = diff(&old, &new, limit);
        assert_eq!(r.changes.len(), limit.min(4));
        assert_eq!((r.added_bytes, r.removed_bytes, r.net), (full.added_bytes, full.removed_bytes, full.net));
        assert_eq!(r.total_changes, 4);
        let paths: Vec<&str> = r.changes.iter().map(|c| c.path.as_str()).collect();
        assert_eq!(paths, ["b", "d", "c", "a"][..paths.len()]);
    }
}

#[test]
fn the_other_way_round_everything_is_reversed() {
    let old = vec![entry("a", 10), entry("b", 20), entry("c", 5)];
    let new = vec![entry("a", 11), entry("b", 2), entry("d", 7)];
    let f = diff(&old, &new, 99);
    let g = diff(&new, &old, 99);
    assert_eq!((g.added_bytes, g.removed_bytes, g.net), (f.removed_bytes, f.added_bytes, -f.net));
    assert_eq!(g.total_changes, f.total_changes);
    for c in &f.changes {
        let d = g.changes.iter().find(|d| d.path == c.path).unwrap();
        assert_eq!((d.old, d.new, d.delta), (c.new, c.old, -c.delta));
        assert_eq!((d.added, d.removed), (c.removed, c.added));
    }
    let same = diff(&old, &old, 0);
    assert_eq!((same.added_bytes, same.removed_bytes, same.net, same.total_changes), (0, 0, 0, 0));
}

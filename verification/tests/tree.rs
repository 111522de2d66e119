use duw::tree::extension_of;
use duw::tree::search::contains_fold;
use duw::tree::Kind;
use duw::tree::NewEntry;
use duw::tree::SearchFilter;
use duw::tree::SortKey;
use duw::tree::Tree;
use duw::tree::MAX_KEPT_ERRORS;
use duw::tree::ROOT;

fn entry(name: &str, kind: Kind, size: u64) -> NewEntry {
    NewEntry {
        name: name.to_string(),
        kind,
        size,
        alloc: size,
        mtime: 0,
        err: false,
        cloud: false,
    }
}

fn any() -> SearchFilter<'static> {
    SearchFilter {
        query: "",
        exts: &[],
        min: 0,
        max: u64::MAX,
        max_mtime: None,
    }
}

#[test]
fn extensions() {
    assert_eq!(extension_of("a.TXT").as_deref(), Some("txt"));
    assert_eq!(extension_of(".bashrc"), None);
    assert_eq!(extension_of("Makefile"), None);
    assert_eq!(extension_of("x.tar.gz").as_deref(), Some("gz"));
}

#[test]
fn unusual_extensions() {
    assert_eq!(extension_of("a."), None);
    assert_eq!(extension_of("a.b c"), None);
    assert_eq!(extension_of("a.0123456789abcdef").as_deref(), Some("0123456789abcdef"));
    assert_eq!(extension_of("a.0123456789abcdefg"), None);
    assert_eq!(extension_of("a.X_-9").as_deref(), Some("x_-9"));
    assert_eq!(extension_of("a.é"), None);
}

#[test]
fn sizes_aggregate_upwards() {
    let mut t = Tree::new("root".into(), 0, 0, 0);
    let dirs = t.add_children(
        ROOT,
        vec![entry("a", Kind::Dir, 0), entry("f.txt", Kind::File, 100)],
    );
    assert_eq!(dirs.len(), 1);
    t.add_children(dirs[0], vec![entry("b.bin", Kind::File, 900)]);

    assert_eq!(t.nodes[ROOT as usize].total_size, 1000);
    assert_eq!(t.nodes[ROOT as usize].files, 2);
    assert_eq!(t.nodes[ROOT as usize].dirs, 1);
    assert_eq!(t.nodes[dirs[0] as usize].total_size, 900);
    assert_eq!(t.rel_path(dirs[0]), "a");
}

#[test]
fn children_view_rolls_up_the_tail() {
    let mut t = Tree::new("root".into(), 0, 0, 0);
    let items: Vec<NewEntry> = (0..10)
        .map(|i| entry(&format!("f{i}"), Kind::File, (i + 1) * 10))
        .collect();
    t.add_children(ROOT, items);
    let v = t.children_view(ROOT, false, 3).unwrap();
    assert_eq!(v.children.len(), 3);
    assert_eq!(v.children[0].size, 100);
    assert_eq!(v.other.count, 7);
    assert_eq!(v.other.size, 10 + 20 + 30 + 40 + 50 + 60 + 70);
}

#[test]
fn cloud_directories_are_listed_but_not_walked() {
    let mut t = Tree::new("root".into(), 0, 0, 0);
    let mut placeholder = entry("iCloud", Kind::Dir, 0);
    placeholder.cloud = true;
    let dirs = t.add_children(ROOT, vec![placeholder, entry("local", Kind::Dir, 0)]);

    // Only the real directory is handed back for walking, and the walker
    // relies on that list lining up with the paths it collected.
    assert_eq!(dirs.len(), 1);
    assert_eq!(t.nodes[dirs[0] as usize].name.as_str(), "local");

    let view = t.children_view(ROOT, false, 10).unwrap();
    let cloud = view.children.iter().find(|c| c.name == "iCloud").unwrap();
    assert!(cloud.cloud);
    // Marked read so the UI does not show it as still being scanned.
    assert!(cloud.read);
}

#[test]
fn duplicate_candidates_skip_cloud_and_small_files() {
    let mut t = Tree::new("root".into(), 0, 0, 0);
    let mut remote = entry("remote.bin", Kind::File, 5_000_000);
    remote.cloud = true;

    let dirs = t.add_children(
        ROOT,
        vec![
            entry("sub", Kind::Dir, 0),
            entry("local.bin", Kind::File, 5_000_000),
            remote,
            entry("tiny.bin", Kind::File, 10),
        ],
    );
    t.add_children(dirs[0], vec![entry("deep.bin", Kind::File, 5_000_000)]);

    let mut found: Vec<String> = t
        .duplicate_candidates(ROOT, 1000)
        .into_iter()
        .map(|c| c.path)
        .collect();
    found.sort();

    // The cloud placeholder is absent: reading it would download it.
    assert_eq!(
        found,
        vec!["local.bin".to_string(), "sub/deep.bin".to_string()]
    );
}

#[test]
fn duplicate_candidate_paths_are_root_relative_for_sub_scopes() {
    let mut t = Tree::new("root".into(), 0, 0, 0);
    let sub = t.add_children(ROOT, vec![entry("sub", Kind::Dir, 0)]);
    let nested = t.add_children(
        sub[0],
        vec![
            entry("nested", Kind::Dir, 0),
            entry("a.bin", Kind::File, 5000),
        ],
    );
    t.add_children(nested[0], vec![entry("deep.bin", Kind::File, 5000)]);

    // Scanning "sub/nested" must still produce paths that can be resolved
    // from the scan root, not just the scope's bare file name.
    let found: Vec<String> = t
        .duplicate_candidates(nested[0], 1)
        .into_iter()
        .map(|c| c.path)
        .collect();
    assert_eq!(found, vec!["sub/nested/deep.bin".to_string()]);
}

#[test]
fn removing_a_subtree_subtracts_from_ancestors() {
    let mut t = Tree::new("root".into(), 0, 0, 0);
    let dirs = t.add_children(
        ROOT,
        vec![entry("d", Kind::Dir, 0), entry("keep.bin", Kind::File, 100)],
    );
    let d = dirs[0];
    let inner = t.add_children(
        d,
        vec![entry("a.bin", Kind::File, 900), entry("sub", Kind::Dir, 0)],
    );
    let sub = inner[0];
    t.add_children(sub, vec![entry("deep.bin", Kind::File, 5000)]);

    assert_eq!(t.nodes[ROOT as usize].total_size, 6000);
    assert_eq!(t.nodes[ROOT as usize].files, 3);
    assert_eq!(t.nodes[ROOT as usize].dirs, 2);
    assert_eq!(t.stats.size, 6000);
    assert_eq!(t.stats.files, 3);
    assert_eq!(t.stats.dirs, 2);

    assert!(t.remove(sub));
    assert_eq!(t.nodes[ROOT as usize].total_size, 1000);
    assert_eq!(t.nodes[ROOT as usize].files, 2);
    assert_eq!(t.nodes[ROOT as usize].dirs, 1);
    assert_eq!(t.nodes[d as usize].total_size, 900);
    assert_eq!(t.stats.size, 1000);
    assert_eq!(t.stats.files, 2);
    assert_eq!(t.stats.dirs, 1);

    // Removing the same entry twice, the root, or a descendant of a
    // removed directory must all be refused.
    assert!(!t.remove(sub));
    assert!(!t.remove(ROOT));
    let deep = t.nodes[sub as usize].children[0];
    assert!(!t.remove(deep));
    assert_eq!(t.stats.size, 1000);
}

#[test]
fn search_matches_name_ext_size_and_age() {
    let mut t = Tree::new("root".into(), 0, 0, 0);
    let dirs = t.add_children(
        ROOT,
        vec![
            entry("photos", Kind::Dir, 0),
            entry("old.txt", Kind::File, 10),
        ],
    );
    let mut pic = entry("holiday.PNG", Kind::File, 5000);
    pic.mtime = 1000;
    let mut recent = entry("recent.png", Kind::File, 7000);
    recent.mtime = 9000;
    t.add_children(
        dirs[0],
        vec![pic, recent, entry("notes.txt", Kind::File, 10)],
    );

    let exts = vec!["png".to_string()];
    let f = SearchFilter {
        query: "holi",
        exts: &exts,
        min: 0,
        max: u64::MAX,
        max_mtime: None,
    };
    let hits = t.search(ROOT, &f, false, 10, 100);
    assert_eq!(hits.len(), 1);
    assert_eq!(hits[0].path, "photos/holiday.PNG");
    assert_eq!(hits[0].parent, dirs[0]);

    let none: Vec<String> = Vec::new();
    // recent.png is large enough but too new, so only the old directory
    // qualifies: directories match on their aggregate size and mtime.
    let f = SearchFilter {
        query: "",
        exts: &none,
        min: 6000,
        max: u64::MAX,
        max_mtime: Some(500),
    };
    let hits = t.search(ROOT, &f, false, 10, 100);
    assert_eq!(hits.len(), 1);
    assert_eq!(hits[0].name, "photos");

    let f = SearchFilter {
        query: "",
        exts: &none,
        min: 6000,
        max: u64::MAX,
        max_mtime: Some(9500),
    };
    let hits = t.search(ROOT, &f, false, 10, 100);
    assert_eq!(hits.len(), 2);
    assert_eq!(hits[0].name, "photos");
    assert_eq!(hits[1].name, "recent.png");

    // An extension filter never matches directories, even by name.
    let f = SearchFilter {
        query: "photos",
        exts: &exts,
        min: 0,
        max: u64::MAX,
        max_mtime: None,
    };
    assert!(t.search(ROOT, &f, false, 10, 100).is_empty());
}

#[test]
fn largest_files_are_ranked() {
    let mut t = Tree::new("root".into(), 0, 0, 0);
    let dirs = t.add_children(ROOT, vec![entry("d", Kind::Dir, 0)]);
    t.add_children(
        dirs[0],
        vec![
            entry("small", Kind::File, 5),
            entry("big", Kind::File, 5000),
        ],
    );
    let top = t.largest_files(ROOT, false, 1);
    assert_eq!(top.len(), 1);
    assert_eq!(top[0].path, "d/big");
}

/// root(7) / docs { a.txt 10, b.TXT 30, deep { c.bin 5 } }, top.bin 20
fn sample() -> (Tree, u32, u32) {
    let mut t = Tree::new("root".into(), 7, 8, 0);
    let dirs = t.add_children(
        ROOT,
        vec![entry("docs", Kind::Dir, 0), entry("top.bin", Kind::File, 20)],
    );
    let inner = t.add_children(
        dirs[0],
        vec![
            entry("a.txt", Kind::File, 10),
            entry("b.TXT", Kind::File, 30),
            entry("deep", Kind::Dir, 0),
        ],
    );
    t.add_children(inner[0], vec![entry("c.bin", Kind::File, 5)]);
    (t, dirs[0], inner[0])
}

#[test]
fn removed_directories_hide_what_is_below_them() {
    let (mut t, docs, deep) = sample();
    let c = t.nodes[deep as usize].children[0];
    assert!(t.get(c).is_some());
    assert!(t.remove(docs));
    assert!(t.get(docs).is_none());
    assert!(t.get(deep).is_none());
    assert!(t.get(c).is_none());
    assert!(t.get(99).is_none());
    assert!(t.get(ROOT).is_some());
    assert!(t.children_view(deep, false, 5).is_none());
    assert!(t.duplicate_candidates(deep, 1).is_empty());
    assert!(t.search(deep, &any(), false, 5, 5).is_empty());
}

#[test]
fn totals_are_what_the_subtrees_add_up_to() {
    let (mut t, docs, deep) = sample();
    fn sum(t: &Tree, i: u32) -> u64 {
        let n = &t.nodes[i as usize];
        n.self_size + n.children.iter().map(|c| sum(t, *c)).sum::<u64>()
    }
    for i in [ROOT, docs, deep] {
        assert_eq!(t.nodes[i as usize].total_size, sum(&t, i));
    }
    assert_eq!(t.nodes[ROOT as usize].total_size, 7 + 10 + 30 + 5 + 20);
    assert!(t.remove(deep));
    for i in [ROOT, docs] {
        assert_eq!(t.nodes[i as usize].total_size, sum(&t, i));
    }
    assert_eq!(t.stats.size + 7, t.nodes[ROOT as usize].total_size);
}

#[test]
fn breadcrumbs_and_paths_lead_from_the_root() {
    let (t, docs, deep) = sample();
    let c = t.nodes[deep as usize].children[0];
    let ids: Vec<u32> = t.breadcrumb(c).iter().map(|x| x.id).collect();
    assert_eq!(ids, vec![ROOT, docs, deep, c]);
    let names: Vec<String> = t.breadcrumb(c).into_iter().map(|x| x.name).collect();
    assert_eq!(names, vec!["root", "docs", "deep", "c.bin"]);
    assert_eq!(t.rel_path(c), "docs/deep/c.bin");
    assert_eq!(t.rel_path(ROOT), "");
}

#[test]
fn listings_break_ties_by_name() {
    let mut t = Tree::new("root".into(), 0, 0, 0);
    let mut newer = entry("alpha", Kind::File, 5);
    newer.mtime = 50;
    t.add_children(
        ROOT,
        vec![
            entry("beta", Kind::File, 5),
            newer,
            entry("Zed", Kind::File, 5),
            entry("big", Kind::File, 9),
        ],
    );
    let names = |key, asc| -> Vec<String> {
        let v = t.children_sorted(ROOT, false, key, asc, 10).unwrap();
        v.children.into_iter().map(|c| c.name).collect()
    };
    assert_eq!(names(SortKey::Size, false), vec!["big", "Zed", "alpha", "beta"]);
    assert_eq!(names(SortKey::Size, true), vec!["Zed", "alpha", "beta", "big"]);
    assert_eq!(names(SortKey::Name, true), vec!["Zed", "alpha", "beta", "big"]);
    assert_eq!(names(SortKey::Name, false), vec!["big", "beta", "alpha", "Zed"]);
    assert_eq!(names(SortKey::Mtime, false), vec!["alpha", "Zed", "beta", "big"]);
    assert_eq!(names(SortKey::Count, false), vec!["Zed", "alpha", "beta", "big"]);
}

#[test]
fn listings_leave_nothing_out() {
    let (t, docs, _) = sample();
    for limit in 0..5 {
        let v = t.children_view(docs, true, limit).unwrap();
        assert_eq!(v.children.len() as u64 + v.other.count, 3);
        assert_eq!(v.children.iter().map(|c| c.alloc).sum::<u64>() + v.other.alloc, 45);
    }
    let v = t.children_view(docs, false, 9).unwrap();
    assert_eq!(v.children[0].ext.as_deref(), Some("txt"));
    assert_eq!(v.children[2].ext, None);
    assert_eq!(v.children[2].files, 1);
}

#[test]
fn treemaps_keep_to_depth_width_and_budget() {
    let (t, docs, deep) = sample();
    let mut budget = 100;
    let s = t.subtree(ROOT, false, 3, 10, &mut budget).unwrap();
    assert_eq!(budget, 100 - 6);
    assert_eq!(s.children[0].id, docs);
    assert_eq!(s.children[0].size, 45);
    assert_eq!(s.children[0].children[2].id, deep);
    assert_eq!(s.children[0].children[2].children[0].name, "c.bin");

    let mut budget = 100;
    let s = t.subtree(ROOT, false, 1, 10, &mut budget).unwrap();
    assert_eq!(s.children.len(), 2);
    assert!(s.children[0].children.is_empty());

    let mut budget = 100;
    let s = t.subtree(ROOT, false, 3, 1, &mut budget).unwrap();
    assert_eq!(s.children.len(), 1);
    assert_eq!(s.children[0].children.len(), 1);

    let mut budget = 2;
    let s = t.subtree(ROOT, false, 3, 10, &mut budget).unwrap();
    assert_eq!(budget, 0);
    assert_eq!(s.children.len(), 1);
    assert_eq!(s.children[0].children.len(), 1);

    let mut budget = 9;
    assert!(t.subtree(77, false, 3, 10, &mut budget).is_none());
    assert_eq!(budget, 9);
}

#[test]
fn weightless_entries_are_left_off_the_treemap() {
    let mut t = Tree::new("root".into(), 0, 0, 0);
    t.add_children(ROOT, vec![entry("empty", Kind::File, 0), entry("x", Kind::File, 1)]);
    let mut budget = 10;
    let s = t.subtree(ROOT, false, 3, 10, &mut budget).unwrap();
    assert_eq!(s.children.len(), 1);
    assert_eq!(budget, 9);
}

#[test]
fn filtered_treemaps_weigh_what_matches() {
    let (t, docs, _) = sample();
    let exts = vec!["txt".to_string()];
    let f = SearchFilter { exts: &exts, ..any() };
    let mut budget = 100;
    let s = t.filtered_subtree(ROOT, &f, false, 3, 10, &mut budget).unwrap();
    assert_eq!(s.size, 40);
    assert_eq!(s.children.len(), 1);
    assert_eq!(s.children[0].id, docs);
    assert_eq!(s.children[0].size, 40);
    assert_eq!(s.children[0].children.len(), 2);
    assert_eq!(budget, 97);
    assert!(t.filtered_subtree(50, &f, false, 3, 10, &mut budget).is_none());
}

#[test]
fn types_cover_every_file() {
    let (t, docs, _) = sample();
    let types = t.by_extension(ROOT);
    let seen: Vec<(&str, u64, u64)> = types.iter().map(|e| (e.ext.as_str(), e.size, e.count)).collect();
    assert_eq!(seen, vec![("txt", 40, 2), ("bin", 25, 2)]);
    assert_eq!(t.by_extension(docs).iter().map(|e| e.count).sum::<u64>(), 3);

    let mut t = Tree::new("root".into(), 0, 0, 0);
    t.add_children(
        ROOT,
        vec![
            entry("Makefile", Kind::File, 4),
            entry("b.b", Kind::File, 4),
            entry("a.a", Kind::File, 4),
        ],
    );
    let exts: Vec<String> = t.by_extension(ROOT).into_iter().map(|e| e.ext).collect();
    assert_eq!(exts, vec!["", "a", "b"]);
}

#[test]
fn largest_files_keep_the_best_of_many() {
    let mut t = Tree::new("root".into(), 0, 0, 0);
    let sizes = [3u64, 9, 1, 9, 7, 2, 8, 8, 5];
    t.add_children(
        ROOT,
        sizes.iter().enumerate().map(|(i, s)| entry(&format!("f{i}"), Kind::File, *s)).collect(),
    );
    let top = t.largest_files(ROOT, false, 4);
    assert_eq!(top.iter().map(|f| f.size).collect::<Vec<u64>>(), vec![9, 9, 8, 8]);
    assert_eq!(t.largest_files(ROOT, true, 100).len(), 9);
    assert!(t.largest_files(ROOT, false, 0).is_empty());
    // A file is not one of the files below itself.
    assert!(t.largest_files(1, false, 5).is_empty());
}

#[test]
fn searches_stop_at_their_cap() {
    let (t, _, _) = sample();
    assert_eq!(t.search(ROOT, &any(), false, 100, 100).len(), 6);
    assert_eq!(t.search(ROOT, &any(), false, 2, 100).len(), 2);
    // Entries are visited from the last child on.
    let one = t.search(ROOT, &any(), false, 100, 1);
    assert_eq!(one.len(), 1);
    assert_eq!(one[0].name, "top.bin");
    assert_eq!(t.search(ROOT, &any(), false, 100, 0).len(), 1);
    let f = SearchFilter { min: 6, max: 20, ..any() };
    let names: Vec<String> = t.search(ROOT, &f, false, 9, 9).into_iter().map(|h| h.name).collect();
    assert_eq!(names, vec!["top.bin", "a.txt"]);
}

#[test]
fn names_are_searched_whatever_the_case() {
    assert!(contains_fold("Holiday.PNG", "day.p"));
    assert!(contains_fold("x", ""));
    assert!(!contains_fold("", "x"));
    assert!(!contains_fold("abc", "abcd"));
    assert!(contains_fold("ÄB", "Äb"));
    assert!(!contains_fold("Ä", "ä"));
}

#[test]
fn a_fresh_stat_is_carried_upwards() {
    let (mut t, docs, _) = sample();
    let a = t.nodes[docs as usize].children[0];
    t.restat(a, 4, 6, 99, false, false);
    assert_eq!(t.nodes[a as usize].total_size, 4);
    assert_eq!(t.nodes[a as usize].mtime, 99);
    assert_eq!(t.nodes[docs as usize].total_size, 39);
    assert_eq!(t.nodes[docs as usize].total_alloc, 41);
    assert_eq!(t.nodes[ROOT as usize].total_size, 66);
    assert_eq!(t.stats.size, 59);
    t.restat(ROOT, 100, 100, 1, false, false);
    assert_eq!(t.nodes[ROOT as usize].total_size, 159);
    assert_eq!(t.stats.size, 59);
}

#[test]
fn emptied_directories_can_be_filled_again() {
    let (mut t, docs, deep) = sample();
    t.reset_children(docs);
    assert!(t.nodes[docs as usize].children.is_empty());
    assert!(!t.nodes[docs as usize].read);
    assert_eq!(t.nodes[docs as usize].total_size, 0);
    assert_eq!(t.nodes[ROOT as usize].total_size, 27);
    assert_eq!(t.nodes[ROOT as usize].files, 1);
    assert_eq!(t.nodes[ROOT as usize].dirs, 1);
    assert_eq!(t.stats.files, 1);
    assert!(t.get(deep).is_none());
    t.add_children(docs, vec![entry("n", Kind::File, 3)]);
    assert_eq!(t.nodes[ROOT as usize].total_size, 30);
    assert!(t.nodes[docs as usize].read);
}

#[test]
fn errors_are_counted_kept_and_cleared() {
    let mut t = Tree::new("root".into(), 0, 0, 0);
    for i in 0..MAX_KEPT_ERRORS + 5 {
        t.record_error(format!("/r/{i}"), "denied".into());
    }
    assert_eq!(t.errors.len(), MAX_KEPT_ERRORS);
    assert_eq!(t.stats.errors, MAX_KEPT_ERRORS as u64 + 5);
    let mut t = Tree::new("root".into(), 0, 0, 0);
    for p in ["/r/a", "/r/a/b", "/r/ab", "/r"] {
        t.record_error(p.into(), "denied".into());
    }
    t.clear_errors_under("/r/a", false);
    let left: Vec<&str> = t.errors.iter().map(|e| e.path.as_str()).collect();
    assert_eq!(left, vec!["/r/ab", "/r"]);
    assert_eq!(t.stats.errors, 2);
}

#[test]
fn marks_are_kept() {
    let mut t = Tree::new("root".into(), 0, 0, 0);
    t.mark_read(ROOT, true);
    t.mark_read(ROOT, false);
    assert!(t.nodes[0].read);
    assert!(t.nodes[0].err);
    assert_eq!(t.version, 2);
}

#[test]
fn snapshots_list_the_leaves_by_path() {
    let (t, _, _) = sample();
    let paths: Vec<String> = t.sorted_files().into_iter().map(|e| e.path).collect();
    assert_eq!(paths, vec!["docs/a.txt", "docs/b.TXT", "docs/deep/c.bin", "top.bin"]);
}

#[test]
fn room_is_checked_at_the_root() {
    let (t, docs, _) = sample();
    assert!(t.room_for(docs, &vec![entry("x", Kind::File, 1)]));
    assert!(!t.room_for(docs, &vec![entry("x", Kind::File, u64::MAX)]));
}

#[test]
fn a_removal_undoes_an_insertion() {
    let (mut t, docs, _) = sample();
    let before: Vec<(u64, u64, u32, u32)> =
        t.nodes.iter().map(|n| (n.total_size, n.total_alloc, n.files, n.dirs)).collect();
    let fresh = t.add_children(docs, vec![entry("new", Kind::Dir, 9)]);
    assert_eq!(t.nodes[ROOT as usize].total_size, before[0].0 + 9);
    assert!(t.remove(fresh[0]));
    let after: Vec<(u64, u64, u32, u32)> = t.nodes[..before.len()]
        .iter()
        .map(|n| (n.total_size, n.total_alloc, n.files, n.dirs))
        .collect();
    assert_eq!(after, before);
    assert!(t.get(fresh[0]).is_none());
}

#[test]
fn walks_meet_every_file_once() {
    let (t, docs, _) = sample();
    let mut all = t.files_under(ROOT);
    all.sort();
    let len = all.len();
    all.dedup();
    assert_eq!((all.len(), len), (4, 4));
    assert_eq!(t.files_under(docs).len(), 3);
}

#[test]
fn breadcrumbs_count_the_levels() {
    let (t, docs, deep) = sample();
    let c = t.nodes[deep as usize].children[0];
    for (i, depth) in [(ROOT, 0), (docs, 1), (deep, 2), (c, 3)] {
        assert_eq!(t.nodes[i as usize].depth, depth);
        assert_eq!(t.breadcrumb(i).len(), depth as usize + 1);
    }
}

#[test]
fn an_undone_insertion_leaves_no_trace() {
    let (mut t, _, deep) = sample();
    let empty = t.add_children(deep, vec![entry("empty", Kind::Dir, 0)])[0];
    let shown = |t: &Tree| -> Vec<(u32, u64)> {
        t.children_view(ROOT, false, 9).unwrap().children.iter().map(|e| (e.id, e.size)).collect()
    };
    let types = |t: &Tree| -> Vec<(String, u64, u64)> {
        t.by_extension(ROOT).into_iter().map(|e| (e.ext, e.size, e.count)).collect()
    };
    let found = |t: &Tree| -> Vec<(u32, String)> {
        t.search(ROOT, &any(), false, 99, 99).into_iter().map(|h| (h.id, h.path)).collect()
    };
    let (a, b, c) = (shown(&t), types(&t), found(&t));
    let (version, files, size) = (t.version, t.stats.files, t.stats.size);
    let id = t.nodes.len() as u32;
    t.add_children(empty, vec![entry("new.zip", Kind::File, 77)]);
    assert_ne!(types(&t), b);
    assert!(t.remove(id));
    assert_eq!((shown(&t), types(&t), found(&t)), (a, b, c));
    assert_eq!((t.version, t.stats.files, t.stats.size), (version + 2, files, size));
    assert!(t.nodes[empty as usize].read && t.nodes[empty as usize].children.is_empty());
}

#[test]
fn errors_are_cleared_below_a_path_and_nowhere_else() {
    let left = |paths: &[&str], prefix: &str, backslash: bool| -> Vec<String> {
        let mut t = Tree::new("r".into(), 0, 0, 0);
        for p in paths {
            t.record_error(p.to_string(), "no".into());
        }
        t.clear_errors_under(prefix, backslash);
        assert_eq!(t.stats.errors as usize, t.errors.len());
        t.errors.into_iter().map(|e| e.path).collect()
    };
    assert!(left(&["/", "/etc", "/etc/x"], "/", false).is_empty());
    assert_eq!(left(&["/a", "/a/b", "/ab", "/a\\b"], "/a", false), vec!["/ab", "/a\\b"]);
    assert_eq!(left(&["C:\\a", "C:\\a\\b", "C:\\ab"], "C:\\a", true), vec!["C:\\ab"]);
    assert!(left(&["C:\\a", "C:\\"], "C:\\", true).is_empty());
}

#[test]
fn nothing_is_listed_twice() {
    let (mut t, docs, _) = sample();
    t.add_children(docs, vec![entry("plain", Kind::File, 30), entry("other.txt", Kind::File, 30)]);
    let mut exts: Vec<String> = t.by_extension(ROOT).into_iter().map(|e| e.ext).collect();
    let mut ids: Vec<u32> = t.duplicate_candidates(ROOT, 1).into_iter().map(|c| c.id).collect();
    let (n, m) = (exts.len(), ids.len());
    exts.sort();
    exts.dedup();
    ids.sort();
    ids.dedup();
    assert_eq!((exts.len(), ids.len()), (n, m));
    assert_eq!((n, m), (3, 6));
}

use std::collections::HashSet;

use duw::excludes::build_excludes;
use duw::excludes::Excludes;
use duw::scan::end_walk;
use duw::scan::enter;
use duw::scan::look_has_room;
use duw::scan::note_cycle;
use duw::scan::note_unreadable;
use duw::scan::scan_again;
use duw::scan::walk::asks_cloud;
use duw::scan::walk::counters_have_room;
use duw::scan::walk::mark_all_read;
use duw::scan::walk::next_walks;
use duw::scan::walk::recurses;
use duw::scan::walk::settle;
use duw::scan::walk::Batch;
use duw::scan::walk::Meta;
use duw::scan::walk::Rules;
use duw::scan::display_root;
use duw::scan::Again;
use duw::scan::Look;
use duw::scan::ScanOpts;
use duw::scan::Scanner;
use duw::tree::Kind;
use duw::tree::NewEntry;
use duw::tree::Tree;
use duw::tree::ROOT;

fn rules() -> Rules {
    Rules {
        local_only: false,
        one_file_system: false,
        count_links: false,
        root_device: 1,
        recurse: true,
    }
}

fn file(size: u64) -> Meta {
    Meta {
        is_dir: false,
        is_symlink: false,
        is_file: true,
        size,
        alloc: size + 1,
        mtime: 5,
        device: 1,
        link: None,
        cloud: false,
    }
}

fn dir() -> Meta {
    Meta { is_dir: true, is_file: false, ..file(0) }
}

#[test]
fn kinds_follow_the_metadata() {
    let mut b: Batch<&str> = Batch::new();
    let mut links = HashSet::new();
    b.add(&rules(), &mut links, "d".into(), "/d", dir());
    b.add(&rules(), &mut links, "f".into(), "/f", file(3));
    b.add(&rules(), &mut links, "l".into(), "/l", Meta { is_symlink: true, ..file(1) });
    b.add(&rules(), &mut links, "o".into(), "/o", Meta { is_file: false, ..file(1) });
    let kinds: Vec<Kind> = b.entries.iter().map(|e| e.kind).collect();
    assert_eq!(kinds, vec![Kind::Dir, Kind::File, Kind::Link, Kind::Other]);
    assert_eq!(b.subdirs, vec!["/d"]);
    assert_eq!((b.entries[1].size, b.entries[1].alloc, b.entries[1].mtime), (3, 4, 5));
}

#[test]
fn hard_links_count_once() {
    let mut b: Batch<&str> = Batch::new();
    let mut links = HashSet::new();
    let m = Meta { link: Some((9, 4)), ..file(10) };
    b.add(&rules(), &mut links, "a".into(), "", m);
    b.add(&rules(), &mut links, "b".into(), "", m);
    b.add(&rules(), &mut links, "c".into(), "", Meta { link: Some((4, 9)), ..file(10) });
    let sizes: Vec<u64> = b.entries.iter().map(|e| e.size).collect();
    assert_eq!(sizes, vec![10, 0, 10]);
    assert_eq!(b.hardlinks, 1);
    let counting = Rules { count_links: true, ..rules() };
    b.add(&counting, &mut links, "d".into(), "", m);
    assert_eq!(b.entries[3].size, 10);
    assert_eq!(b.hardlinks, 1);
}

#[test]
fn other_filesystems_are_skipped() {
    let mut b: Batch<&str> = Batch::new();
    let mut links = HashSet::new();
    let r = Rules { one_file_system: true, ..rules() };
    b.add(&r, &mut links, "mnt".into(), "/mnt", Meta { device: 2, ..dir() });
    b.add(&r, &mut links, "f".into(), "/f", Meta { device: 2, ..file(1) });
    assert_eq!(b.skipped, 1);
    assert_eq!(b.entries.len(), 1);
    assert!(b.subdirs.is_empty());
    b.skip();
    assert_eq!(b.skipped, 2);
}

#[test]
fn cloud_entries_weigh_nothing_when_only_local_bytes_count() {
    let r = Rules { local_only: true, ..rules() };
    let mut b: Batch<&str> = Batch::new();
    let mut links = HashSet::new();
    b.add(&r, &mut links, "f".into(), "", Meta { cloud: true, link: Some((1, 1)), ..file(10) });
    b.add(&r, &mut links, "d".into(), "/d", Meta { cloud: true, ..dir() });
    assert!(b.entries.iter().all(|e| e.cloud && e.size == 0 && e.alloc == 0));
    assert!(b.subdirs.is_empty());
    assert!(links.is_empty());
    // Without the filter files are only classified, and directories not even
    // that.
    let mut b: Batch<&str> = Batch::new();
    b.add(&rules(), &mut links, "f".into(), "", Meta { cloud: true, ..file(10) });
    b.add(&rules(), &mut links, "d".into(), "/d", Meta { cloud: true, ..dir() });
    assert!(b.entries[0].cloud && b.entries[0].size == 10);
    assert!(!b.entries[1].cloud);
    assert_eq!(b.subdirs, vec!["/d"]);
    assert!(asks_cloud(false, false) && asks_cloud(true, true) && !asks_cloud(true, false));
}

#[test]
fn listings_settle_in_the_tree() {
    let mut t = Tree::new("root".into(), 0, 0, 0);
    let mut b: Batch<&str> = Batch::new();
    let mut links = HashSet::new();
    let r = Rules { local_only: true, ..rules() };
    b.add(&r, &mut links, "far".into(), "/far", Meta { cloud: true, ..dir() });
    b.add(&r, &mut links, "a".into(), "/a", dir());
    b.add(&r, &mut links, "f".into(), "/f", file(3));
    b.add(&r, &mut links, "b".into(), "/b", dir());
    b.unreadable("x".into(), "/x".into(), "denied".into());
    b.fail("/".into(), "odd".into());
    b.skip();
    let (ids, paths) = settle(&mut t, ROOT, b, "/".into());
    assert_eq!(paths, vec!["/a", "/b"]);
    let names: Vec<&str> = ids.iter().map(|i| t.nodes[*i as usize].name.as_str()).collect();
    assert_eq!(names, vec!["a", "b"]);
    assert_eq!(t.current, "/");
    assert_eq!((t.stats.skipped, t.stats.errors, t.stats.files, t.stats.dirs), (1, 2, 2, 3));
    assert_eq!(t.errors[0].path, "/x");
    assert_eq!(t.errors[1].message, "odd");
    assert!(t.nodes[5].err && t.nodes[5].kind == Kind::Other);
    assert!(!t.nodes[ids[0] as usize].read);
    mark_all_read(&mut t, &ids);
    assert!(ids.iter().all(|i| t.nodes[*i as usize].read));
    let v = t.version;
    end_walk(&mut t);
    assert_eq!(t.current, "");
    assert_eq!(t.version, v + 1);
}

#[test]
fn depth_limits_stop_the_walk() {
    assert!(recurses(None, 500));
    assert!(recurses(Some(2), 1));
    assert!(!recurses(Some(2), 2));
    let opts = ScanOpts {
        root: "/r".into(),
        one_file_system: true,
        dereference: false,
        count_links: true,
        max_depth: Some(1),
        exclude: Excludes::none(),
        threads: Some(0),
        local_only: false,
    };
    let r = opts.rules(7, 1);
    assert!(!r.recurse && r.one_file_system && r.count_links && r.root_device == 7);
    assert!(opts.rules(7, 0).recurse);
    assert_eq!(opts.thread_count(), Some(1));
    let mut b: Batch<&str> = Batch::new();
    b.add(&r, &mut HashSet::new(), "d".into(), "/d", Meta { device: 7, ..dir() });
    assert!(b.subdirs.is_empty());
    assert_eq!(b.entries.len(), 1);
}

#[test]
fn dereference_stops_at_ancestor_cycle() {
    let mut t = Tree::new("root".into(), 0, 0, 0);
    let mut b: Batch<&str> = Batch::new();
    let mut links = HashSet::new();
    b.add(&rules(), &mut links, "file".into(), "/r/file", file(5));
    b.add(&rules(), &mut links, "back".into(), "/r/back", dir());
    let mut above: Vec<Vec<u8>> = Vec::new();
    assert!(enter(&mut above, b"/r".to_vec()));
    let (ids, _) = settle(&mut t, ROOT, b, "/r".into());
    // The link resolves to the root itself.
    assert!(!enter(&mut above, b"/r".to_vec()));
    assert_eq!(above.len(), 1);
    note_cycle(&mut t, ids[0], "/r/back".into());
    assert_eq!(t.stats.files, 1);
    assert_eq!(t.stats.skipped, 1);
    assert!(t.errors.iter().any(|e| e.message == "symbolic link cycle"));
    assert!(t.nodes[ids[0] as usize].err && t.nodes[ids[0] as usize].read);
    assert!(enter(&mut above, b"/r/x".to_vec()));
}

#[test]
fn unreadable_directories_are_noted() {
    let mut t = Tree::new("root".into(), 0, 0, 0);
    note_unreadable(&mut t, ROOT, "/r".into(), "denied".into());
    assert!(t.nodes[0].read && t.nodes[0].err);
    assert_eq!(t.errors[0].message, "denied");
    assert_eq!(t.stats.errors, 1);
}

fn entry(name: &str, kind: Kind, size: u64) -> NewEntry {
    NewEntry { name: name.into(), kind, size, alloc: size, mtime: 0, err: false, cloud: false }
}

#[test]
fn rescan_replaces_a_subtrees_contents() {
    let mut t = Tree::new("root".into(), 0, 0, 0);
    let sub = t.add_children(ROOT, vec![entry("sub", Kind::Dir, 40)])[0];
    t.add_children(sub, vec![entry("old.txt", Kind::File, 3)]);
    let before = t.stats.size;
    let look = || Look::Seen(Meta { size: 40, alloc: 40, ..dir() });

    assert_eq!(scan_again(&mut t, sub, false, Some("/r/sub"), false, look()), Again::Walk(1));
    t.add_children(sub, vec![entry("old.txt", Kind::File, 3), entry("new.txt", Kind::File, 4)]);
    assert_eq!(t.stats.files, 2);
    assert_eq!(t.stats.size, before + 4);
    let names: Vec<&str> = t.nodes[sub as usize]
        .children
        .iter()
        .map(|&c| t.nodes[c as usize].name.as_ref())
        .collect();
    assert!(names.contains(&"old.txt") && names.contains(&"new.txt"));

    assert_eq!(scan_again(&mut t, sub, false, None, false, look()), Again::Walk(1));
    t.add_children(sub, vec![entry("new.txt", Kind::File, 4)]);
    assert_eq!(t.stats.files, 1);
    assert_eq!(t.stats.size, before + 1);
}

#[test]
fn looking_again_removes_hides_or_restats() {
    let mut t = Tree::new("root".into(), 0, 0, 0);
    let sub = t.add_children(ROOT, vec![entry("sub", Kind::Dir, 0), entry("f", Kind::File, 9)])[0];
    t.add_children(sub, vec![entry("x", Kind::File, 3)]);
    let f = 2;
    t.record_error("/r/f".into(), "old".into());
    assert_eq!(scan_again(&mut t, f, false, Some("/r/f"), false, Look::Seen(file(1))), Again::Settled);
    assert_eq!(t.nodes[f as usize].total_size, 1);
    assert!(t.errors.is_empty());
    assert_eq!(t.stats.size, 4);

    let far = Meta { cloud: true, size: 50, ..dir() };
    assert_eq!(scan_again(&mut t, sub, true, None, false, Look::Seen(far)), Again::Settled);
    assert!(t.nodes[sub as usize].read && t.nodes[sub as usize].cloud);
    assert_eq!(t.nodes[sub as usize].total_size, 0);

    assert_eq!(scan_again(&mut t, sub, true, None, false, Look::Failed), Again::Walk(1));
    assert!(!t.nodes[sub as usize].read);
    assert_eq!(scan_again(&mut t, sub, true, None, false, Look::Gone), Again::Settled);
    assert!(t.get(sub).is_none());
    let version = t.version;
    assert_eq!(scan_again(&mut t, sub, true, None, false, Look::Failed), Again::Settled);
    assert_eq!(t.version, version);
}

#[test]
fn one_walk_at_a_time() {
    let mut s = Scanner::new();
    assert!(s.is_busy() && !s.is_done());
    assert!(!s.rescan(5));
    assert_eq!(s.elapsed_ms(7), 7);
    s.finish(10);
    assert!(s.is_done() && !s.is_busy());
    assert_eq!(s.elapsed_ms(99), 10);
    s.cancel();
    assert!(s.is_cancelled());
    assert!(s.rescan(100));
    assert!(!s.is_cancelled() && s.is_busy());
    assert!(!s.rescan(101));
    assert_eq!(s.elapsed_ms(105), 15);
    s.stop_clock(107);
    assert!(s.is_busy());
    assert_eq!(s.elapsed_ms(500), 17);
    s.finish_rescan();
    assert_eq!(s.elapsed_ms(500), 17);
    assert!(!s.is_busy());
}

#[test]
fn roots_have_a_label() {
    assert_eq!(display_root(Some("src".into()), "/home/src".into()), "src");
    assert_eq!(display_root(None, "C:\\".into()), "C:\\");
}

#[test]
fn counters_are_checked_before_a_batch() {
    let mut t = Tree::new("r".into(), 0, 0, 0);
    let mut b: Batch<&str> = Batch::new();
    b.skip();
    b.fail("/x".into(), "no".into());
    assert!(counters_have_room(&t.stats, &b));
    t.stats.skipped = u64::MAX;
    assert!(!counters_have_room(&t.stats, &b));
    t.stats.skipped = 0;
    t.stats.errors = u64::MAX;
    assert!(!counters_have_room(&t.stats, &b));
}

#[test]
fn a_fresh_look_is_checked_for_room() {
    let mut t = Tree::new("r".into(), 10, 10, 0);
    t.add_children(
        ROOT,
        vec![NewEntry {
            name: "f".into(),
            kind: Kind::File,
            size: 5,
            alloc: 5,
            mtime: 0,
            err: false,
            cloud: false,
        }],
    );
    assert!(look_has_room(&t, 1, false, &Look::Seen(file(7))));
    assert!(!look_has_room(&t, 1, false, &Look::Seen(file(u64::MAX - 9))));
    assert!(look_has_room(&t, 1, true, &Look::Seen(Meta { cloud: true, ..file(u64::MAX - 9) })));
    assert!(look_has_room(&t, 1, false, &Look::Gone));
}

#[test]
fn hard_links_weigh_where_they_are_met_first() {
    let mut b: Batch<&str> = Batch::new();
    let mut links = HashSet::new();
    let linked = |size| Meta { link: Some((1, 9)), ..file(size) };
    b.add(&rules(), &mut links, "a".into(), "/a", linked(4));
    b.add(&rules(), &mut links, "b".into(), "/b", file(5));
    b.add(&rules(), &mut links, "c".into(), "/c", linked(4));
    b.add(&rules(), &mut links, "d".into(), "/d", Meta { link: Some((2, 9)), ..file(6) });
    let sizes: Vec<u64> = b.entries.iter().map(|e| e.size).collect();
    assert_eq!(sizes, vec![4, 5, 0, 6]);
    assert_eq!(b.hardlinks, 1);
}

#[test]
fn excluded_entries_are_counted_and_never_listed() {
    let patterns = build_excludes(&vec!["*.o".into(), "/r/cache".into()]).unwrap();
    let mut b: Batch<&str> = Batch::new();
    let mut links = HashSet::new();
    let away = Meta { device: 2, ..dir() };
    let r = Rules { one_file_system: true, ..rules() };
    assert!(!b.consider(&patterns, "a.o", b"/r/a.o"));
    assert!(!b.consider(&patterns, "cache", b"/r/cache"));
    assert!(b.consider(&patterns, "mnt", b"/r/mnt"));
    b.add(&r, &mut links, "mnt".into(), "/r/mnt", away);
    assert!(b.consider(&patterns, "src", b"/r/src"));
    b.add(&r, &mut links, "src".into(), "/r/src", dir());
    assert!(b.consider(&patterns, "x", b"/r/x"));
    b.unreadable("x".into(), "/r/x".into(), "no".into());
    assert_eq!(b.skipped, 3);
    let names: Vec<&str> = b.entries.iter().map(|e| e.name.as_str()).collect();
    assert_eq!(names, vec!["src", "x"]);
    assert!(b.entries[1].err && b.entries[1].kind == Kind::Other);
    assert_eq!(b.subdirs, vec!["/r/src"]);
    assert_eq!(b.errors.len(), 1);
}

#[test]
fn walks_go_on_unless_stopped() {
    let mut t = Tree::new("r".into(), 0, 0, 0);
    let d = |name: &str| NewEntry {
        name: name.into(),
        kind: Kind::Dir,
        size: 0,
        alloc: 0,
        mtime: 0,
        err: false,
        cloud: false,
    };
    let ids = t.add_children(ROOT, vec![d("a"), d("b")]);
    let version = t.version;
    assert_eq!(next_walks(&mut t, ids.clone(), vec!["/a", "/b"], true, false), vec![(1, "/a"), (2, "/b")]);
    assert!(next_walks(&mut t, ids.clone(), vec!["/a", "/b"], true, true).is_empty());
    assert_eq!(t.version, version);
    assert!(!t.nodes[1].read && !t.nodes[2].read);
    let none: Vec<(u32, &str)> = next_walks(&mut t, ids, Vec::new(), false, true);
    assert!(none.is_empty());
    assert!(t.nodes[1].read && t.nodes[2].read);
    assert_eq!(t.version, version + 2);
}

#[test]
fn looking_again_leaves_the_rest_alone() {
    let mut t = Tree::new("root".into(), 0, 0, 0);
    let sub = t.add_children(ROOT, vec![entry("sub", Kind::Dir, 0), entry("a.txt", Kind::File, 9)])[0];
    t.add_children(sub, vec![entry("x.rs", Kind::File, 3), entry("y", Kind::File, 4)]);
    t.record_error("/r/sub/x.rs".into(), "old".into());
    t.record_error("/r/a.txt".into(), "kept".into());
    t.stats.skipped = 5;
    t.stats.hardlinks = 6;
    t.current = "/r/sub".into();
    let version = t.version;
    let look = Look::Seen(Meta { size: 1, alloc: 1, ..dir() });
    assert_eq!(scan_again(&mut t, sub, false, Some("/r/sub"), false, look), Again::Walk(1));
    // A fresh stat, two children removed, and the mark as unread.
    assert_eq!(t.version, version + 4);
    assert_eq!((t.stats.skipped, t.stats.hardlinks, t.stats.errors), (5, 6, 1));
    assert_eq!((t.stats.files, t.stats.dirs, t.stats.size), (1, 1, 10));
    assert_eq!(t.errors[0].message, "kept");
    assert_eq!(t.current, "/r/sub");
    assert_eq!(t.exts, vec!["txt", "rs"]);
}

#[test]
fn rescanning_a_filesystem_root_clears_its_errors() {
    let mut t = Tree::new("/".into(), 0, 0, 0);
    t.add_children(ROOT, vec![entry("etc", Kind::Dir, 0)]);
    t.record_error("/etc".into(), "denied".into());
    let look = Look::Seen(Meta { size: 0, alloc: 0, ..dir() });
    assert_eq!(scan_again(&mut t, ROOT, false, Some("/"), false, look), Again::Walk(0));
    assert!(t.errors.is_empty());
    assert_eq!(t.stats.errors, 0);
}

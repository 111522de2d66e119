use duw::dupes::report;
use duw::dupes::Dupes;
use duw::dupes::Phase;
use duw::server::answers;
use duw::server::guard::cross_site;
use duw::server::guard::default_name;
use duw::server::guard::may_find_duplicates;
use duw::server::guard::may_reveal;
use duw::server::guard::may_save;
use duw::server::guard::may_trash;
use duw::server::guard::protect;
use duw::server::guard::Refusal;
use duw::server::query::asset_path;
use duw::server::query::cache_policy;
use duw::server::query::clamp_depth;
use duw::server::query::clamp_limit;
use duw::server::query::Metric;
use duw::server::query::SearchParams;
use duw::server::query::Sort;
use duw::tree::Candidate;
use duw::tree::Kind;
use duw::tree::NewEntry;
use duw::tree::Tree;
use duw::tree::ROOT;

fn entry(name: &str, kind: Kind, size: u64) -> NewEntry {
    NewEntry { name: name.into(), kind, size, alloc: size + 4, mtime: 0, err: false, cloud: false }
}

fn params() -> SearchParams {
    SearchParams {
        depth: None,
        q: None,
        ext: None,
        min: None,
        max: None,
        age: None,
        metric: Metric::Size,
        limit: None,
    }
}

const NOW: u64 = 1_000_000;

#[test]
fn all_mutations_reject_cross_site_requests() {
    let host = Some("127.0.0.1:8080");
    let origin = Some("http://untrusted.example");
    assert_eq!(protect(false, origin, host), Err(Refusal::CrossSite));
    assert_eq!(Refusal::CrossSite.code(), 403);
    assert_eq!(Refusal::CrossSite.message(), "cross-site request rejected");
    // Reading is always allowed.
    assert_eq!(protect(true, origin, host), Ok(()));
}

#[test]
fn duplicates_wait_for_main_scan_and_dev_origin_is_accepted() {
    let t = Tree::new("root".into(), 0, 0, 0);
    let host = Some("localhost:5173");
    let origin = Some("http://localhost:5173");
    assert_eq!(protect(false, origin, host), Ok(()));
    let refusal = may_find_duplicates(&t, false, ROOT).unwrap_err();
    assert_eq!(refusal.code(), 409);
    assert_eq!(Dupes::new().progress().phase, Phase::Idle);
    assert_eq!(may_find_duplicates(&t, true, ROOT), Ok(()));
    assert_eq!(may_find_duplicates(&t, true, 9), Err(Refusal::NoSuchNode));
}

#[test]
fn removed_ids_return_404_and_tree_accepts_search_filters() {
    let mut t = Tree::new("root".into(), 4096, 4096, 0);
    t.add_children(ROOT, vec![entry("needle.txt", Kind::File, 12)]);
    let p = SearchParams {
        q: Some("needle".into()),
        ext: Some("txt".into()),
        min: Some(10),
        age: Some(1),
        depth: Some(3),
        limit: Some(60),
        ..params()
    };
    let r = answers::treemap(&t, ROOT, &p, NOW).unwrap();
    assert_eq!(r.root.size, 12);
    assert!(!r.truncated);
    t.remove(1);
    let d = Dupes::new();
    assert!(answers::node(&t, 1, Metric::Size, Sort::Size, false, None, true).is_none());
    assert!(answers::treemap(&t, 1, &params(), NOW).is_none());
    assert!(answers::path_parts(&t, 1).is_none());
    assert!(answers::duplicates(&t, &d, 1, None).is_none());
    assert!(answers::types(&t, 1).is_none());
    assert!(answers::largest(&t, 1, Metric::Size, None).is_none());
    assert!(answers::search(&t, 1, &params(), NOW).is_none());
    assert_eq!(Refusal::NoSuchNode.code(), 404);
}

#[test]
fn origins_are_compared_with_the_host() {
    assert!(!cross_site(None, None));
    assert!(!cross_site(None, Some("h")));
    assert!(cross_site(Some("http://h"), None));
    assert!(!cross_site(Some("https://h:1"), Some("h:1")));
    assert!(cross_site(Some("https://h:1"), Some("h")));
    assert!(cross_site(Some("null"), Some("null")));
    assert!(cross_site(Some(""), Some("")));
    assert!(!cross_site(Some("a:b://c://d"), Some("c://d")));
}

#[test]
fn limits_are_clamped() {
    assert_eq!(clamp_limit(None), 400);
    assert_eq!(clamp_limit(Some(0)), 1);
    assert_eq!(clamp_limit(Some(9999)), 5000);
    assert_eq!(clamp_limit(Some(77)), 77);
    assert_eq!(clamp_depth(None), 3);
    assert_eq!(clamp_depth(Some(0)), 1);
    assert_eq!(clamp_depth(Some(99)), 8);
    assert!(Metric::Alloc.by_alloc() && !Metric::Size.by_alloc());
}

#[test]
fn filters_are_prepared() {
    assert!(!params().has_filter());
    let p = SearchParams {
        q: Some("  HoLi ".into()),
        ext: Some(" .PNG, ,..tar,jpg,".into()),
        max: Some(9),
        age: Some(2),
        ..params()
    };
    assert!(p.has_filter());
    let f = p.with_filter(NOW);
    assert_eq!(f.query, "holi");
    assert_eq!(f.exts, vec!["png", "tar", "jpg"]);
    assert_eq!((f.min, f.max), (0, 9));
    assert_eq!(f.max_mtime, Some(1_000_000 - 2 * 86_400));
    let f = SearchParams { age: Some(u64::MAX), ..params() }.with_filter(u64::MAX);
    assert_eq!(f.max_mtime, Some(0));
    let f = SearchParams { age: Some(u64::MAX), ..params() }.with_filter(0);
    assert_eq!(f.max_mtime, Some(-i64::MAX));
    let f = params().with_filter(0);
    assert_eq!((f.query.as_str(), f.exts.len(), f.max, f.max_mtime), ("", 0, u64::MAX, None));
}

#[test]
fn gates_refuse_in_order() {
    let mut t = Tree::new("root".into(), 0, 0, 0);
    t.add_children(ROOT, vec![entry("f", Kind::File, 1)]);
    assert_eq!(may_trash(&t, true, false, ROOT), Err(Refusal::CrossSite));
    assert_eq!(may_trash(&t, false, false, ROOT), Err(Refusal::MovesRoot));
    assert_eq!(may_trash(&t, false, false, 1), Err(Refusal::ScanRunning));
    assert_eq!(may_trash(&t, false, true, 7), Err(Refusal::NoSuchNode));
    assert_eq!(may_trash(&t, false, true, 1), Ok(()));
    assert_eq!(may_reveal(&t, true, 1), Err(Refusal::CrossSite));
    assert_eq!(may_reveal(&t, false, 8), Err(Refusal::NoSuchNode));
    assert_eq!(may_reveal(&t, false, ROOT), Ok(()));
    assert_eq!(may_save(true, true, "x"), Err(Refusal::CrossSite));
    assert_eq!(may_save(false, false, "x"), Err(Refusal::ScanRunning));
    assert_eq!(may_save(false, true, "a/b"), Err(Refusal::InvalidName));
    assert_eq!(may_save(false, true, &default_name(12)), Ok(()));
    assert_eq!(default_name(12), "snapshot-12");
    assert_eq!(Refusal::MovesRoot.code(), 400);
    assert_eq!(Refusal::InvalidName.message(), "invalid snapshot name");
    assert_eq!(Refusal::NoSuchSnapshot.code(), 404);
}

#[test]
fn answers_describe_the_tree() {
    let mut t = Tree::new("root".into(), 0, 0, 0);
    let d = t.add_children(ROOT, vec![entry("d", Kind::Dir, 0), entry("b.bin", Kind::File, 5)])[0];
    t.add_children(d, vec![entry("x.txt", Kind::File, 7), entry("y.txt", Kind::File, 6)]);
    let r = answers::node(&t, d, Metric::Size, Sort::Name, true, Some(1), false).unwrap();
    assert_eq!((r.id, r.name.as_str(), r.path.as_str(), r.size, r.files), (d, "d", "d", 13, 2));
    assert_eq!(r.breadcrumb.len(), 2);
    assert_eq!(r.children[0].name, "x.txt");
    assert_eq!((r.other.count, r.other.size), (1, 6));
    assert!(r.scanning);
    assert_eq!(r.version, t.version);

    let r = answers::types(&t, ROOT).unwrap();
    assert_eq!(r.types[0].ext, "txt");
    assert_eq!(r.types[0].size, 13);
    let r = answers::largest(&t, ROOT, Metric::Alloc, Some(2)).unwrap();
    assert_eq!(r.files.iter().map(|f| f.size).collect::<Vec<u64>>(), vec![11, 10]);
    assert_eq!(answers::path_parts(&t, 3).unwrap(), vec!["d", "x.txt"]);
    assert!(answers::path_parts(&t, ROOT).unwrap().is_empty());

    let p = SearchParams { ext: Some("txt".into()), limit: Some(1), ..params() };
    let r = answers::search(&t, ROOT, &p, NOW).unwrap();
    assert_eq!(r.hits.len(), 1);
    assert_eq!(r.hits[0].path, "d/x.txt");
    assert!(r.truncated);
    let r = answers::search(&t, ROOT, &SearchParams { limit: Some(2), ..p }, NOW).unwrap();
    assert!(!r.truncated);

    let r = answers::treemap(&t, ROOT, &params(), NOW).unwrap();
    assert_eq!(r.root.children.len(), 2);
    let p = answers::progress_of(&t, false, true, 33, &Dupes::new());
    assert!(p.scanning && p.cancelled);
    assert_eq!((p.elapsed_ms, p.root_size, p.stats.files), (33, 18, 3));
    assert_eq!(answers::event_name(true), "progress");
    assert_eq!(answers::event_name(false), "done");
}

#[test]
fn duplicates_belong_to_their_scope() {
    let mut t = Tree::new("root".into(), 0, 0, 0);
    t.add_children(ROOT, (0..4).map(|i| entry(&format!("f{i}"), Kind::File, 5)).collect());
    let c = |id| Candidate { id, size: 5, path: format!("f{id}") };
    let mut d = Dupes::new();
    let r = answers::duplicates(&t, &d, ROOT, None).unwrap();
    assert_eq!((r.groups.len(), r.total_groups), (0, 0));
    let g = d.start(ROOT, 1);
    d.publish(g, report(vec![vec![c(1), c(2)], vec![c(3), c(4)]]), 0);
    let r = answers::duplicates(&t, &d, ROOT, Some(1)).unwrap();
    assert_eq!((r.groups.len(), r.total_groups, r.truncated), (1, 2, true));
    assert_eq!(r.groups[0].wasted, 5);
    let r = answers::duplicates(&t, &d, 1, Some(1)).unwrap();
    assert_eq!((r.groups.len(), r.total_groups, r.truncated), (0, 0, false));
}

#[test]
fn assets_fall_back_to_the_entry_point() {
    assert_eq!(asset_path("/"), "index.html");
    assert_eq!(asset_path("//assets/x.js"), "assets/x.js");
    assert_eq!(cache_policy("assets/x.js"), "public, max-age=31536000, immutable");
    assert_eq!(cache_policy("index.html"), "no-cache");
    assert_eq!(cache_policy("assets"), "no-cache");
}

use duw::dupes::digest::hash_windows;
use duw::dupes::digest::readable;
use duw::dupes::digest::tail_offset;
use duw::dupes::digest::FileHash;
use duw::dupes::digest::FileStamp;
use duw::dupes::digest::Next;
use duw::dupes::digest::Read;
use duw::dupes::refine;
use duw::dupes::report;
use duw::dupes::stages::narrow;
use duw::dupes::stages::Stage;
use duw::dupes::survey;
use duw::dupes::weigh;
use duw::dupes::windowed;
use duw::dupes::Dupes;
use duw::dupes::FileStat;
use duw::dupes::Phase;
use duw::dupes::Update;
use duw::tree::Candidate;
use duw::tree::Kind;
use duw::tree::NewEntry;
use duw::tree::Tree;
use duw::tree::ROOT;

fn entry(name: &str, kind: Kind, size: u64) -> NewEntry {
    NewEntry {
        name: name.into(),
        kind,
        size,
        alloc: size,
        mtime: 0,
        err: false,
        cloud: false,
    }
}

/// A tree with two files below a directory, as they are on disk.
struct Fixture {
    tree: Tree,
    dupes: Dupes,
    dir: u32,
    contents: Vec<(&'static str, &'static [u8])>,
}

fn digest(bytes: &[u8]) -> Option<[u8; 32]> {
    let stamp = FileStamp { len: bytes.len() as u64, modified: Some(5), cloud: false };
    let mut h = FileHash::new();
    for chunk in bytes.chunks(3) {
        assert_eq!(h.step(false, Read::Bytes(chunk.to_vec())), Next::ReadMore);
        assert_eq!(h.step(false, Read::Interrupted), Next::ReadMore);
    }
    assert_eq!(h.step(false, Read::End), Next::Finish);
    h.finish(&stamp, Some(stamp))
}

impl Fixture {
    fn new() -> Self {
        let mut tree = Tree::new("root".into(), 0, 0, 0);
        let dir = tree.add_children(ROOT, vec![entry("sub", Kind::Dir, 0)])[0];
        tree.add_children(
            dir,
            vec![entry("a", Kind::File, 4), entry("b", Kind::File, 4)],
        );
        Self {
            tree,
            dupes: Dupes::new(),
            dir,
            contents: vec![("sub/a", b"aaaa"), ("sub/b", b"aaaa")],
        }
    }

    fn bytes(&self, path: &str) -> &'static [u8] {
        self.contents.iter().find(|c| c.0 == path).unwrap().1
    }

    fn run(&mut self, min: u64) {
        let generation = self.dupes.progress().generation;
        let candidates = self.tree.duplicate_candidates(ROOT, 1);
        let stats = candidates
            .iter()
            .map(|c| {
                Some(FileStat { len: self.bytes(&c.path).len() as u64, is_file: true, cloud: false })
            })
            .collect();
        let groups = survey(candidates, &stats, min);
        let (candidates, bytes_total) = weigh(&groups).unwrap();
        self.dupes.update(generation, Update::Grouped { candidates, bytes_total });
        self.dupes.update(generation, Update::Hashing);
        let unread = groups.iter().map(|_| Vec::new()).collect();
        let refined = narrow(groups, &unread, Stage::Windows);
        let digests = refined
            .iter()
            .map(|g| g.iter().map(|c| digest(self.bytes(&c.path))).collect())
            .collect();
        let buckets = narrow(refined, &digests, Stage::Contents);
        assert!(self.dupes.publish(generation, report(buckets), 1));
        self.dupes.finish(generation, true, 2);
    }
}

#[test]
fn rescan_observes_content_changes_and_new_sizes() {
    let mut f = Fixture::new();
    f.run(1);
    assert_eq!(f.dupes.groups().len(), 1);
    f.contents[1].1 = b"bbbb";
    f.run(1);
    assert!(f.dupes.groups().is_empty());
    for c in f.contents.iter_mut() {
        c.1 = b"larger";
    }
    f.run(6);
    assert_eq!(f.dupes.groups()[0].size, 6);
    assert_eq!(f.dupes.progress().phase, Phase::Done);
}

#[test]
fn removing_folder_clears_descendants_and_publishes_revision() {
    let mut f = Fixture::new();
    f.run(1);
    let generation = f.dupes.progress().generation;
    f.tree.remove(f.dir);
    f.dupes.forget_removed(&f.tree);
    assert!(f.dupes.groups().is_empty());
    let p = f.dupes.progress();
    assert_eq!(p.wasted, 0);
    assert_eq!(p.groups, 0);
    assert!(p.generation > generation);
}

#[test]
fn cancelling_invalidates_worker_updates_and_hash_reads() {
    let mut f = Fixture::new();
    f.dupes.cancel();
    f.dupes.update(0, Update::Reached(Phase::Done));
    assert_eq!(f.dupes.progress().phase, Phase::Cancelled);
    let mut h = FileHash::new();
    assert_eq!(h.step(true, Read::Bytes(b"aaaa".to_vec())), Next::GiveUp);
}

#[test]
fn digests_are_those_of_the_bytes() {
    assert_eq!(digest(b"foobarbaz"), Some(*blake3::hash(b"foobarbaz").as_bytes()));
    assert_eq!(digest(b""), Some(*blake3::hash(b"").as_bytes()));
    let head = vec![1u8; 16384];
    let tail = vec![2u8; 16384];
    let mut all = 70_000u64.to_le_bytes().to_vec();
    all.extend(&head);
    all.extend(&tail);
    assert_eq!(hash_windows(70_000, &head, &tail), *blake3::hash(&all).as_bytes());
    assert_ne!(hash_windows(70_001, &head, &tail), *blake3::hash(&all).as_bytes());
    assert_eq!(tail_offset(70_000), Some(70_000 - 16384));
    assert_eq!(tail_offset(5), None);
}

#[test]
fn changed_files_have_no_digest() {
    let before = FileStamp { len: 4, modified: Some(5), cloud: false };
    let h = FileHash::new();
    assert!(h.finish(&before, Some(before)).is_some());
    assert!(h.finish(&before, None).is_none());
    assert!(h.finish(&before, Some(FileStamp { len: 5, ..before })).is_none());
    assert!(h.finish(&before, Some(FileStamp { modified: Some(6), ..before })).is_none());
    assert!(h.finish(&before, Some(FileStamp { modified: None, ..before })).is_none());
    assert!(readable(&before, 4));
    assert!(!readable(&before, 5));
    assert!(!readable(&FileStamp { cloud: true, ..before }, 4));
    let mut h = FileHash::new();
    assert_eq!(h.step(false, Read::Failed), Next::GiveUp);
}

fn candidate(id: u32, size: u64) -> Candidate {
    Candidate { id, size, path: format!("f{id}") }
}

#[test]
fn only_comparable_files_are_grouped() {
    let all: Vec<Candidate> = (0..7).map(|i| candidate(i, 1)).collect();
    let stat = |len| Some(FileStat { len, is_file: true, cloud: false });
    let stats = vec![
        stat(8),
        stat(9),
        stat(8),
        None,
        Some(FileStat { len: 9, is_file: false, cloud: false }),
        Some(FileStat { len: 9, is_file: true, cloud: true }),
        stat(0),
    ];
    let groups = survey(all, &stats, 0);
    assert_eq!(groups.len(), 1);
    let ids: Vec<u32> = groups[0].iter().map(|c| c.id).collect();
    assert_eq!(ids, vec![0, 2]);
    assert_eq!(groups[0][0].size, 8);
    assert_eq!(weigh(&groups), Some((2, 16)));
    assert_eq!(weigh(&vec![vec![candidate(0, u64::MAX), candidate(1, u64::MAX)]]), None);
}

#[test]
fn groups_split_by_digest_and_lose_unreadable_files() {
    let group: Vec<Candidate> = (0..6).map(|i| candidate(i, 10)).collect();
    let (x, mut y) = ([7u8; 32], [7u8; 32]);
    y[31] = 8;
    let parts = refine(group, &vec![Some(x), Some(y), None, Some(x), Some(y), Some([1; 32])]);
    let ids: Vec<Vec<u32>> = parts.iter().map(|p| p.iter().map(|c| c.id).collect()).collect();
    assert_eq!(ids, vec![vec![0, 3], vec![1, 4]]);
}

#[test]
fn reports_put_the_worst_first() {
    let bucket = |ids: &[u32], size| ids.iter().map(|i| candidate(*i, size)).collect::<Vec<Candidate>>();
    let r = report(vec![bucket(&[1, 2], 10), bucket(&[3, 4, 5], 10), bucket(&[6, 7], 20)]);
    let seen: Vec<(u64, u64, usize)> = r.iter().map(|g| (g.wasted, g.size, g.files.len())).collect();
    assert_eq!(seen, vec![(20, 20, 2), (20, 10, 3), (10, 10, 2)]);
    assert_eq!(r[2].files[0].path, "f1");
}

#[test]
fn a_superseded_run_changes_nothing() {
    let mut d = Dupes::new();
    let first = d.start(3, 1);
    let second = d.start(4, 2);
    assert_eq!((first, second), (1, 2));
    assert!(d.stale(first));
    d.record_read(first, 100);
    d.update(first, Update::Hashing);
    d.finish(first, true, 9);
    let bucket = vec![candidate(1, 5), candidate(2, 5)];
    assert!(!d.publish(first, report(vec![bucket]), 9));
    let p = d.progress();
    assert_eq!((p.phase, p.scope, p.min_size, p.read, p.elapsed_ms), (Phase::Grouping, 4, 2, 0, 0));
    assert!(d.groups().is_empty());
    d.record_read(second, 100);
    assert_eq!((d.progress().read, d.progress().bytes_read), (1, 100));
    d.finish(second, false, 9);
    assert_eq!(d.progress().phase, Phase::Cancelled);
}

#[test]
fn a_finished_run_stays_done_when_cancelled() {
    let mut d = Dupes::new();
    let g = d.start(0, 1);
    d.finish(g, true, 1);
    d.cancel();
    assert_eq!(d.progress().phase, Phase::Done);
    assert!(d.stale(g));
}

#[test]
fn forgetting_keeps_what_is_still_shared() {
    let mut t = Tree::new("root".into(), 0, 0, 0);
    t.add_children(ROOT, (0..5).map(|i| entry(&format!("f{i}"), Kind::File, 10)).collect());
    let mut d = Dupes::new();
    let g = d.start(ROOT, 1);
    let buckets = vec![
        vec![candidate(1, 10), candidate(2, 10), candidate(3, 10)],
        vec![candidate(4, 10), candidate(5, 10)],
    ];
    assert!(d.publish(g, report(buckets), 0));
    assert_eq!(d.progress().wasted, 30);
    t.remove(2);
    t.remove(5);
    d.forget_removed(&t);
    let groups = d.groups();
    assert_eq!(groups.len(), 1);
    assert_eq!(groups[0].wasted, 10);
    assert_eq!(groups[0].files.iter().map(|f| f.id).collect::<Vec<u32>>(), vec![1, 3]);
    let p = d.progress();
    assert_eq!((p.groups, p.wasted, p.phase), (1, 10, Phase::Cancelled));
}

#[test]
fn stages_read_only_what_they_need() {
    assert!(!Stage::Windows.reads(65_536));
    assert!(Stage::Windows.reads(65_537));
    assert!(Stage::Contents.reads(1));
    assert!(!windowed(65_536));
    assert!(windowed(65_537));
}

#[test]
fn equal_files_end_in_one_group_and_others_do_not() {
    let group = |ids: &[u32], size| ids.iter().map(|i| candidate(*i, size)).collect::<Vec<Candidate>>();
    let ids = |v: &Vec<Vec<Candidate>>| -> Vec<Vec<u32>> {
        v.iter().map(|g| g.iter().map(|c| c.id).collect()).collect()
    };
    let (x, y) = (Some([1u8; 32]), Some([2u8; 32]));
    let sized = vec![group(&[1, 2, 3, 4], 100_000), group(&[5, 6], 10)];
    let windows = vec![vec![x, x, x, y], Vec::new()];
    let refined = narrow(sized, &windows, Stage::Windows);
    assert_eq!(ids(&refined), vec![vec![1, 2, 3], vec![5, 6]]);
    let contents = vec![vec![x, y, x], vec![y, None]];
    let found = narrow(refined, &contents, Stage::Contents);
    assert_eq!(ids(&found), vec![vec![1, 3]]);
}

#[test]
fn forgetting_twice_is_forgetting_once() {
    let mut f = Fixture::new();
    f.run(1);
    f.dupes.forget_removed(&f.tree);
    let once: Vec<usize> = f.dupes.groups().iter().map(|g| g.files.len()).collect();
    f.dupes.forget_removed(&f.tree);
    let twice: Vec<usize> = f.dupes.groups().iter().map(|g| g.files.len()).collect();
    assert_eq!(once, vec![2]);
    assert_eq!(twice, once);
}

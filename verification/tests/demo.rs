use duw::demo::atlas;
use duw::demo::next_entry;
use duw::tree::Kind;
use duw::tree::Tree;
use duw::tree::ROOT;

#[test]
fn the_atlas_has_shards_of_unique_sizes() {
    let all = atlas();
    assert_eq!(all.len(), 76 + 420 * 4);
    assert_eq!(all[0].0, "video/documentaries/deep-ocean-trenches-2160p.mkv");
    assert_eq!(all[0].1, 4_800 * 1024 * 1024);
    assert_eq!(all[75].0, "src/target/debug/duw.pdb");
    assert_eq!(all[76], ("datasets/shards/part_0000/chunk_0.bin".to_string(), 1200));
    assert_eq!(all[76 + 57], ("datasets/shards/part_0014/chunk_1.bin".to_string(), 1200 + 57 * 3));
    assert_eq!(all.last().unwrap().0, "datasets/shards/part_0419/chunk_3.bin");
    let mut sizes: Vec<u64> = all[76..].iter().map(|e| e.1).collect();
    sizes.sort();
    sizes.dedup();
    assert_eq!(sizes.len(), 420 * 4);
    assert!(all[..76].iter().all(|e| !sizes.contains(&e.1)));
}

#[test]
fn some_hand_picked_entries_share_a_size() {
    let all = atlas();
    let size = |p: &str| all.iter().find(|e| e.0 == p).unwrap().1;
    assert_eq!(size("design/assets/hero.jpg"), size("downloads/hero.jpg"));
    assert_eq!(size("design/assets/logo.png"), 2_400 * 1024);
}

#[test]
fn steps_build_the_whole_tree() {
    let mut t = Tree::new("atlas".into(), 0, 0, 0);
    let (parent, e) = next_entry(&t, "a/b/c.bin", 7).unwrap();
    assert_eq!((parent, e.name.as_str(), e.kind, e.size), (ROOT, "a", Kind::Dir, 0));
    t.add_children(parent, vec![e]);
    let (parent, e) = next_entry(&t, "a/b/c.bin", 7).unwrap();
    assert_eq!((parent, e.name.as_str(), e.kind, e.size), (1, "b", Kind::Dir, 0));
    t.add_children(parent, vec![e]);
    let (parent, e) = next_entry(&t, "a/b/c.bin", 7).unwrap();
    assert_eq!((parent, e.name.as_str(), e.kind, e.size), (2, "c.bin", Kind::File, 7));
    t.add_children(parent, vec![e]);
    assert!(next_entry(&t, "a/b/c.bin", 7).is_none());
    assert_eq!(next_entry(&t, "a/b/d", 1).unwrap().0, 2);
    assert_eq!(t.rel_path(3), "a/b/c.bin");

    let mut t = Tree::new("atlas".into(), 0, 0, 0);
    let all = atlas();
    for (path, size) in &all {
        while let Some((parent, e)) = next_entry(&t, path, *size) {
            t.add_children(parent, vec![e]);
        }
    }
    assert_eq!(t.stats.files as usize, all.len());
    assert_eq!(t.stats.size, all.iter().map(|e| e.1).sum::<u64>());
    assert!(t.nodes.iter().all(|n| n.kind != Kind::Dir || n.read));
}

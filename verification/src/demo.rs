//! Synthetic tree for the hidden `--demo` flag.
//!
//! The scanner streams these entries into the tree with a short pause between
//! directories, so the UI looks like it is walking a real disk without a
//! single file being read. Sizes are just numbers and the "files" do not
//! exist; this exists so screenshots and GIFs need no prepared tree.

use vstd::prelude::*;

use crate::text;
use crate::tree;
use crate::tree::model;
use crate::tree::Kind;
use crate::tree::NewEntry;
use crate::tree::Node;
use crate::tree::Tree;
use crate::tree::ROOT;

verus! {

pub const KB: u64 = 1024;

pub const MB: u64 = 1_048_576;

/// Extra shard directories that make the simulated scan take a few seconds.
pub const SHARDS: u64 = 420;

/// What a list of entries says.
pub open spec fn told(v: Seq<(String, u64)>) -> Seq<(Seq<char>, u64)> {
    v.map_values(|e: (String, u64)| (e.0@, e.1))
}

/// The hand-picked entries.
pub open spec fn base() -> Seq<(Seq<char>, u64)> {
    seq![
        ("video/documentaries/deep-ocean-trenches-2160p.mkv"@, (4_800 * MB) as u64),
        ("video/documentaries/the-cartographers-1080p.mkv"@, (2_900 * MB) as u64),
        ("video/documentaries/salt-flats-uncut.mkv"@, (2_100 * MB) as u64),
        ("video/raw-footage/clip.001.mp4"@, (868 * MB) as u64),
        ("video/raw-footage/clip.002.mp4"@, (514 * MB) as u64),
        ("video/raw-footage/clip.003.mp4"@, (312 * MB) as u64),
        ("video/raw-footage/clip.004.mp4"@, (417 * MB) as u64),
        ("video/raw-footage/clip.006.mp4"@, (642 * MB) as u64),
        ("video/raw-footage/clip.007.mp4"@, (515 * MB) as u64),
        ("video/raw-footage/clip.008.mp4"@, (881 * MB) as u64),
        ("video/raw-footage/clip.009.m4"@, (670 * MB) as u64),
        ("video/raw-footage/clip.010.mp4"@, (449 * MB) as u64),
        ("video/raw-footage/clip.011.m4"@, (722 * MB) as u64),
        ("video/raw-footage/clip.014.m4"@, (639 * MB) as u64),
        ("video/exports/cut_v2.mp4"@, (765 * MB) as u64),
        ("video/exports/cut_v3.mp4"@, (647 * MB) as u64),
        ("video/exports/cut_v4.m4"@, (656 * MB) as u64),
        ("video/exports/cut_v5.mp4"@, (627 * MB) as u64),
        ("video/exports/cut_v6.mp4"@, (1_030 * MB) as u64),
        ("vm-images/debian-13-build.qcow2"@, (6_200 * MB) as u64),
        ("vm-images/windows-lab.vhdx"@, (5_400 * MB) as u64),
        ("vm-images/ubuntu-builder.qcow2"@, (2_800 * MB) as u64),
        ("backups/weekly/snapshot-2026-w30.tar.zst"@, (982 * MB) as u64),
        ("backups/weekly/snapshot-2026-w31.tar.zst"@, (1_030 * MB) as u64),
        ("backups/weekly/snapshot-2026-w32.tar.zst"@, (1_120 * MB) as u64),
        ("backups/weekly/snapshot-2026-w33.tar.zst"@, (1_270 * MB) as u64),
        ("backups/weekly/snapshot-2026-w34.tar.zst"@, (1_430 * MB) as u64),
        ("backups/weekly/snapshot-2026-w35.tar.zst"@, (784 * MB) as u64),
        ("backups/weekly/snapshot-2026-w36.tar.zst"@, (902 * MB) as u64),
        ("backups/weekly/snapshot-2026-w37.tar.zst"@, (1_130 * MB) as u64),
        ("backups/weekly/snapshot-2026-w38.tar.zst"@, (1_280 * MB) as u64),
        ("backups/database/pg_dump_prod_2026-09-06.sql.gz"@, (703 * MB) as u64),
        ("backups/database/pg_dump_prod_2026-09-01.sql.gz"@, (792 * MB) as u64),
        ("backups/database/pg_dump_prod_2026-08-25.sql.gz"@, (721 * MB) as u64),
        ("backups/database/pg_dump_analytics_2026-08-25.sql.gz"@, (623 * MB) as u64),
        ("backups/database/pg_dump_analytics_2026-08-18.sql.gz"@, (627 * MB) as u64),
        ("datasets/elevation/tile_n02_e33.tif"@, (454 * MB) as u64),
        ("datasets/elevation/tile_n02_e12.tif"@, (242 * MB) as u64),
        ("datasets/elevation/tile_n03_e41.tif"@, (899 * MB) as u64),
        ("datasets/elevation/tile_n03_e42.tif"@, (487 * MB) as u64),
        ("datasets/elevation/tile_n04_w12.tif"@, (471 * MB) as u64),
        ("datasets/elevation/tile_n08_e41.tif"@, (436 * MB) as u64),
        ("datasets/audio-projects/field-recordings/rec_001_dawn.wav"@, (396 * MB) as u64),
        ("datasets/audio-projects/field-recordings/rec_005_night.wav"@, (289 * MB) as u64),
        ("datasets/audio-projects/field-recordings/rec_007_storm.wav"@, (310 * MB) as u64),
        ("datasets/audio-projects/field-recordings/rec_011_wind.wav"@, (291 * MB) as u64),
        ("datasets/audio-projects/field-recordings/rec_012_harbor.wav"@, (344 * MB) as u64),
        ("datasets/audio-projects/field-recordings/rec_014_hebron.wav"@, (374 * MB) as u64),
        ("containers/layers/layer_3f9a1c.bin"@, (336 * MB) as u64),
        ("containers/layers/layer_5b21d0.bin"@, (294 * MB) as u64),
        ("containers/layers/layer_77c0aa.bin"@, (402 * MB) as u64),
        ("containers/layers/layer_9d13fe.bin"@, (287 * MB) as u64),
        ("containers/layers/layer_b4e882.bin"@, (311 * MB) as u64),
        ("downloads/debian-13.2.0-amd64-netinst.iso"@, (1_100 * MB) as u64),
        ("downloads/ubuntu-24.04.3-live-server.iso"@, (895 * MB) as u64),
        ("photos/raw/dsc_0841.arw"@, (336 * MB) as u64),
        ("photos/raw/dsc_0855.arw"@, (351 * MB) as u64),
        ("photos/raw/dsc_0862.arw"@, (342 * MB) as u64),
        ("photos/mockups/atlas-legends.png"@, (713 * MB) as u64),
        ("photos/mockups/atlas-map.png"@, (452 * MB) as u64),
        ("photos/mockups/atlas-splash.png"@, (1_100 * MB) as u64),
        ("photos/mockups/atlas-wireframe.fig"@, (337 * MB) as u64),
        ("photos/mockups/atlas-nav.png"@, (1_400 * MB) as u64),
        ("mail-archive/2024/inbox-2024-11.mbox"@, (716 * MB) as u64),
        ("mail-archive/2024/inbox-2024-09.mbox"@, (512 * MB) as u64),
        ("mail-archive/2025/inbox-2025-02.mbox"@, (689 * MB) as u64),
        ("music/2022/north-line.flac"@, (336 * MB) as u64),
        ("music/2022/bell-tower.flac"@, (367 * MB) as u64),
        ("music/2023/atlas-theme.flac"@, (1_200 * MB) as u64),
        ("design/assets/logo.png"@, (2_400 * KB) as u64),
        ("design/exports/logo.png"@, (2_400 * KB) as u64),
        ("design/assets/hero.jpg"@, (8_200 * KB) as u64),
        ("downloads/hero.jpg"@, (8_200 * KB) as u64),
        ("design/assets/atlas-en.woff2"@, (1_200 * KB) as u64),
        ("design/assets/icons.svg"@, (480 * KB) as u64),
        ("src/target/debug/duw.pdb"@, (480 * MB) as u64),
    ]
}

/// `n` in decimal, with zeros in front up to four digits.
pub open spec fn four_digits(n: nat) -> Seq<char> {
    if n < 10 {
        seq!['0', '0', '0'] + text::decimal(n)
    } else if n < 100 {
        seq!['0', '0'] + text::decimal(n)
    } else if n < 1000 {
        seq!['0'] + text::decimal(n)
    } else {
        text::decimal(n)
    }
}

/// The size of file `f` of shard `i`.
pub open spec fn shard_size(i: int, f: int) -> int {
    1200 + (i * 4 + f) * 3
}

/// File `f` of shard `i`.
pub open spec fn shard_file(i: int, f: int) -> (Seq<char>, u64) {
    (
        "datasets/shards/part_"@ + four_digits(i as nat) + "/chunk_"@ + text::decimal(f as nat) + ".bin"@,
        shard_size(i, f) as u64,
    )
}

/// The first `n` shard files, four to a shard.
pub open spec fn shard_files(n: nat) -> Seq<(Seq<char>, u64)> {
    Seq::new(n, |k: int| shard_file(k / 4, k % 4))
}

fn put(out: &mut Vec<(String, u64)>, path: &str, size: u64)
    ensures
        told(final(out)@) == told(old(out)@).push((path@, size)),
{
    let ghost before = out@;
    out.push((path.to_owned(), size));
    assert(told(out@) =~= told(before).push((path@, size)));
}

fn hand_picked() -> (out: Vec<(String, u64)>)
    ensures
        told(out@) == base(),
{
    let mut out: Vec<(String, u64)> = Vec::new();
    assert(told(out@) =~= Seq::<(Seq<char>, u64)>::empty());
    put(&mut out, "video/documentaries/deep-ocean-trenches-2160p.mkv", 4_800 * MB);
    put(&mut out, "video/documentaries/the-cartographers-1080p.mkv", 2_900 * MB);
    put(&mut out, "video/documentaries/salt-flats-uncut.mkv", 2_100 * MB);
    put(&mut out, "video/raw-footage/clip.001.mp4", 868 * MB);
    put(&mut out, "video/raw-footage/clip.002.mp4", 514 * MB);
    put(&mut out, "video/raw-footage/clip.003.mp4", 312 * MB);
    put(&mut out, "video/raw-footage/clip.004.mp4", 417 * MB);
    put(&mut out, "video/raw-footage/clip.006.mp4", 642 * MB);
    put(&mut out, "video/raw-footage/clip.007.mp4", 515 * MB);
    put(&mut out, "video/raw-footage/clip.008.mp4", 881 * MB);
    put(&mut out, "video/raw-footage/clip.009.m4", 670 * MB);
    put(&mut out, "video/raw-footage/clip.010.mp4", 449 * MB);
    put(&mut out, "video/raw-footage/clip.011.m4", 722 * MB);
    put(&mut out, "video/raw-footage/clip.014.m4", 639 * MB);
    put(&mut out, "video/exports/cut_v2.mp4", 765 * MB);
    put(&mut out, "video/exports/cut_v3.mp4", 647 * MB);
    put(&mut out, "video/exports/cut_v4.m4", 656 * MB);
    put(&mut out, "video/exports/cut_v5.mp4", 627 * MB);
    put(&mut out, "video/exports/cut_v6.mp4", 1_030 * MB);
    put(&mut out, "vm-images/debian-13-build.qcow2", 6_200 * MB);
    put(&mut out, "vm-images/windows-lab.vhdx", 5_400 * MB);
    put(&mut out, "vm-images/ubuntu-builder.qcow2", 2_800 * MB);
    put(&mut out, "backups/weekly/snapshot-2026-w30.tar.zst", 982 * MB);
    put(&mut out, "backups/weekly/snapshot-2026-w31.tar.zst", 1_030 * MB);
    put(&mut out, "backups/weekly/snapshot-2026-w32.tar.zst", 1_120 * MB);
    put(&mut out, "backups/weekly/snapshot-2026-w33.tar.zst", 1_270 * MB);
    put(&mut out, "backups/weekly/snapshot-2026-w34.tar.zst", 1_430 * MB);
    put(&mut out, "backups/weekly/snapshot-2026-w35.tar.zst", 784 * MB);
    put(&mut out, "backups/weekly/snapshot-2026-w36.tar.zst", 902 * MB);
    put(&mut out, "backups/weekly/snapshot-2026-w37.tar.zst", 1_130 * MB);
    put(&mut out, "backups/weekly/snapshot-2026-w38.tar.zst", 1_280 * MB);
    put(&mut out, "backups/database/pg_dump_prod_2026-09-06.sql.gz", 703 * MB);
    put(&mut out, "backups/database/pg_dump_prod_2026-09-01.sql.gz", 792 * MB);
    put(&mut out, "backups/database/pg_dump_prod_2026-08-25.sql.gz", 721 * MB);
    put(&mut out, "backups/database/pg_dump_analytics_2026-08-25.sql.gz", 623 * MB);
    put(&mut out, "backups/database/pg_dump_analytics_2026-08-18.sql.gz", 627 * MB);
    put(&mut out, "datasets/elevation/tile_n02_e33.tif", 454 * MB);
    put(&mut out, "datasets/elevation/tile_n02_e12.tif", 242 * MB);
    put(&mut out, "datasets/elevation/tile_n03_e41.tif", 899 * MB);
    put(&mut out, "datasets/elevation/tile_n03_e42.tif", 487 * MB);
    put(&mut out, "datasets/elevation/tile_n04_w12.tif", 471 * MB);
    put(&mut out, "datasets/elevation/tile_n08_e41.tif", 436 * MB);
    put(&mut out, "datasets/audio-projects/field-recordings/rec_001_dawn.wav", 396 * MB);
    put(&mut out, "datasets/audio-projects/field-recordings/rec_005_night.wav", 289 * MB);
    put(&mut out, "datasets/audio-projects/field-recordings/rec_007_storm.wav", 310 * MB);
    put(&mut out, "datasets/audio-projects/field-recordings/rec_011_wind.wav", 291 * MB);
    put(&mut out, "datasets/audio-projects/field-recordings/rec_012_harbor.wav", 344 * MB);
    put(&mut out, "datasets/audio-projects/field-recordings/rec_014_hebron.wav", 374 * MB);
    put(&mut out, "containers/layers/layer_3f9a1c.bin", 336 * MB);
    put(&mut out, "containers/layers/layer_5b21d0.bin", 294 * MB);
    put(&mut out, "containers/layers/layer_77c0aa.bin", 402 * MB);
    put(&mut out, "containers/layers/layer_9d13fe.bin", 287 * MB);
    put(&mut out, "containers/layers/layer_b4e882.bin", 311 * MB);
    put(&mut out, "downloads/debian-13.2.0-amd64-netinst.iso", 1_100 * MB);
    put(&mut out, "downloads/ubuntu-24.04.3-live-server.iso", 895 * MB);
    put(&mut out, "photos/raw/dsc_0841.arw", 336 * MB);
    put(&mut out, "photos/raw/dsc_0855.arw", 351 * MB);
    put(&mut out, "photos/raw/dsc_0862.arw", 342 * MB);
    put(&mut out, "photos/mockups/atlas-legends.png", 713 * MB);
    put(&mut out, "photos/mockups/atlas-map.png", 452 * MB);
    put(&mut out, "photos/mockups/atlas-splash.png", 1_100 * MB);
    put(&mut out, "photos/mockups/atlas-wireframe.fig", 337 * MB);
    put(&mut out, "photos/mockups/atlas-nav.png", 1_400 * MB);
    put(&mut out, "mail-archive/2024/inbox-2024-11.mbox", 716 * MB);
    put(&mut out, "mail-archive/2024/inbox-2024-09.mbox", 512 * MB);
    put(&mut out, "mail-archive/2025/inbox-2025-02.mbox", 689 * MB);
    put(&mut out, "music/2022/north-line.flac", 336 * MB);
    put(&mut out, "music/2022/bell-tower.flac", 367 * MB);
    put(&mut out, "music/2023/atlas-theme.flac", 1_200 * MB);
    put(&mut out, "design/assets/logo.png", 2_400 * KB);
    put(&mut out, "design/exports/logo.png", 2_400 * KB);
    put(&mut out, "design/assets/hero.jpg", 8_200 * KB);
    put(&mut out, "downloads/hero.jpg", 8_200 * KB);
    put(&mut out, "design/assets/atlas-en.woff2", 1_200 * KB);
    put(&mut out, "design/assets/icons.svg", 480 * KB);
    put(&mut out, "src/target/debug/duw.pdb", 480 * MB);
    out
}

/// `n` in decimal, with zeros in front up to four digits, at the end of `out`.
fn push_four_digits(out: &mut String, n: u64)
    ensures
        final(out)@ == old(out)@ + four_digits(n as nat),
{
    let ghost before = out@;
    if n < 1000 {
        out.push('0');
    }
    if n < 100 {
        out.push('0');
    }
    if n < 10 {
        out.push('0');
    }
    text::push_decimal(out, n);
    assert(out@ =~= before + four_digits(n as nat));
}

/// `(path relative to the scan root, size)` entries the demo walk visits.
pub fn atlas() -> (out: Vec<(String, u64)>)
    ensures
        told(out@) == base() + shard_files(4 * SHARDS as nat),
{
    let mut out = hand_picked();
    assert(base() + shard_files(0) =~= base());
    let mut i: u64 = 0;
    while i < SHARDS
        invariant
            i <= SHARDS,
            told(out@) == base() + shard_files((4 * i) as nat),
        decreases SHARDS - i,
    {
        let mut f: u64 = 0;
        while f < 4
            invariant
                i < SHARDS,
                f <= 4,
                told(out@) == base() + shard_files((4 * i + f) as nat),
            decreases 4 - f,
        {
            let mut path = "datasets/shards/part_".to_owned();
            push_four_digits(&mut path, i);
            path.append("/chunk_");
            text::push_decimal(&mut path, f);
            path.append(".bin");
            // Unique sizes keep the fabricated duplicate groups meaningful.
            let size: u64 = 1_200 + (i * 4 + f) * 3;
            let ghost k = 4 * i + f;
            put(&mut out, path.as_str(), size);
            proof {
                assert(k / 4 == i && k % 4 == f);
                assert(shard_files(k as nat).push(shard_file(i as int, f as int)) =~= shard_files((k + 1) as nat));
                assert(base() + shard_files(k as nat).push(shard_file(i as int, f as int)) =~= (base() + shard_files(
                    k as nat,
                )).push(shard_file(i as int, f as int)));
            }
            f = f + 1;
        }
        i = i + 1;
    }
    out
}

/// No two shard files have the same size.
pub proof fn law_shard_sizes_are_unique(i: int, f: int, j: int, g: int)
    requires
        0 <= f < 4,
        0 <= g < 4,
        shard_size(i, f) == shard_size(j, g),
    ensures
        i == j,
        f == g,
{
}

/// No shard file has the size of a hand-picked entry.
pub proof fn law_shards_match_nothing_else(i: int, f: int, k: int)
    requires
        0 <= i < SHARDS,
        0 <= f < 4,
        0 <= k < base().len(),
    ensures
        shard_size(i, f) != base()[k].1,
{
    assert(base()[k].1 >= 480 * KB);
}

/// The first of `ids` with this name that is a directory, or that is none.
pub open spec fn named(nodes: Seq<Node>, ids: Seq<u32>, name: Seq<char>, dir: bool) -> Option<u32>
    decreases ids.len(),
{
    if ids.len() == 0 {
        None
    } else {
        match named(nodes, ids.drop_last(), name, dir) {
            Some(c) => Some(c),
            None => {
                let n = nodes[ids.last() as int];
                if n.name@ == name && (n.kind == Kind::Dir) == dir {
                    Some(ids.last())
                } else {
                    None
                }
            },
        }
    }
}

/// What is missing next of a path below `at`.
pub struct Gap {
    /// The directory it belongs into.
    pub parent: u32,
    pub name: Seq<char>,
    /// It is the file at the end of the path.
    pub file: bool,
}

/// The first part of a path below `at` that the tree does not hold.
pub open spec fn gap(nodes: Seq<Node>, at: u32, parts: Seq<Seq<char>>) -> Option<Gap>
    decreases parts.len(),
{
    if parts.len() == 0 {
        None
    } else {
        let file = parts.len() == 1;
        match named(nodes, nodes[at as int].children@, parts[0], !file) {
            Some(c) => gap(nodes, c, parts.drop_first()),
            None => Some(Gap { parent: at, name: parts[0], file }),
        }
    }
}

/// `e` fills a gap: a directory without weight, or a file of this size.
pub open spec fn fills(e: NewEntry, g: Gap, size: u64) -> bool {
    &&& e.name@ == g.name
    &&& e == (NewEntry {
        name: e.name,
        kind: if g.file {
            Kind::File
        } else {
            Kind::Dir
        },
        size: if g.file {
            size
        } else {
            0
        },
        alloc: if g.file {
            size
        } else {
            0
        },
        mtime: 0,
        err: false,
        cloud: false,
    })
}

/// The first of the children with this name that is a directory, or that is
/// none.
fn find_child(tree: &Tree, id: u32, name: &Vec<char>, dir: bool) -> (r: Option<u32>)
    requires
        tree.wf(),
        tree.holds(id),
    ensures
        r == named(tree.nodes@, tree.nodes@[id as int].children@, name@, dir),
        match r {
            Some(c) => tree.nodes@[id as int].children@.contains(c) && (tree.nodes@[c as int].kind == Kind::Dir) == dir,
            None => true,
        },
{
    let kids = &tree.nodes[id as usize].children;
    let mut k: usize = 0;
    assert(kids@.take(0) =~= Seq::<u32>::empty());
    while k < kids.len()
        invariant
            k <= kids@.len(),
            tree.wf(),
            tree.holds(id),
            kids@ == tree.nodes@[id as int].children@,
            named(tree.nodes@, kids@.take(k as int), name@, dir) is None,
        decreases kids.len() - k,
    {
        let c: u32 = kids[k];
        proof {
            assert(model::listed(tree.nodes@, id as int, tree.nodes@[id as int].children@[k as int]));
            assert(kids@.take(k + 1).drop_last() =~= kids@.take(k as int));
            assert(kids@.take(k + 1).last() == c);
        }
        let n = &tree.nodes[c as usize];
        let letters = text::chars_of(n.name.as_str());
        if (n.kind == Kind::Dir) == dir && letters.len() == name.len() && text::starts_with(&letters, name) {
            proof {
                assert(letters@ =~= name@);
                lemma_named_first(tree.nodes@, kids@, name@, dir, k + 1);
            }
            return Some(c);
        }
        assert(letters@ == name@ ==> text::begins_with(letters@, name@)) by {
            assert(letters@.take(letters@.len() as int) =~= letters@);
        }
        k = k + 1;
    }
    assert(kids@.take(k as int) =~= kids@);
    None
}

/// What a part of a list finds, the whole list finds.
proof fn lemma_named_first(nodes: Seq<Node>, ids: Seq<u32>, name: Seq<char>, dir: bool, k: int)
    requires
        0 <= k <= ids.len(),
        named(nodes, ids.take(k), name, dir) is Some,
    ensures
        named(nodes, ids, name, dir) == named(nodes, ids.take(k), name, dir),
    decreases ids.len(),
{
    if k < ids.len() {
        assert(ids.drop_last().take(k) =~= ids.take(k));
        lemma_named_first(nodes, ids.drop_last(), name, dir, k);
    } else {
        assert(ids.take(k) =~= ids);
    }
}

/// What the demo walk finds next on the way to a file: the directory that the
/// entry belongs into, and the entry. Nothing once the file is there.
pub fn next_entry(tree: &Tree, path: &str, size: u64) -> (r: Option<(u32, NewEntry)>)
    requires
        tree.wf(),
    ensures
        match r {
            Some((at, e)) => {
                let g = gap(tree.nodes@, ROOT, text::pieces(path@, '/'));
                &&& g is Some
                &&& g->0.parent == at
                &&& fills(e, g->0, size)
                &&& tree.reaches(at)
                &&& tree.nodes@[0].kind == Kind::Dir ==> tree.nodes@[at as int].kind == Kind::Dir
            },
            None => gap(tree.nodes@, ROOT, text::pieces(path@, '/')) is None,
        },
{
    let letters = text::chars_of(path);
    let parts = text::split(&letters, '/');
    let ghost all = text::pieces(path@, '/');
    let mut at: u32 = ROOT;
    let mut k: usize = 0;
    assert(all.skip(0) =~= all);
    while k < parts.len()
        invariant
            tree.wf(),
            k <= parts@.len(),
            all == text::pieces(path@, '/'),
            text::texts(parts@) == all,
            tree.reaches(at),
            tree.nodes@[0].kind == Kind::Dir ==> k >= parts@.len() || tree.nodes@[at as int].kind == Kind::Dir,
            gap(tree.nodes@, ROOT, all) == gap(tree.nodes@, at, all.skip(k as int)),
        decreases parts.len() - k,
    {
        let file = k == parts.len() - 1;
        proof {
            assert(all.skip(k as int)[0] == all[k as int]);
            assert(all[k as int] == parts@[k as int]@);
            assert(all.skip(k as int).drop_first() =~= all.skip(k + 1));
        }
        match find_child(tree, at, &parts[k], !file) {
            Some(c) => {
                proof {
                    let kids = tree.nodes@[at as int].children@;
                    let j = kids.index_of(c);
                    assert(model::listed(tree.nodes@, at as int, tree.nodes@[at as int].children@[j]));
                }
                at = c;
            },
            None => {
                let name = text::string_of(&parts[k], 0, parts[k].len());
                assert(name@ =~= all[k as int]);
                let weight: u64 = if file {
                    size
                } else {
                    0
                };
                let kind = if file {
                    Kind::File
                } else {
                    Kind::Dir
                };
                let e = NewEntry { name, kind, size: weight, alloc: weight, mtime: 0, err: false, cloud: false };
                return Some((at, e));
            },
        }
        k = k + 1;
    }
    None
}

/// A gap is at `at` or below it.
proof fn lemma_gap_below(nodes: Seq<Node>, at: u32, parts: Seq<Seq<char>>)
    requires
        model::shape(nodes),
        at < nodes.len(),
    ensures
        match gap(nodes, at, parts) {
            Some(g) => at <= g.parent < nodes.len(),
            None => true,
        },
    decreases parts.len(),
{
    if parts.len() > 0 {
        let kids = nodes[at as int].children@;
        let file = parts.len() == 1;
        lemma_named_in(nodes, kids, parts[0], !file);
        if let Some(c) = named(nodes, kids, parts[0], !file) {
            let j = kids.index_of(c);
            assert(model::listed(nodes, at as int, nodes[at as int].children@[j]));
            lemma_gap_below(nodes, c, parts.drop_first());
        }
    }
}

proof fn lemma_named_in(nodes: Seq<Node>, ids: Seq<u32>, name: Seq<char>, dir: bool)
    ensures
        named(nodes, ids, name, dir) matches Some(c) ==> ids.contains(c),
    decreases ids.len(),
{
    if ids.len() > 0 {
        lemma_named_in(nodes, ids.drop_last(), name, dir);
        if let Some(c) = named(nodes, ids.drop_last(), name, dir) {
            let j = ids.drop_last().index_of(c);
            assert(ids[j] == c);
        } else {
            assert(ids[ids.len() - 1] == ids.last());
        }
    }
}

/// Who has which name depends on names and kinds alone.
proof fn lemma_same_named(a: Seq<Node>, b: Seq<Node>, ids: Seq<u32>, name: Seq<char>, dir: bool)
    requires
        forall|k: int| 0 <= k < ids.len() ==> a[(#[trigger] ids[k]) as int].name == b[ids[k] as int].name && a[ids[k] as int].kind
            == b[ids[k] as int].kind,
    ensures
        named(a, ids, name, dir) == named(b, ids, name, dir),
    decreases ids.len(),
{
    if ids.len() > 0 {
        let front = ids.drop_last();
        assert forall|k: int| 0 <= k < front.len() implies a[(#[trigger] front[k]) as int].name == b[front[k] as int].name
            && a[front[k] as int].kind == b[front[k] as int].kind by {
            assert(front[k] == ids[k]);
        }
        lemma_same_named(a, b, front, name, dir);
        assert(ids[ids.len() - 1] == ids.last());
    }
}

/// Inserting what fills a gap takes the path one part further: after the file
/// nothing is missing, after a directory its next part is.
pub proof fn law_a_step_leads_on(before: Tree, after: Tree, at: u32, parts: Seq<Seq<char>>, size: u64, e: NewEntry)
    requires
        before.wf(),
        before.holds(at),
        before.nodes@.len() < u32::MAX,
        gap(before.nodes@, at, parts) is Some,
        fills(e, gap(before.nodes@, at, parts)->0, size),
        tree::inserted(before, after, gap(before.nodes@, at, parts)->0.parent, seq![e]),
    ensures
        match gap(after.nodes@, at, parts) {
            Some(g) => !gap(before.nodes@, at, parts)->0.file && g.parent == before.nodes@.len(),
            None => gap(before.nodes@, at, parts)->0.file,
        },
    decreases parts.len(),
{
    let a = before.nodes@;
    let b = after.nodes@;
    let g = gap(a, at, parts)->0;
    let p = g.parent as int;
    let n = a.len() as int;
    let kids = a[at as int].children@;
    let file = parts.len() == 1;
    lemma_gap_below(a, at, parts);
    assert(model::fresh(b[n + 0], g.parent, model::below(a[p].depth), seq![e][0], b[n + 0].ext));
    assert forall|k: int| 0 <= k < a.len() implies (#[trigger] b[k]).name == a[k].name && b[k].kind == a[k].kind by {
        if k != p {
            assert(b[k] == (if model::above(a, k, p) {
                model::raised(a[k], model::weigh(seq![e]))
            } else {
                a[k]
            }));
        }
    }
    assert forall|k: int| 0 <= k < kids.len() implies a[(#[trigger] kids[k]) as int].name == b[kids[k] as int].name && a[kids[k] as int].kind
        == b[kids[k] as int].kind by {
        assert(model::listed(a, at as int, a[at as int].children@[k]));
    }
    lemma_same_named(a, b, kids, parts[0], !file);
    lemma_named_in(a, kids, parts[0], !file);
    match named(a, kids, parts[0], !file) {
        Some(c) => {
            let j = kids.index_of(c);
            assert(model::listed(a, at as int, a[at as int].children@[j]));
            lemma_gap_below(a, c, parts.drop_first());
            assert(at != g.parent);
            assert(b[at as int].children == a[at as int].children) by {
                assert(b[at as int] == (if model::above(a, at as int, p) {
                    model::raised(a[at as int], model::weigh(seq![e]))
                } else {
                    a[at as int]
                }));
            }
            law_a_step_leads_on(before, after, c, parts.drop_first(), size, e);
        },
        None => {
            let now = b[at as int].children@;
            assert(now =~= kids.push(n as u32));
            assert(now.drop_last() =~= kids);
            assert(named(b, now, parts[0], !file) == Some(n as u32));
            let rest = parts.drop_first();
            assert(b[n].children@.len() == 0);
            assert(gap(b, n as u32, rest) == (if file {
                None
            } else {
                Some(Gap { parent: n as u32, name: rest[0], file: rest.len() == 1 })
            }));
            assert(gap(b, at, parts) == gap(b, n as u32, rest));
        },
    }
}

/// What is found under a name is the first entry of that name that is a
/// directory, or that is none, as asked for; nothing is found only if there is
/// no such entry.
pub proof fn law_the_first_of_a_name_is_found(nodes: Seq<Node>, ids: Seq<u32>, name: Seq<char>, dir: bool)
    ensures
        match named(nodes, ids, name, dir) {
            Some(c) => exists|k: int|
                0 <= k < ids.len() && #[trigger] ids[k] == c && nodes[c as int].name@ == name && (nodes[c as int].kind == Kind::Dir)
                    == dir && forall|j: int|
                    0 <= j < k ==> nodes[(#[trigger] ids[j]) as int].name@ != name || (nodes[ids[j] as int].kind == Kind::Dir)
                        != dir,
            None => forall|j: int|
                0 <= j < ids.len() ==> nodes[(#[trigger] ids[j]) as int].name@ != name || (nodes[ids[j] as int].kind == Kind::Dir)
                    != dir,
        },
    decreases ids.len(),
{
    if ids.len() > 0 {
        let front = ids.drop_last();
        law_the_first_of_a_name_is_found(nodes, front, name, dir);
        assert forall|j: int| 0 <= j < front.len() implies front[j] == #[trigger] ids[j] by {}
        match named(nodes, front, name, dir) {
            Some(c) => {
                let k = choose|k: int|
                    0 <= k < front.len() && #[trigger] front[k] == c && nodes[c as int].name@ == name && (nodes[c as int].kind
                        == Kind::Dir) == dir && forall|j: int|
                        0 <= j < k ==> nodes[(#[trigger] front[j]) as int].name@ != name || (nodes[front[j] as int].kind
                            == Kind::Dir) != dir;
                assert(ids[k] == c);
                assert forall|j: int| 0 <= j < k implies nodes[(#[trigger] ids[j]) as int].name@ != name || (
                nodes[ids[j] as int].kind == Kind::Dir) != dir by {
                    assert(front[j] == ids[j]);
                }
            },
            None => {
                assert(ids[ids.len() - 1] == ids.last());
                assert forall|j: int| 0 <= j < ids.len() - 1 implies nodes[(#[trigger] ids[j]) as int].name@ != name || (
                nodes[ids[j] as int].kind == Kind::Dir) != dir by {
                    assert(front[j] == ids[j]);
                }
            },
        }
    }
}

/// The parts of a path are looked for one below the other: the last as a file,
/// all others as directories. What is missing first is what comes next.
pub proof fn law_paths_are_followed_part_by_part(nodes: Seq<Node>, at: u32, parts: Seq<Seq<char>>, c: u32)
    requires
        parts.len() > 0,
    ensures
        ({
            let kids = nodes[at as int].children@;
            let last = parts.len() == 1;
            &&& named(nodes, kids, parts[0], !last) == Some(c) ==> gap(nodes, at, parts) == gap(nodes, c, parts.drop_first())
            &&& last && named(nodes, kids, parts[0], false) is Some ==> gap(nodes, at, parts) is None
            &&& named(nodes, kids, parts[0], !last) is None ==> gap(nodes, at, parts) is Some && gap(nodes, at, parts)->0.parent
                == at && gap(nodes, at, parts)->0.name == parts[0] && gap(nodes, at, parts)->0.file == last
        }),
{
    reveal_with_fuel(gap, 2);
}

/// What the demo walk adds is a directory that weighs nothing, or the file, which
/// weighs its size in bytes and on disk.
pub proof fn law_demo_entries_weigh_their_size(e: NewEntry, g: Gap, size: u64)
    requires
        fills(e, g, size),
    ensures
        e.name@ == g.name,
        g.file ==> e.kind == Kind::File && e.size == size && e.alloc == size,
        !g.file ==> e.kind == Kind::Dir && e.size == 0 && e.alloc == 0,
        !e.err,
        !e.cloud,
{
}

/// The numbers of the shards have four digits, which say the number.
pub proof fn law_shards_are_numbered_with_four_digits(n: nat)
    requires
        n < 10_000,
    ensures
        four_digits(n).len() == 4,
        text::digits_value(four_digits(n)) == n,
{
    reveal_with_fuel(text::decimal, 5);
    reveal_with_fuel(text::digits_value, 6);
    let s = four_digits(n);
    let a = s.drop_last();
    let b = a.drop_last();
    let c = b.drop_last();
    let d = c.drop_last();
    assert(s.len() == 4);
    assert(d.len() == 0);
    assert(a.last() == s[2] && b.last() == s[1] && c.last() == s[0]);
}

} // verus!

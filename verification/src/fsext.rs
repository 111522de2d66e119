//! What platform specific metadata means: on-disk size, hard links and cloud
//! placeholders.

use vstd::prelude::*;

use crate::text;

verus! {

/// What a platform can tell about its files.
#[derive(Clone, Copy, Debug)]
pub struct Support {
    pub one_file_system: bool,
    pub hardlink_dedup: bool,
    pub cloud_detection: bool,
    /// On-disk sizes are estimated from the cluster size rather than reported
    /// by the filesystem.
    pub approximate_alloc: bool,
    /// Backslashes separate the parts of a path, as slashes do.
    pub backslash: bool,
}

impl Support {
    pub fn unix() -> (s: Self)
        ensures
            s == (Support {
                one_file_system: true,
                hardlink_dedup: true,
                cloud_detection: false,
                approximate_alloc: false,
                backslash: false,
            }),
    {
        Support {
            one_file_system: true,
            hardlink_dedup: true,
            cloud_detection: false,
            approximate_alloc: false,
            backslash: false,
        }
    }

    pub fn windows() -> (s: Self)
        ensures
            s == (Support {
                one_file_system: false,
                hardlink_dedup: false,
                cloud_detection: true,
                approximate_alloc: true,
                backslash: true,
            }),
    {
        Support {
            one_file_system: false,
            hardlink_dedup: false,
            cloud_detection: true,
            approximate_alloc: true,
            backslash: true,
        }
    }

    pub fn other() -> (s: Self)
        ensures
            s == (Support {
                one_file_system: false,
                hardlink_dedup: false,
                cloud_detection: false,
                approximate_alloc: false,
                backslash: false,
            }),
    {
        Support {
            one_file_system: false,
            hardlink_dedup: false,
            cloud_detection: false,
            approximate_alloc: false,
            backslash: false,
        }
    }
}

/// What a volume says its cluster size is, or what was known before.
pub open spec fn cluster_of(current: u64, sectors_per_cluster: u32, bytes_per_sector: u32) -> int {
    if sectors_per_cluster * bytes_per_sector > 0 {
        sectors_per_cluster * bytes_per_sector
    } else {
        current as int
    }
}

/// A cluster is made of sectors; a volume that says nothing of either changes
/// nothing.
pub proof fn law_clusters_are_made_of_sectors(current: u64, sectors: u32, bytes: u32)
    ensures
        sectors > 0 && bytes > 0 ==> cluster_of(current, sectors, bytes) == sectors * bytes,
        sectors == 0 || bytes == 0 ==> cluster_of(current, sectors, bytes) == current,
{
    assert(sectors > 0 && bytes > 0 ==> sectors * bytes > 0) by (nonlinear_arith);
    assert(sectors == 0 || bytes == 0 ==> sectors * bytes == 0) by (nonlinear_arith);
}

/// A modification time in whole seconds since the epoch; unknown times and
/// times before the epoch count as the epoch.
pub fn mtime(since_epoch: Option<u64>) -> (r: i64)
    ensures
        r == (match since_epoch {
            Some(s) => s as i64,
            None => 0,
        }),
{
    match since_epoch {
        Some(s) => s as i64,
        None => 0,
    }
}

/// Apparent size and on-disk size where the filesystem counts blocks of 512
/// bytes.
pub fn block_sizes(len: u64, blocks: u64) -> (r: (u64, u64))
    requires
        blocks * 512 <= u64::MAX,
    ensures
        r.0 == len,
        r.1 == blocks * 512,
{
    (len, blocks * 512)
}

/// The least multiple of `cluster` that is at least `len`.
pub open spec fn rounded(len: int, cluster: int) -> int {
    if len % cluster == 0 {
        len
    } else {
        len - len % cluster + cluster
    }
}

/// Apparent size and on-disk size, approximated by rounding up to the cluster
/// size of the volume. That is exact for ordinary files and only wrong for
/// compressed or sparse ones.
pub fn cluster_sizes(len: u64, cluster: u64) -> (r: (u64, u64))
    requires
        cluster > 0,
        rounded(len as int, cluster as int) <= u64::MAX,
    ensures
        r.0 == len,
        r.1 == rounded(len as int, cluster as int),
{
    let over: u64 = len % cluster;
    proof {
        vstd::arithmetic::div_mod::lemma_mod_decreases(len as nat, cluster as nat);
    }
    if over == 0 {
        (len, len)
    } else {
        (len, len - over + cluster)
    }
}

/// Rounding up reaches a multiple of the cluster size, and the nearest one.
pub proof fn law_rounding_is_tight(len: int, cluster: int)
    requires
        len >= 0,
        cluster > 0,
    ensures
        rounded(len, cluster) % cluster == 0,
        len <= rounded(len, cluster) < len + cluster,
{
    let q = len / cluster;
    let r = len % cluster;
    vstd::arithmetic::div_mod::lemma_fundamental_div_mod(len, cluster);
    vstd::arithmetic::div_mod::lemma_mod_bound(len, cluster);
    if r != 0 {
        assert(len - r + cluster == cluster * (q + 1)) by (nonlinear_arith)
            requires
                len == cluster * q + r,
        ;
        vstd::arithmetic::div_mod::lemma_mod_multiples_basic(q + 1, cluster);
        assert((q + 1) * cluster == cluster * (q + 1)) by (nonlinear_arith);
    }
}

/// The cluster size of a volume, from what the system says about it. A volume
/// that cannot be asked keeps the size known before.
pub fn cluster_size(current: u64, sectors_per_cluster: u32, bytes_per_sector: u32) -> (r: u64)
    ensures
        r == cluster_of(current, sectors_per_cluster, bytes_per_sector),
        r == (if sectors_per_cluster * bytes_per_sector > 0 {
            sectors_per_cluster * bytes_per_sector
        } else {
            current as int
        }),
{
    assert(0 <= sectors_per_cluster * bytes_per_sector <= 0xffff_ffff * 0xffff_ffff) by (nonlinear_arith)
        requires
            0 <= sectors_per_cluster <= 0xffff_ffff,
            0 <= bytes_per_sector <= 0xffff_ffff,
    ;
    let cluster: u64 = sectors_per_cluster as u64 * bytes_per_sector as u64;
    if cluster > 0 {
        cluster
    } else {
        current
    }
}

/// A drive letter and its colon, as in `C:`.
pub open spec fn drive(s: Seq<char>) -> Option<char> {
    if s.len() >= 2 && s[1] == ':' && (s[0] as u32) < 128 {
        Some(s[0])
    } else {
        None
    }
}

/// `s` without the marker of a verbatim path.
pub open spec fn plain(s: Seq<char>) -> Seq<char> {
    if s.len() >= 4 && s[0] == '\\' && s[1] == '\\' && s[2] == '?' && s[3] == '\\' {
        s.skip(4)
    } else {
        s
    }
}

/// The root of the volume that a path is on.
pub fn volume_root(path: &str) -> (r: Option<String>)
    ensures
        match drive(plain(path@)) {
            Some(c) => r is Some && r->0@ == seq![c, ':', '\\'],
            None => r is None,
        },
{
    let cs = text::chars_of(path);
    let n: usize = cs.len();
    let start: usize = if n >= 4 && cs[0] == '\\' && cs[1] == '\\' && cs[2] == '?' && cs[3] == '\\' {
        4
    } else {
        0
    };
    proof {
        assert(cs@.skip(0) =~= cs@);
        assert(cs@.skip(start as int) == plain(path@));
    }
    if n - start >= 2 && cs[start + 1] == ':' && (cs[start] as u32) < 128 {
        let mut out = String::new();
        out.push(cs[start]);
        out.push(':');
        out.push('\\');
        assert(out@ =~= seq![plain(path@)[0], ':', '\\']);
        Some(out)
    } else {
        None
    }
}

/// What tells the links of one file from other files, if it has several.
pub open spec fn link_key(links: u64, device: u64, inode: u64) -> Option<(u64, u64)> {
    if links > 1 {
        Some((device, inode))
    } else {
        None
    }
}

/// Files are told apart by device and inode, and only where there are several
/// links to tell apart.
pub proof fn law_links_are_told_by_device_and_inode(links: u64, a: (u64, u64), b: (u64, u64))
    ensures
        links <= 1 ==> link_key(links, a.0, a.1) is None,
        links >= 2 ==> (link_key(links, a.0, a.1) == link_key(links, b.0, b.1) <==> a.0 == b.0 && a.1 == b.1),
        links >= 2 ==> link_key(links, a.0, a.1) == Some(a),
{
}

/// What tells the links of one file from other files: there is something to
/// tell only when the entry has more than one link and therefore needs to be
/// counted only once.
pub fn hardlink_key(links: u64, device: u64, inode: u64) -> (r: Option<(u64, u64)>)
    ensures
        r == link_key(links, device, inode),
        r == (if links > 1 {
            Some((device, inode))
        } else {
            None
        }),
{
    if links > 1 {
        Some((device, inode))
    } else {
        None
    }
}

pub const REPARSE_POINT: u32 = 0x0000_0400;

pub const OFFLINE: u32 = 0x0000_1000;

pub const RECALL_ON_OPEN: u32 = 0x0004_0000;

pub const RECALL_ON_DATA_ACCESS: u32 = 0x0040_0000;

/// Whether any of the attributes says that the bytes of a file are elsewhere.
pub open spec fn recalls(attrs: u32) -> bool {
    attrs & RECALL_ON_DATA_ACCESS != 0 || attrs & RECALL_ON_OPEN != 0 || attrs & OFFLINE != 0
}

/// Whether a file says in its attributes that it is dehydrated.
pub fn is_dehydrated(attrs: u32) -> (r: bool)
    ensures
        r == recalls(attrs),
{
    attrs & RECALL_ON_DATA_ACCESS != 0 || attrs & RECALL_ON_OPEN != 0 || attrs & OFFLINE != 0
}

/// The tag of an entry decides whether its bytes are here.
pub open spec fn tag_decides(is_dir: bool, attrs: u32) -> bool {
    !recalls(attrs) && is_dir && attrs & REPARSE_POINT != 0
}

/// The bytes of an entry are elsewhere.
pub open spec fn elsewhere(is_dir: bool, attrs: u32, tag: Option<u32>) -> bool {
    recalls(attrs) || (is_dir && attrs & REPARSE_POINT != 0 && tag is Some && cloud_tag(tag->0))
}

/// A recall attribute settles that bytes are elsewhere. Without one a file is
/// here, and so is a directory that is no reparse point or whose tag is not that
/// of a cloud; the tag is asked for exactly where it decides.
pub proof fn law_tags_decide_for_directories_only(is_dir: bool, attrs: u32, tag: Option<u32>)
    ensures
        recalls(attrs) ==> elsewhere(is_dir, attrs, tag) && !tag_decides(is_dir, attrs),
        !recalls(attrs) && !is_dir ==> !elsewhere(is_dir, attrs, tag) && !tag_decides(is_dir, attrs),
        !recalls(attrs) && attrs & 0x400 == 0 ==> !elsewhere(is_dir, attrs, tag) && !tag_decides(is_dir, attrs),
        !recalls(attrs) && is_dir && attrs & 0x400 != 0 ==> tag_decides(is_dir, attrs),
        tag_decides(is_dir, attrs) && tag is Some ==> elsewhere(is_dir, attrs, tag) == cloud_tag(tag->0),
        tag is None ==> elsewhere(is_dir, attrs, tag) == recalls(attrs),
{
}

/// Whether the reparse tag of an entry has to be read to tell a cloud root from
/// a junction or a container mount. Placeholder directories carry nothing but a
/// reparse point.
///
/// Files are deliberately not classified this way: one that still has a cloud
/// tag but no recall flag has been downloaded, and its bytes do sit on this
/// disk.
pub fn needs_tag(is_dir: bool, attrs: u32) -> (r: bool)
    ensures
        r == tag_decides(is_dir, attrs),
        r == (!recalls(attrs) && is_dir && attrs & REPARSE_POINT != 0),
{
    !is_dehydrated(attrs) && is_dir && attrs & REPARSE_POINT != 0
}

/// The sixteen tags of cloud files, which differ only in one nibble.
pub open spec fn cloud_tag(tag: u32) -> bool {
    exists|k: u32| #![trigger nibble(k)] nibble(k) && tag == 0x9000_001Au32 + k * 0x1000
}

pub open spec fn nibble(k: u32) -> bool {
    k < 16
}

/// Whether a reparse tag is that of a cloud file, `0x9000_001A` through
/// `0x9000_F01A`.
pub fn is_cloud_tag(tag: u32) -> (r: bool)
    ensures
        r == cloud_tag(tag),
{
    proof {
        assert(tag & 0xFFFF_0FFFu32 == 0x9000_001Au32 ==> (tag >> 12) & 15 < 16 && tag == 0x9000_001Au32 + ((tag >> 12)
            & 15) * 0x1000) by (bit_vector);
        if tag & 0xFFFF_0FFFu32 == 0x9000_001Au32 {
            assert(nibble((tag >> 12) & 15));
        }
        if cloud_tag(tag) {
            let k = choose|k: u32| #![trigger nibble(k)] nibble(k) && tag == 0x9000_001Au32 + k * 0x1000;
            assert(tag & 0xFFFF_0FFFu32 == 0x9000_001Au32) by (bit_vector)
                requires
                    k < 16,
                    tag == 0x9000_001Au32 + k * 0x1000,
            ;
        }
    }
    tag & 0xFFFF_0FFF == 0x9000_001A
}

/// True when the entry reports a size but its bytes are not on this disk:
/// OneDrive, iCloud and the like keep placeholders that only look local. `tag`
/// is the reparse tag, where it was read.
pub fn is_cloud_backed(is_dir: bool, attrs: u32, tag: Option<u32>) -> (r: bool)
    ensures
        r == elsewhere(is_dir, attrs, tag),
        r == (recalls(attrs) || (is_dir && attrs & REPARSE_POINT != 0 && tag is Some && cloud_tag(tag->0))),
{
    if is_dehydrated(attrs) {
        return true;
    }
    if is_dir && attrs & REPARSE_POINT != 0 {
        return match tag {
            Some(t) => is_cloud_tag(t),
            None => false,
        };
    }
    false
}

/// The drive of a path is its first character, if that is ASCII and a colon
/// follows; the marker of a verbatim path does not count.
pub proof fn law_drives_begin_a_path(c: char, rest: Seq<char>)
    ensures
        (c as u32) < 128 ==> drive(seq![c, ':'] + rest) == Some(c),
        (c as u32) >= 128 ==> drive(seq![c, ':'] + rest) is None,
        plain(seq!['\\', '\\', '?', '\\'] + rest) == rest,
        c != '\\' ==> plain(seq![c] + rest) == seq![c] + rest,
        c != ':' && rest.len() > 0 && rest[0] != ':' ==> drive(seq![c] + rest) is None,
{
    assert((seq!['\\', '\\', '?', '\\'] + rest).skip(4) =~= rest);
    let s = seq![c] + rest;
    if rest.len() > 0 {
        assert(s[1] == rest[0]);
    }
}

/// Bytes are elsewhere if any of three attributes is set, and here if none is.
pub proof fn law_any_recall_attribute_tells(attrs: u32)
    ensures
        recalls(attrs | 0x0040_0000),
        recalls(attrs | 0x0004_0000),
        recalls(attrs | 0x0000_1000),
        attrs & 0x0044_1000 == 0 ==> !recalls(attrs),
{
    assert((attrs | 0x0040_0000) & 0x0040_0000 != 0) by (bit_vector);
    assert((attrs | 0x0004_0000) & 0x0004_0000 != 0) by (bit_vector);
    assert((attrs | 0x0000_1000) & 0x0000_1000 != 0) by (bit_vector);
    assert(attrs & 0x0044_1000 == 0 ==> attrs & 0x0040_0000 == 0 && attrs & 0x0004_0000 == 0 && attrs & 0x0000_1000 == 0)
        by (bit_vector);
}

/// The tags of cloud files are those from `0x9000_001A` to `0x9000_F01A` that
/// end alike.
pub proof fn law_cloud_tags_end_alike(tag: u32)
    ensures
        cloud_tag(tag) <==> 0x9000_001A <= tag <= 0x9000_F01A && (tag - 0x9000_001A) % 0x1000 == 0,
{
    if cloud_tag(tag) {
        let k = choose|k: u32| #![trigger nibble(k)] nibble(k) && tag == 0x9000_001Au32 + k * 0x1000;
        assert(nibble(k));
    }
    if 0x9000_001A <= tag <= 0x9000_F01A && (tag - 0x9000_001A) % 0x1000 == 0 {
        let k = ((tag - 0x9000_001A) / 0x1000) as u32;
        assert(nibble(k) && tag == 0x9000_001Au32 + k * 0x1000);
    }
}

} // verus!

//! What a tree is, in mathematical terms: who stands above whom, and how the
//! weight of an entry is carried by everything above it.

use vstd::prelude::*;

use crate::tree::Kind;
use crate::tree::NewEntry;
use crate::tree::Node;
use crate::tree::NO_EXT;

verus! {

/// What an entry weighs: bytes, bytes on disk, files and directories.
pub struct Tally {
    pub size: int,
    pub alloc: int,
    pub files: int,
    pub dirs: int,
}

impl Tally {
    pub open spec fn zero() -> Tally {
        Tally { size: 0, alloc: 0, files: 0, dirs: 0 }
    }

    pub open spec fn plus(self, d: Tally) -> Tally {
        Tally {
            size: self.size + d.size,
            alloc: self.alloc + d.alloc,
            files: self.files + d.files,
            dirs: self.dirs + d.dirs,
        }
    }

    pub open spec fn minus(self, d: Tally) -> Tally {
        Tally {
            size: self.size - d.size,
            alloc: self.alloc - d.alloc,
            files: self.files - d.files,
            dirs: self.dirs - d.dirs,
        }
    }

    /// Every part is at least that of `d`.
    pub open spec fn covers(self, d: Tally) -> bool {
        self.size >= d.size && self.alloc >= d.alloc && self.files >= d.files && self.dirs >= d.dirs
    }

    /// The parts fit the fields of a node.
    pub open spec fn fits(self) -> bool {
        self.size <= u64::MAX && self.alloc <= u64::MAX && self.files <= u32::MAX && self.dirs <= u32::MAX
    }
}

/// `a` is `i` or one of its ancestors.
pub open spec fn above(nodes: Seq<Node>, a: int, i: int) -> bool
    decreases i,
{
    a == i || (0 < i && nodes[i].parent < i && above(nodes, a, nodes[i].parent as int))
}

/// Neither `i` nor any of its ancestors was removed.
pub open spec fn attached(nodes: Seq<Node>, i: int) -> bool
    decreases i,
{
    !nodes[i].removed && (i <= 0 || (nodes[i].parent < i && attached(nodes, nodes[i].parent as int)))
}

/// Parents stand before their children, and a node is listed by its parent,
/// once, exactly while it is not removed.
pub open spec fn shape(nodes: Seq<Node>) -> bool {
    &&& 1 <= nodes.len() <= u32::MAX
    &&& nodes[0].parent == 0
    &&& !nodes[0].removed
    &&& forall|i: int| 1 <= i < nodes.len() ==> #[trigger] nodes[i].parent < i
    &&& forall|i: int, k: int|
        #![trigger nodes[i].children@[k]]
        0 <= i < nodes.len() && 0 <= k < nodes[i].children@.len() ==> listed(nodes, i, nodes[i].children@[k])
    &&& forall|i: int| 0 <= i < nodes.len() ==> (#[trigger] nodes[i].children)@.no_duplicates()
    &&& forall|c: int| 1 <= c < nodes.len() && !(#[trigger] nodes[c].removed) ==> kept(nodes, c)
}

/// Node `i` stands one level below its parent.
pub open spec fn level_ok(nodes: Seq<Node>, i: int) -> bool {
    nodes[i].depth == below(nodes[nodes[i].parent as int].depth)
}

/// The root stands at the top, and every other node one level below its parent.
pub open spec fn levels(nodes: Seq<Node>) -> bool {
    &&& nodes[0].depth == 0
    &&& forall|i: int| 1 <= i < nodes.len() ==> #[trigger] level_ok(nodes, i)
}

/// `c` is in the child list of its parent.
pub open spec fn kept(nodes: Seq<Node>, c: int) -> bool {
    nodes[nodes[c].parent as int].children@.contains(c as u32)
}

/// `c` may be in the child list of `i`.
pub open spec fn listed(nodes: Seq<Node>, i: int, c: u32) -> bool {
    i < c < nodes.len() && nodes[c as int].parent == i && !nodes[c as int].removed
}

/// What the whole subtree of `n` weighs, as recorded in `n`.
pub open spec fn tally(n: Node) -> Tally {
    Tally { size: n.total_size as int, alloc: n.total_alloc as int, files: n.files as int, dirs: n.dirs as int }
}

/// What `n` weighs by itself, not counting that it is an entry.
pub open spec fn own(n: Node) -> Tally {
    Tally { size: n.self_size as int, alloc: n.self_alloc as int, files: 0, dirs: 0 }
}

/// One entry of a kind.
pub open spec fn one(kind: Kind) -> Tally {
    if kind == Kind::Dir {
        Tally { size: 0, alloc: 0, files: 0, dirs: 1 }
    } else {
        Tally { size: 0, alloc: 0, files: 1, dirs: 0 }
    }
}

/// What `n` adds to everything above it.
pub open spec fn share(n: Node) -> Tally {
    tally(n).plus(one(n.kind))
}

/// What a new entry adds to everything above it.
pub open spec fn entry_share(e: NewEntry) -> Tally {
    Tally { size: e.size as int, alloc: e.alloc as int, files: 0, dirs: 0 }.plus(one(e.kind))
}

/// What a list of new entries weighs.
pub open spec fn weigh(entries: Seq<NewEntry>) -> Tally
    decreases entries.len(),
{
    if entries.len() == 0 {
        Tally::zero()
    } else {
        weigh(entries.drop_last()).plus(entry_share(entries.last()))
    }
}

/// `n` with `d` added to its totals.
pub open spec fn raised(n: Node, d: Tally) -> Node {
    Node {
        total_size: (n.total_size + d.size) as u64,
        total_alloc: (n.total_alloc + d.alloc) as u64,
        files: (n.files + d.files) as u32,
        dirs: (n.dirs + d.dirs) as u32,
        ..n
    }
}

/// `a - b`, or zero.
pub open spec fn less(a: int, b: int) -> int {
    if a >= b {
        a - b
    } else {
        0
    }
}

/// `n` with `d` taken from its totals, none of them falling below zero.
pub open spec fn lowered(n: Node, d: Tally) -> Node {
    Node {
        total_size: less(n.total_size as int, d.size) as u64,
        total_alloc: less(n.total_alloc as int, d.alloc) as u64,
        files: less(n.files as int, d.files) as u32,
        dirs: less(n.dirs as int, d.dirs) as u32,
        ..n
    }
}

/// `new` is `old` with `d` added on the path from `from` to the root.
pub open spec fn path_raised(old_nodes: Seq<Node>, new_nodes: Seq<Node>, from: int, d: Tally) -> bool {
    &&& new_nodes.len() == old_nodes.len()
    &&& forall|k: int|
        0 <= k < old_nodes.len() ==> #[trigger] new_nodes[k] == (if above(old_nodes, k, from) {
            raised(old_nodes[k], d)
        } else {
            old_nodes[k]
        })
}

/// `new` is `old` with `d` taken away on the path from `from` to the root.
pub open spec fn path_lowered(old_nodes: Seq<Node>, new_nodes: Seq<Node>, from: int, d: Tally) -> bool {
    &&& new_nodes.len() == old_nodes.len()
    &&& forall|k: int|
        0 <= k < old_nodes.len() ==> #[trigger] new_nodes[k] == (if above(old_nodes, k, from) {
            lowered(old_nodes[k], d)
        } else {
            old_nodes[k]
        })
}

/// `n` is what `e` becomes below `parent`.
pub open spec fn fresh(n: Node, parent: u32, depth: u16, e: NewEntry, ext: u32) -> bool {
    &&& n.parent == parent
    &&& n.name == e.name
    &&& n.kind == e.kind
    &&& n.self_size == e.size
    &&& n.self_alloc == e.alloc
    &&& n.total_size == e.size
    &&& n.total_alloc == e.alloc
    &&& n.files == 0
    &&& n.dirs == 0
    &&& n.mtime == e.mtime
    &&& n.ext == ext
    &&& n.depth == depth
    &&& n.read == e.cloud
    &&& n.err == e.err
    &&& !n.removed
    &&& n.cloud == e.cloud
    &&& n.children@.len() == 0
}

pub open spec fn names_of(v: Seq<String>) -> Seq<Seq<char>> {
    v.map_values(|s: String| s@)
}

/// A list of extensions after it has met `x`.
pub open spec fn interned(exts: Seq<Seq<char>>, x: Seq<char>) -> Seq<Seq<char>> {
    if exts.contains(x) {
        exts
    } else {
        exts.push(x)
    }
}

/// The extension of a new entry; only files have one.
pub open spec fn entry_ext(e: NewEntry) -> Option<Seq<char>> {
    if e.kind == Kind::File {
        crate::tree::extension(e.name@)
    } else {
        None
    }
}

/// A list of extensions after it has met those of `entries`.
pub open spec fn intern_all(exts: Seq<Seq<char>>, entries: Seq<NewEntry>) -> Seq<Seq<char>>
    decreases entries.len(),
{
    if entries.len() == 0 {
        exts
    } else {
        let before = intern_all(exts, entries.drop_last());
        match entry_ext(entries.last()) {
            Some(x) => interned(before, x),
            None => before,
        }
    }
}

/// `slot` is the id of extension `x` in `exts`.
pub open spec fn ext_slot(exts: Seq<Seq<char>>, x: Option<Seq<char>>, slot: u32) -> bool {
    match x {
        Some(x) => slot < exts.len() && exts[slot as int] == x,
        None => slot == NO_EXT,
    }
}

/// The ids of the entries that are directories to be walked, when the first
/// entry gets the id `first`.
pub open spec fn walk_ids(entries: Seq<NewEntry>, first: int) -> Seq<u32>
    decreases entries.len(),
{
    if entries.len() == 0 {
        Seq::empty()
    } else {
        let before = walk_ids(entries.drop_last(), first);
        if entries.last().kind == Kind::Dir && !entries.last().cloud {
            before.push((first + entries.len() - 1) as u32)
        } else {
            before
        }
    }
}

/// The ids `first..first + n`.
pub open spec fn id_range(first: int, n: nat) -> Seq<u32> {
    Seq::new(n, |j: int| (first + j) as u32)
}

/// One level below `depth`; the deepest level counts as its own child level.
pub open spec fn below(depth: u16) -> u16 {
    if depth < u16::MAX {
        (depth + 1) as u16
    } else {
        depth
    }
}

/// The new nodes are what `entries` become below `parent`, in order.
pub open spec fn settled(nodes: Seq<Node>, first: int, parent: int, depth: u16, entries: Seq<NewEntry>, exts: Seq<Seq<char>>) -> bool {
    forall|j: int|
        0 <= j < entries.len() ==> fresh(#[trigger] nodes[first + j], parent as u32, depth, entries[j], nodes[first + j].ext) && ext_slot(
            exts,
            entry_ext(entries[j]),
            nodes[first + j].ext,
        )
}

/// `parent` lists its old children and then the new ones, and counts as read.
pub open spec fn adopted(old_node: Node, new_node: Node, w: Tally, first: int, n: nat) -> bool {
    &&& new_node == (Node { children: new_node.children, read: true, ..raised(old_node, w) })
    &&& new_node.children@ == old_node.children@ + id_range(first, n)
}

/// What `entries` below `parent` turn one list of nodes into: the parent
/// adopts them, everything above it carries their weight, and nothing else
/// changes.
pub open spec fn grown(old_nodes: Seq<Node>, new_nodes: Seq<Node>, parent: int, entries: Seq<NewEntry>, exts: Seq<Seq<char>>) -> bool {
    &&& new_nodes.len() == old_nodes.len() + entries.len()
    &&& forall|k: int|
        0 <= k < old_nodes.len() && k != parent ==> #[trigger] new_nodes[k] == (if above(old_nodes, k, parent) {
            raised(old_nodes[k], weigh(entries))
        } else {
            old_nodes[k]
        })
    &&& adopted(old_nodes[parent], new_nodes[parent], weigh(entries), old_nodes.len() as int, entries.len())
    &&& settled(new_nodes, old_nodes.len() as int, parent, below(old_nodes[parent].depth), entries, exts)
}

/// Part of a list weighs no more than all of it, and nothing weighs less than
/// nothing.
pub proof fn lemma_weigh_part(entries: Seq<NewEntry>, k: int)
    requires
        0 <= k <= entries.len(),
    ensures
        weigh(entries).covers(weigh(entries.take(k))),
        weigh(entries.take(k)).covers(Tally::zero()),
        weigh(entries).files + weigh(entries).dirs == entries.len(),
    decreases entries.len(),
{
    if entries.len() > 0 {
        lemma_weigh_part(entries.drop_last(), if k < entries.len() { k } else { k - 1 });
    }
    if k < entries.len() {
        assert(entries.drop_last().take(k) =~= entries.take(k));
    } else {
        assert(entries.take(k) =~= entries);
        if entries.len() > 0 {
            assert(entries.drop_last().take(k - 1) =~= entries.drop_last());
        }
    }
}

/// Changing totals along a path keeps the shape.
pub proof fn lemma_shape_same_links(a: Seq<Node>, b: Seq<Node>)
    requires
        shape(a),
        a.len() == b.len(),
        forall|k: int|
            0 <= k < a.len() ==> (#[trigger] b[k]).parent == a[k].parent && b[k].removed == a[k].removed
                && b[k].children == a[k].children,
    ensures
        shape(b),
{
    assert forall|i: int, k: int|
        #![trigger b[i].children@[k]]
        0 <= i < b.len() && 0 <= k < b[i].children@.len() implies listed(b, i, b[i].children@[k]) by {
        assert(listed(a, i, a[i].children@[k]));
    }
    assert forall|c: int| 1 <= c < b.len() && !(#[trigger] b[c].removed) implies kept(b, c) by {
        assert(!a[c].removed);
        assert(kept(a, c));
        assert(a[c].parent < c);
        assert(b[a[c].parent as int].children == a[a[c].parent as int].children);
    }
}

/// Levels depend on parent links and depths alone.
pub proof fn lemma_levels_same(a: Seq<Node>, b: Seq<Node>)
    requires
        shape(a),
        levels(a),
        a.len() == b.len(),
        forall|k: int| 0 <= k < a.len() ==> (#[trigger] b[k]).parent == a[k].parent && b[k].depth == a[k].depth,
    ensures
        levels(b),
{
    assert forall|i: int| 1 <= i < b.len() implies #[trigger] level_ok(b, i) by {
        assert(level_ok(a, i));
        assert(a[i].parent < i);
        assert(b[i].parent == a[i].parent);
    }
}

/// What is inserted stands one level below its parent.
pub proof fn lemma_levels_grown(a: Seq<Node>, b: Seq<Node>, parent: int, entries: Seq<NewEntry>, exts: Seq<Seq<char>>)
    requires
        shape(a),
        levels(a),
        0 <= parent < a.len(),
        grown(a, b, parent, entries, exts),
    ensures
        levels(b),
{
    assert forall|k: int| 0 <= k < a.len() implies (#[trigger] b[k]).parent == a[k].parent && b[k].depth == a[k].depth by {
        if k != parent {
            assert(b[k] == (if above(a, k, parent) {
                raised(a[k], weigh(entries))
            } else {
                a[k]
            }));
        }
    }
    assert forall|i: int| 1 <= i < b.len() implies #[trigger] level_ok(b, i) by {
        if i < a.len() {
            assert(level_ok(a, i));
            assert(a[i].parent < i);
            assert(b[i].parent == a[i].parent);
        } else {
            let j = i - a.len();
            assert(fresh(b[a.len() + j], parent as u32, below(a[parent].depth), entries[j], b[a.len() + j].ext));
        }
    }
}

/// Adopting new nodes keeps the shape.
pub proof fn lemma_shape_grown(a: Seq<Node>, b: Seq<Node>, parent: int, n: nat)
    requires
        shape(a),
        0 <= parent < a.len(),
        b.len() == a.len() + n,
        b.len() <= u32::MAX,
        forall|k: int| 0 <= k < a.len() ==> (#[trigger] b[k]).parent == a[k].parent && b[k].removed == a[k].removed,
        forall|k: int| 0 <= k < a.len() && k != parent ==> (#[trigger] b[k]).children == a[k].children,
        b[parent].children@ == a[parent].children@ + id_range(a.len() as int, n),
        forall|k: int|
            a.len() <= k < b.len() ==> (#[trigger] b[k]).parent == parent && !b[k].removed && b[k].children@.len() == 0,
    ensures
        shape(b),
{
    let m = a.len() as int;
    let ids = id_range(m, n);
    assert forall|i: int, k: int|
        #![trigger b[i].children@[k]]
        0 <= i < b.len() && 0 <= k < b[i].children@.len() implies listed(b, i, b[i].children@[k]) by {
        if i < m {
            if i == parent && k >= a[i].children@.len() {
                assert(b[i].children@[k] == ids[k - a[i].children@.len()]);
            } else {
                assert(listed(a, i, a[i].children@[k]));
                assert(b[i].children@[k] == a[i].children@[k]);
            }
        }
    }
    assert forall|i: int| 0 <= i < b.len() implies (#[trigger] b[i].children)@.no_duplicates() by {
        if i == parent {
            let old_list = a[i].children@;
            assert forall|x: int, y: int| 0 <= x < y < b[i].children@.len() implies b[i].children@[x] != b[i].children@[y] by {
                if x < old_list.len() {
                    assert(listed(a, i, old_list[x]));
                    assert(a[i].children@.no_duplicates());
                }
            }
        } else if i < m {
            assert(a[i].children@.no_duplicates());
        }
    }
    assert forall|c: int| 1 <= c < b.len() && !(#[trigger] b[c].removed) implies kept(b, c) by {
        if c < m {
            let p = a[c].parent as int;
            assert(!a[c].removed);
            assert(kept(a, c));
            let j = choose|j: int| 0 <= j < a[p].children@.len() && a[p].children@[j] == c as u32;
            assert(b[p].children@[j] == c as u32);
        } else {
            let j = a[parent].children@.len() + (c - m);
            assert(b[parent].children@[j] == c as u32);
        }
    }
}

/// `s` without `x`.
pub open spec fn without(s: Seq<u32>, x: u32) -> Seq<u32>
    decreases s.len(),
{
    if s.len() == 0 {
        s
    } else {
        let rest = without(s.drop_last(), x);
        if s.last() == x {
            rest
        } else {
            rest.push(s.last())
        }
    }
}

/// What leaves everything above `n` when `n` is removed.
pub open spec fn removal(n: Node) -> Tally {
    if n.kind == Kind::Dir {
        tally(n).plus(one(n.kind))
    } else {
        Tally { size: n.total_size as int, alloc: n.total_alloc as int, files: 1, dirs: 0 }
    }
}

/// What removing `id` turns one list of nodes into: its parent no longer lists
/// it, everything above it loses its weight, it is marked, and nothing else
/// changes.
pub open spec fn uprooted(old_nodes: Seq<Node>, new_nodes: Seq<Node>, id: int) -> bool {
    let parent = old_nodes[id].parent as int;
    let d = removal(old_nodes[id]);
    &&& new_nodes.len() == old_nodes.len()
    &&& new_nodes[id] == (Node { removed: true, ..old_nodes[id] })
    &&& new_nodes[parent] == (Node { children: new_nodes[parent].children, ..lowered(old_nodes[parent], d) })
    &&& new_nodes[parent].children@ == without(old_nodes[parent].children@, id as u32)
    &&& forall|k: int|
        0 <= k < old_nodes.len() && k != id && k != parent ==> #[trigger] new_nodes[k] == (if above(
            old_nodes,
            k,
            parent,
        ) {
            lowered(old_nodes[k], d)
        } else {
            old_nodes[k]
        })
}

pub proof fn lemma_without_absent(s: Seq<u32>, x: u32)
    requires
        !s.contains(x),
    ensures
        without(s, x) == s,
    decreases s.len(),
{
    if s.len() > 0 {
        assert(!s.drop_last().contains(x)) by {
            if s.drop_last().contains(x) {
                let j = choose|j: int| 0 <= j < s.drop_last().len() && s.drop_last()[j] == x;
                assert(s[j] == x);
            }
        }
        lemma_without_absent(s.drop_last(), x);
        assert(s.last() != x) by {
            assert(s[s.len() - 1] == s.last());
        }
        assert(s.drop_last().push(s.last()) =~= s);
    }
}

/// In a list without repetitions, taking `x` out is removing it where it
/// stands.
pub proof fn lemma_without_at(s: Seq<u32>, x: u32, pos: int)
    requires
        s.no_duplicates(),
        0 <= pos < s.len(),
        s[pos] == x,
    ensures
        without(s, x) == s.remove(pos),
    decreases s.len(),
{
    let front = s.drop_last();
    if pos == s.len() - 1 {
        assert(!front.contains(x)) by {
            if front.contains(x) {
                let j = choose|j: int| 0 <= j < front.len() && front[j] == x;
                assert(s[j] == x);
            }
        }
        lemma_without_absent(front, x);
        assert(s.remove(pos) =~= front);
    } else {
        lemma_without_at(front, x, pos);
        assert(s.last() != x);
        assert(s.remove(pos) =~= front.remove(pos).push(s.last()));
    }
}

/// Removing a node keeps the shape.
pub proof fn lemma_shape_uprooted(a: Seq<Node>, b: Seq<Node>, id: int)
    requires
        shape(a),
        1 <= id < a.len(),
        !a[id].removed,
        b.len() == a.len(),
        forall|k: int| 0 <= k < a.len() ==> (#[trigger] b[k]).parent == a[k].parent,
        forall|k: int| 0 <= k < a.len() && k != id ==> (#[trigger] b[k]).removed == a[k].removed,
        b[id].removed,
        forall|k: int| 0 <= k < a.len() && k != a[id].parent ==> (#[trigger] b[k]).children == a[k].children,
        b[a[id].parent as int].children@ == without(a[a[id].parent as int].children@, id as u32),
    ensures
        shape(b),
{
    let p = a[id].parent as int;
    let kids = a[p].children@;
    assert(a[id].parent < id);
    assert(kept(a, id));
    let pos = choose|j: int| 0 <= j < kids.len() && kids[j] == id as u32;
    assert(a[p].children@.no_duplicates());
    lemma_without_at(kids, id as u32, pos);
    assert forall|i: int, k: int|
        #![trigger b[i].children@[k]]
        0 <= i < b.len() && 0 <= k < b[i].children@.len() implies listed(b, i, b[i].children@[k]) by {
        if i == p {
            let j = if k < pos { k } else { k + 1 };
            assert(b[i].children@[k] == kids[j]);
            assert(kids[j] != kids[pos]);
            assert(listed(a, i, a[i].children@[j]));
        } else {
            assert(listed(a, i, a[i].children@[k]));
            if b[i].children@[k] == id as u32 {
                assert(a[id].parent == i);
            }
        }
    }
    assert forall|i: int| 0 <= i < b.len() implies (#[trigger] b[i].children)@.no_duplicates() by {
        assert(a[i].children@.no_duplicates());
        if i == p {
            let new_kids = b[i].children@;
            assert forall|x: int, y: int| 0 <= x < y < new_kids.len() implies new_kids[x] != new_kids[y] by {
                let x1 = if x < pos { x } else { x + 1 };
                let y1 = if y < pos { y } else { y + 1 };
                assert(new_kids[x] == kids[x1]);
                assert(new_kids[y] == kids[y1]);
            }
        }
    }
    assert forall|c: int| 1 <= c < b.len() && !(#[trigger] b[c].removed) implies kept(b, c) by {
        assert(!a[c].removed);
        assert(kept(a, c));
        let q = a[c].parent as int;
        assert(a[c].parent < c);
        if q == p {
            let j = choose|j: int| 0 <= j < kids.len() && kids[j] == c as u32;
            let k = if j < pos { j } else { j - 1 };
            assert(b[p].children@[k] == c as u32);
        }
    }
}

/// Nothing stands above what comes before it.
pub proof fn lemma_above_bounds(nodes: Seq<Node>, a: int, i: int)
    requires
        0 <= i,
        above(nodes, a, i),
    ensures
        0 <= a <= i,
    decreases i,
{
    if a != i {
        lemma_above_bounds(nodes, a, nodes[i].parent as int);
    }
}

/// Between a node on the path and its parent there is no other node of the
/// path.
pub proof fn lemma_path_gap(nodes: Seq<Node>, from: int, id: int, k: int)
    requires
        0 <= from,
        above(nodes, id, from),
        above(nodes, k, from),
        k < id,
    ensures
        k <= nodes[id].parent,
        nodes[id].parent < id,
        above(nodes, k, nodes[id].parent as int),
    decreases from,
{
    lemma_above_bounds(nodes, id, from);
    if from == id {
        lemma_above_bounds(nodes, k, nodes[id].parent as int);
    } else {
        lemma_path_gap(nodes, nodes[from].parent as int, id, k);
    }
}

/// The parent of a node on the path is on the path.
pub proof fn lemma_above_parent(nodes: Seq<Node>, a: int, i: int)
    requires
        shape(nodes),
        0 <= i < nodes.len(),
        above(nodes, a, i),
        a > 0,
    ensures
        above(nodes, nodes[a].parent as int, i),
    decreases i,
{
    lemma_above_bounds(nodes, a, i);
    assert(above(nodes, nodes[a].parent as int, nodes[a].parent as int));
    if a != i {
        lemma_above_parent(nodes, a, nodes[i].parent as int);
    }
}

/// The root is above everything.
pub proof fn lemma_root_above(nodes: Seq<Node>, i: int)
    requires
        shape(nodes),
        0 <= i < nodes.len(),
    ensures
        above(nodes, 0, i),
    decreases i,
{
    if i > 0 {
        lemma_root_above(nodes, nodes[i].parent as int);
    }
}

/// Who stands above whom depends on the parent links alone.
pub proof fn lemma_above_same_links(a: Seq<Node>, b: Seq<Node>, k: int, i: int)
    requires
        0 <= i < a.len(),
        i < b.len(),
        forall|j: int| 0 <= j < a.len() && j < b.len() ==> (#[trigger] a[j]).parent == b[j].parent,
    ensures
        above(a, k, i) == above(b, k, i),
    decreases i,
{
    if i > 0 && a[i].parent < i {
        lemma_above_same_links(a, b, k, a[i].parent as int);
    }
}

/// What is attached depends on the parent links and the removal marks alone.
pub proof fn lemma_attached_same_links(a: Seq<Node>, b: Seq<Node>, i: int)
    requires
        0 <= i < a.len(),
        i < b.len(),
        forall|j: int|
            0 <= j < a.len() && j < b.len() ==> (#[trigger] a[j]).parent == b[j].parent && a[j].removed == b[j].removed,
    ensures
        attached(a, i) == attached(b, i),
    decreases i,
{
    if i > 0 && a[i].parent < i {
        lemma_attached_same_links(a, b, a[i].parent as int);
    }
}

/// Everything above an attached node is attached.
pub proof fn lemma_attached_above(nodes: Seq<Node>, a: int, i: int)
    requires
        0 <= i,
        attached(nodes, i),
        above(nodes, a, i),
    ensures
        attached(nodes, a),
    decreases i,
{
    if a != i {
        lemma_attached_above(nodes, a, nodes[i].parent as int);
    }
}

/// What stands above a removed node stays attached.
pub proof fn lemma_attached_same_links_above(a: Seq<Node>, b: Seq<Node>, gone: int, i: int)
    requires
        0 <= i < gone < a.len(),
        a.len() == b.len(),
        forall|j: int| 0 <= j < a.len() ==> (#[trigger] a[j]).parent == b[j].parent,
        forall|j: int| 0 <= j < a.len() && j != gone ==> (#[trigger] a[j]).removed == b[j].removed,
    ensures
        attached(a, i) == attached(b, i),
    decreases i,
{
    if i > 0 && a[i].parent < i {
        lemma_attached_same_links_above(a, b, gone, a[i].parent as int);
    }
}

} // verus!

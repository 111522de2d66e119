//! Files that may be duplicates of one another.

pub mod laws;

use vstd::prelude::*;

use crate::tree::model;
use crate::tree::paths;
use crate::tree::visit;
use crate::tree::Kind;
use crate::tree::Node;
use crate::tree::Tree;

verus! {

/// A file the duplicate scanner may need to read.
pub struct Candidate {
    pub id: u32,
    pub size: u64,
    /// Path relative to the scan root.
    pub path: String,
}

/// The path of an entry called `name` below `prefix`.
pub open spec fn below(prefix: Seq<char>, name: Seq<char>) -> Seq<char> {
    if prefix.len() == 0 {
        name
    } else {
        prefix.push('/') + name
    }
}

/// `n` is a real file of at least `min` bytes that are on this disk.
pub open spec fn worth_reading(n: Node, min: u64) -> bool {
    n.kind == Kind::File && !n.cloud && !n.err && n.self_size >= min
}

/// What node `c` below `prefix` contributes: id, size and path of each file.
pub open spec fn gather(nodes: Seq<Node>, c: int, min: u64, prefix: Seq<char>) -> Seq<(u32, u64, Seq<char>)>
    decreases nodes.len() - c, 1int, 0nat,
{
    let here = below(prefix, nodes[c].name@);
    if nodes[c].kind == Kind::Dir {
        gather_all(nodes, c, nodes[c].children@, min, here)
    } else if worth_reading(nodes[c], min) {
        seq![(c as u32, nodes[c].self_size, here)]
    } else {
        Seq::empty()
    }
}

/// What the nodes `ids` below `prefix` contribute, in order. Only ids beyond
/// `after` count.
pub open spec fn gather_all(nodes: Seq<Node>, after: int, ids: Seq<u32>, min: u64, prefix: Seq<char>) -> Seq<(u32, u64, Seq<char>)>
    decreases nodes.len() - after, 0int, ids.len(),
{
    if ids.len() == 0 {
        Seq::empty()
    } else {
        let before = gather_all(nodes, after, ids.drop_last(), min, prefix);
        let c = ids.last() as int;
        if after < c < nodes.len() {
            before + gather(nodes, c, min, prefix)
        } else {
            before
        }
    }
}

/// What a list of candidates says.
pub open spec fn told(v: Seq<Candidate>) -> Seq<(u32, u64, Seq<char>)> {
    v.map_values(|c: Candidate| (c.id, c.size, c.path@))
}

impl Tree {
    /// Files under `id` worth considering as duplicate candidates: real files
    /// of at least `min_size` whose bytes are actually on this disk. Paths are
    /// built during the walk rather than looked up per file.
    ///
    /// Cloud placeholders are always excluded. Reading one would make the sync
    /// filter download it, which is the opposite of what a disk usage tool
    /// should do.
    pub fn duplicate_candidates(&self, id: u32, min_size: u64) -> (r: Vec<Candidate>)
        requires
            self.wf(),
        ensures
            told(r@) == (if self.reaches(id) {
                gather_all(
                    self.nodes@,
                    id as int,
                    self.nodes@[id as int].children@,
                    min_size,
                    paths::path(self.nodes@, id as int),
                )
            } else {
                Seq::empty()
            }),
    {
        let mut out: Vec<Candidate> = Vec::new();
        assert(told(out@) =~= Seq::empty());
        if self.get(id).is_some() {
            // Seed the prefix with the scope's own path so paths stay relative
            // to the scan root no matter which folder is being scanned. The
            // duplicate hasher rebuilds absolute paths from them.
            let prefix = self.rel_path(id);
            self.collect_candidates(id, min_size, &prefix, &mut out);
        }
        assert(forall|s: Seq<(u32, u64, Seq<char>)>| #[trigger] (Seq::<(u32, u64, Seq<char>)>::empty() + s) =~= s);
        out
    }

    fn collect_candidates(&self, id: u32, min_size: u64, prefix: &String, out: &mut Vec<Candidate>)
        requires
            self.wf(),
            self.holds(id),
        ensures
            told(final(out)@) == told(old(out)@) + gather_all(
                self.nodes@,
                id as int,
                self.nodes@[id as int].children@,
                min_size,
                prefix@,
            ),
        decreases self.nodes@.len() - id,
    {
        let ghost kids = self.nodes@[id as int].children@;
        let ghost start = told(out@);
        let count: usize = self.nodes[id as usize].children.len();
        let mut k: usize = 0;
        proof {
            assert(kids.take(0) =~= Seq::<u32>::empty());
            assert(start + Seq::<(u32, u64, Seq<char>)>::empty() =~= start);
        }
        while k < count
            invariant
                self.wf(),
                self.holds(id),
                kids == self.nodes@[id as int].children@,
                count == kids.len(),
                k <= count,
                told(out@) == start + gather_all(self.nodes@, id as int, kids.take(k as int), min_size, prefix@),
            decreases count - k,
        {
            let child: u32 = self.nodes[id as usize].children[k];
            proof {
                assert(model::listed(self.nodes@, id as int, self.nodes@[id as int].children@[k as int]));
                assert(kids.take(k + 1).drop_last() =~= kids.take(k as int));
                assert(kids.take(k + 1).last() == child);
            }
            let ghost so_far = gather_all(self.nodes@, id as int, kids.take(k as int), min_size, prefix@);
            let ghost more = gather(self.nodes@, child as int, min_size, prefix@);
            let n = &self.nodes[child as usize];
            let mut here = prefix.clone();
            if here.as_str().as_bytes().len() > 0 {
                here.push('/');
            }
            here.append(n.name.as_str());
            proof {
                lemma_empty_bytes(prefix@);
                assert(here@ =~= below(prefix@, n.name@));
            }
            let ghost was = told(out@);
            if n.kind == Kind::Dir {
                self.collect_candidates(child, min_size, &here, out);
            } else if n.kind == Kind::File && !n.cloud && !n.err && n.self_size >= min_size {
                out.push(Candidate { id: child, size: n.self_size, path: here });
                assert(told(out@) =~= was + more);
            } else {
                assert(told(out@) =~= was + more);
            }
            assert(told(out@) =~= start + (so_far + more));
            k = k + 1;
        }
        assert(kids.take(k as int) =~= kids);
    }
}

/// A string is empty exactly if its encoding is.
proof fn lemma_empty_bytes(s: Seq<char>)
    ensures
        (vstd::utf8::encode_utf8(s).len() == 0) == (s.len() == 0),
{
    vstd::utf8::encode_utf8_decode_utf8(s);
    if vstd::utf8::encode_utf8(s).len() == 0 {
        assert(vstd::utf8::encode_utf8(s) =~= Seq::<u8>::empty());
        vstd::utf8::encode_utf8_decode_utf8(Seq::<char>::empty());
        assert(vstd::utf8::encode_utf8(Seq::<char>::empty()) =~= Seq::<u8>::empty());
    } else if s.len() == 0 {
        assert(s =~= Seq::<char>::empty());
        assert(vstd::utf8::encode_utf8(s) =~= Seq::<u8>::empty());
    }
}

/// No node below the root has an empty name.
pub open spec fn all_named(nodes: Seq<Node>) -> bool {
    forall|i: int| 1 <= i < nodes.len() ==> (#[trigger] nodes[i]).name@.len() > 0
}

/// Each candidate is a file worth reading that stands under `scope`, and its
/// path is that of the node.
pub open spec fn sound(nodes: Seq<Node>, scope: int, min: u64, found: Seq<(u32, u64, Seq<char>)>) -> bool {
    forall|k: int|
        0 <= k < found.len() ==> {
            let c = (#[trigger] found[k]).0 as int;
            &&& scope < c < nodes.len()
            &&& model::above(nodes, scope, c)
            &&& worth_reading(nodes[c], min)
            &&& found[k].1 == nodes[c].self_size
            &&& found[k].2 == paths::path(nodes, c)
        }
}

proof fn lemma_path_below(nodes: Seq<Node>, c: int)
    requires
        model::shape(nodes),
        all_named(nodes),
        1 <= c < nodes.len(),
    ensures
        paths::path(nodes, c) == below(paths::path(nodes, nodes[c].parent as int), nodes[c].name@),
        paths::path(nodes, c).len() > 0,
    decreases c,
{
    let p = nodes[c].parent as int;
    assert(nodes[c].parent < c);
    if p > 0 {
        lemma_path_below(nodes, p);
    }
    assert(nodes[c].name@.len() > 0);
}

proof fn lemma_above_chain(nodes: Seq<Node>, a: int, b: int, c: int)
    requires
        0 <= c,
        model::above(nodes, a, b),
        model::above(nodes, b, c),
    ensures
        model::above(nodes, a, c),
    decreases c,
{
    if b != c {
        lemma_above_chain(nodes, a, b, nodes[c].parent as int);
    }
}

/// Where every entry has a name, the candidates of a scope are files worth
/// reading under it, each with the path that leads to it from the scan root.
pub proof fn law_candidates_are_sound(nodes: Seq<Node>, scope: int, min: u64)
    requires
        model::shape(nodes),
        all_named(nodes),
        0 <= scope < nodes.len(),
    ensures
        sound(nodes, scope, min, gather_all(nodes, scope, nodes[scope].children@, min, paths::path(nodes, scope))),
    decreases nodes.len() - scope,
{
    let kids = nodes[scope].children@;
    lemma_sound_upto(nodes, scope, min, kids.len() as int);
    assert(kids.take(kids.len() as int) =~= kids);
}

proof fn lemma_sound_upto(nodes: Seq<Node>, scope: int, min: u64, n: int)
    requires
        model::shape(nodes),
        all_named(nodes),
        0 <= scope < nodes.len(),
        0 <= n <= nodes[scope].children@.len(),
    ensures
        sound(nodes, scope, min, gather_all(nodes, scope, nodes[scope].children@.take(n), min, paths::path(nodes, scope))),
    decreases nodes.len() - scope, n,
{
    if n > 0 {
        let ids = nodes[scope].children@.take(n);
        let prefix = paths::path(nodes, scope);
        assert(ids.drop_last() =~= nodes[scope].children@.take(n - 1));
        lemma_sound_upto(nodes, scope, min, n - 1);
        assert(model::listed(nodes, scope, nodes[scope].children@[n - 1]));
        let c = ids.last() as int;
        lemma_path_below(nodes, c);
        let before = gather_all(nodes, scope, ids.drop_last(), min, prefix);
        let more = gather(nodes, c, min, prefix);
        assert(model::above(nodes, scope, scope));
        assert(model::above(nodes, scope, c));
        if nodes[c].kind == Kind::Dir {
            let below_c = nodes[c].children@;
            assert(below_c.take(below_c.len() as int) =~= below_c);
            lemma_sound_upto(nodes, c, min, below_c.len() as int);
            assert forall|k: int| 0 <= k < more.len() implies model::above(nodes, scope, (#[trigger] more[k]).0 as int) by {
                lemma_above_chain(nodes, scope, c, more[k].0 as int);
            }
        }
        let all = before + more;
        assert forall|k: int| 0 <= k < all.len() implies {
            let x = (#[trigger] all[k]).0 as int;
            &&& scope < x < nodes.len()
            &&& model::above(nodes, scope, x)
            &&& worth_reading(nodes[x], min)
            &&& all[k].1 == nodes[x].self_size
            &&& all[k].2 == paths::path(nodes, x)
        } by {
            if k < before.len() {
                assert(all[k] == before[k]);
            } else {
                assert(all[k] == more[k - before.len()]);
            }
        }
    }
}

/// `c` is among the candidates `found`.
pub open spec fn lists(found: Seq<(u32, u64, Seq<char>)>, c: int) -> bool {
    exists|k: int| 0 <= k < found.len() && (#[trigger] found[k]).0 == c
}

/// Every file worth reading that a visit of the scope meets below it is a
/// candidate.
pub proof fn law_candidates_are_complete(nodes: Seq<Node>, scope: int, min: u64, prefix: Seq<char>, x: int)
    requires
        model::shape(nodes),
        0 <= scope < nodes.len(),
        0 <= x < visit::visits_of(nodes, scope, nodes[scope].children@).len(),
        worth_reading(nodes[visit::visits_of(nodes, scope, nodes[scope].children@)[x] as int], min),
    ensures
        lists(
            gather_all(nodes, scope, nodes[scope].children@, min, prefix),
            visit::visits_of(nodes, scope, nodes[scope].children@)[x] as int,
        ),
{
    let kids = nodes[scope].children@;
    assert(kids.take(kids.len() as int) =~= kids);
    lemma_complete_upto(nodes, scope, min, prefix, kids.len() as int, x);
}

proof fn lemma_complete_upto(nodes: Seq<Node>, scope: int, min: u64, prefix: Seq<char>, n: int, x: int)
    requires
        model::shape(nodes),
        0 <= scope < nodes.len(),
        0 <= n <= nodes[scope].children@.len(),
        0 <= x < visit::visits_of(nodes, scope, nodes[scope].children@.take(n)).len(),
        worth_reading(nodes[visit::visits_of(nodes, scope, nodes[scope].children@.take(n))[x] as int], min),
    ensures
        lists(
            gather_all(nodes, scope, nodes[scope].children@.take(n), min, prefix),
            visit::visits_of(nodes, scope, nodes[scope].children@.take(n))[x] as int,
        ),
    decreases nodes.len() - scope, n,
{
    let ids = nodes[scope].children@.take(n);
    let all = visit::visits_of(nodes, scope, ids);
    let want = all[x] as int;
    if n == 0 {
        assert(ids.len() == 0);
        assert(false);
    } else {
        assert(ids.drop_last() =~= nodes[scope].children@.take(n - 1));
        assert(model::listed(nodes, scope, nodes[scope].children@[n - 1]));
        let c = ids.last() as int;
        let before = gather_all(nodes, scope, ids.drop_last(), min, prefix);
        let more = gather(nodes, c, min, prefix);
        let first = visit::visits(nodes, c);
        let rest = visit::visits_of(nodes, scope, ids.drop_last());
        assert(all == first + rest);
        if x < first.len() {
            let here = below(prefix, nodes[c].name@);
            if nodes[c].kind == Kind::Dir {
                let kids = nodes[c].children@;
                assert(kids.take(kids.len() as int) =~= kids);
                if x > 0 {
                    assert(first[x] == visit::visits_of(nodes, c, kids)[x - 1]);
                    lemma_complete_upto(nodes, c, min, here, kids.len() as int, x - 1);
                } else {
                    assert(first[0] == c);
                }
            } else {
                assert(first[x] == c as u32);
                assert(more[0].0 == c);
            }
            assert(lists(more, want));
            let k = choose|k: int| 0 <= k < more.len() && (#[trigger] more[k]).0 == want;
            assert((before + more)[before.len() + k].0 == want);
        } else {
            assert(all[x] == rest[x - first.len()]);
            lemma_complete_upto(nodes, scope, min, prefix, n - 1, x - first.len());
            let k = choose|k: int| 0 <= k < before.len() && (#[trigger] before[k]).0 == want;
            assert((before + more)[k].0 == want);
        }
    }
}

/// Whatever `c` contributes is `c` or stands below it.
proof fn lemma_gathered_below(nodes: Seq<Node>, c: int, min: u64, prefix: Seq<char>, k: int)
    requires
        model::shape(nodes),
        0 <= c < nodes.len(),
        0 <= k < gather(nodes, c, min, prefix).len(),
    ensures
        c <= gather(nodes, c, min, prefix)[k].0 < nodes.len(),
        model::above(nodes, c, gather(nodes, c, min, prefix)[k].0 as int),
    decreases nodes.len() - c, 1int, 0nat,
{
    if nodes[c].kind == Kind::Dir {
        let kids = nodes[c].children@;
        let here = below(prefix, nodes[c].name@);
        assert(kids.take(kids.len() as int) =~= kids);
        let d = lemma_gathered_child(nodes, c, min, here, kids.len() as int, k);
        let x = gather(nodes, c, min, prefix)[k].0 as int;
        model::lemma_above_bounds(nodes, d, x);
        model::lemma_above_parent(nodes, d, x);
    }
}

/// Whatever the first `n` children of `i` contribute is, or stands below, one of
/// them.
proof fn lemma_gathered_child(nodes: Seq<Node>, i: int, min: u64, prefix: Seq<char>, n: int, k: int) -> (c: int)
    requires
        model::shape(nodes),
        0 <= i < nodes.len(),
        0 <= n <= nodes[i].children@.len(),
        0 <= k < gather_all(nodes, i, nodes[i].children@.take(n), min, prefix).len(),
    ensures
        i < c < nodes.len(),
        nodes[c].parent == i,
        nodes[i].children@.take(n).contains(c as u32),
        gather_all(nodes, i, nodes[i].children@.take(n), min, prefix)[k].0 < nodes.len(),
        model::above(nodes, c, gather_all(nodes, i, nodes[i].children@.take(n), min, prefix)[k].0 as int),
    decreases nodes.len() - i, 0int, n as nat,
{
    let ids = nodes[i].children@.take(n);
    if n == 0 {
        assert(ids.len() == 0);
        assert(false);
        0
    } else {
        assert(ids.drop_last() =~= nodes[i].children@.take(n - 1));
        assert(model::listed(nodes, i, nodes[i].children@[n - 1]));
        let c = ids.last() as int;
        let before = gather_all(nodes, i, ids.drop_last(), min, prefix);
        if k < before.len() {
            let d = lemma_gathered_child(nodes, i, min, prefix, n - 1, k);
            let j = ids.drop_last().index_of(d as u32);
            assert(ids[j] == d as u32);
            d
        } else {
            lemma_gathered_below(nodes, c, min, prefix, k - before.len());
            assert(ids[n - 1] == c as u32);
            c
        }
    }
}

/// No two of these are the same file.
pub open spec fn distinct(found: Seq<(u32, u64, Seq<char>)>) -> bool {
    forall|a: int, b: int| 0 <= a < b < found.len() ==> (#[trigger] found[a]).0 != (#[trigger] found[b]).0
}

/// No file is a candidate twice.
pub proof fn law_candidates_are_distinct(nodes: Seq<Node>, scope: int, min: u64, prefix: Seq<char>)
    requires
        model::shape(nodes),
        0 <= scope < nodes.len(),
    ensures
        distinct(gather_all(nodes, scope, nodes[scope].children@, min, prefix)),
    decreases nodes.len() - scope, 1int, 0nat,
{
    let kids = nodes[scope].children@;
    assert(kids.take(kids.len() as int) =~= kids);
    lemma_distinct_upto(nodes, scope, min, prefix, kids.len() as int);
}

proof fn lemma_distinct_upto(nodes: Seq<Node>, scope: int, min: u64, prefix: Seq<char>, n: int)
    requires
        model::shape(nodes),
        0 <= scope < nodes.len(),
        0 <= n <= nodes[scope].children@.len(),
    ensures
        distinct(gather_all(nodes, scope, nodes[scope].children@.take(n), min, prefix)),
    decreases nodes.len() - scope, 0int, n as nat,
{
    let ids = nodes[scope].children@.take(n);
    let all = gather_all(nodes, scope, ids, min, prefix);
    if n > 0 {
        assert(ids.drop_last() =~= nodes[scope].children@.take(n - 1));
        assert(model::listed(nodes, scope, nodes[scope].children@[n - 1]));
        assert(nodes[scope].children@.no_duplicates());
        let c = ids.last() as int;
        let before = gather_all(nodes, scope, ids.drop_last(), min, prefix);
        let more = gather(nodes, c, min, prefix);
        lemma_distinct_upto(nodes, scope, min, prefix, n - 1);
        if nodes[c].kind == Kind::Dir {
            law_candidates_are_distinct(nodes, c, min, below(prefix, nodes[c].name@));
        }
        assert(distinct(more));
        assert forall|a: int, b: int| 0 <= a < b < all.len() implies (#[trigger] all[a]).0 != (#[trigger] all[b]).0 by {
            if b < before.len() {
                assert(all[a] == before[a] && all[b] == before[b]);
            } else if a >= before.len() {
                assert(all[a] == more[a - before.len()] && all[b] == more[b - before.len()]);
            } else {
                assert(all[a] == before[a] && all[b] == more[b - before.len()]);
                let d = lemma_gathered_child(nodes, scope, min, prefix, n - 1, a);
                lemma_gathered_below(nodes, c, min, prefix, b - before.len());
                if all[a].0 == all[b].0 {
                    crate::tree::laws::lemma_one_child(nodes, scope, c, d, all[a].0 as int);
                    let j = nodes[scope].children@.take(n - 1).index_of(d as u32);
                    assert(nodes[scope].children@[j] == nodes[scope].children@[n - 1]);
                }
            }
        }
    }
}

} // verus!

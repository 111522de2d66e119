//! The reading stages: groups of equally large files are narrowed by the digest
//! of their windows, then by the digest of their contents.

use vstd::prelude::*;

use crate::dupes;
use crate::dupes::digest;
use crate::dupes::grouping;
use crate::dupes::refine;
use crate::dupes::windowed;
use crate::tree::candidates::Candidate;

verus! {

/// What a stage reads of the files.
#[derive(Clone, Copy, Debug, PartialEq, Eq, Structural)]
pub enum Stage {
    /// A window at each end.
    Windows,
    /// Everything.
    Contents,
}

impl Stage {
    pub open spec fn looks_at(self, size: u64) -> bool {
        self is Contents || size > digest::SMALL_FILE
    }

    /// Whether files of this size are read at all. Small files pass the window
    /// stage unread.
    pub fn reads(self, size: u64) -> (r: bool)
        ensures
            r == self.looks_at(size),
    {
        match self {
            Stage::Windows => windowed(size),
            Stage::Contents => true,
        }
    }
}

/// What is left of a group that is split by digest.
pub open spec fn split(group: Seq<Candidate>, digests: Seq<Option<[u8; 32]>>) -> Seq<Seq<Candidate>> {
    grouping::candidate_lists(
        grouping::groups(dupes::digested_of(group, digests, group.len()), grouping::digest_of()),
    )
}

/// The first `n` groups after a stage: each is split by digest, or kept as it is
/// where the stage reads nothing.
pub open spec fn narrowed(groups: Seq<Seq<Candidate>>, digests: Seq<Vec<Option<[u8; 32]>>>, stage: Stage, n: nat) -> Seq<
    Seq<Candidate>,
>
    decreases n,
{
    if n == 0 {
        Seq::empty()
    } else {
        let before = narrowed(groups, digests, stage, (n - 1) as nat);
        let g = groups[n - 1];
        if stage.looks_at(g[0].size) {
            before + split(g, digests[n - 1]@)
        } else {
            before.push(g)
        }
    }
}

/// No group is empty, and there is a digest, or the lack of one, for each file
/// that the stage reads.
pub open spec fn covered(groups: Seq<Seq<Candidate>>, digests: Seq<Vec<Option<[u8; 32]>>>, stage: Stage) -> bool {
    &&& digests.len() == groups.len()
    &&& forall|k: int| 0 <= k < groups.len() ==> (#[trigger] groups[k]).len() > 0
    &&& forall|k: int|
        0 <= k < groups.len() && stage.looks_at((#[trigger] groups[k])[0].size) ==> digests[k]@.len() == groups[k].len()
}

/// Puts all groups through a stage. `digests` holds what was read, one list for
/// each group; that of a group that is not read does not matter.
pub fn narrow(groups: Vec<Vec<Candidate>>, digests: &Vec<Vec<Option<[u8; 32]>>>, stage: Stage) -> (r: Vec<Vec<Candidate>>)
    requires
        covered(grouping::lists(groups@), digests@, stage),
    ensures
        grouping::lists(r@) == narrowed(grouping::lists(groups@), digests@, stage, groups@.len()),
        forall|k: int| 0 <= k < r@.len() ==> (#[trigger] r@[k])@.len() > 0,
{
    let ghost all = grouping::lists(groups@);
    let count: usize = digests.len();
    let mut out: Vec<Vec<Candidate>> = Vec::new();
    let mut i: usize = 0;
    assert(grouping::lists(out@) =~= narrowed(all, digests@, stage, 0));
    for g in it: groups
        invariant
            all == grouping::lists(it.seq()),
            covered(all, digests@, stage),
            count == digests@.len(),
            i == it.index(),
            grouping::lists(out@) == narrowed(all, digests@, stage, i as nat),
    {
        let ghost o0 = out@;
        let ghost g0 = g@;
        assert(all[i as int] == g@);
        if stage.reads(g[0].size) {
            let mut parts = refine(g, &digests[i]);
            let ghost p0 = parts@;
            out.append(&mut parts);
            assert(grouping::lists(out@) =~= grouping::lists(o0) + grouping::lists(p0));
        } else {
            out.push(g);
            assert(grouping::lists(out@) =~= grouping::lists(o0).push(g0));
        }
        i = i + 1;
    }
    proof {
        lemma_narrowed_not_empty(all, digests@, stage, groups@.len());
        assert forall|k: int| 0 <= k < out@.len() implies (#[trigger] out@[k])@.len() > 0 by {
            assert(grouping::lists(out@)[k] == out@[k]@);
        }
    }
    out
}

proof fn lemma_narrowed_not_empty(groups: Seq<Seq<Candidate>>, digests: Seq<Vec<Option<[u8; 32]>>>, stage: Stage, n: nat)
    requires
        n <= groups.len(),
        covered(groups, digests, stage),
    ensures
        forall|p: int|
            0 <= p < narrowed(groups, digests, stage, n).len() ==> (#[trigger] narrowed(groups, digests, stage, n)[p]).len() > 0,
    decreases n,
{
    if n > 0 {
        let before = narrowed(groups, digests, stage, (n - 1) as nat);
        let all = narrowed(groups, digests, stage, n);
        let g = groups[n - 1];
        lemma_narrowed_not_empty(groups, digests, stage, (n - 1) as nat);
        assert forall|p: int| 0 <= p < all.len() implies (#[trigger] all[p]).len() > 0 by {
            if p < before.len() {
                assert(all[p] == before[p]);
            } else if stage.looks_at(g[0].size) {
                lemma_split_sound(g, digests[n - 1]@, p - before.len());
            }
        }
    }
}

/// The digests of a stage are those that `look` gives of the files.
pub open spec fn read_as(
    groups: Seq<Seq<Candidate>>,
    digests: Seq<Vec<Option<[u8; 32]>>>,
    stage: Stage,
    look: spec_fn(Candidate) -> Option<[u8; 32]>,
) -> bool {
    forall|k: int, i: int|
        0 <= k < groups.len() && 0 <= i < groups[k].len() && stage.looks_at(groups[k][0].size) ==> #[trigger] digests[k]@[i]
            == look(groups[k][i])
}

/// Two files that a stage cannot tell apart: they are equally large, and where
/// the stage reads them they could be read and gave the same digest.
pub open spec fn alike(stage: Stage, look: spec_fn(Candidate) -> Option<[u8; 32]>, c: Candidate, d: Candidate) -> bool {
    &&& c.size == d.size
    &&& stage.looks_at(c.size) ==> look(c) is Some && look(d) is Some && look(c)->0@ == look(d)->0@
}

/// A group of several files of one size.
pub open spec fn uniform(g: Seq<Candidate>) -> bool {
    &&& g.len() > 1
    &&& forall|i: int, j: int| 0 <= i < g.len() && 0 <= j < g.len() ==> (#[trigger] g[i]).size == (#[trigger] g[j]).size
}

/// One of the first `n` files of the group, with the digest that it has there.
spec fn digested_from(group: Seq<Candidate>, digests: Seq<Option<[u8; 32]>>, n: nat, x: grouping::Digested) -> bool {
    exists|i: int| 0 <= i < n && digests[i] is Some && x.digest == digests[i]->0 && x.candidate == #[trigger] group[i]
}

proof fn lemma_digested(group: Seq<Candidate>, digests: Seq<Option<[u8; 32]>>, n: nat)
    requires
        n <= group.len(),
        digests.len() == group.len(),
    ensures
        ({
            let v = dupes::digested_of(group, digests, n);
            &&& forall|m: int| 0 <= m < v.len() ==> digested_from(group, digests, n, #[trigger] v[m])
            &&& forall|i: int|
                0 <= i < n && (#[trigger] digests[i]) is Some ==> v.contains(
                    grouping::Digested { digest: digests[i]->0, candidate: group[i] },
                )
        }),
    decreases n,
{
    if n > 0 {
        let m0 = (n - 1) as nat;
        lemma_digested(group, digests, m0);
        let before = dupes::digested_of(group, digests, m0);
        let v = dupes::digested_of(group, digests, n);
        assert forall|m: int| 0 <= m < v.len() implies digested_from(group, digests, n, #[trigger] v[m]) by {
            if m < before.len() {
                assert(v[m] == before[m]);
                assert(digested_from(group, digests, m0, before[m]));
            } else {
                assert(v[m].candidate == group[n - 1]);
            }
        }
        assert forall|i: int| 0 <= i < n && (#[trigger] digests[i]) is Some implies v.contains(
            grouping::Digested { digest: digests[i]->0, candidate: group[i] },
        ) by {
            let x = grouping::Digested { digest: digests[i]->0, candidate: group[i] };
            if i < n - 1 {
                let at = before.index_of(x);
                assert(v[at] == x);
            } else {
                assert(v[v.len() - 1] == x);
            }
        }
    }
}

/// What a split leaves together shares its digest and comes from the group.
proof fn lemma_split_sound(group: Seq<Candidate>, digests: Seq<Option<[u8; 32]>>, p: int)
    requires
        digests.len() == group.len(),
        0 <= p < split(group, digests).len(),
    ensures
        split(group, digests)[p].len() > 1,
        exists|key: Seq<u8>| #[trigger] all_from(group, digests, key, split(group, digests)[p]),
{
    let items = dupes::digested_of(group, digests, group.len());
    let g = grouping::groups(items, grouping::digest_of());
    lemma_digested(group, digests, group.len());
    grouping::law_groups_share_their_key(items, grouping::digest_of());
    let b = split(group, digests)[p];
    assert(b == grouping::candidates_of(g[p].1));
    let key = g[p].0;
    assert forall|i: int| 0 <= i < b.len() implies from_group(group, digests, key, #[trigger] b[i]) by {
        let x = g[p].1[i];
        assert(grouping::digest_of()(x) == key);
        let m = items.index_of(x);
        assert(items[m] == x);
        assert(digested_from(group, digests, group.len(), items[m]));
    }
    assert(all_from(group, digests, key, b));
}

/// The file is in the group, with this digest.
spec fn from_group(group: Seq<Candidate>, digests: Seq<Option<[u8; 32]>>, key: Seq<u8>, c: Candidate) -> bool {
    exists|at: int| 0 <= at < group.len() && #[trigger] group[at] == c && digests[at] is Some && digests[at]->0@ == key
}

/// All the files are in the group, with this digest.
spec fn all_from(group: Seq<Candidate>, digests: Seq<Option<[u8; 32]>>, key: Seq<u8>, b: Seq<Candidate>) -> bool {
    forall|i: int| 0 <= i < b.len() ==> from_group(group, digests, key, #[trigger] b[i])
}

/// Two files of a group with the same digest stay together.
proof fn lemma_split_complete(group: Seq<Candidate>, digests: Seq<Option<[u8; 32]>>, i: int, j: int)
    requires
        digests.len() == group.len(),
        0 <= i < group.len(),
        0 <= j < group.len(),
        group[i] != group[j],
        digests[i] is Some,
        digests[j] is Some,
        digests[i]->0@ == digests[j]->0@,
    ensures
        exists|p: int|
            0 <= p < split(group, digests).len() && (#[trigger] split(group, digests)[p]).contains(group[i]) && split(
                group,
                digests,
            )[p].contains(group[j]),
{
    let items = dupes::digested_of(group, digests, group.len());
    let key = grouping::digest_of();
    let g = grouping::groups(items, key);
    lemma_digested(group, digests, group.len());
    grouping::law_groups_share_their_key(items, key);
    let x = grouping::Digested { digest: digests[i]->0, candidate: group[i] };
    let y = grouping::Digested { digest: digests[j]->0, candidate: group[j] };
    assert(items.contains(x) && items.contains(y));
    let a = items.index_of(x);
    let b = items.index_of(y);
    assert(items[a] == x && items[b] == y);
    let k = key(x);
    assert(key(items[a]) == k && key(items[b]) == k);
    assert(a != b);
    if a < b {
        assert(grouping::find(g, key(items[a])) is Some);
    } else {
        assert(grouping::find(g, key(items[b])) is Some);
    }
    grouping::lemma_find(g, k);
    let p = grouping::find(g, k)->0;
    let with = grouping::with_key(key, k);
    assert(g[p].1 == items.filter(with));
    items.lemma_filter_contains(with, a);
    items.lemma_filter_contains(with, b);
    let u = g[p].1.index_of(x);
    let v = g[p].1.index_of(y);
    let bucket = split(group, digests)[p];
    assert(bucket == grouping::candidates_of(g[p].1));
    assert(bucket[u] == group[i]);
    assert(bucket[v] == group[j]);
}

/// The files of a narrowed group come from one group, and the stage cannot tell
/// them apart.
spec fn narrowed_from(
    groups: Seq<Seq<Candidate>>,
    stage: Stage,
    look: spec_fn(Candidate) -> Option<[u8; 32]>,
    b: Seq<Candidate>,
    k: int,
) -> bool {
    &&& uniform(b)
    &&& forall|i: int| 0 <= i < b.len() ==> groups[k].contains(#[trigger] b[i])
    &&& forall|i: int, j: int| 0 <= i < b.len() && 0 <= j < b.len() ==> alike(stage, look, #[trigger] b[i], #[trigger] b[j])
}

spec fn narrowed_somewhere(
    groups: Seq<Seq<Candidate>>,
    stage: Stage,
    look: spec_fn(Candidate) -> Option<[u8; 32]>,
    b: Seq<Candidate>,
    n: nat,
) -> bool {
    exists|k: int| 0 <= k < n && #[trigger] narrowed_from(groups, stage, look, b, k)
}

proof fn lemma_narrowed_sound(
    groups: Seq<Seq<Candidate>>,
    digests: Seq<Vec<Option<[u8; 32]>>>,
    stage: Stage,
    look: spec_fn(Candidate) -> Option<[u8; 32]>,
    n: nat,
)
    requires
        n <= groups.len(),
        covered(groups, digests, stage),
        read_as(groups, digests, stage, look),
        forall|k: int| 0 <= k < groups.len() ==> uniform(#[trigger] groups[k]),
    ensures
        forall|p: int|
            0 <= p < narrowed(groups, digests, stage, n).len() ==> narrowed_somewhere(
                groups,
                stage,
                look,
                #[trigger] narrowed(groups, digests, stage, n)[p],
                n,
            ),
    decreases n,
{
    if n > 0 {
        let last = n - 1;
        lemma_narrowed_sound(groups, digests, stage, look, last as nat);
        let before = narrowed(groups, digests, stage, last as nat);
        let all = narrowed(groups, digests, stage, n);
        let g = groups[last];
        assert(uniform(g));
        assert forall|p: int| 0 <= p < all.len() implies narrowed_somewhere(groups, stage, look, #[trigger] all[p], n) by {
            if p < before.len() {
                assert(all[p] == before[p]);
                assert(narrowed_somewhere(groups, stage, look, before[p], last as nat));
            } else if stage.looks_at(g[0].size) {
                let ds = digests[last]@;
                let q = p - before.len();
                let b = split(g, ds)[q];
                assert(all[p] == b);
                lemma_split_sound(g, ds, q);
                let key = choose|key: Seq<u8>| #[trigger] all_from(g, ds, key, b);
                assert forall|i: int| 0 <= i < b.len() implies g.contains(#[trigger] b[i]) && b[i].size == g[0].size && look(
                    b[i],
                ) is Some && look(b[i])->0@ == key by {
                    assert(from_group(g, ds, key, b[i]));
                    let at = choose|at: int|
                        0 <= at < g.len() && #[trigger] g[at] == b[i] && ds[at] is Some && ds[at]->0@ == key;
                    assert(digests[last]@[at] == look(groups[last][at]));
                }
                assert(narrowed_from(groups, stage, look, all[p], last));
            } else {
                assert(all[p] == g);
                assert(narrowed_from(groups, stage, look, all[p], last));
            }
        }
    }
}

proof fn lemma_narrowed_complete(
    groups: Seq<Seq<Candidate>>,
    digests: Seq<Vec<Option<[u8; 32]>>>,
    stage: Stage,
    look: spec_fn(Candidate) -> Option<[u8; 32]>,
    n: nat,
    k: int,
    c: Candidate,
    d: Candidate,
)
    requires
        0 <= k < n <= groups.len(),
        covered(groups, digests, stage),
        read_as(groups, digests, stage, look),
        uniform(groups[k]),
        groups[k].contains(c),
        groups[k].contains(d),
        c != d,
        alike(stage, look, c, d),
    ensures
        together(narrowed(groups, digests, stage, n), c, d),
    decreases n,
{
    let last = n - 1;
    let before = narrowed(groups, digests, stage, last as nat);
    let all = narrowed(groups, digests, stage, n);
    if k < last {
        lemma_narrowed_complete(groups, digests, stage, look, last as nat, k, c, d);
        let p = choose|p: int| 0 <= p < before.len() && (#[trigger] before[p]).contains(c) && before[p].contains(d);
        assert(all[p] == before[p]);
    } else {
        let g = groups[k];
        let i = g.index_of(c);
        let j = g.index_of(d);
        assert(g[i].size == g[0].size);
        if stage.looks_at(g[0].size) {
            let ds = digests[k]@;
            assert(digests[k]@[i] == look(groups[k][i]));
            assert(digests[k]@[j] == look(groups[k][j]));
            lemma_split_complete(g, ds, i, j);
            let parts = split(g, ds);
            let q = choose|q: int| 0 <= q < parts.len() && (#[trigger] parts[q]).contains(c) && parts[q].contains(d);
            assert(all[before.len() + q] == parts[q]);
        } else {
            assert(all[before.len() as int] == g);
        }
    }
}

/// Whether two files stand in one group.
pub open spec fn together(groups: Seq<Seq<Candidate>>, c: Candidate, d: Candidate) -> bool {
    exists|p: int| 0 <= p < groups.len() && (#[trigger] groups[p]).contains(c) && groups[p].contains(d)
}

/// The groups that the first stage makes.
pub open spec fn sized(files: Seq<Candidate>) -> Seq<Seq<Candidate>> {
    grouping::members(grouping::groups(files, grouping::size_of()))
}

/// The groups that all three stages leave of the files.
pub open spec fn found(
    files: Seq<Candidate>,
    windows: Seq<Vec<Option<[u8; 32]>>>,
    contents: Seq<Vec<Option<[u8; 32]>>>,
) -> Seq<Seq<Candidate>> {
    let by_size = sized(files);
    let by_windows = narrowed(by_size, windows, Stage::Windows, by_size.len());
    narrowed(by_windows, contents, Stage::Contents, by_windows.len())
}

/// What was read for all three stages: of every file its windows as `window`
/// gives them, and its contents as `content` does.
pub open spec fn read_through(
    files: Seq<Candidate>,
    windows: Seq<Vec<Option<[u8; 32]>>>,
    contents: Seq<Vec<Option<[u8; 32]>>>,
    window: spec_fn(Candidate) -> Option<[u8; 32]>,
    content: spec_fn(Candidate) -> Option<[u8; 32]>,
) -> bool {
    let by_size = sized(files);
    let by_windows = narrowed(by_size, windows, Stage::Windows, by_size.len());
    &&& covered(by_size, windows, Stage::Windows)
    &&& read_as(by_size, windows, Stage::Windows, window)
    &&& covered(by_windows, contents, Stage::Contents)
    &&& read_as(by_windows, contents, Stage::Contents, content)
}

proof fn lemma_sized(files: Seq<Candidate>)
    ensures
        forall|p: int| 0 <= p < sized(files).len() ==> uniform(#[trigger] sized(files)[p]),
        forall|p: int, i: int|
            0 <= p < sized(files).len() && 0 <= i < sized(files)[p].len() ==> files.contains(#[trigger] sized(files)[p][i]),
{
    let key = grouping::size_of();
    let g = grouping::groups(files, key);
    grouping::law_groups_share_their_key(files, key);
    assert forall|p: int| 0 <= p < sized(files).len() implies uniform(#[trigger] sized(files)[p]) by {
        assert(sized(files)[p] == g[p].1);
        assert forall|i: int| 0 <= i < g[p].1.len() implies (#[trigger] g[p].1[i]).size == g[p].0 by {
            assert(key(g[p].1[i]) == g[p].0);
        }
    }
    assert forall|p: int, i: int| 0 <= p < sized(files).len() && 0 <= i < sized(files)[p].len() implies files.contains(
        #[trigger] sized(files)[p][i],
    ) by {
        assert(sized(files)[p] == g[p].1);
        assert(key(g[p].1[i]) == g[p].0);
    }
}

/// What is reported as a duplicate is one: the files of a group are at least
/// two, equally large, all readable, and have the same contents as far as their
/// digests tell.
pub proof fn law_groups_hold_equal_files(
    files: Seq<Candidate>,
    windows: Seq<Vec<Option<[u8; 32]>>>,
    contents: Seq<Vec<Option<[u8; 32]>>>,
    window: spec_fn(Candidate) -> Option<[u8; 32]>,
    content: spec_fn(Candidate) -> Option<[u8; 32]>,
    p: int,
)
    requires
        read_through(files, windows, contents, window, content),
        0 <= p < found(files, windows, contents).len(),
    ensures
        ({
            let b = found(files, windows, contents)[p];
            &&& uniform(b)
            &&& forall|i: int| 0 <= i < b.len() ==> files.contains(#[trigger] b[i])
            &&& forall|i: int, j: int|
                0 <= i < b.len() && 0 <= j < b.len() ==> alike(Stage::Windows, window, #[trigger] b[i], #[trigger] b[j])
                    && alike(Stage::Contents, content, b[i], b[j])
        }),
{
    let by_size = sized(files);
    let by_windows = narrowed(by_size, windows, Stage::Windows, by_size.len());
    let b = found(files, windows, contents)[p];
    lemma_sized(files);
    lemma_narrowed_sound(by_size, windows, Stage::Windows, window, by_size.len());
    assert forall|k: int| 0 <= k < by_windows.len() implies uniform(#[trigger] by_windows[k]) by {
        assert(narrowed_somewhere(by_size, Stage::Windows, window, by_windows[k], by_size.len()));
    }
    lemma_narrowed_sound(by_windows, contents, Stage::Contents, content, by_windows.len());
    assert(narrowed_somewhere(by_windows, Stage::Contents, content, b, by_windows.len()));
    let k = choose|k: int| 0 <= k < by_windows.len() && #[trigger] narrowed_from(by_windows, Stage::Contents, content, b, k);
    let w = by_windows[k];
    assert(narrowed_somewhere(by_size, Stage::Windows, window, w, by_size.len()));
    let s = choose|s: int| 0 <= s < by_size.len() && #[trigger] narrowed_from(by_size, Stage::Windows, window, w, s);
    assert forall|i: int| 0 <= i < b.len() implies files.contains(#[trigger] b[i]) by {
        assert(w.contains(b[i]));
        let x = w.index_of(b[i]);
        assert(by_size[s].contains(w[x]));
        let y = by_size[s].index_of(w[x]);
        assert(files.contains(sized(files)[s][y]));
    }
    assert forall|i: int, j: int| 0 <= i < b.len() && 0 <= j < b.len() implies alike(
        Stage::Windows,
        window,
        #[trigger] b[i],
        #[trigger] b[j],
    ) && alike(Stage::Contents, content, b[i], b[j]) by {
        assert(w.contains(b[i]) && w.contains(b[j]));
        assert(alike(Stage::Windows, window, w[w.index_of(b[i])], w[w.index_of(b[j])]));
    }
}

/// No duplicate is missed: two files that are equally large, could be read at
/// every stage and gave the same digests stand together in a group.
pub proof fn law_equal_files_are_grouped(
    files: Seq<Candidate>,
    windows: Seq<Vec<Option<[u8; 32]>>>,
    contents: Seq<Vec<Option<[u8; 32]>>>,
    window: spec_fn(Candidate) -> Option<[u8; 32]>,
    content: spec_fn(Candidate) -> Option<[u8; 32]>,
    c: Candidate,
    d: Candidate,
)
    requires
        read_through(files, windows, contents, window, content),
        files.contains(c),
        files.contains(d),
        c != d,
        alike(Stage::Windows, window, c, d),
        alike(Stage::Contents, content, c, d),
    ensures
        together(found(files, windows, contents), c, d),
{
    let key = grouping::size_of();
    let g = grouping::groups(files, key);
    let by_size = sized(files);
    let by_windows = narrowed(by_size, windows, Stage::Windows, by_size.len());
    lemma_sized(files);
    grouping::law_groups_share_their_key(files, key);
    let a = files.index_of(c);
    let b = files.index_of(d);
    assert(files[a] == c && files[b] == d);
    assert(key(files[a]) == c.size && key(files[b]) == c.size);
    if a < b {
        assert(grouping::find(g, key(files[a])) is Some);
    } else {
        assert(grouping::find(g, key(files[b])) is Some);
    }
    grouping::lemma_find(g, c.size);
    let s = grouping::find(g, c.size)->0;
    let with = grouping::with_key(key, c.size);
    assert(g[s].1 == files.filter(with));
    files.lemma_filter_contains(with, a);
    files.lemma_filter_contains(with, b);
    assert(by_size[s] == g[s].1);
    lemma_narrowed_complete(by_size, windows, Stage::Windows, window, by_size.len(), s, c, d);
    let k = choose|k: int| 0 <= k < by_windows.len() && (#[trigger] by_windows[k]).contains(c) && by_windows[k].contains(d);
    lemma_narrowed_sound(by_size, windows, Stage::Windows, window, by_size.len());
    assert(narrowed_somewhere(by_size, Stage::Windows, window, by_windows[k], by_size.len()));
    lemma_narrowed_complete(by_windows, contents, Stage::Contents, content, by_windows.len(), k, c, d);
}

} // verus!

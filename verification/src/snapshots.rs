//! Saved scans, so the current tree can be compared against an earlier one.
//!
//! A snapshot is a flat list of leaf entries with scan-root relative paths.
//! Directories are left out because their sizes are just sums of the leaves.

pub mod changes;
pub mod laws;

use vstd::hash_map::StringHashMap;
use vstd::prelude::*;

use crate::order;
use crate::order::Ranking;
use crate::sums;
use crate::text;
use crate::tree::leaves::SnapEntry;
use crate::tree::listing;
use crate::tree::Kind;

verus! {

pub struct Snapshot {
    pub name: String,
    /// Scan root at the time the snapshot was taken, for display only.
    pub root: String,
    /// Unix seconds.
    pub created: u64,
    pub entries: Vec<SnapEntry>,
}

pub struct SnapshotMeta {
    pub name: String,
    pub root: String,
    pub created: u64,
    pub entries: u64,
    pub bytes: u64,
}

pub struct Change {
    pub path: String,
    pub kind: Kind,
    pub old: u64,
    pub new: u64,
    pub delta: i64,
    pub added: bool,
    pub removed: bool,
}

pub struct DiffResult {
    /// Bytes that appeared or grew.
    pub added_bytes: u64,
    /// Bytes that disappeared or shrank.
    pub removed_bytes: u64,
    /// `added_bytes - removed_bytes`.
    pub net: i64,
    pub total_changes: u64,
    pub changes: Vec<Change>,
}

pub open spec fn entry_size() -> spec_fn(SnapEntry) -> int {
    |e: SnapEntry| e.size as int
}

/// The bytes of a list of entries.
pub fn total_size(entries: &[SnapEntry]) -> (r: u128)
    ensures
        r == sums::total(entries@, entry_size()),
{
    let ghost all = entries@;
    let count: usize = entries.len();
    let mut sum: u128 = 0;
    let mut i: usize = 0;
    assert(all.take(0) =~= Seq::<SnapEntry>::empty());
    while i < count
        invariant
            i <= count,
            count == all.len(),
            all == entries@,
            sum == sums::total(all.take(i as int), entry_size()),
            sum <= i * 0xffff_ffff_ffff_ffff,
        decreases count - i,
    {
        proof {
            assert(all.take(i + 1) =~= all.take(i as int).push(all[i as int]));
            sums::lemma_total_push(all.take(i as int), all[i as int], entry_size());
            assert(i * 0xffff_ffff_ffff_ffff + 0xffff_ffff_ffff_ffff == (i + 1) * 0xffff_ffff_ffff_ffff);
            assert((i + 1) * 0xffff_ffff_ffff_ffff <= 0xffff_ffff_ffff_ffff * 0xffff_ffff_ffff_ffff);
        }
        sum = sum + entries[i].size as u128;
        i = i + 1;
    }
    assert(all.take(i as int) =~= all);
    sum
}

/// Whether two scans can be compared for sure: neither holds more bytes than a
/// signed number.
pub fn can_compare(old: &[SnapEntry], new: &[SnapEntry]) -> (r: bool)
    ensures
        r == (sums::total(old@, entry_size()) <= i64::MAX && sums::total(new@, entry_size()) <= i64::MAX),
        r ==> measurable(old@, new@),
{
    let r = total_size(old) <= 0x7fff_ffff_ffff_ffff && total_size(new) <= 0x7fff_ffff_ffff_ffff;
    proof {
        if r {
            laws::law_scans_are_measurable(old@, new@);
        }
    }
    r
}

impl SnapshotMeta {
    pub fn of(snapshot: &Snapshot) -> (m: Self)
        requires
            sums::total(snapshot.entries@, entry_size()) <= u64::MAX,
        ensures
            m.name == snapshot.name,
            m.root == snapshot.root,
            m.created == snapshot.created,
            m.entries == snapshot.entries@.len(),
            m.bytes == sums::total(snapshot.entries@, entry_size()),
    {
        let bytes: u64 = total_size(snapshot.entries.as_slice()) as u64;
        SnapshotMeta {
            name: snapshot.name.clone(),
            root: snapshot.root.clone(),
            created: snapshot.created,
            entries: snapshot.entries.len() as u64,
            bytes,
        }
    }
}

/// Asks `SystemTime::elapsed` how long ago the Unix epoch was, in whole seconds;
/// nothing for a clock that stands before it. Nothing is claimed of the time.
#[verifier::external_body]
fn unix_seconds() -> (r: Option<u64>)
{
    std::time::UNIX_EPOCH.elapsed().ok().map(|d| d.as_secs())
}

/// What a reading of the clock stands for; a clock before the epoch reads zero.
pub fn seconds_or_zero(reading: Option<u64>) -> (r: u64)
    ensures
        r == (match reading {
            Some(s) => s,
            None => 0,
        }),
{
    match reading {
        Some(s) => s,
        None => 0,
    }
}

/// Unix seconds, or zero when the clock stands before the epoch.
pub fn now() -> u64 {
    seconds_or_zero(unix_seconds())
}

pub open spec fn name_char(c: char) -> bool {
    ||| '0' <= c && c <= '9'
    ||| 'a' <= c && c <= 'z'
    ||| 'A' <= c && c <= 'Z'
    ||| c == ' '
    ||| c == '-'
    ||| c == '_'
    ||| c == '.'
}

/// One to sixty-four letters, digits, spaces, dashes, underscores and dots, but
/// neither of the two directory names made of dots.
pub open spec fn is_valid_name(s: Seq<char>) -> bool {
    &&& 1 <= s.len() <= 64
    &&& s != seq!['.']
    &&& s != seq!['.', '.']
    &&& forall|i: int| 0 <= i < s.len() ==> name_char(#[trigger] s[i])
}

/// A snapshot name becomes a file name, so it may not contain separators or
/// traversal, and it is kept reasonably short.
pub fn valid_name(name: &str) -> (r: bool)
    ensures
        r == is_valid_name(name@),
{
    let cs = text::chars_of(name);
    let n: usize = cs.len();
    if n == 0 || n > 64 {
        return false;
    }
    let mut i: usize = 0;
    let mut dots: usize = 0;
    while i < n
        invariant
            i <= n,
            n == cs@.len(),
            cs@ == name@,
            dots <= i,
            dots == i <==> forall|j: int| 0 <= j < i ==> cs@[j] == '.',
            forall|j: int| 0 <= j < i ==> name_char(#[trigger] cs@[j]),
        decreases n - i,
    {
        let c = cs[i];
        let good = ('0' <= c && c <= '9') || ('a' <= c && c <= 'z') || ('A' <= c && c <= 'Z') || c == ' ' || c == '-' || c
            == '_' || c == '.';
        if !good {
            return false;
        }
        if c == '.' {
            dots = dots + 1;
        }
        i = i + 1;
    }
    if dots == n && n <= 2 {
        proof {
            if n == 1 {
                assert(name@ =~= seq!['.']);
            } else {
                assert(name@ =~= seq!['.', '.']);
            }
        }
        return false;
    }
    assert(name@ != seq!['.'] && name@ != seq!['.', '.']) by {
        if name@ == seq!['.'] || name@ == seq!['.', '.'] {
            assert(forall|j: int| 0 <= j < n ==> cs@[j] == '.');
        }
    }
    true
}

/// The name of the file that holds the snapshot `name`; invalid names have
/// none.
pub fn file_name(name: &str) -> (r: Option<String>)
    ensures
        match r {
            Some(f) => is_valid_name(name@) && f@ == name@ + ".json"@,
            None => !is_valid_name(name@),
        },
{
    if valid_name(name) {
        Some(text::joined(name, ".json"))
    } else {
        None
    }
}

/// The system that the snapshots are kept on.
#[derive(Clone, Copy, PartialEq, Eq, Debug, Structural)]
pub enum System {
    Windows,
    MacOs,
    Other,
}

/// Where data is kept: in a directory, or below one. `P` is how a path is
/// written.
pub enum DataDir<P> {
    In(P),
    /// `Library/Application Support` below the home directory.
    Library(P),
    /// `.local/share` below the home directory.
    LocalShare(P),
    Temporary,
}

/// Where snapshots are kept, from what the environment says.
pub open spec fn data_place<P>(system: System, local_app_data: Option<P>, home: Option<P>, xdg_data_home: Option<P>) -> DataDir<P> {
    match system {
        System::Windows => match local_app_data {
            Some(d) => DataDir::In(d),
            None => DataDir::Temporary,
        },
        System::MacOs => match home {
            Some(h) => DataDir::Library(h),
            None => DataDir::Temporary,
        },
        System::Other => match xdg_data_home {
            Some(d) => DataDir::In(d),
            None => match home {
                Some(h) => DataDir::LocalShare(h),
                None => DataDir::Temporary,
            },
        },
    }
}

/// Where snapshots are kept, from what the environment says.
pub fn data_dir<P>(system: System, local_app_data: Option<P>, home: Option<P>, xdg_data_home: Option<P>) -> (r: DataDir<P>)
    ensures
        r == data_place(system, local_app_data, home, xdg_data_home),
        r == (match system {
            System::Windows => match local_app_data {
                Some(d) => DataDir::In(d),
                None => DataDir::Temporary,
            },
            System::MacOs => match home {
                Some(h) => DataDir::Library(h),
                None => DataDir::Temporary,
            },
            System::Other => match xdg_data_home {
                Some(d) => DataDir::In(d),
                None => match home {
                    Some(h) => DataDir::LocalShare(h),
                    None => DataDir::Temporary,
                },
            },
        }),
{
    match system {
        System::Windows => match local_app_data {
            Some(d) => DataDir::In(d),
            None => DataDir::Temporary,
        },
        System::MacOs => match home {
            Some(h) => DataDir::Library(h),
            None => DataDir::Temporary,
        },
        System::Other => match xdg_data_home {
            Some(d) => DataDir::In(d),
            None => match home {
                Some(h) => DataDir::LocalShare(h),
                None => DataDir::Temporary,
            },
        },
    }
}

pub open spec fn newest_first() -> spec_fn(SnapshotMeta, SnapshotMeta) -> bool {
    |a: SnapshotMeta, b: SnapshotMeta| a.created >= b.created
}

struct Newest;

impl Ranking<SnapshotMeta> for Newest {
    closed spec fn order(&self) -> spec_fn(SnapshotMeta, SnapshotMeta) -> bool {
        newest_first()
    }

    closed spec fn covers(&self, x: SnapshotMeta) -> bool {
        true
    }

    proof fn order_is_total(&self) {
    }

    fn leads(&self, a: &SnapshotMeta, b: &SnapshotMeta) -> bool {
        a.created >= b.created
    }
}

/// Snapshots in the order they are listed: newest first.
pub fn listed(metas: Vec<SnapshotMeta>) -> (r: Vec<SnapshotMeta>)
    ensures
        r@.to_multiset() == metas@.to_multiset(),
        vstd::relations::sorted_by(r@, newest_first()),
        forall|i: int, j: int| 0 <= i < j < r@.len() ==> (#[trigger] r@[i]).created >= (#[trigger] r@[j]).created,
{
    let r = order::rank(&Newest, metas);
    proof {
        assert forall|i: int, j: int| 0 <= i < j < r@.len() implies (#[trigger] r@[i]).created >= (#[trigger] r@[j]).created by {
            assert(newest_first()(r@[i], r@[j]));
        }
    }
    r
}

/// Where `path` stands last in `v`.
pub open spec fn last_at(v: Seq<SnapEntry>, path: Seq<char>) -> Option<int>
    decreases v.len(),
{
    if v.len() == 0 {
        None
    } else if v.last().path@ == path {
        Some(v.len() - 1)
    } else {
        last_at(v.drop_last(), path)
    }
}

/// What changed at one path.
pub struct Difference {
    pub path: Seq<char>,
    pub kind: Kind,
    pub old: u64,
    pub new: u64,
    pub added: bool,
    pub removed: bool,
}

impl Difference {
    pub open spec fn delta(self) -> int {
        self.new - self.old
    }

    /// Bytes that appeared or grew.
    pub open spec fn gain(self) -> int {
        if self.new > self.old {
            self.new - self.old
        } else {
            0
        }
    }

    /// Bytes that disappeared or shrank.
    pub open spec fn loss(self) -> int {
        if self.old > self.new {
            self.old - self.new
        } else {
            0
        }
    }

    /// How much changed, either way.
    pub open spec fn extent(self) -> int {
        if self.new > self.old {
            self.new - self.old
        } else {
            self.old - self.new
        }
    }
}

/// What changed at the path of the `i`-th new entry, if it is the last entry
/// there.
pub open spec fn change_of_new(old: Seq<SnapEntry>, new: Seq<SnapEntry>, i: int) -> Option<Difference> {
    let n = new[i];
    if last_at(new, n.path@) != Some(i) {
        None
    } else {
        match last_at(old, n.path@) {
            Some(j) => if old[j].size != n.size {
                Some(
                    Difference {
                        path: n.path@,
                        kind: n.kind,
                        old: old[j].size,
                        new: n.size,
                        added: false,
                        removed: false,
                    },
                )
            } else {
                None
            },
            None => Some(
                Difference { path: n.path@, kind: n.kind, old: 0, new: n.size, added: true, removed: false },
            ),
        }
    }
}

/// What changed at the path of the `i`-th old entry, if it is the last entry
/// there and the path is gone.
pub open spec fn change_of_old(old: Seq<SnapEntry>, new: Seq<SnapEntry>, i: int) -> Option<Difference> {
    let o = old[i];
    if last_at(old, o.path@) == Some(i) && last_at(new, o.path@) is None {
        Some(Difference { path: o.path@, kind: o.kind, old: o.size, new: 0, added: false, removed: true })
    } else {
        None
    }
}

pub open spec fn pushed(s: Seq<Difference>, x: Option<Difference>) -> Seq<Difference> {
    match x {
        Some(d) => s.push(d),
        None => s,
    }
}

/// What changed at the paths of the first `n` new entries.
pub open spec fn changes_of_new(old: Seq<SnapEntry>, new: Seq<SnapEntry>, n: nat) -> Seq<Difference>
    decreases n,
{
    if n == 0 {
        Seq::empty()
    } else {
        pushed(changes_of_new(old, new, (n - 1) as nat), change_of_new(old, new, n - 1))
    }
}

/// What changed at the paths of the first `n` old entries.
pub open spec fn changes_of_old(old: Seq<SnapEntry>, new: Seq<SnapEntry>, n: nat) -> Seq<Difference>
    decreases n,
{
    if n == 0 {
        Seq::empty()
    } else {
        pushed(changes_of_old(old, new, (n - 1) as nat), change_of_old(old, new, n - 1))
    }
}

/// Everything that changed: one difference for each path that appeared,
/// disappeared or has another size. Where a path occurs more than once in a
/// list, its last entry counts.
pub open spec fn differences(old: Seq<SnapEntry>, new: Seq<SnapEntry>) -> Seq<Difference> {
    changes_of_new(old, new, new.len()) + changes_of_old(old, new, old.len())
}

pub open spec fn gain() -> spec_fn(Difference) -> int {
    |d: Difference| d.gain()
}

pub open spec fn loss() -> spec_fn(Difference) -> int {
    |d: Difference| d.loss()
}

/// The deltas and their sums fit the fields that hold them.
pub open spec fn measurable(old: Seq<SnapEntry>, new: Seq<SnapEntry>) -> bool {
    let all = differences(old, new);
    &&& forall|k: int| 0 <= k < all.len() ==> (#[trigger] all[k]).extent() <= i64::MAX
    &&& sums::total(all, gain()) <= u64::MAX
    &&& sums::total(all, loss()) <= u64::MAX
    &&& i64::MIN <= sums::total(all, gain()) - sums::total(all, loss()) <= i64::MAX
}

/// What a change says.
pub open spec fn told(c: Change) -> Difference {
    Difference { path: c.path@, kind: c.kind, old: c.old, new: c.new, added: c.added, removed: c.removed }
}

pub open spec fn told_by() -> spec_fn(Change) -> Difference {
    |c: Change| told(c)
}

pub open spec fn larger_first() -> spec_fn(Change, Change) -> bool {
    |a: Change, b: Change| told(a).extent() >= told(b).extent()
}

/// `shown` are the first `limit` of all changes, the largest first. Which of
/// two changes of the same extent comes first is left open.
pub open spec fn largest_changes(all: Seq<Difference>, shown: Seq<Change>, limit: usize) -> bool {
    exists|ranked: Seq<Change>|
        {
            &&& #[trigger] ranked.map_values(told_by()).to_multiset() == all.to_multiset()
            &&& vstd::relations::sorted_by(ranked, larger_first())
            &&& shown == ranked.take(listing::cut(ranked.len(), limit))
        }
}

struct Largest;

impl Ranking<Change> for Largest {
    closed spec fn order(&self) -> spec_fn(Change, Change) -> bool {
        larger_first()
    }

    closed spec fn covers(&self, x: Change) -> bool {
        true
    }

    proof fn order_is_total(&self) {
    }

    fn leads(&self, a: &Change, b: &Change) -> bool {
        a.extent() >= b.extent()
    }
}

impl Change {
    /// How much changed, either way.
    fn extent(&self) -> (r: u64)
        ensures
            r == told(*self).extent(),
    {
        if self.new > self.old {
            self.new - self.old
        } else {
            self.old - self.new
        }
    }
}

/// Where each path stands last in `v`.
fn positions(v: &[SnapEntry]) -> (m: StringHashMap<usize>)
    ensures
        forall|p: Seq<char>| #[trigger] m@.contains_key(p) <==> last_at(v@, p) is Some,
        forall|p: Seq<char>| #[trigger] m@.contains_key(p) ==> last_at(v@, p) == Some(m@[p] as int) && m@[p] < v@.len(),
{
    let mut m: StringHashMap<usize> = StringHashMap::new();
    let mut i: usize = 0;
    assert(v@.take(0) =~= Seq::<SnapEntry>::empty());
    while i < v.len()
        invariant
            i <= v@.len(),
            forall|p: Seq<char>| #[trigger] m@.contains_key(p) <==> last_at(v@.take(i as int), p) is Some,
            forall|p: Seq<char>| #[trigger]
                m@.contains_key(p) ==> last_at(v@.take(i as int), p) == Some(m@[p] as int) && m@[p] < i,
        decreases v.len() - i,
    {
        proof {
            assert(v@.take(i + 1).drop_last() =~= v@.take(i as int));
            assert(v@.take(i + 1).last() == v@[i as int]);
        }
        m.insert(v[i].path.clone(), i);
        i = i + 1;
    }
    assert(v@.take(i as int) =~= v@);
    m
}

/// `a - b`, which fits a signed number.
fn signed_difference(a: u64, b: u64) -> (r: i64)
    requires
        i64::MIN <= a - b <= i64::MAX,
    ensures
        r == a - b,
{
    if a >= b {
        (a - b) as i64
    } else {
        let d: u64 = b - a;
        if d == 0x8000_0000_0000_0000 {
            i64::MIN
        } else {
            -(d as i64)
        }
    }
}

/// A change, with the difference of its sizes.
fn change(path: &String, kind: Kind, old: u64, new: u64, added: bool, removed: bool) -> (c: Change)
    requires
        i64::MIN <= new - old <= i64::MAX,
    ensures
        told(c) == (Difference { path: path@, kind, old, new, added, removed }),
        c.delta == new - old,
{
    Change { path: path.clone(), kind, old, new, delta: signed_difference(new, old), added, removed }
}

/// What has been found so far, next to what it adds up to.
spec fn tallied(found: Seq<Change>, so_far: Seq<Difference>, added: u64, removed: u64) -> bool {
    &&& found.map_values(told_by()) == so_far
    &&& forall|k: int| 0 <= k < found.len() ==> (#[trigger] found[k]).delta == told(found[k]).delta()
    &&& added == sums::total(so_far, gain())
    &&& removed == sums::total(so_far, loss())
}

proof fn lemma_part_of_differences(all: Seq<Difference>, k: int)
    requires
        0 <= k <= all.len(),
    ensures
        0 <= sums::total(all.take(k), gain()) <= sums::total(all, gain()),
        0 <= sums::total(all.take(k), loss()) <= sums::total(all, loss()),
{
    sums::lemma_total_part(all, k, gain());
    sums::lemma_total_part(all, k, loss());
}

/// Adding one more difference keeps the tally.
proof fn lemma_tally_step(found: Seq<Change>, so_far: Seq<Difference>, added: u64, removed: u64, c: Change, all: Seq<Difference>)
    requires
        tallied(found, so_far, added, removed),
        c.delta == told(c).delta(),
        so_far.len() < all.len(),
        all.take(so_far.len() as int) == so_far,
        all[so_far.len() as int] == told(c),
        sums::total(all, gain()) <= u64::MAX,
        sums::total(all, loss()) <= u64::MAX,
    ensures
        added + told(c).gain() <= u64::MAX,
        removed + told(c).loss() <= u64::MAX,
        tallied(found.push(c), so_far.push(told(c)), (added + told(c).gain()) as u64, (removed + told(c).loss()) as u64),
{
    let n = so_far.len() as int;
    assert(all.take(n + 1) =~= so_far.push(told(c)));
    lemma_part_of_differences(all, n + 1);
    sums::lemma_total_push(so_far, told(c), gain());
    sums::lemma_total_push(so_far, told(c), loss());
    assert(found.push(c).map_values(told_by()) =~= so_far.push(told(c)));
}

/// The changes of the first new entries begin the list of all changes.
proof fn lemma_new_prefix(old: Seq<SnapEntry>, new: Seq<SnapEntry>, n: nat)
    requires
        n <= new.len(),
    ensures
        ({
            let all = differences(old, new);
            let some = changes_of_new(old, new, n);
            &&& some.len() <= changes_of_new(old, new, new.len()).len()
            &&& all.take(some.len() as int) == some
        }),
    decreases new.len() - n,
{
    let all = differences(old, new);
    let some = changes_of_new(old, new, n);
    if n < new.len() {
        lemma_new_prefix(old, new, n + 1);
        let more = changes_of_new(old, new, n + 1);
        assert(some =~= more.take(some.len() as int));
        assert(all.take(some.len() as int) =~= all.take(more.len() as int).take(some.len() as int));
    } else {
        assert(all.take(some.len() as int) =~= some);
    }
}

/// The changes of all new entries and of the first old ones begin the list of
/// all changes.
proof fn lemma_old_prefix(old: Seq<SnapEntry>, new: Seq<SnapEntry>, n: nat)
    requires
        n <= old.len(),
    ensures
        ({
            let all = differences(old, new);
            let some = changes_of_new(old, new, new.len()) + changes_of_old(old, new, n);
            &&& some.len() <= all.len()
            &&& all.take(some.len() as int) == some
        }),
    decreases old.len() - n,
{
    let all = differences(old, new);
    let first = changes_of_new(old, new, new.len());
    let some = first + changes_of_old(old, new, n);
    if n < old.len() {
        lemma_old_prefix(old, new, n + 1);
        let more = first + changes_of_old(old, new, n + 1);
        assert(some =~= more.take(some.len() as int));
        assert(all.take(some.len() as int) =~= all.take(more.len() as int).take(some.len() as int));
    } else {
        assert(all.take(some.len() as int) =~= some);
    }
}

/// `r` compares two scans: what everything that changed adds up to, and the
/// `limit` largest changes.
pub open spec fn compares(old: Seq<SnapEntry>, new: Seq<SnapEntry>, limit: usize, r: DiffResult) -> bool {
    let all = differences(old, new);
    &&& r.added_bytes == sums::total(all, gain())
    &&& r.removed_bytes == sums::total(all, loss())
    &&& r.net == r.added_bytes - r.removed_bytes
    &&& r.total_changes == all.len()
    &&& all.len() <= usize::MAX
    &&& largest_changes(all, r.changes@, limit)
    &&& forall|k: int| 0 <= k < r.changes@.len() ==> (#[trigger] r.changes@[k]).delta == told(r.changes@[k]).delta()
}

/// Compares the current entries against a saved snapshot, biggest absolute
/// change first.
pub fn diff(old: &[SnapEntry], new: &[SnapEntry], limit: usize) -> (r: DiffResult)
    requires
        measurable(old@, new@),
    ensures
        compares(old@, new@, limit, r),
{
    let ghost all = differences(old@, new@);
    let old_at = positions(old);
    let new_at = positions(new);
    let mut changes: Vec<Change> = Vec::new();
    let mut added_bytes: u64 = 0;
    let mut removed_bytes: u64 = 0;
    assert(changes@.map_values(told_by()) =~= Seq::<Difference>::empty());

    let mut i: usize = 0;
    while i < new.len()
        invariant
            i <= new@.len(),
            all == differences(old@, new@),
            measurable(old@, new@),
            forall|p: Seq<char>| #[trigger] old_at@.contains_key(p) <==> last_at(old@, p) is Some,
            forall|p: Seq<char>| #[trigger]
                old_at@.contains_key(p) ==> last_at(old@, p) == Some(old_at@[p] as int) && old_at@[p] < old@.len(),
            forall|p: Seq<char>| #[trigger] new_at@.contains_key(p) <==> last_at(new@, p) is Some,
            forall|p: Seq<char>| #[trigger]
                new_at@.contains_key(p) ==> last_at(new@, p) == Some(new_at@[p] as int) && new_at@[p] < new@.len(),
            tallied(changes@, changes_of_new(old@, new@, i as nat), added_bytes, removed_bytes),
        decreases new.len() - i,
    {
        let n = &new[i];
        let ghost so_far = changes_of_new(old@, new@, i as nat);
        let ghost next = change_of_new(old@, new@, i as int);
        proof {
            lemma_new_prefix(old@, new@, (i + 1) as nat);
            lemma_new_prefix(old@, new@, i as nat);
            assert(next is Some ==> all[so_far.len() as int] == next->0) by {
                if next is Some {
                    assert(all.take((so_far.len() + 1) as int)[so_far.len() as int] == so_far.push(next->0)[so_far.len() as int]);
                }
            }
        }
        let is_last = match new_at.get(n.path.as_str()) {
            Some(at) => *at == i,
            None => false,
        };
        assert(is_last == (last_at(new@, n.path@) == Some(i as int))) by {
            assert(new_at@.contains_key(n.path@) <==> last_at(new@, n.path@) is Some);
        }
        if is_last {
            match old_at.get(n.path.as_str()) {
                Some(at) => {
                    let o = &old[*at];
                    if o.size != n.size {
                        assert(all[so_far.len() as int].extent() <= i64::MAX);
                        let c = change(&n.path, n.kind, o.size, n.size, false, false);
                        proof {
                            lemma_tally_step(changes@, so_far, added_bytes, removed_bytes, c, all);
                        }
                        if n.size > o.size {
                            added_bytes = added_bytes + (n.size - o.size);
                        } else {
                            removed_bytes = removed_bytes + (o.size - n.size);
                        }
                        changes.push(c);
                    }
                },
                None => {
                    assert(all[so_far.len() as int].extent() <= i64::MAX);
                    let c = change(&n.path, n.kind, 0, n.size, true, false);
                    proof {
                        lemma_tally_step(changes@, so_far, added_bytes, removed_bytes, c, all);
                    }
                    added_bytes = added_bytes + n.size;
                    changes.push(c);
                },
            }
        }
        i = i + 1;
    }

    let ghost first = changes_of_new(old@, new@, new@.len());
    let mut j: usize = 0;
    assert(first + Seq::<Difference>::empty() =~= first);
    while j < old.len()
        invariant
            j <= old@.len(),
            all == differences(old@, new@),
            first == changes_of_new(old@, new@, new@.len()),
            measurable(old@, new@),
            forall|p: Seq<char>| #[trigger] old_at@.contains_key(p) <==> last_at(old@, p) is Some,
            forall|p: Seq<char>| #[trigger]
                old_at@.contains_key(p) ==> last_at(old@, p) == Some(old_at@[p] as int) && old_at@[p] < old@.len(),
            forall|p: Seq<char>| #[trigger] new_at@.contains_key(p) <==> last_at(new@, p) is Some,
            tallied(changes@, first + changes_of_old(old@, new@, j as nat), added_bytes, removed_bytes),
        decreases old.len() - j,
    {
        let o = &old[j];
        let ghost so_far = first + changes_of_old(old@, new@, j as nat);
        let ghost next = change_of_old(old@, new@, j as int);
        proof {
            lemma_old_prefix(old@, new@, (j + 1) as nat);
            lemma_old_prefix(old@, new@, j as nat);
            if next is Some {
                assert(so_far.push(next->0) =~= first + changes_of_old(old@, new@, (j + 1) as nat));
                assert(all.take((so_far.len() + 1) as int)[so_far.len() as int] == so_far.push(next->0)[so_far.len() as int]);
            }
        }
        let is_last = match old_at.get(o.path.as_str()) {
            Some(at) => *at == j,
            None => false,
        };
        assert(is_last == (last_at(old@, o.path@) == Some(j as int))) by {
            assert(old_at@.contains_key(o.path@) <==> last_at(old@, o.path@) is Some);
        }
        if is_last && !new_at.contains_key(o.path.as_str()) {
            assert(all[so_far.len() as int].extent() <= i64::MAX);
            let c = change(&o.path, o.kind, o.size, 0, false, true);
            proof {
                lemma_tally_step(changes@, so_far, added_bytes, removed_bytes, c, all);
            }
            removed_bytes = removed_bytes + o.size;
            changes.push(c);
        }
        j = j + 1;
    }

    let total_changes: u64 = changes.len() as u64;
    let ghost found = changes@;
    let mut changes = order::rank(&Largest, changes);
    let ghost ranked = changes@;
    proof {
        order::lemma_mapped_same_items(found, ranked, told_by());
        order::lemma_same_items(found, ranked);
        assert forall|k: int| 0 <= k < ranked.len() implies (#[trigger] ranked[k]).delta == told(ranked[k]).delta() by {
            assert(found.contains(ranked[k]));
        }
    }
    changes.truncate(limit);
    assert(changes@ =~= ranked.take(listing::cut(ranked.len(), limit)));
    DiffResult {
        added_bytes,
        removed_bytes,
        net: signed_difference(added_bytes, removed_bytes),
        total_changes,
        changes,
    }
}

} // verus!

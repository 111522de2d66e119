//! Whether a tree can take on more entries.

use vstd::prelude::*;

use crate::tree::aggregate;
use crate::tree::model;
use crate::tree::model::Tally;
use crate::tree::Kind;
use crate::tree::NewEntry;
use crate::tree::Tree;

verus! {

/// What the numbers of a list of entries add up to.
struct Sums {
    size: u128,
    alloc: u128,
    files: u128,
    dirs: u128,
}

impl Sums {
    spec fn tally(self) -> Tally {
        Tally { size: self.size as int, alloc: self.alloc as int, files: self.files as int, dirs: self.dirs as int }
    }
}

/// Adds up a list of entries.
fn add_up(entries: &Vec<NewEntry>) -> (s: Sums)
    ensures
        s.tally() == model::weigh(entries@),
{
    let ghost all = entries@;
    let count: usize = entries.len();
    let mut s = Sums { size: 0, alloc: 0, files: 0, dirs: 0 };
    let mut i: usize = 0;
    assert(all.take(0) =~= Seq::<NewEntry>::empty());
    while i < count
        invariant
            i <= count,
            count == all.len(),
            all == entries@,
            s.tally() == model::weigh(all.take(i as int)),
            s.size <= i * 0xffff_ffff_ffff_ffff,
            s.alloc <= i * 0xffff_ffff_ffff_ffff,
            s.files <= i,
            s.dirs <= i,
        decreases count - i,
    {
        let e = &entries[i];
        proof {
            assert(all.take(i + 1).drop_last() =~= all.take(i as int));
            assert(all.take(i + 1).last() == *e);
            assert(i * 0xffff_ffff_ffff_ffff + 0xffff_ffff_ffff_ffff == (i + 1) * 0xffff_ffff_ffff_ffff);
            assert((i + 1) * 0xffff_ffff_ffff_ffff <= 0xffff_ffff_ffff_ffff * 0xffff_ffff_ffff_ffff);
        }
        s.size = s.size + e.size as u128;
        s.alloc = s.alloc + e.alloc as u128;
        if e.kind == Kind::Dir {
            s.dirs = s.dirs + 1;
        } else {
            s.files = s.files + 1;
        }
        i = i + 1;
    }
    assert(all.take(i as int) =~= all);
    s
}

impl Tree {
    /// Whether `parent` and everything above it have room for `entries`. In a
    /// coherent tree the root decides.
    pub fn room_for(&self, parent: u32, entries: &Vec<NewEntry>) -> (r: bool)
        requires
            self.wf(),
            self.coherent(),
            self.reaches(parent),
        ensures
            r == self.has_room(parent, entries@),
    {
        let s = add_up(entries);
        let root = &self.nodes[0];
        let ghost w = model::weigh(entries@);
        let count: u128 = self.nodes.len() as u128 + entries.len() as u128;
        let r = count <= 0xffff_ffff && s.size <= (u64::MAX - root.total_size) as u128 && s.alloc <= (u64::MAX
            - root.total_alloc) as u128 && s.files <= (u32::MAX - root.files) as u128 && s.dirs <= (u32::MAX - root.dirs) as u128
            && self.version < u64::MAX;
        proof {
            model::lemma_root_above(self.nodes@, parent as int);
            if model::tally(self.nodes@[0]).plus(w).fits() {
                aggregate::law_room_at_the_root(self.nodes@, parent as int, w);
            }
            assert(aggregate::counted(self.nodes@[0], self.stats));
        }
        r
    }
}

} // verus!

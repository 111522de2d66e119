//! Which files may be duplicates, in terms of what the tree knows of them.

use vstd::prelude::*;

use crate::tree::candidates;
use crate::tree::candidates::Candidate;
use crate::tree::model;
use crate::tree::paths;
use crate::tree::visit;
use crate::tree::Kind;
use crate::tree::Tree;

verus! {

/// Every candidate is a regular file below the scope that could be read, whose
/// bytes are on this disk, with at least `min` of them, and it is told with its
/// own size and its path from the scan root.
pub proof fn law_candidates_are_local_files(t: Tree, scope: u32, min: u64, v: Seq<Candidate>, k: int)
    requires
        t.wf(),
        t.holds(scope),
        candidates::all_named(t.nodes@),
        candidates::told(v) == candidates::gather_all(
            t.nodes@,
            scope as int,
            t.nodes@[scope as int].children@,
            min,
            paths::path(t.nodes@, scope as int),
        ),
        0 <= k < v.len(),
    ensures
        ({
            let n = t.nodes@[v[k].id as int];
            &&& t.holds(v[k].id) && scope < v[k].id
            &&& model::above(t.nodes@, scope as int, v[k].id as int)
            &&& n.kind == Kind::File && !n.cloud && !n.err
            &&& n.self_size >= min
            &&& v[k].size == n.self_size
            &&& v[k].path@ == paths::path(t.nodes@, v[k].id as int)
        }),
{
    candidates::law_candidates_are_sound(t.nodes@, scope as int, min);
    let found = candidates::told(v);
    assert(found[k] == (v[k].id, v[k].size, v[k].path@));
}

/// Every regular file below the scope that could be read, whose bytes are on
/// this disk and are at least `min`, is a candidate, and only once.
pub proof fn law_no_local_file_is_missed(t: Tree, scope: u32, min: u64, v: Seq<Candidate>, x: u32)
    requires
        t.wf(),
        t.holds(scope),
        candidates::told(v) == candidates::gather_all(
            t.nodes@,
            scope as int,
            t.nodes@[scope as int].children@,
            min,
            paths::path(t.nodes@, scope as int),
        ),
        visit::visits_of(t.nodes@, scope as int, t.nodes@[scope as int].children@).contains(x),
        t.nodes@[x as int].kind == Kind::File,
        !t.nodes@[x as int].cloud,
        !t.nodes@[x as int].err,
        t.nodes@[x as int].self_size >= min,
    ensures
        exists|k: int| 0 <= k < v.len() && (#[trigger] v[k]).id == x,
        forall|i: int, j: int| 0 <= i < j < v.len() ==> (#[trigger] v[i]).id != (#[trigger] v[j]).id,
{
    let prefix = paths::path(t.nodes@, scope as int);
    let all = visit::visits_of(t.nodes@, scope as int, t.nodes@[scope as int].children@);
    let found = candidates::told(v);
    candidates::law_candidates_are_complete(t.nodes@, scope as int, min, prefix, all.index_of(x));
    candidates::law_candidates_are_distinct(t.nodes@, scope as int, min, prefix);
    let k = choose|k: int| 0 <= k < found.len() && (#[trigger] found[k]).0 == x as int;
    assert(found[k] == (v[k].id, v[k].size, v[k].path@));
    assert forall|i: int, j: int| 0 <= i < j < v.len() implies (#[trigger] v[i]).id != (#[trigger] v[j]).id by {
        assert(found[i].0 == v[i].id && found[j].0 == v[j].id);
    }
}

} // verus!

//! Which requests are refused, and with what.

use vstd::prelude::*;

use crate::snapshots;
use crate::text;
use crate::tree::Tree;
use crate::tree::ROOT;

verus! {

/// Why a request is refused.
#[derive(Clone, Copy, PartialEq, Eq, Debug, Structural)]
pub enum Refusal {
    CrossSite,
    MovesRoot,
    ScanRunning,
    NoSuchNode,
    InvalidName,
    NoSuchSnapshot,
}

impl Refusal {
    /// The HTTP status code.
    pub fn code(self) -> (r: u16)
        ensures
            r == status(self),
            r == (match self {
                Refusal::CrossSite => 403,
                Refusal::MovesRoot => 400,
                Refusal::ScanRunning => 409,
                Refusal::NoSuchNode => 404,
                Refusal::InvalidName => 400,
                Refusal::NoSuchSnapshot => 404int,
            }),
    {
        match self {
            Refusal::CrossSite => 403,
            Refusal::MovesRoot => 400,
            Refusal::ScanRunning => 409,
            Refusal::NoSuchNode => 404,
            Refusal::InvalidName => 400,
            Refusal::NoSuchSnapshot => 404,
        }
    }

    pub fn message(self) -> (r: &'static str)
        ensures
            r@ == (match self {
                Refusal::CrossSite => "cross-site request rejected"@,
                Refusal::MovesRoot => "cannot move the scan root"@,
                Refusal::ScanRunning => "a scan is still running"@,
                Refusal::NoSuchNode => "no such node"@,
                Refusal::InvalidName => "invalid snapshot name"@,
                Refusal::NoSuchSnapshot => "no such snapshot"@,
            }),
    {
        match self {
            Refusal::CrossSite => "cross-site request rejected",
            Refusal::MovesRoot => "cannot move the scan root",
            Refusal::ScanRunning => "a scan is still running",
            Refusal::NoSuchNode => "no such node",
            Refusal::InvalidName => "invalid snapshot name",
            Refusal::NoSuchSnapshot => "no such snapshot",
        }
    }
}

/// What follows the first `://`.
pub open spec fn after_scheme(s: Seq<char>) -> Option<Seq<char>>
    decreases s.len(),
{
    if s.len() < 3 {
        None
    } else if s[0] == ':' && s[1] == '/' && s[2] == '/' {
        Some(s.skip(3))
    } else {
        after_scheme(s.drop_first())
    }
}

/// A request comes from a page of another site: it names an origin, and that is
/// not the host it is sent to. `Origin: null` and other opaque values are not
/// trustworthy.
pub open spec fn foreign(origin: Option<Seq<char>>, host: Option<Seq<char>>) -> bool {
    match origin {
        None => false,
        Some(o) => match host {
            None => true,
            Some(h) => match after_scheme(o) {
                Some(rest) => rest != h,
                None => true,
            },
        },
    }
}

pub open spec fn shown(s: Option<&str>) -> Option<Seq<char>> {
    match s {
        Some(t) => Some(t@),
        None => None,
    }
}

/// Rejects cross-site requests so an arbitrary web page cannot drive file
/// actions on a localhost server. Browsers send `Origin` on POST requests;
/// command-line clients such as curl do not, and are allowed through.
pub fn cross_site(origin: Option<&str>, host: Option<&str>) -> (r: bool)
    ensures
        r == foreign(shown(origin), shown(host)),
{
    let o = match origin {
        Some(o) => o,
        None => {
            return false;
        },
    };
    let h = match host {
        Some(h) => h,
        None => {
            return true;
        },
    };
    let cs = text::chars_of(o);
    let n: usize = cs.len();
    let mut i: usize = 0;
    assert(cs@.skip(0) =~= cs@);
    while i < n && n - i >= 3
        invariant
            i <= n,
            n == cs@.len(),
            cs@ == o@,
            origin == Some(o),
            host == Some(h),
            after_scheme(cs@) == after_scheme(cs@.skip(i as int)),
        decreases n - i,
    {
        proof {
            let s = cs@.skip(i as int);
            assert(s[0] == cs@[i as int] && s[1] == cs@[i + 1] && s[2] == cs@[i + 2]);
            assert(s.drop_first() =~= cs@.skip(i + 1));
            assert(s.skip(3) =~= cs@.skip(i + 3));
        }
        if cs[i] == ':' && cs[i + 1] == '/' && cs[i + 2] == '/' {
            let rest = text::string_of(&cs, i + 3, n);
            assert(cs@.subrange(i + 3, n as int) =~= cs@.skip(i + 3));
            return !text::same_text(rest.as_str(), h);
        }
        i = i + 1;
    }
    true
}

/// What a request is answered before anything is looked at.
pub open spec fn passed(safe: bool, foreign_site: bool) -> Result<(), Refusal> {
    if !safe && foreign_site {
        Err(Refusal::CrossSite)
    } else {
        Ok(())
    }
}

/// Whether a request passes: reading is always allowed, everything else only
/// from this site.
pub fn protect(safe: bool, origin: Option<&str>, host: Option<&str>) -> (r: Result<(), Refusal>)
    ensures
        r == passed(safe, foreign(shown(origin), shown(host))),
        r == (if !safe && foreign(shown(origin), shown(host)) {
            Err::<(), Refusal>(Refusal::CrossSite)
        } else {
            Ok(())
        }),
{
    if !safe && cross_site(origin, host) {
        Err(Refusal::CrossSite)
    } else {
        Ok(())
    }
}

/// A request of another site is refused, and one without an origin, or from
/// this very host, is not.
pub proof fn law_only_this_site_may_change_things(scheme: Seq<char>, host: Seq<char>, other: Seq<char>)
    requires
        forall|i: int| 0 <= i < scheme.len() ==> #[trigger] scheme[i] != ':',
    ensures
        !foreign(None, Some(host)),
        !foreign(Some(scheme + seq![':', '/', '/'] + host), Some(host)),
        foreign(Some(scheme + seq![':', '/', '/'] + host), None),
        other != host ==> foreign(Some(scheme + seq![':', '/', '/'] + other), Some(host)),
{
    lemma_scheme(scheme, host);
    lemma_scheme(scheme, other);
}

proof fn lemma_scheme(scheme: Seq<char>, rest: Seq<char>)
    requires
        forall|i: int| 0 <= i < scheme.len() ==> #[trigger] scheme[i] != ':',
    ensures
        after_scheme(scheme + seq![':', '/', '/'] + rest) == Some(rest),
    decreases scheme.len(),
{
    let s = scheme + seq![':', '/', '/'] + rest;
    if scheme.len() == 0 {
        assert(s.skip(3) =~= rest);
    } else {
        assert(s[0] == scheme[0]);
        let less = scheme.drop_first();
        assert forall|i: int| 0 <= i < less.len() implies #[trigger] less[i] != ':' by {
            assert(less[i] == scheme[i + 1]);
        }
        assert(s.drop_first() =~= less + seq![':', '/', '/'] + rest);
        lemma_scheme(less, rest);
    }
}

/// What a request to reveal a node is answered.
pub open spec fn reveal_answer(foreign_site: bool, there: bool) -> Result<(), Refusal> {
    if foreign_site {
        Err(Refusal::CrossSite)
    } else if !there {
        Err(Refusal::NoSuchNode)
    } else {
        Ok(())
    }
}

/// What a request to move a node to the trash is answered.
pub open spec fn trash_answer(foreign_site: bool, is_root: bool, done: bool, there: bool) -> Result<(), Refusal> {
    if foreign_site {
        Err(Refusal::CrossSite)
    } else if is_root {
        Err(Refusal::MovesRoot)
    } else if !done {
        Err(Refusal::ScanRunning)
    } else if !there {
        Err(Refusal::NoSuchNode)
    } else {
        Ok(())
    }
}

/// What a request to save a snapshot is answered.
pub open spec fn save_answer(foreign_site: bool, done: bool, valid: bool) -> Result<(), Refusal> {
    if foreign_site {
        Err(Refusal::CrossSite)
    } else if !done {
        Err(Refusal::ScanRunning)
    } else if !valid {
        Err(Refusal::InvalidName)
    } else {
        Ok(())
    }
}

/// What a request to look for duplicates is answered.
pub open spec fn duplicates_answer(done: bool, there: bool) -> Result<(), Refusal> {
    if !done {
        Err(Refusal::ScanRunning)
    } else if !there {
        Err(Refusal::NoSuchNode)
    } else {
        Ok(())
    }
}

/// The HTTP status code of a refusal.
pub open spec fn status(r: Refusal) -> u16 {
    match r {
        Refusal::CrossSite => 403,
        Refusal::MovesRoot => 400,
        Refusal::ScanRunning => 409,
        Refusal::NoSuchNode => 404,
        Refusal::InvalidName => 400,
        Refusal::NoSuchSnapshot => 404,
    }
}

/// Another site is refused whatever it asks to change, and it is told nothing
/// but that.
pub proof fn law_other_sites_are_refused_everything(is_root: bool, done: bool, there: bool, valid: bool)
    ensures
        reveal_answer(true, there) == Err::<(), Refusal>(Refusal::CrossSite),
        trash_answer(true, is_root, done, there) == Err::<(), Refusal>(Refusal::CrossSite),
        save_answer(true, done, valid) == Err::<(), Refusal>(Refusal::CrossSite),
{
}

/// The scan root is never moved, nothing is moved or saved while a scan runs, and
/// nothing is done with what is not there; everything else is granted.
pub proof fn law_requests_are_granted_unless_something_is_wrong(is_root: bool, done: bool, there: bool, valid: bool)
    ensures
        reveal_answer(false, there) is Ok <==> there,
        trash_answer(false, is_root, done, there) is Ok <==> !is_root && done && there,
        save_answer(false, done, valid) is Ok <==> done && valid,
        duplicates_answer(done, there) is Ok <==> done && there,
        is_root ==> trash_answer(false, is_root, done, there) == Err::<(), Refusal>(Refusal::MovesRoot),
        !is_root && !done ==> trash_answer(false, is_root, done, there) == Err::<(), Refusal>(Refusal::ScanRunning),
        !is_root && done && !there ==> trash_answer(false, is_root, done, there) == Err::<(), Refusal>(Refusal::NoSuchNode),
        !done ==> save_answer(false, done, valid) == Err::<(), Refusal>(Refusal::ScanRunning),
        done && !valid ==> save_answer(false, done, valid) == Err::<(), Refusal>(Refusal::InvalidName),
        !done ==> duplicates_answer(done, there) == Err::<(), Refusal>(Refusal::ScanRunning),
        done && !there ==> duplicates_answer(done, there) == Err::<(), Refusal>(Refusal::NoSuchNode),
        !there ==> reveal_answer(false, there) == Err::<(), Refusal>(Refusal::NoSuchNode),
{
}

/// A refusal says with its code whose fault it is: what is forbidden is 403, what
/// is not there 404, what comes too early 409, and what makes no sense 400.
pub proof fn law_refusals_have_their_codes(r: Refusal)
    ensures
        status(r) == 403 <==> r == Refusal::CrossSite,
        status(r) == 409 <==> r == Refusal::ScanRunning,
        status(r) == 404 <==> r == Refusal::NoSuchNode || r == Refusal::NoSuchSnapshot,
        status(r) == 400 <==> r == Refusal::MovesRoot || r == Refusal::InvalidName,
{
}

/// Whether a node may be revealed.
pub fn may_reveal(tree: &Tree, foreign_site: bool, id: u32) -> (r: Result<(), Refusal>)
    requires
        tree.wf(),
    ensures
        r == reveal_answer(foreign_site, tree.reaches(id)),
        r == (if foreign_site {
            Err::<(), Refusal>(Refusal::CrossSite)
        } else if !tree.reaches(id) {
            Err(Refusal::NoSuchNode)
        } else {
            Ok(())
        }),
{
    if foreign_site {
        return Err(Refusal::CrossSite);
    }
    if tree.get(id).is_none() {
        return Err(Refusal::NoSuchNode);
    }
    Ok(())
}

/// Whether a node may be moved to the trash.
pub fn may_trash(tree: &Tree, foreign_site: bool, done: bool, id: u32) -> (r: Result<(), Refusal>)
    requires
        tree.wf(),
    ensures
        r == trash_answer(foreign_site, id == ROOT, done, tree.reaches(id)),
        r == (if foreign_site {
            Err::<(), Refusal>(Refusal::CrossSite)
        } else if id == ROOT {
            Err(Refusal::MovesRoot)
        } else if !done {
            Err(Refusal::ScanRunning)
        } else if !tree.reaches(id) {
            Err(Refusal::NoSuchNode)
        } else {
            Ok(())
        }),
{
    if foreign_site {
        return Err(Refusal::CrossSite);
    }
    if id == ROOT {
        return Err(Refusal::MovesRoot);
    }
    if !done {
        return Err(Refusal::ScanRunning);
    }
    if tree.get(id).is_none() {
        return Err(Refusal::NoSuchNode);
    }
    Ok(())
}

/// Whether a snapshot may be saved under a name.
pub fn may_save(foreign_site: bool, done: bool, name: &str) -> (r: Result<(), Refusal>)
    ensures
        r == save_answer(foreign_site, done, snapshots::is_valid_name(name@)),
        r == (if foreign_site {
            Err::<(), Refusal>(Refusal::CrossSite)
        } else if !done {
            Err(Refusal::ScanRunning)
        } else if !snapshots::is_valid_name(name@) {
            Err(Refusal::InvalidName)
        } else {
            Ok(())
        }),
{
    if foreign_site {
        return Err(Refusal::CrossSite);
    }
    if !done {
        return Err(Refusal::ScanRunning);
    }
    if !snapshots::valid_name(name) {
        return Err(Refusal::InvalidName);
    }
    Ok(())
}

/// Whether duplicates may be looked for below a node: only once the scan is
/// over.
pub fn may_find_duplicates(tree: &Tree, done: bool, id: u32) -> (r: Result<(), Refusal>)
    requires
        tree.wf(),
    ensures
        r == duplicates_answer(done, tree.reaches(id)),
        r == (if !done {
            Err::<(), Refusal>(Refusal::ScanRunning)
        } else if !tree.reaches(id) {
            Err(Refusal::NoSuchNode)
        } else {
            Ok(())
        }),
{
    if !done {
        return Err(Refusal::ScanRunning);
    }
    if tree.get(id).is_none() {
        return Err(Refusal::NoSuchNode);
    }
    Ok(())
}

/// The name of a snapshot that was given none.
pub fn default_name(now: u64) -> (r: String)
    ensures
        r@ == "snapshot-"@ + text::decimal(now as nat),
{
    let mut out = "snapshot-".to_owned();
    text::push_decimal(&mut out, now);
    out
}

/// A snapshot that was given no name gets a valid one, whatever the clock says.
pub proof fn law_default_names_are_valid(now: u64)
    ensures
        snapshots::is_valid_name("snapshot-"@ + text::decimal(now as nat)),
{
    let front = "snapshot-"@;
    let digits = text::decimal(now as nat);
    let s = front + digits;
    reveal_strlit("snapshot-");
    text::law_decimal_reads_back(now as nat);
    assert(text::ten_to(20) > u64::MAX) by {
        reveal_with_fuel(text::ten_to, 21);
    }
    text::lemma_decimal_len(now as nat, 20);
    assert forall|i: int| 0 <= i < s.len() implies snapshots::name_char(#[trigger] s[i]) by {
        if i >= front.len() {
            assert(s[i] == digits[i - front.len()]);
            assert(text::is_digit(digits[i - front.len()]));
        }
    }
}

} // verus!

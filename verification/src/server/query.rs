//! What a request asks for.

use vstd::prelude::*;

use crate::text;
use crate::tree::listing::SortKey;
use crate::tree::model;
use crate::tree::search::SearchFilter;
use crate::tree::search::Wanted;

verus! {

/// How many entries a listing shows.
pub open spec fn entry_limit(asked: Option<usize>) -> usize {
    bounded(asked, DEFAULT_LIMIT, 1, MAX_LIMIT)
}

/// How many rectangles a treemap shows side by side.
pub open spec fn rectangle_limit(asked: Option<usize>) -> usize {
    bounded(asked, 60, 1, 500)
}

/// How many of the largest files are shown.
pub open spec fn file_limit(asked: Option<usize>) -> usize {
    bounded(asked, 100, 1, 1000)
}

/// How many hits a search shows.
pub open spec fn hit_limit(asked: Option<usize>) -> usize {
    bounded(asked, 500, 1, MAX_LIMIT)
}

/// How many groups of duplicates are shown.
pub open spec fn group_limit(asked: Option<usize>) -> usize {
    bounded(asked, 200, 1, 5000)
}

/// What a listing is sorted by.
pub open spec fn key_of(sort: Sort) -> SortKey {
    match sort {
        Sort::Size => SortKey::Size,
        Sort::Name => SortKey::Name,
        Sort::Mtime => SortKey::Mtime,
        Sort::Count => SortKey::Count,
    }
}

/// How long an asset may be cached.
pub open spec fn cached(path: Seq<char>) -> Seq<char> {
    if text::begins_with(path, "assets/"@) {
        "public, max-age=31536000, immutable"@
    } else {
        "no-cache"@
    }
}

pub const DEFAULT_LIMIT: usize = 400;

pub const MAX_LIMIT: usize = 5000;

#[derive(Clone, Copy, PartialEq, Eq, Debug, Structural)]
pub enum Sort {
    Size,
    Name,
    Mtime,
    Count,
}

impl Sort {
    pub fn key(self) -> (r: SortKey)
        ensures
            r == key_of(self),
            r == (match self {
                Sort::Size => SortKey::Size,
                Sort::Name => SortKey::Name,
                Sort::Mtime => SortKey::Mtime,
                Sort::Count => SortKey::Count,
            }),
    {
        match self {
            Sort::Size => SortKey::Size,
            Sort::Name => SortKey::Name,
            Sort::Mtime => SortKey::Mtime,
            Sort::Count => SortKey::Count,
        }
    }
}

#[derive(Clone, Copy, PartialEq, Eq, Debug, Structural)]
pub enum Metric {
    Size,
    Alloc,
}

impl Metric {
    pub fn by_alloc(self) -> (r: bool)
        ensures
            r == (self == Metric::Alloc),
    {
        self == Metric::Alloc
    }
}

/// What was asked for, or `default`, brought between `least` and `most`.
pub open spec fn bounded(asked: Option<usize>, default: usize, least: usize, most: usize) -> usize {
    let n = match asked {
        Some(n) => n,
        None => default,
    };
    if n < least {
        least
    } else if n > most {
        most
    } else {
        n
    }
}

pub fn bound(asked: Option<usize>, default: usize, least: usize, most: usize) -> (r: usize)
    ensures
        r == bounded(asked, default, least, most),
{
    let n: usize = match asked {
        Some(n) => n,
        None => default,
    };
    if n < least {
        least
    } else if n > most {
        most
    } else {
        n
    }
}

pub fn clamp_limit(limit: Option<usize>) -> (r: usize)
    ensures
        r == entry_limit(limit),
        r == bounded(limit, DEFAULT_LIMIT, 1, MAX_LIMIT),
        1 <= r <= MAX_LIMIT,
{
    bound(limit, DEFAULT_LIMIT, 1, MAX_LIMIT)
}

/// How many levels a treemap shows.
pub fn clamp_depth(depth: Option<u16>) -> (r: u16)
    ensures
        r == (match depth {
            Some(d) => if d < 1 {
                1
            } else if d > 8 {
                8
            } else {
                d as int
            },
            None => 3,
        }),
{
    match depth {
        Some(d) => if d < 1 {
            1
        } else if d > 8 {
            8
        } else {
            d
        },
        None => 3,
    }
}

pub struct SearchParams {
    pub depth: Option<u16>,
    pub q: Option<String>,
    /// Comma-separated extensions, with or without a leading dot.
    pub ext: Option<String>,
    pub min: Option<u64>,
    pub max: Option<u64>,
    /// Match entries at least this many days old.
    pub age: Option<u64>,
    pub metric: Metric,
    pub limit: Option<usize>,
}

/// A filter with everything it refers to.
pub struct Prepared {
    pub query: String,
    pub exts: Vec<String>,
    pub min: u64,
    pub max: u64,
    pub max_mtime: Option<i64>,
}

/// The text of an optional parameter; one that is missing is empty.
pub open spec fn text_of(s: Option<String>) -> Seq<char> {
    match s {
        Some(t) => t@,
        None => Seq::empty(),
    }
}

/// One extension of the list: without white space around it, without leading
/// dots, in lower case.
pub open spec fn one_ext() -> spec_fn(Seq<char>) -> Seq<char> {
    |e: Seq<char>| text::lower_all(text::strip_front(text::trim(e), '.'))
}

pub open spec fn not_empty() -> spec_fn(Seq<char>) -> bool {
    |e: Seq<char>| e.len() > 0
}

/// The extensions that a list names.
pub open spec fn ext_list(s: Seq<char>) -> Seq<Seq<char>> {
    text::pieces(s, ',').map_values(one_ext()).filter(not_empty())
}

pub open spec fn at_most(n: int, most: int) -> int {
    if n < most {
        n
    } else {
        most
    }
}

/// The latest modification time of entries that are `days` old at `now`.
pub open spec fn cutoff(now: u64, days: u64) -> int {
    at_most(now as int, i64::MAX as int) - at_most(at_most(days * 86_400, u64::MAX as int), i64::MAX as int)
}

/// What the parameters ask for at the time `now`.
pub open spec fn wanted_by(p: SearchParams, now: u64) -> Wanted {
    Wanted {
        query: text::lower_all(text::trim(text_of(p.q))),
        exts: ext_list(text_of(p.ext)),
        min: match p.min {
            Some(n) => n,
            None => 0,
        },
        max: match p.max {
            Some(n) => n,
            None => u64::MAX,
        },
        max_mtime: match p.age {
            Some(days) => Some(cutoff(now, days) as i64),
            None => None,
        },
    }
}

impl Prepared {
    pub open spec fn wanted(self) -> Wanted {
        Wanted {
            query: self.query@,
            exts: model::names_of(self.exts@),
            min: self.min,
            max: self.max,
            max_mtime: self.max_mtime,
        }
    }

    pub fn filter(&self) -> (f: SearchFilter<'_>)
        ensures
            f.wanted() == self.wanted(),
    {
        SearchFilter {
            query: self.query.as_str(),
            exts: self.exts.as_slice(),
            min: self.min,
            max: self.max,
            max_mtime: self.max_mtime,
        }
    }
}

fn chars_or_none(s: &Option<String>) -> (r: Vec<char>)
    ensures
        r@ == text_of(*s),
{
    match s {
        Some(t) => text::chars_of(t.as_str()),
        None => {
            let r: Vec<char> = Vec::new();
            assert(r@ =~= Seq::<char>::empty());
            r
        },
    }
}

/// Reads a list of extensions.
fn read_exts(cs: &Vec<char>) -> (out: Vec<String>)
    ensures
        model::names_of(out@) == ext_list(cs@),
{
    let parts = text::split(cs, ',');
    let ghost all = text::pieces(cs@, ',').map_values(one_ext());
    let mut out: Vec<String> = Vec::new();
    let mut i: usize = 0;
    proof {
        reveal(Seq::filter);
        assert(model::names_of(out@) =~= all.take(0).filter(not_empty()));
    }
    while i < parts.len()
        invariant
            i <= parts@.len(),
            text::texts(parts@) == text::pieces(cs@, ','),
            all == text::pieces(cs@, ',').map_values(one_ext()),
            model::names_of(out@) == all.take(i as int).filter(not_empty()),
        decreases parts.len() - i,
    {
        let e = text::trimmed(&parts[i]);
        let e = text::stripped_front(&e, '.');
        let ghost o0 = out@;
        let x = text::lowered_range(&e, 0, e.len());
        let ghost xv = x@;
        proof {
            reveal(Seq::filter);
            assert(e@.subrange(0, e@.len() as int) =~= e@);
            assert(text::texts(parts@)[i as int] == parts@[i as int]@);
            assert(all[i as int] == xv);
            assert(all.take(i + 1).drop_last() =~= all.take(i as int));
        }
        if e.len() > 0 {
            out.push(x);
            assert(model::names_of(out@) =~= model::names_of(o0).push(xv));
        }
        i = i + 1;
    }
    assert(all.take(i as int) =~= all);
    out
}

impl SearchParams {
    pub fn has_filter(&self) -> (r: bool)
        ensures
            r == (self.q is Some || self.ext is Some || self.min is Some || self.max is Some || self.age is Some),
    {
        self.q.is_some() || self.ext.is_some() || self.min.is_some() || self.max.is_some() || self.age.is_some()
    }

    /// The filter that the parameters ask for at the time `now`, in unix
    /// seconds.
    pub fn with_filter(&self, now: u64) -> (p: Prepared)
        ensures
            p.wanted() == wanted_by(*self, now),
            self.age is Some ==> i64::MIN <= cutoff(now, self.age->0) <= i64::MAX,
    {
        let q = chars_or_none(&self.q);
        let q = text::trimmed(&q);
        let query = text::lowered_range(&q, 0, q.len());
        assert(q@.subrange(0, q@.len() as int) =~= q@);
        let list = chars_or_none(&self.ext);
        let exts = read_exts(&list);
        let now: i64 = if now < 0x7fff_ffff_ffff_ffff {
            now as i64
        } else {
            i64::MAX
        };
        let max_mtime: Option<i64> = match self.age {
            Some(days) => {
                let seconds: u64 = match days.checked_mul(86_400) {
                    Some(s) => s,
                    None => u64::MAX,
                };
                let back: i64 = if seconds < 0x7fff_ffff_ffff_ffff {
                    seconds as i64
                } else {
                    i64::MAX
                };
                Some(now - back)
            },
            None => None,
        };
        Prepared {
            query,
            exts,
            min: match self.min {
                Some(n) => n,
                None => 0,
            },
            max: match self.max {
                Some(n) => n,
                None => u64::MAX,
            },
            max_mtime,
        }
    }
}

/// The path of an asset: what was asked for, without slashes in front; the
/// entry point if nothing was.
pub open spec fn asset_text(uri: Seq<char>) -> Seq<char> {
    let p = text::strip_front(uri, '/');
    if p.len() == 0 {
        "index.html"@
    } else {
        p
    }
}

pub fn asset_path(uri: &str) -> (r: String)
    ensures
        r@ == asset_text(uri@),
{
    let cs = text::chars_of(uri);
    let p = text::stripped_front(&cs, '/');
    if p.len() == 0 {
        "index.html".to_owned()
    } else {
        assert(p@.subrange(0, p@.len() as int) =~= p@);
        text::string_of(&p, 0, p.len())
    }
}

/// How long an asset may be cached. Hashed asset filenames are safe to cache;
/// the entry point must not be.
pub fn cache_policy(path: &str) -> (r: &'static str)
    ensures
        r@ == cached(path@),
        r@ == (if text::begins_with(path@, "assets/"@) {
            "public, max-age=31536000, immutable"@
        } else {
            "no-cache"@
        }),
{
    let p = text::chars_of(path);
    let front = text::chars_of("assets/");
    if text::starts_with(&p, &front) {
        "public, max-age=31536000, immutable"
    } else {
        "no-cache"
    }
}

} // verus!

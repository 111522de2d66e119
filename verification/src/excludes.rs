//! Patterns of entries that a scan leaves out.

use vstd::prelude::*;

use crate::text;
use crate::tree::model;

verus! {

/// A parsed pattern of `globset`.
#[verifier::external_type_specification]
#[verifier::external_body]
pub struct ExGlob(globset::Glob);

/// The builder of a pattern set of `globset`.
#[verifier::external_type_specification]
#[verifier::external_body]
pub struct ExGlobSetBuilder(globset::GlobSetBuilder);

/// A pattern set of `globset`.
#[verifier::external_type_specification]
#[verifier::external_body]
pub struct ExGlobSet(globset::GlobSet);

/// The text that a pattern was parsed from.
pub uninterp spec fn glob_source(g: globset::Glob) -> Seq<char>;

/// The patterns added to a builder, in order.
pub uninterp spec fn builder_patterns(b: globset::GlobSetBuilder) -> Seq<Seq<char>>;

/// The patterns of a set, in order.
pub uninterp spec fn set_patterns(s: globset::GlobSet) -> Seq<Seq<char>>;

/// Why `globset` does not accept a pattern, if it does not.
pub uninterp spec fn glob_error(pattern: Seq<char>) -> Option<Seq<char>>;

/// Why `globset` cannot build a set of these patterns, if it cannot.
pub uninterp spec fn set_error(patterns: Seq<Seq<char>>) -> Option<Seq<char>>;

/// Whether the bytes of a path match a pattern, on the platform that the library
/// is built for.
pub uninterp spec fn glob_matches(pattern: Seq<char>, path: Seq<u8>) -> bool;

/// `globset::Glob::new` parses a pattern, and says what is wrong with it if it
/// cannot.
#[verifier::external_body]
fn parse_glob(pattern: &str) -> (r: Result<globset::Glob, String>)
    ensures
        match r {
            Ok(g) => glob_error(pattern@) is None && glob_source(g) == pattern@,
            Err(m) => glob_error(pattern@) == Some(m@),
        },
{
    globset::Glob::new(pattern).map_err(|e| e.to_string())
}

/// `globset::GlobSetBuilder::new` gives a builder without patterns.
#[verifier::external_body]
fn new_builder() -> (b: globset::GlobSetBuilder)
    ensures
        builder_patterns(b) == Seq::<Seq<char>>::empty(),
{
    globset::GlobSetBuilder::new()
}

/// `globset::GlobSetBuilder::add` puts a pattern behind those added before.
#[verifier::external_body]
fn add_glob(b: &mut globset::GlobSetBuilder, g: globset::Glob)
    ensures
        builder_patterns(*final(b)) == builder_patterns(*old(b)).push(glob_source(g)),
{
    b.add(g);
}

/// `globset::GlobSetBuilder::build` gives a set of the patterns added, or says
/// why it cannot.
#[verifier::external_body]
fn build_set(b: &globset::GlobSetBuilder) -> (r: Result<globset::GlobSet, String>)
    ensures
        match r {
            Ok(s) => set_error(builder_patterns(*b)) is None && set_patterns(s) == builder_patterns(*b),
            Err(m) => set_error(builder_patterns(*b)) == Some(m@),
        },
{
    b.build().map_err(|e| e.to_string())
}

/// `globset::GlobSet::is_match_candidate` says whether any pattern of the set
/// matches the bytes of a path.
#[verifier::external_body]
fn matches_any(set: &globset::GlobSet, path: &[u8]) -> (r: bool)
    ensures
        r == (exists|k: int| 0 <= k < set_patterns(*set).len() && glob_matches(#[trigger] set_patterns(*set)[k], path@)),
{
    set.is_match_candidate(&globset::Candidate::from_bytes(path))
}

/// One of the patterns matches the path.
pub open spec fn any_matches(patterns: Seq<Seq<char>>, path: Seq<u8>) -> bool {
    exists|k: int| 0 <= k < patterns.len() && glob_matches(#[trigger] patterns[k], path)
}

/// The name or the path of an entry matches one of the patterns. Names are
/// text, paths are whatever bytes the platform holds.
pub open spec fn left_out(patterns: Seq<Seq<char>>, name: Seq<char>, path: Seq<u8>) -> bool {
    any_matches(patterns, vstd::utf8::encode_utf8(name)) || any_matches(patterns, path)
}

/// What a scan leaves out.
pub struct Excludes {
    set: Option<globset::GlobSet>,
}

impl Excludes {
    /// The patterns, in order.
    pub closed spec fn patterns(self) -> Seq<Seq<char>> {
        match self.set {
            Some(s) => set_patterns(s),
            None => Seq::empty(),
        }
    }

    /// Nothing is left out.
    pub fn none() -> (e: Self)
        ensures
            e.patterns() == Seq::<Seq<char>>::empty(),
    {
        Excludes { set: None }
    }

    /// Whether an entry is left out: its name or its path matches a pattern.
    pub fn excluded(&self, name: &str, path: &[u8]) -> (r: bool)
        ensures
            r == left_out(self.patterns(), name@, path@),
    {
        match &self.set {
            Some(set) => matches_any(set, name.as_bytes()) || matches_any(set, path),
            None => false,
        }
    }
}

/// What is said about a pattern that does not parse.
pub open spec fn bad_pattern_text(pattern: Seq<char>, why: Seq<char>) -> Seq<char> {
    "bad exclude pattern "@ + text::quoted_text(pattern) + ": "@ + why
}

/// What is said about patterns of which no set can be built.
pub open spec fn bad_set_text(why: Seq<char>) -> Seq<char> {
    "cannot build exclude set: "@ + why
}

/// What is said about a pattern that does not parse, given what is wrong.
pub fn bad_pattern(pattern: &str, why: &str) -> (r: String)
    ensures
        r@ == bad_pattern_text(pattern@, why@),
{
    let mut out = "bad exclude pattern ".to_owned();
    out.append(text::quoted(pattern).as_str());
    out.append(": ");
    out.append(why);
    out
}

/// What is said about patterns of which no set can be built, given why.
pub fn bad_set(why: &str) -> (r: String)
    ensures
        r@ == bad_set_text(why@),
{
    text::joined("cannot build exclude set: ", why)
}

/// The first of the patterns that does not parse.
pub open spec fn first_bad(patterns: Seq<Seq<char>>) -> Option<int>
    decreases patterns.len(),
{
    if patterns.len() == 0 {
        None
    } else {
        match first_bad(patterns.drop_last()) {
            Some(k) => Some(k),
            None => if glob_error(patterns.last()) is Some {
                Some(patterns.len() - 1)
            } else {
                None
            },
        }
    }
}

/// Builds what a scan leaves out. The first pattern that does not parse is
/// reported.
pub fn build_excludes(patterns: &Vec<String>) -> (r: Result<Excludes, String>)
    ensures
        ({
            let names = model::names_of(patterns@);
            match r {
                Ok(e) => {
                    &&& first_bad(names) is None
                    &&& names.len() > 0 ==> set_error(names) is None
                    &&& e.patterns() == names
                },
                Err(m) => match first_bad(names) {
                    Some(k) => m@ == bad_pattern_text(names[k], glob_error(names[k])->0),
                    None => names.len() > 0 && set_error(names) is Some && m@ == bad_set_text(set_error(names)->0),
                },
            }
        }),
{
    let ghost names = model::names_of(patterns@);
    if patterns.len() == 0 {
        assert(names =~= Seq::<Seq<char>>::empty());
        return Ok(Excludes { set: None });
    }
    let mut builder = new_builder();
    let mut i: usize = 0;
    assert(names.take(0) =~= Seq::<Seq<char>>::empty());
    while i < patterns.len()
        invariant
            i <= patterns@.len(),
            names == model::names_of(patterns@),
            first_bad(names.take(i as int)) is None,
            builder_patterns(builder) == names.take(i as int),
        decreases patterns.len() - i,
    {
        let p = patterns[i].as_str();
        proof {
            assert(names.take(i + 1).drop_last() =~= names.take(i as int));
            assert(names.take(i + 1).last() == p@);
            assert(names[i as int] == p@);
        }
        match parse_glob(p) {
            Ok(g) => {
                add_glob(&mut builder, g);
                assert(names.take(i + 1) =~= names.take(i as int).push(p@));
            },
            Err(m) => {
                proof {
                    lemma_first_bad(names, i as int);
                }
                return Err(bad_pattern(p, m.as_str()));
            },
        }
        i = i + 1;
    }
    assert(names.take(i as int) =~= names);
    match build_set(&builder) {
        Ok(s) => Ok(Excludes { set: Some(s) }),
        Err(m) => Err(bad_set(m.as_str())),
    }
}

/// The first bad pattern of a part of the list is that of the list.
proof fn lemma_first_bad(patterns: Seq<Seq<char>>, k: int)
    requires
        0 <= k < patterns.len(),
        first_bad(patterns.take(k)) is None,
        glob_error(patterns[k]) is Some,
    ensures
        first_bad(patterns) == Some(k),
    decreases patterns.len(),
{
    let front = patterns.drop_last();
    if k == patterns.len() - 1 {
        assert(front =~= patterns.take(k));
    } else {
        assert(front.take(k) =~= patterns.take(k));
        lemma_first_bad(front, k);
    }
}

/// The pattern that is complained about does not parse, and all before it do.
pub proof fn law_the_first_bad_pattern_is_reported(patterns: Seq<Seq<char>>)
    ensures
        match first_bad(patterns) {
            Some(k) => 0 <= k < patterns.len() && glob_error(patterns[k]) is Some && forall|j: int|
                0 <= j < k ==> glob_error(#[trigger] patterns[j]) is None,
            None => forall|j: int| 0 <= j < patterns.len() ==> glob_error(#[trigger] patterns[j]) is None,
        },
    decreases patterns.len(),
{
    if patterns.len() > 0 {
        let front = patterns.drop_last();
        law_the_first_bad_pattern_is_reported(front);
        assert forall|j: int| 0 <= j < front.len() implies front[j] == #[trigger] patterns[j] by {}
        assert(patterns[patterns.len() - 1] == patterns.last());
    }
}

/// One pattern more leaves out what it matches and what was left out before, and
/// nothing else.
pub proof fn law_patterns_add_up(patterns: Seq<Seq<char>>, p: Seq<char>, name: Seq<char>, path: Seq<u8>)
    ensures
        left_out(patterns.push(p), name, path) == (left_out(patterns, name, path) || glob_matches(
            p,
            vstd::utf8::encode_utf8(name),
        ) || glob_matches(p, path)),
        !left_out(Seq::empty(), name, path),
{
    lemma_one_more(patterns, p, vstd::utf8::encode_utf8(name));
    lemma_one_more(patterns, p, path);
}

proof fn lemma_one_more(patterns: Seq<Seq<char>>, p: Seq<char>, path: Seq<u8>)
    ensures
        any_matches(patterns.push(p), path) == (any_matches(patterns, path) || glob_matches(p, path)),
{
    let more = patterns.push(p);
    if any_matches(patterns, path) {
        let k = choose|k: int| 0 <= k < patterns.len() && glob_matches(#[trigger] patterns[k], path);
        assert(more[k] == patterns[k]);
    }
    if glob_matches(p, path) {
        assert(more[patterns.len() as int] == p);
    }
    if any_matches(more, path) {
        let k = choose|k: int| 0 <= k < more.len() && glob_matches(#[trigger] more[k], path);
        if k < patterns.len() {
            assert(more[k] == patterns[k]);
        }
    }
}

} // verus!

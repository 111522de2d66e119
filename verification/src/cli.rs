//! What was asked for on the command line.

use vstd::prelude::*;

use crate::text;
use crate::tree::model;

verus! {

/// Disk usage, streamed to your browser.
///
/// Scans a directory tree the way `du` does and serves a live, interactive
/// report on localhost while the scan is still running.
#[derive(Debug)]
pub struct Args {
    /// Directory to scan.
    pub path: String,
    /// Port to listen on (0 picks a free one).
    pub port: u16,
    /// Address to bind.
    pub host: String,
    /// Do not open a browser window.
    pub no_open: bool,
    /// Skip directories on different filesystems (Unix only).
    pub one_file_system: bool,
    /// Follow symbolic links.
    pub dereference: bool,
    /// Count hard-linked files once per link instead of once in total.
    pub count_links: bool,
    /// Ignore files and folders whose contents live in the cloud rather than on
    /// this disk, such as OneDrive or iCloud placeholders (Windows only).
    pub local_only: bool,
    /// Keep cloud placeholders in the report.
    pub include_cloud: bool,
    /// Do not descend more than N levels below the starting directory.
    pub max_depth: Option<u16>,
    /// Exclude entries matching a glob pattern (repeatable).
    pub exclude: Vec<String>,
    /// Read exclude patterns from a file, one per line.
    pub exclude_from: Option<String>,
    /// Number of scanning threads (defaults to the number of cores).
    pub threads: Option<usize>,
    /// Look for duplicate files once the scan finishes.
    pub duplicates: bool,
    /// Smallest file the duplicate scanner considers, e.g. 512K, 10M, 1G.
    pub duplicates_min: u64,
    /// Serve a synthetic tree instead of scanning.
    pub demo: bool,
    /// Print the whole report as JSON instead of serving it.
    pub json: bool,
    /// Print the largest files instead of serving the report.
    pub top: Option<usize>,
}

/// How many of the largest files are printed.
pub open spec fn printed(top: Option<usize>) -> usize {
    match top {
        Some(n) => if n < 1 {
            1
        } else if n > 1_000_000 {
            1_000_000
        } else {
            n
        },
        None => 100,
    }
}

/// As many files are printed as asked for, from one to a million; a hundred if
/// nothing was asked for.
pub proof fn law_one_to_a_million_files_are_printed(n: usize)
    ensures
        printed(None) == 100,
        1 <= n <= 1_000_000 ==> printed(Some(n)) == n,
        n == 0 ==> printed(Some(n)) == 1,
        n > 1_000_000 ==> printed(Some(n)) == 1_000_000,
{
}

/// Placeholders are hidden.
pub open spec fn hides(include_cloud: bool, detects_cloud: bool) -> bool {
    !include_cloud && detects_cloud
}

/// Placeholders are hidden where they can be told, unless they were asked for.
pub proof fn law_placeholders_are_hidden_unless_asked_for(detects_cloud: bool)
    ensures
        !hides(true, detects_cloud),
        hides(false, true),
        !hides(false, false),
{
}

impl Args {
    /// Whether cloud placeholders are hidden, on a platform that can tell them:
    /// they are unless the user explicitly asks for them.
    pub fn hides_cloud(&self, detects_cloud: bool) -> (r: bool)
        ensures
            r == hides(self.include_cloud, detects_cloud),
            r == (!self.include_cloud && detects_cloud),
    {
        !self.include_cloud && detects_cloud
    }

    /// Whether the scan stays on one filesystem, on a platform that can.
    pub fn stays_on_one_file_system(&self, supported: bool) -> (r: bool)
        ensures
            r == (self.one_file_system && supported),
    {
        self.one_file_system && supported
    }

    /// Whether the report is printed rather than served.
    pub fn prints(&self) -> (r: bool)
        ensures
            r == (self.json || self.top is Some),
    {
        self.json || self.top.is_some()
    }

    /// How many of the largest files a printed report lists.
    pub fn top_limit(&self) -> (r: usize)
        ensures
            r == printed(self.top),
            r == (match self.top {
                Some(n) => if n < 1 {
                    1
                } else if n > 1_000_000 {
                    1_000_000
                } else {
                    n as int
                },
                None => 100,
            }),
    {
        let n: usize = match self.top {
            Some(n) => n,
            None => 100,
        };
        if n < 1 {
            1
        } else if n > 1_000_000 {
            1_000_000
        } else {
            n
        }
    }

    /// The smallest file of the duplicate scan that follows the walk, if one
    /// does.
    pub fn auto_dupes(&self) -> (r: Option<u64>)
        ensures
            r == (if self.duplicates {
                Some(self.duplicates_min)
            } else {
                None
            }),
    {
        if self.duplicates {
            Some(self.duplicates_min)
        } else {
            None
        }
    }

    /// The exclude patterns: those given one by one, then those of the pattern
    /// file.
    pub fn patterns(&self, file: Option<&str>) -> (r: Vec<String>)
        ensures
            model::names_of(r@) == model::names_of(self.exclude@) + (match file {
                Some(t) => pattern_lines(t@),
                None => Seq::empty(),
            }),
    {
        let mut out: Vec<String> = Vec::new();
        let mut i: usize = 0;
        let ghost given = model::names_of(self.exclude@);
        assert(model::names_of(out@) =~= given.take(0));
        while i < self.exclude.len()
            invariant
                i <= self.exclude@.len(),
                given == model::names_of(self.exclude@),
                model::names_of(out@) == given.take(i as int),
            decreases self.exclude.len() - i,
        {
            let ghost o0 = out@;
            out.push(self.exclude[i].clone());
            i = i + 1;
            assert(model::names_of(out@) =~= model::names_of(o0).push(given[i - 1]));
            assert(given.take(i as int) =~= given.take(i - 1).push(given[i - 1]));
        }
        assert(given.take(i as int) =~= given);
        if let Some(t) = file {
            append_patterns(&mut out, t);
        } else {
            assert(given + Seq::<Seq<char>>::empty() =~= given);
        }
        out
    }
}

/// A line holds a pattern unless it is empty or a comment.
pub open spec fn is_pattern() -> spec_fn(Seq<char>) -> bool {
    |l: Seq<char>| l.len() > 0 && l[0] != '#'
}

pub open spec fn trimmed() -> spec_fn(Seq<char>) -> Seq<char> {
    |l: Seq<char>| text::trim(l)
}

/// The patterns of a pattern file: its lines without white space around them,
/// leaving out empty lines and comments.
pub open spec fn pattern_lines(t: Seq<char>) -> Seq<Seq<char>> {
    text::pieces(t, '\n').map_values(trimmed()).filter(is_pattern())
}

fn append_patterns(out: &mut Vec<String>, t: &str)
    ensures
        model::names_of(final(out)@) == model::names_of(old(out)@) + pattern_lines(t@),
{
    let cs = text::chars_of(t);
    let lines = text::split(&cs, '\n');
    let ghost before = model::names_of(out@);
    let ghost all = text::pieces(t@, '\n').map_values(trimmed());
    let mut i: usize = 0;
    proof {
        reveal(Seq::filter);
        assert(all.take(0) =~= Seq::<Seq<char>>::empty());
        assert(before + Seq::<Seq<char>>::empty() =~= before);
    }
    while i < lines.len()
        invariant
            i <= lines@.len(),
            text::texts(lines@) == text::pieces(t@, '\n'),
            all == text::pieces(t@, '\n').map_values(trimmed()),
            model::names_of(out@) == before + all.take(i as int).filter(is_pattern()),
        decreases lines.len() - i,
    {
        let line = text::trimmed(&lines[i]);
        let ghost o0 = out@;
        proof {
            reveal(Seq::filter);
            assert(text::texts(lines@)[i as int] == lines@[i as int]@);
            assert(all[i as int] == line@);
            assert(all.take(i + 1).drop_last() =~= all.take(i as int));
        }
        if line.len() > 0 && line[0] != '#' {
            let p = text::string_of(&line, 0, line.len());
            proof {
                assert(line@.subrange(0, line@.len() as int) =~= line@);
            }
            let ghost pv = p@;
            out.push(p);
            proof {
                let kept = all.take(i as int).filter(is_pattern());
                assert(model::names_of(out@) =~= model::names_of(o0).push(pv));
                assert((before + kept).push(pv) =~= before + kept.push(pv));
            }
        }
        i = i + 1;
    }
    assert(all.take(i as int) =~= all);
}

/// A size with its suffix: the digits, and what they are multiplied by.
pub open spec fn scaled(t: Seq<char>) -> (Seq<char>, nat) {
    if t.len() == 0 {
        (t, 1)
    } else {
        let c = t.last();
        if c == 'k' || c == 'K' {
            (t.drop_last(), 1024)
        } else if c == 'm' || c == 'M' {
            (t.drop_last(), 1_048_576)
        } else if c == 'g' || c == 'G' {
            (t.drop_last(), 1_073_741_824)
        } else {
            (t, 1)
        }
    }
}

/// What a size text says: a number of bytes, or the number that its digits and
/// its suffix multiply to.
pub open spec fn size_text(s: Seq<char>) -> Option<nat> {
    let parts = scaled(text::trim(s));
    match text::number_text(text::trim(parts.0)) {
        Some(n) => if n <= u64::MAX {
            Some(n * parts.1)
        } else {
            None
        },
        None => None,
    }
}

/// The complaint about a size text.
pub open spec fn complaint(s: Seq<char>, what: Seq<char>) -> Seq<char> {
    text::quoted_text(text::trim(s)) + what
}

/// Accepts a plain byte count or a K/M/G suffix, the way `du -t` does.
pub fn parse_size(t: &str) -> (r: Result<u64, String>)
    ensures
        match size_text(t@) {
            Some(n) => if n <= u64::MAX {
                r == Ok::<u64, String>(n as u64)
            } else {
                r is Err && r->Err_0@ == complaint(t@, " is too large"@)
            },
            None => r is Err && r->Err_0@ == complaint(t@, " is not a size"@),
        },
{
    let given = text::chars_of(t);
    let cs = text::trimmed(&given);
    let n: usize = cs.len();
    let scale: u64 = if n == 0 {
        1
    } else {
        let c = cs[n - 1];
        if c == 'k' || c == 'K' {
            1024
        } else if c == 'm' || c == 'M' {
            1_048_576
        } else if c == 'g' || c == 'G' {
            1_073_741_824
        } else {
            1
        }
    };
    let end: usize = if scale == 1 {
        n
    } else {
        n - 1
    };
    let ghost parts = scaled(cs@);
    let digits = text::copied(&cs, 0, end);
    proof {
        assert(cs@.subrange(0, n as int) =~= cs@);
        if n > 0 {
            assert(cs@.subrange(0, n - 1) =~= cs@.drop_last());
        }
        assert(digits@ == parts.0 && scale == parts.1);
    }
    let digits = text::trimmed(&digits);
    let shown = text::string_of(&cs, 0, n);
    assert(cs@.subrange(0, n as int) =~= cs@);
    match text::parse_number(&digits) {
        Some(x) => match x.checked_mul(scale) {
            Some(y) => Ok(y),
            None => Err(text::joined(text::quoted(shown.as_str()).as_str(), " is too large")),
        },
        None => Err(text::joined(text::quoted(shown.as_str()).as_str(), " is not a size")),
    }
}

/// The address to show for a server that listens on any address: it is not a
/// useful thing to click on, so point the user at localhost.
pub fn display_addr(unspecified: bool, addr: &str, port: u16) -> (r: String)
    ensures
        r@ == (if unspecified {
            "localhost:"@ + text::decimal(port as nat)
        } else {
            addr@
        }),
{
    if unspecified {
        let mut out = "localhost:".to_owned();
        text::push_decimal(&mut out, port as u64);
        out
    } else {
        addr.to_owned()
    }
}

/// One line of a printed report: size and path, with a tab between them.
pub fn report_line(size: u64, path: &str) -> (r: String)
    ensures
        r@ == text::decimal(size as nat).push('\t') + path@,
{
    let mut out = String::new();
    text::push_decimal(&mut out, size);
    out.push('\t');
    out.append(path);
    assert(out@ =~= text::decimal(size as nat).push('\t') + path@);
    out
}

/// A plain number of bytes, as `du` prints it, is read as that number.
pub proof fn law_plain_numbers_are_sizes(n: u64)
    ensures
        size_text(text::decimal(n as nat)) == Some(n as nat),
{
    let s = text::decimal(n as nat);
    text::law_decimal_reads_back(n as nat);
    assert(text::is_digit(s[0]));
    assert(text::is_digit(s[s.len() - 1]));
    assert(text::trim(s) == s);
    assert(s.last() == s[s.len() - 1]);
    assert(scaled(s) == (s, 1nat));
    assert(n as nat * 1nat == n);
}

/// A number with a suffix is that many times a power of two: `K` is ten bits,
/// `M` twenty and `G` thirty, in either case.
pub proof fn law_suffixes_multiply(n: u64)
    ensures
        size_text(text::decimal(n as nat).push('k')) == Some((n * 1024) as nat),
        size_text(text::decimal(n as nat).push('K')) == Some((n * 1024) as nat),
        size_text(text::decimal(n as nat).push('m')) == Some((n * 1024 * 1024) as nat),
        size_text(text::decimal(n as nat).push('M')) == Some((n * 1024 * 1024) as nat),
        size_text(text::decimal(n as nat).push('g')) == Some((n * 1024 * 1024 * 1024) as nat),
        size_text(text::decimal(n as nat).push('G')) == Some((n * 1024 * 1024 * 1024) as nat),
{
    lemma_suffix(n, 'k', 1024);
    lemma_suffix(n, 'K', 1024);
    lemma_suffix(n, 'm', 1_048_576);
    lemma_suffix(n, 'M', 1_048_576);
    lemma_suffix(n, 'g', 1_073_741_824);
    lemma_suffix(n, 'G', 1_073_741_824);
}

proof fn lemma_suffix(n: u64, c: char, scale: nat)
    requires
        !text::is_space(c),
        scaled(text::decimal(n as nat).push(c)) == (text::decimal(n as nat).push(c).drop_last(), scale),
    ensures
        size_text(text::decimal(n as nat).push(c)) == Some(n as nat * scale),
{
    let d = text::decimal(n as nat);
    let s = d.push(c);
    text::law_decimal_reads_back(n as nat);
    assert(text::is_digit(d[0]));
    assert(text::is_digit(d[d.len() - 1]));
    assert(s.drop_last() =~= d);
    assert(s[0] == d[0]);
    assert(text::trim(s) == s);
    assert(text::trim(d) == d);
}

/// White space around a size does not matter, and what is no number is no size.
pub proof fn law_sizes_are_trimmed(s: Seq<char>, i: int)
    ensures
        size_text(s) == size_text(text::trim(s)),
        0 <= i < text::trim(s).len() - 1 && !('0' <= text::trim(s)[i] && text::trim(s)[i] <= '9') && !text::is_space(
            text::trim(s)[i],
        ) && text::trim(s)[i] != '+' ==> size_text(s) is None,
        text::trim(s).len() == 0 ==> size_text(s) is None,
{
    let t = text::trim(s);
    text::laws::law_trimming_takes_away_the_ends(s);
    if t.len() > 0 {
        text::laws::law_trimmed_text_stays(t);
    } else {
        assert(text::trim(t) == t);
    }
    let digits = scaled(t).0;
    let body = text::trim(digits);
    text::laws::law_trimming_takes_away_the_ends(digits);
    let a = choose|a: int| #[trigger] text::laws::trims(digits, body, a);
    if 0 <= i < t.len() - 1 && !('0' <= t[i] && t[i] <= '9') && !text::is_space(t[i]) && t[i] != '+' {
        assert(digits[i] == t[i]);
        assert(a <= i < a + body.len()) by {
            assert(text::laws::trims(digits, body, a));
        }
        assert(body[i - a] == t[i]);
        text::laws::law_numbers_are_digits(0, body, i - a);
    }
}

/// A pattern file goes on behind the end of a line: what stands before it and
/// what stands behind it name patterns each by itself, in this order.
pub proof fn law_pattern_files_go_on_line_by_line(a: Seq<char>, b: Seq<char>)
    ensures
        pattern_lines(a.push('\n') + b) == pattern_lines(a) + pattern_lines(b),
{
    text::laws::law_a_separator_splits(a, b, '\n');
    let x = text::pieces(a, '\n').map_values(trimmed());
    let y = text::pieces(b, '\n').map_values(trimmed());
    assert(text::pieces(a.push('\n') + b, '\n').map_values(trimmed()) =~= x + y);
    Seq::filter_distributes_over_add(x, y, is_pattern());
}

/// A line names its text as a pattern, without white space around it, unless
/// that is empty or begins with a hash sign.
pub proof fn law_a_line_is_a_pattern(l: Seq<char>)
    requires
        forall|i: int| 0 <= i < l.len() ==> #[trigger] l[i] != '\n',
    ensures
        text::trim(l).len() == 0 ==> pattern_lines(l) == Seq::<Seq<char>>::empty(),
        text::trim(l).len() > 0 && text::trim(l)[0] == '#' ==> pattern_lines(l) == Seq::<Seq<char>>::empty(),
        text::trim(l).len() > 0 && text::trim(l)[0] != '#' ==> pattern_lines(l) == seq![text::trim(l)],
{
    reveal(Seq::filter);
    text::laws::law_no_separator_one_piece(l, '\n');
    let all = text::pieces(l, '\n').map_values(trimmed());
    assert(all =~= seq![text::trim(l)]);
    let none = all.drop_last();
    assert(none =~= Seq::<Seq<char>>::empty());
    assert(none.filter(is_pattern()) =~= Seq::<Seq<char>>::empty());
    assert(all.last() == text::trim(l));
    if is_pattern()(all.last()) {
        assert(all.filter(is_pattern()) =~= none.filter(is_pattern()).push(all.last()));
    }
}

} // verus!

//! What holds of the operations on text.

use vstd::prelude::*;

use crate::text;

verus! {

/// White space is what Unicode says it is.
pub proof fn law_white_space_is_unicode_white_space(c: char)
    ensures
        text::is_space(c) <==> {
            ||| c == '\t' || c == '\n' || c == '\r' || c == ' '
            ||| c as u32 == 0xb || c as u32 == 0xc || c as u32 == 0x85 || c as u32 == 0xa0
            ||| c as u32 == 0x1680 || (0x2000 <= c as u32 && c as u32 <= 0x200a)
            ||| c as u32 == 0x2028 || c as u32 == 0x2029 || c as u32 == 0x202f || c as u32 == 0x205f || c as u32 == 0x3000
        },
{
}

/// Trimming takes away white space from both ends, all of it, and nothing else.
pub proof fn law_trimming_takes_away_the_ends(s: Seq<char>)
    ensures
        ({
            let r = text::trim(s);
            &&& r.len() > 0 ==> !text::is_space(r[0]) && !text::is_space(r.last())
            &&& exists|a: int| #[trigger] trims(s, r, a)
        }),
{
    let r = text::trim(s);
    let b = text::trim_start(s);
    lemma_trim_start(s);
    lemma_trim_end(b);
    let a = s.len() - b.len();
    assert(r =~= s.subrange(a, a + r.len()));
    assert forall|i: int| a + r.len() <= i < s.len() implies text::is_space(#[trigger] s[i]) by {
        assert(s[i] == b[i - a]);
    }
    assert(trims(s, r, a));
}

/// `r` is `s` without white space at the ends: it stands in `s` from `a` on, and
/// everything before and behind it is white space.
pub open spec fn trims(s: Seq<char>, r: Seq<char>, a: int) -> bool {
    &&& 0 <= a <= s.len() - r.len()
    &&& r == s.subrange(a, a + r.len())
    &&& forall|i: int| 0 <= i < a ==> text::is_space(#[trigger] s[i])
    &&& forall|i: int| a + r.len() <= i < s.len() ==> text::is_space(#[trigger] s[i])
}

proof fn lemma_trim_start(s: Seq<char>)
    ensures
        ({
            let r = text::trim_start(s);
            let a = s.len() - r.len();
            &&& 0 <= a
            &&& r == s.skip(a)
            &&& forall|i: int| 0 <= i < a ==> text::is_space(#[trigger] s[i])
            &&& r.len() > 0 ==> !text::is_space(r[0])
        }),
    decreases s.len(),
{
    if s.len() > 0 && text::is_space(s[0]) {
        let rest = s.drop_first();
        lemma_trim_start(rest);
        let r = text::trim_start(s);
        let a = s.len() - r.len();
        assert(r =~= s.skip(a));
        assert forall|i: int| 0 <= i < a implies text::is_space(#[trigger] s[i]) by {
            if i > 0 {
                assert(s[i] == rest[i - 1]);
            }
        }
    } else {
        assert(s.skip(0) =~= s);
    }
}

proof fn lemma_trim_end(s: Seq<char>)
    ensures
        ({
            let r = text::trim_end(s);
            &&& r.len() <= s.len()
            &&& r == s.take(r.len() as int)
            &&& forall|i: int| r.len() <= i < s.len() ==> text::is_space(#[trigger] s[i])
            &&& r.len() > 0 ==> !text::is_space(r.last())
        }),
    decreases s.len(),
{
    if s.len() > 0 && text::is_space(s.last()) {
        let rest = s.drop_last();
        lemma_trim_end(rest);
        let r = text::trim_end(s);
        assert(r =~= s.take(r.len() as int));
        assert forall|i: int| r.len() <= i < s.len() implies text::is_space(#[trigger] s[i]) by {
            if i < rest.len() {
                assert(s[i] == rest[i]);
            }
        }
    } else {
        assert(s.take(s.len() as int) =~= s);
    }
}

/// What has no white space at its ends is not trimmed.
pub proof fn law_trimmed_text_stays(s: Seq<char>)
    requires
        s.len() > 0,
        !text::is_space(s[0]),
        !text::is_space(s.last()),
    ensures
        text::trim(s) == s,
{
}

/// Lower-casing turns `A` to `Z` into `a` to `z`, each into its own letter, and
/// leaves every other character alone.
pub proof fn law_only_capital_letters_are_lowered(s: Seq<char>, i: int)
    requires
        0 <= i < s.len(),
    ensures
        text::lower_all(s).len() == s.len(),
        'A' <= s[i] <= 'Z' ==> text::lower_all(s)[i] as u32 == s[i] as u32 + 32 && 'a' <= text::lower_all(s)[i] <= 'z',
        s[i] < 'A' || 'Z' < s[i] ==> text::lower_all(s)[i] == s[i],
{
}

/// The parts with a separator between any two of them.
pub open spec fn joined(parts: Seq<Seq<char>>, sep: char) -> Seq<char>
    decreases parts.len(),
{
    if parts.len() == 0 {
        Seq::empty()
    } else if parts.len() == 1 {
        parts[0]
    } else {
        joined(parts.drop_last(), sep).push(sep) + parts.last()
    }
}

/// A text is its pieces with separators between them, and no piece holds one.
pub proof fn law_pieces_make_up_the_text(s: Seq<char>, sep: char)
    ensures
        text::pieces(s, sep).len() >= 1,
        joined(text::pieces(s, sep), sep) == s,
        forall|k: int, i: int|
            0 <= k < text::pieces(s, sep).len() && 0 <= i < text::pieces(s, sep)[k].len() ==> #[trigger] text::pieces(
                s,
                sep,
            )[k][i] != sep,
    decreases s.len(),
{
    let all = text::pieces(s, sep);
    if s.len() > 0 {
        let front = s.drop_last();
        let before = text::pieces(front, sep);
        law_pieces_make_up_the_text(front, sep);
        assert(s =~= front.push(s.last()));
        if s.last() == sep {
            assert(all.drop_last() =~= before);
            assert(joined(all, sep) =~= joined(before, sep).push(sep) + Seq::<char>::empty());
        } else {
            assert(all.drop_last() =~= before.drop_last());
            assert(all.last() == before.last().push(s.last()));
            if before.len() == 1 {
                assert(joined(all, sep) =~= joined(before, sep).push(s.last()));
            } else {
                let head = joined(before.drop_last(), sep).push(sep);
                assert(head + before.last().push(s.last()) =~= (head + before.last()).push(s.last()));
            }
        }
        assert forall|k: int, i: int| 0 <= k < all.len() && 0 <= i < all[k].len() implies #[trigger] all[k][i] != sep by {
            if k < before.len() - 1 || (s.last() == sep && k < before.len()) {
                assert(all[k] == before[k]);
                assert(before[k][i] != sep);
            } else if s.last() != sep {
                if i < before.last().len() {
                    assert(before[before.len() - 1][i] != sep);
                }
            }
        }
    }
}

/// A separator splits: what stands before it and what stands behind it are split
/// each by itself.
pub proof fn law_a_separator_splits(a: Seq<char>, b: Seq<char>, sep: char)
    ensures
        text::pieces(a.push(sep) + b, sep) == text::pieces(a, sep) + text::pieces(b, sep),
    decreases b.len(),
{
    let s = a.push(sep) + b;
    law_pieces_make_up_the_text(a, sep);
    law_pieces_make_up_the_text(b, sep);
    if b.len() == 0 {
        assert(s =~= a.push(sep));
        assert(s.drop_last() =~= a);
        assert(text::pieces(a, sep).push(Seq::empty()) =~= text::pieces(a, sep) + text::pieces(b, sep));
    } else {
        let front = b.drop_last();
        assert(s.drop_last() =~= a.push(sep) + front);
        assert(s.last() == b.last());
        law_a_separator_splits(a, front, sep);
        law_pieces_make_up_the_text(front, sep);
        let x = text::pieces(a, sep);
        let y = text::pieces(front, sep);
        assert((x + y).drop_last() =~= x + y.drop_last());
        assert((x + y).last() == y.last());
        assert(text::pieces(s, sep) =~= x + text::pieces(b, sep));
    }
}

/// A text without separators is one piece.
pub proof fn law_no_separator_one_piece(s: Seq<char>, sep: char)
    requires
        forall|i: int| 0 <= i < s.len() ==> #[trigger] s[i] != sep,
    ensures
        text::pieces(s, sep) == seq![s],
    decreases s.len(),
{
    if s.len() > 0 {
        let front = s.drop_last();
        assert forall|i: int| 0 <= i < front.len() implies #[trigger] front[i] != sep by {
            assert(front[i] == s[i]);
        }
        law_no_separator_one_piece(front, sep);
        assert(s[s.len() - 1] == s.last());
        assert(front.push(s.last()) =~= s);
        assert(text::pieces(s, sep) =~= seq![s]);
    } else {
        assert(s =~= Seq::<char>::empty());
    }
}

/// Stripping takes away a character from the front as often as it stands there,
/// and nothing else.
pub proof fn law_stripping_takes_away_the_front(s: Seq<char>, c: char)
    ensures
        text::strip_front(s.insert(0, c), c) == text::strip_front(s, c),
        s.len() == 0 || s[0] != c ==> text::strip_front(s, c) == s,
        text::strip_front(s, c).len() == 0 || text::strip_front(s, c)[0] != c,
    decreases s.len(),
{
    assert(s.insert(0, c).drop_first() =~= s);
    if s.len() > 0 && s[0] == c {
        law_stripping_takes_away_the_front(s.drop_first(), c);
    }
}

/// A text begins with its front, whatever follows, and only then.
pub proof fn law_beginning_is_being_followed(s: Seq<char>, front: Seq<char>, rest: Seq<char>)
    ensures
        text::begins_with(front + rest, front),
        text::begins_with(s, front) ==> s == front + s.skip(front.len() as int),
{
    assert((front + rest).take(front.len() as int) =~= front);
    if text::begins_with(s, front) {
        assert(s =~= s.take(front.len() as int) + s.skip(front.len() as int));
    }
}

/// A number may have a plus in front; anything that is not a digit behind it
/// makes a text no number, and so does nothing at all.
pub proof fn law_numbers_are_digits(n: nat, s: Seq<char>, i: int)
    requires
        0 <= i < s.len() ==> !('0' <= s[i] && s[i] <= '9') && (i > 0 || s[i] != '+'),
    ensures
        text::number_text(seq!['+'] + text::decimal(n)) == Some(n),
        0 <= i < s.len() ==> text::number_text(s) is None,
        text::number_text(Seq::empty()) is None,
        text::number_text(seq!['+']) is None,
{
    text::law_decimal_reads_back(n);
    assert((seq!['+'] + text::decimal(n)).drop_first() =~= text::decimal(n));
    if 0 <= i < s.len() {
        let body = text::unsigned_part(s);
        if s[0] == '+' {
            assert(body[i - 1] == s[i]);
        } else {
            assert(body[i] == s[i]);
        }
    }
    assert(seq!['+'].drop_first().len() == 0);
}

/// Each digit behind a number makes it ten times as large and adds its value.
pub proof fn law_digits_count_by_ten(s: Seq<char>, c: char)
    requires
        '0' <= c && c <= '9',
    ensures
        text::digits_value(s.push(c)) == 10 * text::digits_value(s) + (c as u32 - '0' as u32),
{
    assert(s.push(c).drop_last() =~= s);
}

/// A number is written without zeros in front, and zero as one zero.
pub proof fn law_numbers_have_no_zeros_in_front(n: nat)
    ensures
        n < 10 ==> text::decimal(n).len() == 1,
        n > 0 ==> text::decimal(n)[0] != '0',
        text::decimal(0) == seq!['0'],
    decreases n,
{
    text::law_decimal_reads_back(n / 10);
    if n >= 10 {
        law_numbers_have_no_zeros_in_front(n / 10);
        assert(text::decimal(n)[0] == text::decimal(n / 10)[0]);
    } else if n > 0 {
        assert(text::decimal(n)[0] == text::digit(n));
        assert(((n + 48) as u8) as u32 != '0' as u32);
    }
    assert(text::decimal(0) =~= seq!['0']);
}

} // verus!

//! What holds of every text that is trimmed, searched or replaced in, stated on the characters that
//! go into a call and that come out of it.
use vstd::prelude::*;

use crate::text;

verus! {

/// The characters that count as white space: those with the Unicode property `White_Space`, named
/// one by one.
pub proof fn law_white_space_is_that_of_unicode(c: char, r: bool)
    requires
        call_ensures(text::is_white_space, (c,), r),
    ensures
        r <==> c == ' ' || c == '\t' || c == '\n' || c == '\u{b}' || c == '\u{c}' || c == '\r' || c
            == '\u{85}' || c == '\u{a0}' || c == '\u{1680}' || ('\u{2000}' <= c && c <= '\u{200a}')
            || c == '\u{2028}' || c == '\u{2029}' || c == '\u{202f}' || c == '\u{205f}' || c
            == '\u{3000}',
        r == text::white_space(c),
{
}

/// Only the letters `A` to `Z` have a lower case here, and it stands 32 places behind them.
pub proof fn law_only_ascii_letters_are_lowered(c: char, r: char)
    requires
        call_ensures(text::to_ascii_lower, (c,), r),
    ensures
        'A' <= c && c <= 'Z' ==> r as u32 == c as u32 + 32,
        !('A' <= c && c <= 'Z') ==> r == c,
        r == text::ascii_lower(c),
{
}

proof fn lemma_trim_start_is_a_tail(s: Seq<char>) -> (from: int)
    ensures
        0 <= from <= s.len(),
        text::trim_start(s) == s.skip(from),
        forall|i: int| 0 <= i < from ==> text::white_space(#[trigger] s[i]),
        from < s.len() ==> !text::white_space(s[from]),
    decreases s.len(),
{
    if s.len() > 0 && text::white_space(s.first()) {
        let tail = s.drop_first();
        let from = lemma_trim_start_is_a_tail(tail);
        assert(tail.skip(from) =~= s.skip(from + 1));
        assert forall|i: int| 0 <= i < from + 1 implies text::white_space(#[trigger] s[i]) by {
            if i > 0 {
                assert(tail[i - 1] == s[i]);
            }
        }
        from + 1
    } else {
        assert(s.skip(0) =~= s);
        0
    }
}

proof fn lemma_trim_end_is_a_head(s: Seq<char>) -> (to: int)
    ensures
        0 <= to <= s.len(),
        text::trim_end(s) == s.take(to),
        forall|i: int| to <= i < s.len() ==> text::white_space(#[trigger] s[i]),
        to > 0 ==> !text::white_space(s[to - 1]),
    decreases s.len(),
{
    if s.len() > 0 && text::white_space(s.last()) {
        let head = s.drop_last();
        let to = lemma_trim_end_is_a_head(head);
        assert(head.take(to) =~= s.take(to));
        assert forall|i: int| to <= i < s.len() implies text::white_space(#[trigger] s[i]) by {
            if i < head.len() {
                assert(head[i] == s[i]);
            }
        }
        to
    } else {
        assert(s.take(s.len() as int) =~= s);
        s.len() as int
    }
}

/// What trimming leaves is a stretch of the text: all before it and all behind it is white space,
/// and it neither starts nor ends with any.
pub proof fn law_trimming_takes_off_white_space_alone(s: &str, r: &str) -> (cut: (int, int))
    requires
        call_ensures(text::trim, (s,), r),
    ensures
        0 <= cut.0 <= cut.1 <= s@.len(),
        r@ == s@.subrange(cut.0, cut.1),
        forall|i: int| 0 <= i < cut.0 ==> text::white_space(#[trigger] s@[i]),
        forall|i: int| cut.1 <= i < s@.len() ==> text::white_space(#[trigger] s@[i]),
        r@.len() > 0 ==> !text::white_space(r@[0]) && !text::white_space(r@[r@.len() - 1]),
{
    lemma_trimmed_is_a_stretch(s@)
}

/// Where the text that trimming leaves starts and ends.
pub proof fn lemma_trimmed_is_a_stretch(s: Seq<char>) -> (cut: (int, int))
    ensures
        0 <= cut.0 <= cut.1 <= s.len(),
        text::trimmed(s) == s.subrange(cut.0, cut.1),
        forall|i: int| 0 <= i < cut.0 ==> text::white_space(#[trigger] s[i]),
        forall|i: int| cut.1 <= i < s.len() ==> text::white_space(#[trigger] s[i]),
        text::trimmed(s).len() > 0 ==> !text::white_space(text::trimmed(s)[0])
            && !text::white_space(text::trimmed(s)[text::trimmed(s).len() - 1]),
{
    let from = lemma_trim_start_is_a_tail(s);
    let tail = s.skip(from);
    let to = lemma_trim_end_is_a_head(tail);
    assert(tail.take(to) =~= s.subrange(from, from + to));
    assert forall|i: int| from + to <= i < s.len() implies text::white_space(#[trigger] s[i]) by {
        assert(tail[i - from] == s[i]);
    }
    (from, from + to)
}

/// A pattern is found where its characters stand side by side in the text, and nowhere else.
pub proof fn law_searching_finds_what_is_there(s: &str, pattern: &str, r: bool)
    requires
        call_ensures(text::contains, (s, pattern), r),
    ensures
        r <==> exists|at: int|
            0 <= at <= s@.len() && pattern@.is_prefix_of(#[trigger] s@.skip(at)),
{
    lemma_holds_is_a_prefix_somewhere(s@, pattern@);
}

/// A text holds a pattern where, some way in, it goes on with it.
pub proof fn lemma_holds_is_a_prefix_somewhere(s: Seq<char>, pattern: Seq<char>)
    ensures
        text::holds(s, pattern) <==> exists|at: int|
            0 <= at <= s.len() && pattern.is_prefix_of(#[trigger] s.skip(at)),
{
    if text::holds(s, pattern) {
        let at = choose|at: int| text::stands_at(s, pattern, at);
        lemma_stands_is_a_prefix(s, pattern, at);
    }
    if exists|at: int| 0 <= at <= s.len() && pattern.is_prefix_of(#[trigger] s.skip(at)) {
        let at = choose|at: int| 0 <= at <= s.len() && pattern.is_prefix_of(#[trigger] s.skip(at));
        lemma_stands_is_a_prefix(s, pattern, at);
    }
}

/// A pattern stands at a place where the text goes on with it from there.
pub proof fn lemma_stands_is_a_prefix(s: Seq<char>, pattern: Seq<char>, at: int)
    ensures
        text::stands_at(s, pattern, at) <==> 0 <= at <= s.len() && pattern.is_prefix_of(s.skip(at)),
{
    if 0 <= at && at + pattern.len() <= s.len() {
        assert(s.skip(at).subrange(0, pattern.len() as int) =~= s.subrange(
            at,
            at + pattern.len(),
        ));
    }
}

/// Replacing leaves a text alone that does not hold the pattern.
pub proof fn law_replacing_leaves_the_rest_alone(s: &str, pattern: &str, with: &str, r: String)
    requires
        call_ensures(text::replace, (s, pattern, with), r),
        forall|at: int| 0 <= at <= s@.len() ==> !pattern@.is_prefix_of(#[trigger] s@.skip(at)),
    ensures
        r@ == s@,
{
    lemma_holds_is_a_prefix_somewhere(s@, pattern@);
    text::lemma_replaced_without_pattern(s@, pattern@, with@);
}

/// Replacing puts the replacement in the place of the first occurrence, keeps what stands before
/// it, and goes on behind it: the replacement itself is not searched.
pub proof fn law_replacing_goes_from_left_to_right(
    s: &str,
    pattern: &str,
    with: &str,
    before: Seq<char>,
    behind: &str,
    r: String,
    rest: String,
)
    requires
        call_ensures(text::replace, (s, pattern, with), r),
        call_ensures(text::replace, (behind, pattern, with), rest),
        pattern@.len() > 0,
        s@ == before + pattern@ + behind@,
        forall|at: int| 0 <= at < before.len() ==> !pattern@.is_prefix_of(#[trigger] s@.skip(at)),
    ensures
        r@ == before + with@ + rest@,
{
    lemma_replaced_from_left(s@, pattern@, with@, before, behind@);
}

/// The first occurrence is replaced, and what stands behind it is gone on with.
pub proof fn lemma_replaced_from_left(
    s: Seq<char>,
    pattern: Seq<char>,
    with: Seq<char>,
    before: Seq<char>,
    behind: Seq<char>,
)
    requires
        pattern.len() > 0,
        s == before + pattern + behind,
        forall|at: int| 0 <= at < before.len() ==> !pattern.is_prefix_of(#[trigger] s.skip(at)),
    ensures
        text::replaced(s, pattern, with) == before + with + text::replaced(behind, pattern, with),
    decreases before.len(),
{
    if before.len() == 0 {
        assert(s.subrange(0, pattern.len() as int) =~= pattern);
        assert(s.skip(pattern.len() as int) =~= behind);
        assert(before + with =~= with);
    } else {
        let tail = s.drop_first();
        let less = before.drop_first();
        assert(tail =~= less + pattern + behind);
        assert forall|at: int| 0 <= at < less.len() implies !pattern.is_prefix_of(
            #[trigger] tail.skip(at),
        ) by {
            assert(tail.skip(at) =~= s.skip(at + 1));
        }
        lemma_replaced_from_left(tail, pattern, with, less, behind);
        assert(s.skip(0) =~= s);
        lemma_stands_is_a_prefix(s, pattern, 0);
        assert(seq![s.first()] + (less + with + text::replaced(behind, pattern, with)) =~= before
            + with + text::replaced(behind, pattern, with));
    }
}

} // verus!

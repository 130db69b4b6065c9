//! Splitting a command setting into words.
use vstd::prelude::*;

use crate::text;

verus! {

/// The characters that open a quoted stretch, which the same character closes.
pub open spec fn quote_mark(c: char) -> bool {
    c == '\'' || c == '"'
}

/// What stands before the first `mark` in `s`, and what stands behind it; all of `s` and nothing
/// where there is none.
pub open spec fn quoted_stretch(s: Seq<char>, mark: char) -> (Seq<char>, Seq<char>)
    decreases s.len(),
{
    if s.len() == 0 {
        (s, s)
    } else if s.first() == mark {
        (Seq::empty(), s.drop_first())
    } else {
        let (body, rest) = quoted_stretch(s.drop_first(), mark);
        (seq![s.first()] + body, rest)
    }
}

/// The word that `s` starts with, without its quote marks, and what is left of `s`: a word goes
/// on up to the first white space outside quotes.
pub open spec fn first_word(s: Seq<char>) -> (Seq<char>, Seq<char>)
    decreases s.len(),
{
    if s.len() == 0 || text::white_space(s.first()) {
        (Seq::empty(), s)
    } else if quote_mark(s.first()) {
        proof {
            lemma_quoted_stretch_shrinks(s.drop_first(), s.first());
        }
        let (body, behind) = quoted_stretch(s.drop_first(), s.first());
        let (more, rest) = first_word(behind);
        (body + more, rest)
    } else {
        let (more, rest) = first_word(s.drop_first());
        (seq![s.first()] + more, rest)
    }
}

/// The words of `s`: white space parts them, except inside single or double quotes.
pub open spec fn words(s: Seq<char>) -> Seq<Seq<char>>
    decreases s.len(),
{
    if s.len() == 0 {
        Seq::empty()
    } else if text::white_space(s.first()) {
        words(s.drop_first())
    } else {
        proof {
            lemma_first_word_shrinks(s);
        }
        let (word, rest) = first_word(s);
        seq![word] + words(rest)
    }
}

pub proof fn lemma_quoted_stretch_shrinks(s: Seq<char>, mark: char)
    ensures
        quoted_stretch(s, mark).1.len() <= s.len(),
    decreases s.len(),
{
    if s.len() > 0 && s.first() != mark {
        lemma_quoted_stretch_shrinks(s.drop_first(), mark);
    }
}

pub proof fn lemma_first_word_shrinks(s: Seq<char>)
    ensures
        first_word(s).1.len() <= s.len(),
        s.len() > 0 && !text::white_space(s.first()) ==> first_word(s).1.len() < s.len(),
    decreases s.len(),
{
    if s.len() > 0 && !text::white_space(s.first()) {
        if quote_mark(s.first()) {
            lemma_quoted_stretch_shrinks(s.drop_first(), s.first());
            lemma_first_word_shrinks(quoted_stretch(s.drop_first(), s.first()).1);
        } else {
            lemma_first_word_shrinks(s.drop_first());
        }
    }
}

/// The characters of a word that is being read.
spec fn so_far(word: Option<String>) -> Option<Seq<char>> {
    match word {
        Some(w) => Some(w@),
        None => None,
    }
}

/// The words that come of going on from inside a word: `word` is what it holds so far, `mark` the
/// quote mark that is open, and `rest` is still to be read.
spec fn words_from(word: Option<Seq<char>>, mark: Option<char>, rest: Seq<char>) -> Seq<Seq<char>> {
    match (word, mark) {
        (None, _) => words(rest),
        (Some(start), None) => {
            let (more, behind) = first_word(rest);
            seq![start + more] + words(behind)
        },
        (Some(start), Some(m)) => {
            let (body, after) = quoted_stretch(rest, m);
            let (more, behind) = first_word(after);
            seq![start + body + more] + words(behind)
        },
    }
}

/// What reading the first character of `rest` does to the words that are to come.
proof fn lemma_words_from_step(word: Option<Seq<char>>, mark: Option<char>, rest: Seq<char>)
    requires
        rest.len() > 0,
        mark is Some ==> word is Some,
    ensures
        ({
            let c = rest.first();
            let behind = rest.drop_first();
            let start = match word {
                Some(w) => w,
                None => Seq::empty(),
            };
            words_from(word, mark, rest) == match mark {
                Some(m) if c == m => words_from(Some(start), None, behind),
                Some(_) => words_from(Some(start.push(c)), mark, behind),
                None => if text::white_space(c) {
                    (if word is Some {
                        seq![start]
                    } else {
                        Seq::empty()
                    }) + words_from(None, None, behind)
                } else if quote_mark(c) {
                    words_from(Some(start), Some(c), behind)
                } else {
                    words_from(Some(start.push(c)), None, behind)
                },
            }
        }),
{
    let c = rest.first();
    let behind = rest.drop_first();
    let start = match word {
        Some(w) => w,
        None => Seq::empty(),
    };
    match mark {
        Some(m) => {
            if c == m {
                assert(start + Seq::<char>::empty() =~= start);
            } else {
                assert(start + (seq![c] + quoted_stretch(behind, m).0) =~= start.push(c)
                    + quoted_stretch(behind, m).0);
            }
        },
        None => {
            if text::white_space(c) {
                assert(start + Seq::<char>::empty() =~= start);
                assert(Seq::<Seq<char>>::empty() + words(behind) =~= words(behind));
            } else if quote_mark(c) {
                let (body, after) = quoted_stretch(behind, c);
                assert(start + (body + first_word(after).0) =~= start + body + first_word(after).0);
            } else {
                assert(start + (seq![c] + first_word(behind).0) =~= start.push(c) + first_word(
                    behind,
                ).0);
            }
        },
    }
}

/// The words of a command setting: white space parts them, single or double quotes keep what they
/// enclose together, and a quote that is never closed runs to the end.
pub fn split_command(command: &str) -> (r: Vec<String>)
    ensures
        text::texts(r@) == words(command@),
{
    let all = text::chars_of(command);
    let mut done: Vec<String> = Vec::new();
    let mut word: Option<String> = None;
    let mut mark: Option<char> = None;
    let mut at: usize = 0;
    assert(all@.skip(0) =~= all@);
    while at < all.len()
        invariant
            at <= all.len(),
            mark is Some ==> word is Some,
            text::texts(done@) + words_from(
                so_far(word),
                mark,
                all@.skip(at as int),
            ) == words(command@),
        decreases all.len() - at,
    {
        let c = all[at];
        let ghost rest = all@.skip(at as int);
        let ghost before = text::texts(done@);
        proof {
            lemma_words_from_step(
                so_far(word),
                mark,
                rest,
            );
            assert(rest.drop_first() =~= all@.skip(at + 1));
        }
        at = at + 1;
        let (mut start, inside) = match word {
            Some(w) => (w, true),
            None => (String::new(), false),
        };
        match mark {
            Some(m) => {
                if c == m {
                    mark = None;
                } else {
                    start.push(c);
                }
                word = Some(start);
            },
            None => {
                if text::is_white_space(c) {
                    if inside {
                        done.push(start);
                        assert(text::texts(done@) =~= before.push(start@));
                    }
                    word = None;
                } else if c == '\'' || c == '"' {
                    mark = Some(c);
                    word = Some(start);
                } else {
                    start.push(c);
                    word = Some(start);
                }
            },
        }
    }
    let ghost before = text::texts(done@);
    assert(all@.skip(at as int) =~= Seq::<char>::empty());
    if let Some(w) = word {
        done.push(w);
        assert(text::texts(done@) =~= before + seq![w@]);
    }
    done
}

/// Every character of `pattern` is an ordinary one: neither white space nor a quote mark.
pub open spec fn plain(pattern: Seq<char>) -> bool {
    forall|i: int|
        0 <= i < pattern.len() ==> !text::white_space(#[trigger] pattern[i]) && !quote_mark(
            pattern[i],
        )
}

proof fn lemma_quoted_stretch_keeps_start(s: Seq<char>, mark: char, n: int)
    requires
        0 <= n <= s.len(),
        forall|i: int| 0 <= i < n ==> s[i] != mark,
    ensures
        quoted_stretch(s, mark).0.len() >= n,
        quoted_stretch(s, mark).0.take(n) == s.take(n),
    decreases n,
{
    if n > 0 {
        let (body, rest) = quoted_stretch(s.drop_first(), mark);
        lemma_quoted_stretch_keeps_start(s.drop_first(), mark, n - 1);
        assert((seq![s.first()] + body).take(n) =~= seq![s.first()] + body.take(n - 1));
        assert(s.take(n) =~= seq![s.first()] + s.drop_first().take(n - 1));
    } else {
        assert(quoted_stretch(s, mark).0.take(0) =~= s.take(0));
    }
}

proof fn lemma_first_word_keeps_start(s: Seq<char>, n: int)
    requires
        0 <= n <= s.len(),
        plain(s.take(n)),
    ensures
        first_word(s).0.len() >= n,
        first_word(s).0.take(n) == s.take(n),
    decreases n,
{
    if n > 0 {
        assert(s.take(n)[0] == s.first());
        let tail = s.drop_first();
        assert forall|i: int| 0 <= i < n - 1 implies !text::white_space(
            #[trigger] tail.take(n - 1)[i],
        ) && !quote_mark(tail.take(n - 1)[i]) by {
            assert(s.take(n)[i + 1] == tail.take(n - 1)[i]);
        }
        lemma_first_word_keeps_start(tail, n - 1);
        let more = first_word(tail).0;
        assert((seq![s.first()] + more).take(n) =~= seq![s.first()] + more.take(n - 1));
        assert(s.take(n) =~= seq![s.first()] + tail.take(n - 1));
    } else {
        assert(first_word(s).0.take(0) =~= s.take(0));
    }
}

proof fn lemma_quoted_stretch_keeps(s: Seq<char>, mark: char, pattern: Seq<char>)
    requires
        text::holds(s, pattern),
        pattern.len() > 0,
        forall|i: int| 0 <= i < pattern.len() ==> pattern[i] != mark,
    ensures
        text::holds(quoted_stretch(s, mark).0, pattern) || text::holds(
            quoted_stretch(s, mark).1,
            pattern,
        ),
    decreases s.len(),
{
    let at = choose|at: int| text::stands_at(s, pattern, at);
    let n = pattern.len() as int;
    if at == 0 {
        assert(s.take(n) =~= pattern);
        assert forall|i: int| 0 <= i < n implies s[i] != mark by {
            assert(s.take(n)[i] == s[i]);
        }
        lemma_quoted_stretch_keeps_start(s, mark, n);
        let body = quoted_stretch(s, mark).0;
        assert(body.subrange(0, n) =~= body.take(n));
        assert(text::stands_at(body, pattern, 0));
    } else {
        text::lemma_stands_behind_first(s, pattern, at);
        if s.first() != mark {
            let (body, rest) = quoted_stretch(s.drop_first(), mark);
            lemma_quoted_stretch_keeps(s.drop_first(), mark, pattern);
            if text::holds(body, pattern) {
                text::lemma_holds_within(seq![s.first()], body, Seq::empty(), pattern);
                assert(seq![s.first()] + body + Seq::<char>::empty() =~= seq![s.first()] + body);
            }
        }
    }
}

proof fn lemma_first_word_keeps(s: Seq<char>, pattern: Seq<char>)
    requires
        text::holds(s, pattern),
        pattern.len() > 0,
        plain(pattern),
    ensures
        text::holds(first_word(s).0, pattern) || text::holds(first_word(s).1, pattern),
    decreases s.len(),
{
    let at = choose|at: int| text::stands_at(s, pattern, at);
    let n = pattern.len() as int;
    if s.len() == 0 || text::white_space(s.first()) {
    } else if at == 0 {
        assert(s.take(n) =~= pattern);
        lemma_first_word_keeps_start(s, n);
        let word = first_word(s).0;
        assert(word.subrange(0, n) =~= word.take(n));
        assert(text::stands_at(word, pattern, 0));
    } else {
        text::lemma_stands_behind_first(s, pattern, at);
        if quote_mark(s.first()) {
            let (body, behind) = quoted_stretch(s.drop_first(), s.first());
            let more = first_word(behind).0;
            lemma_quoted_stretch_shrinks(s.drop_first(), s.first());
            lemma_quoted_stretch_keeps(s.drop_first(), s.first(), pattern);
            if text::holds(body, pattern) {
                text::lemma_holds_within(Seq::empty(), body, more, pattern);
                assert(Seq::<char>::empty() + body + more =~= body + more);
            } else {
                lemma_first_word_keeps(behind, pattern);
                if text::holds(more, pattern) {
                    text::lemma_holds_within(body, more, Seq::empty(), pattern);
                    assert(body + more + Seq::<char>::empty() =~= body + more);
                }
            }
        } else {
            let more = first_word(s.drop_first()).0;
            lemma_first_word_keeps(s.drop_first(), pattern);
            if text::holds(more, pattern) {
                text::lemma_holds_within(seq![s.first()], more, Seq::empty(), pattern);
                assert(seq![s.first()] + more + Seq::<char>::empty() =~= seq![s.first()] + more);
            }
        }
    }
}

/// Text without white space and quote marks is never torn apart: where a command holds it, some
/// one word of the command holds it.
pub proof fn law_plain_text_stays_in_one_word(command: Seq<char>, pattern: Seq<char>)
    requires
        text::holds(command, pattern),
        pattern.len() > 0,
        plain(pattern),
    ensures
        exists|i: int|
            0 <= i < words(command).len() && text::holds(#[trigger] words(command)[i], pattern),
    decreases command.len(),
{
    let at = choose|at: int| text::stands_at(command, pattern, at);
    if text::white_space(command.first()) {
        if at == 0 {
            assert(command.subrange(0, pattern.len() as int)[0] == pattern[0]);
        }
        text::lemma_stands_behind_first(command, pattern, at);
        law_plain_text_stays_in_one_word(command.drop_first(), pattern);
        assert(words(command) == words(command.drop_first()));
    } else {
        let (word, rest) = first_word(command);
        lemma_first_word_shrinks(command);
        lemma_first_word_keeps(command, pattern);
        if text::holds(word, pattern) {
            assert(words(command)[0] == word);
        } else {
            law_plain_text_stays_in_one_word(rest, pattern);
            let i = choose|i: int|
                0 <= i < words(rest).len() && text::holds(#[trigger] words(rest)[i], pattern);
            assert(words(command)[i + 1] == words(rest)[i]);
        }
    }
}

proof fn lemma_quoted_stretch_ends_at_mark(body: Seq<char>, mark: char, behind: Seq<char>)
    requires
        forall|i: int| 0 <= i < body.len() ==> body[i] != mark,
    ensures
        quoted_stretch(body.push(mark) + behind, mark) == (body, behind),
    decreases body.len(),
{
    let s = body.push(mark) + behind;
    if body.len() == 0 {
        assert(s.drop_first() =~= behind);
        assert(body =~= Seq::<char>::empty());
    } else {
        assert(s.drop_first() =~= body.drop_first().push(mark) + behind);
        lemma_quoted_stretch_ends_at_mark(body.drop_first(), mark, behind);
        assert(seq![s.first()] + body.drop_first() =~= body);
    }
}

/// Quoted words stay whole: what stands between quotes is one word, white space and all.
pub proof fn law_quoted_text_is_one_word(body: Seq<char>, mark: char)
    requires
        quote_mark(mark),
        forall|i: int| 0 <= i < body.len() ==> body[i] != mark,
    ensures
        words(seq![mark] + body.push(mark)) == seq![body],
{
    let s = seq![mark] + body.push(mark);
    let none = Seq::<char>::empty();
    assert(s.drop_first() =~= body.push(mark) + none);
    lemma_quoted_stretch_ends_at_mark(body, mark, none);
    assert(first_word(none) == (none, none));
    assert(body + none =~= body);
    assert(first_word(s) == (body, none));
    assert(words(none) =~= Seq::<Seq<char>>::empty());
    assert(words(s) =~= seq![body]);
}

} // verus!

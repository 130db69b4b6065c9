//! What holds of every command that is split into words, stated on the characters of the command
//! and on the words that come out. Read from left to right, the laws settle every command: white
//! space first, then a plain character, a quoted stretch, or a quote that is never closed.
use vstd::prelude::*;

use crate::editor;
use crate::text;

verus! {

/// `longer` are the words `words` with `start` put before the first.
pub open spec fn starts_with(longer: Seq<String>, start: Seq<char>, words: Seq<String>) -> bool {
    &&& words.len() > 0
    &&& longer.len() == words.len()
    &&& longer[0]@ == start + words[0]@
    &&& forall|i: int| 1 <= i < words.len() ==> (#[trigger] longer[i])@ == words[i]@
}

/// `longer` are the words `words` with `word` before them, as a word of its own.
pub open spec fn comes_first(longer: Seq<String>, word: Seq<char>, words: Seq<String>) -> bool {
    &&& longer.len() == words.len() + 1
    &&& longer[0]@ == word
    &&& forall|i: int| 1 <= i < longer.len() ==> (#[trigger] longer[i])@ == words[i - 1]@
}

/// Nothing is left of the word that `rest` goes on from: it ends there.
pub open spec fn ends_a_word(rest: Seq<char>) -> bool {
    rest.len() == 0 || text::white_space(rest[0])
}

proof fn lemma_words_apart(words: Seq<String>, i: int)
    requires
        0 <= i < words.len(),
    ensures
        text::texts(words).len() == words.len(),
        text::texts(words)[i] == words[i]@,
{
}

/// A command without characters has no words.
pub proof fn law_nothing_has_no_words(command: &str, words: Vec<String>)
    requires
        call_ensures(editor::split_command, (command,), words),
        command@.len() == 0,
    ensures
        words@.len() == 0,
{
    assert(text::texts(words@).len() == words@.len());
}

/// White space before a command makes no difference to its words.
pub proof fn law_white_space_before_words_does_not_matter(
    command: &str,
    rest: &str,
    words: Vec<String>,
    others: Vec<String>,
)
    requires
        call_ensures(editor::split_command, (command,), words),
        call_ensures(editor::split_command, (rest,), others),
        command@.len() > 0,
        text::white_space(command@[0]),
        rest@ == command@.skip(1),
    ensures
        words@.len() == others@.len(),
        forall|i: int| 0 <= i < words@.len() ==> (#[trigger] words@[i])@ == others@[i]@,
{
    assert(command@.drop_first() =~= rest@);
    assert(text::texts(words@).len() == words@.len());
    assert(text::texts(others@).len() == others@.len());
    assert forall|i: int| 0 <= i < words@.len() implies (#[trigger] words@[i])@
        == others@[i]@ by {
        lemma_words_apart(words@, i);
        lemma_words_apart(others@, i);
    }
}

/// How the words of a command come of its first word and of the rest.
proof fn lemma_put_before(
    start: Seq<char>,
    command: Seq<char>,
    rest: Seq<char>,
    words: Seq<String>,
    others: Seq<String>,
)
    requires
        text::texts(words) == editor::words(command),
        text::texts(others) == editor::words(rest),
        command.len() > 0,
        !text::white_space(command.first()),
        editor::first_word(command) == (
            start + editor::first_word(rest).0,
            editor::first_word(rest).1,
        ),
    ensures
        ends_a_word(rest) ==> comes_first(words, start, others),
        !ends_a_word(rest) ==> starts_with(words, start, others),
{
    let (more, behind) = editor::first_word(rest);
    let all = editor::words(command);
    let tail = editor::words(rest);
    assert(all == seq![start + more] + editor::words(behind));
    assert(text::texts(words).len() == words.len());
    assert(text::texts(others).len() == others.len());
    if ends_a_word(rest) {
        assert(start + more =~= start);
        assert(behind == rest);
        lemma_words_apart(words, 0);
        assert forall|i: int| 1 <= i < words.len() implies (#[trigger] words[i])@ == others[i
            - 1]@ by {
            lemma_words_apart(words, i);
            lemma_words_apart(others, i - 1);
        }
    } else {
        assert(tail == seq![more] + editor::words(behind));
        lemma_words_apart(words, 0);
        lemma_words_apart(others, 0);
        assert forall|i: int| 1 <= i < others.len() implies (#[trigger] words[i])@
            == others[i]@ by {
            lemma_words_apart(words, i);
            lemma_words_apart(others, i);
        }
    }
}

/// A plain character stands as it is in the word that it begins: by itself where the word ends
/// behind it, before the first of the words that follow otherwise.
pub proof fn law_a_plain_character_begins_a_word(
    command: &str,
    rest: &str,
    words: Vec<String>,
    others: Vec<String>,
)
    requires
        call_ensures(editor::split_command, (command,), words),
        call_ensures(editor::split_command, (rest,), others),
        command@.len() > 0,
        !text::white_space(command@[0]),
        command@[0] != '\'',
        command@[0] != '"',
        rest@ == command@.skip(1),
    ensures
        ends_a_word(rest@) ==> comes_first(words@, seq![command@[0]], others@),
        !ends_a_word(rest@) ==> starts_with(words@, seq![command@[0]], others@),
{
    assert(command@.drop_first() =~= rest@);
    lemma_put_before(seq![command@[0]], command@, rest@, words@, others@);
}

proof fn lemma_stretch_ends_at_mark(body: Seq<char>, mark: char, behind: Seq<char>)
    requires
        forall|i: int| 0 <= i < body.len() ==> body[i] != mark,
    ensures
        editor::quoted_stretch(body + seq![mark] + behind, mark) == (body, behind),
    decreases body.len(),
{
    let s = body + seq![mark] + behind;
    if body.len() == 0 {
        assert(s.drop_first() =~= behind);
        assert(body =~= Seq::<char>::empty());
    } else {
        assert(s.drop_first() =~= body.drop_first() + seq![mark] + behind);
        lemma_stretch_ends_at_mark(body.drop_first(), mark, behind);
        assert(seq![s.first()] + body.drop_first() =~= body);
    }
}

/// What stands between two quote marks of a kind is part of one word, white space and all, and the
/// marks are not.
pub proof fn law_a_quoted_stretch_begins_a_word(
    command: &str,
    mark: char,
    body: Seq<char>,
    rest: &str,
    words: Vec<String>,
    others: Vec<String>,
)
    requires
        call_ensures(editor::split_command, (command,), words),
        call_ensures(editor::split_command, (rest,), others),
        mark == '\'' || mark == '"',
        forall|i: int| 0 <= i < body.len() ==> body[i] != mark,
        command@ == seq![mark] + body + seq![mark] + rest@,
    ensures
        ends_a_word(rest@) ==> comes_first(words@, body, others@),
        !ends_a_word(rest@) ==> starts_with(words@, body, others@),
{
    assert(command@.drop_first() =~= body + seq![mark] + rest@);
    lemma_stretch_ends_at_mark(body, mark, rest@);
    lemma_put_before(body, command@, rest@, words@, others@);
}

proof fn lemma_stretch_runs_to_the_end(body: Seq<char>, mark: char)
    requires
        forall|i: int| 0 <= i < body.len() ==> body[i] != mark,
    ensures
        editor::quoted_stretch(body, mark) == (body, Seq::<char>::empty()),
    decreases body.len(),
{
    if body.len() > 0 {
        lemma_stretch_runs_to_the_end(body.drop_first(), mark);
        assert(seq![body.first()] + body.drop_first() =~= body);
    } else {
        assert(body =~= Seq::<char>::empty());
    }
}

/// A quote that is never closed runs to the end of the command.
pub proof fn law_an_open_quote_runs_to_the_end(
    command: &str,
    mark: char,
    body: Seq<char>,
    words: Vec<String>,
)
    requires
        call_ensures(editor::split_command, (command,), words),
        mark == '\'' || mark == '"',
        forall|i: int| 0 <= i < body.len() ==> body[i] != mark,
        command@ == seq![mark] + body,
    ensures
        words@.len() == 1,
        words@[0]@ == body,
{
    let none = Seq::<char>::empty();
    assert(command@.drop_first() =~= body);
    lemma_stretch_runs_to_the_end(body, mark);
    assert(editor::first_word(none) == (none, none));
    assert(body + none =~= body);
    assert(editor::first_word(command@) == (body, none));
    assert(editor::words(none) =~= Seq::<Seq<char>>::empty());
    assert(editor::words(command@) =~= seq![body]);
    assert(text::texts(words@).len() == words@.len());
    lemma_words_apart(words@, 0);
}

} // verus!

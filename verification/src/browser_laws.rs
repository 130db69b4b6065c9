//! What holds of every URL that is guarded and of every opener template, stated on what goes into a
//! call and on what comes out of it, character by character and word by word.
use vstd::prelude::*;

use crate::browser;
use crate::editor;
use crate::markdown;
use crate::text;
use crate::text_laws;

verus! {

/// Control characters, and those that embed, override or isolate a writing direction, are hostile.
/// No others are.
pub proof fn law_hostile_characters(c: char, r: bool)
    requires
        call_ensures(markdown::hostile_char, (c,), r),
    ensures
        r <==> c <= '\u{1f}' || ('\u{7f}' <= c && c <= '\u{9f}') || ('\u{202a}' <= c && c
            <= '\u{202e}') || ('\u{2066}' <= c && c <= '\u{2069}'),
{
}

proof fn lemma_hostile_spelled(c: char)
    ensures
        !markdown::hostile(c) <==> '\u{1f}' < c && !('\u{7f}' <= c && c <= '\u{9f}') && !('\u{202a}'
            <= c && c <= '\u{202e}') && !('\u{2066}' <= c && c <= '\u{2069}'),
{
}

/// When a text is of the scheme `http`, and when of `https`.
proof fn lemma_schemes_spelled(t: Seq<char>)
    ensures
        browser::schemed(t, "http://"@) <==> t.len() > 7 && (t[0] == 'h' || t[0] == 'H') && (t[1]
            == 't' || t[1] == 'T') && (t[2] == 't' || t[2] == 'T') && (t[3] == 'p' || t[3] == 'P')
            && t[4] == ':' && t[5] == '/' && t[6] == '/',
        browser::schemed(t, "https://"@) <==> t.len() > 8 && (t[0] == 'h' || t[0] == 'H') && (t[1]
            == 't' || t[1] == 'T') && (t[2] == 't' || t[2] == 'T') && (t[3] == 'p' || t[3] == 'P')
            && (t[4] == 's' || t[4] == 'S') && t[5] == ':' && t[6] == '/' && t[7] == '/',
{
    reveal_strlit("http://");
    reveal_strlit("https://");
    let plain = "http://"@;
    let secure = "https://"@;
    if t.len() > 7 {
        let low = text::ascii_lowered(t.take(7));
        assert(low.len() == 7);
        assert forall|i: int| 0 <= i < 7 implies #[trigger] low[i] == text::ascii_lower(t[i]) by {}
        assert(low == plain ==> forall|i: int| 0 <= i < 7 ==> low[i] == #[trigger] plain[i]);
        assert((forall|i: int| 0 <= i < 7 ==> low[i] == #[trigger] plain[i]) ==> low =~= plain);
        assert(plain[0] == 'h' && plain[1] == 't' && plain[2] == 't' && plain[3] == 'p' && plain[4]
            == ':' && plain[5] == '/' && plain[6] == '/');
    }
    if t.len() > 8 {
        let low = text::ascii_lowered(t.take(8));
        assert(low.len() == 8);
        assert forall|i: int| 0 <= i < 8 implies #[trigger] low[i] == text::ascii_lower(t[i]) by {}
        assert(low == secure ==> forall|i: int| 0 <= i < 8 ==> low[i] == #[trigger] secure[i]);
        assert((forall|i: int| 0 <= i < 8 ==> low[i] == #[trigger] secure[i]) ==> low =~= secure);
        assert(secure[0] == 'h' && secure[1] == 't' && secure[2] == 't' && secure[3] == 'p'
            && secure[4] == 's' && secure[5] == ':' && secure[6] == '/' && secure[7] == '/');
    }
}

/// Every web URL opens, whatever stands behind its scheme: a text of which the first characters
/// are `http://` or `https://` in any case, which goes on behind them, and which holds no control
/// and no direction-changing character. White space round it is taken off, and nothing else is.
pub proof fn law_every_web_url_opens(
    url: &str,
    before: Seq<char>,
    t: Seq<char>,
    behind: Seq<char>,
    r: Result<&str, &'static str>,
)
    requires
        call_ensures(browser::openable_url, (url,), r),
        url@ == before + t + behind,
        forall|i: int| 0 <= i < before.len() ==> text::white_space(#[trigger] before[i]),
        forall|i: int| 0 <= i < behind.len() ==> text::white_space(#[trigger] behind[i]),
        t.len() > 7,
        !text::white_space(t[t.len() - 1]),
        t[0] == 'h' || t[0] == 'H',
        t[1] == 't' || t[1] == 'T',
        t[2] == 't' || t[2] == 'T',
        t[3] == 'p' || t[3] == 'P',
        (t[4] == ':' && t[5] == '/' && t[6] == '/') || (t.len() > 8 && (t[4] == 's' || t[4] == 'S')
            && t[5] == ':' && t[6] == '/' && t[7] == '/'),
        forall|i: int|
            0 <= i < t.len() ==> {
                let c = #[trigger] t[i];
                '\u{1f}' < c && !('\u{7f}' <= c && c <= '\u{9f}') && !('\u{202a}' <= c && c
                    <= '\u{202e}') && !('\u{2066}' <= c && c <= '\u{2069}')
            },
    ensures
        r matches Ok(opened) && opened@ == t,
{
    text::lemma_trimmed_of_padded(before, t, behind);
    assert(text::trim_start(t) == t);
    assert(text::trimmed(t) == t);
    lemma_schemes_spelled(t);
    assert forall|i: int| 0 <= i < t.len() implies !markdown::hostile(#[trigger] t[i]) by {
        lemma_hostile_spelled(t[i]);
    }
}

/// Nothing else opens: what is let through is a stretch of the text with white space alone round
/// it, is spelled as a web URL, goes on behind the scheme, and holds no control and no
/// direction-changing character.
pub proof fn law_only_web_urls_open(
    url: &str,
    opened: &str,
    r: Result<&str, &'static str>,
) -> (cut: (int, int))
    requires
        call_ensures(browser::openable_url, (url,), r),
        r == Ok::<&str, &'static str>(opened),
    ensures
        0 <= cut.0 <= cut.1 <= url@.len(),
        opened@ == url@.subrange(cut.0, cut.1),
        forall|i: int| 0 <= i < cut.0 ==> text::white_space(#[trigger] url@[i]),
        forall|i: int| cut.1 <= i < url@.len() ==> text::white_space(#[trigger] url@[i]),
        opened@.len() > 7,
        !text::white_space(opened@[opened@.len() - 1]),
        opened@[0] == 'h' || opened@[0] == 'H',
        opened@[1] == 't' || opened@[1] == 'T',
        opened@[2] == 't' || opened@[2] == 'T',
        opened@[3] == 'p' || opened@[3] == 'P',
        (opened@[4] == ':' && opened@[5] == '/' && opened@[6] == '/') || (opened@.len() > 8 && (
        opened@[4] == 's' || opened@[4] == 'S') && opened@[5] == ':' && opened@[6] == '/'
            && opened@[7] == '/'),
        forall|i: int|
            0 <= i < opened@.len() ==> {
                let c = #[trigger] opened@[i];
                '\u{1f}' < c && !('\u{7f}' <= c && c <= '\u{9f}') && !('\u{202a}' <= c && c
                    <= '\u{202e}') && !('\u{2066}' <= c && c <= '\u{2069}')
            },
{
    let t = text::trimmed(url@);
    let cut = text_laws::lemma_trimmed_is_a_stretch(url@);
    lemma_schemes_spelled(t);
    assert forall|i: int| 0 <= i < t.len() implies {
        let c = #[trigger] t[i];
        '\u{1f}' < c && !('\u{7f}' <= c && c <= '\u{9f}') && !('\u{202a}' <= c && c <= '\u{202e}')
            && !('\u{2066}' <= c && c <= '\u{2069}')
    } by {
        lemma_hostile_spelled(t[i]);
        assert(markdown::hostile(t[i]) ==> markdown::holds_hostile(t));
    }
    cut
}

/// A URL that is refused is always answered in the same words.
pub proof fn law_a_refusal_names_the_scheme(
    url: &str,
    answer: &'static str,
    r: Result<&str, &'static str>,
)
    requires
        call_ensures(browser::openable_url, (url,), r),
        r == Err::<&str, &'static str>(answer),
    ensures
        answer@ == "unsupported link scheme"@,
{
}

proof fn lemma_placeholder_spelled()
    ensures
        browser::placeholder() == seq!['{', 'u', 'r', 'l', '}'],
{
    reveal_strlit("{url}");
    assert("{url}"@ =~= seq!['{', 'u', 'r', 'l', '}']);
}

/// There is a program exactly where the words have a first one that is not empty once the URL is
/// put in.
pub proof fn law_there_is_a_program_unless_the_first_word_is_empty(
    words: Vec<String>,
    names_url: bool,
    url: &str,
    r: Option<(String, Vec<String>)>,
)
    requires
        call_ensures(browser::words_argv, (&words, names_url, url), r),
    ensures
        words@.len() == 0 ==> r is None,
        words@.len() > 0 ==> (r is None <==> text::replaced(
            words@[0]@,
            seq!['{', 'u', 'r', 'l', '}'],
            url@,
        ).len() == 0),
{
    lemma_placeholder_spelled();
    lemma_argv_by_words(words, names_url, url, r);
}

/// The contract of `words_argv`, word by word.
proof fn lemma_argv_by_words(
    words: Vec<String>,
    names_url: bool,
    url: &str,
    r: Option<(String, Vec<String>)>,
)
    requires
        browser::argv_view(r) == browser::argv(text::texts(words@), names_url, url@),
    ensures
        words@.len() == 0 ==> r is None,
        words@.len() > 0 ==> (r is None <==> browser::filled(words@[0]@, url@).len() == 0),
        r matches Some((program, args)) ==> {
            &&& words@.len() > 0
            &&& program@ == browser::filled(words@[0]@, url@)
            &&& args@.len() == words@.len() - (if names_url {
                1int
            } else {
                0int
            })
            &&& forall|i: int|
                0 <= i < words@.len() - 1 ==> (#[trigger] args@[i])@ == browser::filled(
                    words@[i + 1]@,
                    url@,
                )
            &&& !names_url ==> args@[words@.len() - 1]@ == url@
        },
{
    let said = text::texts(words@);
    let full = browser::all_filled(said, url@);
    assert(said.len() == words@.len());
    assert(full.len() == words@.len());
    if words@.len() > 0 {
        assert(said[0] == words@[0]@);
        assert(full[0] == browser::filled(words@[0]@, url@));
    }
    if let Some((program, args)) = r {
        let texts = text::texts(args@);
        assert(texts.len() == args@.len());
        assert forall|i: int| 0 <= i < words@.len() - 1 implies (#[trigger] args@[i])@
            == browser::filled(words@[i + 1]@, url@) by {
            assert(texts[i] == args@[i]@);
            assert(full[i + 1] == browser::filled(said[i + 1], url@));
        }
        if !names_url {
            assert(texts[words@.len() - 1] == args@[words@.len() - 1]@);
        }
    }
}

/// Every word keeps its place: the program is the first word, argument `i` is the word behind
/// argument `i - 1`, each with `{url}` replaced, and where the template does not name the URL, the
/// URL stands last, behind all of them.
pub proof fn law_every_word_keeps_its_place(
    words: Vec<String>,
    names_url: bool,
    url: &str,
    program: String,
    args: Vec<String>,
)
    requires
        call_ensures(browser::words_argv, (&words, names_url, url), Some((program, args))),
    ensures
        words@.len() > 0,
        program@ == text::replaced(words@[0]@, seq!['{', 'u', 'r', 'l', '}'], url@),
        forall|i: int|
            0 <= i < words@.len() - 1 ==> (#[trigger] args@[i])@ == text::replaced(
                words@[i + 1]@,
                seq!['{', 'u', 'r', 'l', '}'],
                url@,
            ),
        names_url ==> args@.len() == words@.len() - 1,
        !names_url ==> args@.len() == words@.len() && args@[args@.len() - 1]@ == url@,
{
    lemma_placeholder_spelled();
    lemma_argv_by_words(words, names_url, url, Some((program, args)));
}

/// The arguments of a template are its words, as they are, and the URL comes behind all of them,
/// where neither the template nor a word of it holds `{url}`.
pub proof fn law_an_unnamed_url_stands_last(
    template: &str,
    url: &str,
    words: Vec<String>,
    r: Option<(String, Vec<String>)>,
)
    requires
        call_ensures(browser::opener_argv, (template, url), r),
        call_ensures(editor::split_command, (template,), words),
        words@.len() > 0,
        words@[0]@.len() > 0,
        forall|at: int|
            0 <= at <= template@.len() ==> !seq!['{', 'u', 'r', 'l', '}'].is_prefix_of(
                #[trigger] template@.skip(at),
            ),
        forall|i: int, at: int|
            0 <= i < words@.len() && 0 <= at <= words@[i]@.len() ==> !seq![
                '{',
                'u',
                'r',
                'l',
                '}',
            ].is_prefix_of(#[trigger] words@[i]@.skip(at)),
    ensures
        r matches Some((program, args)) && {
            &&& program@ == words@[0]@
            &&& args@.len() == words@.len()
            &&& forall|i: int|
                0 <= i < words@.len() - 1 ==> (#[trigger] args@[i])@ == words@[i + 1]@
            &&& args@[args@.len() - 1]@ == url@
        },
{
    lemma_placeholder_spelled();
    text_laws::lemma_holds_is_a_prefix_somewhere(template@, browser::placeholder());
    lemma_argv_by_words(words, false, url, r);
    assert forall|i: int| 0 <= i < words@.len() implies browser::filled(
        #[trigger] words@[i]@,
        url@,
    ) == words@[i]@ by {
        text_laws::lemma_holds_is_a_prefix_somewhere(words@[i]@, browser::placeholder());
        text::lemma_replaced_without_pattern(words@[i]@, browser::placeholder(), url@);
    }
}

/// Without quote marks a first word and what is left behind it make up the text.
proof fn lemma_plain_first_word(s: Seq<char>)
    requires
        forall|i: int| 0 <= i < s.len() ==> !editor::quote_mark(#[trigger] s[i]),
    ensures
        s == editor::first_word(s).0 + editor::first_word(s).1,
        s.len() > 0 && !text::white_space(s[0]) ==> editor::first_word(s).0.len() > 0,
    decreases s.len(),
{
    if s.len() > 0 && !text::white_space(s.first()) {
        let tail = s.drop_first();
        assert forall|i: int| 0 <= i < tail.len() implies !editor::quote_mark(
            #[trigger] tail[i],
        ) by {
            assert(tail[i] == s[i + 1]);
        }
        lemma_plain_first_word(tail);
        let (more, rest) = editor::first_word(tail);
        assert(seq![s.first()] + more + rest =~= seq![s.first()] + (more + rest));
        assert(seq![s.first()] + tail =~= s);
    } else {
        assert(Seq::<char>::empty() + s =~= s);
    }
}

/// Without quote marks a word holds nothing that the text does not hold, and is never empty.
proof fn lemma_plain_words(s: Seq<char>, pattern: Seq<char>, i: int)
    requires
        forall|k: int| 0 <= k < s.len() ==> !editor::quote_mark(#[trigger] s[k]),
        0 <= i < editor::words(s).len(),
    ensures
        text::holds(editor::words(s)[i], pattern) ==> text::holds(s, pattern),
        editor::words(s)[i].len() > 0,
    decreases s.len(),
{
    if text::white_space(s.first()) {
        let tail = s.drop_first();
        assert forall|k: int| 0 <= k < tail.len() implies !editor::quote_mark(
            #[trigger] tail[k],
        ) by {
            assert(tail[k] == s[k + 1]);
        }
        lemma_plain_words(tail, pattern, i);
        if text::holds(tail, pattern) {
            text::lemma_holds_within(seq![s.first()], tail, Seq::empty(), pattern);
            assert(seq![s.first()] + tail + Seq::<char>::empty() =~= s);
        }
    } else {
        let (word, rest) = editor::first_word(s);
        lemma_plain_first_word(s);
        editor::lemma_first_word_shrinks(s);
        if i == 0 {
            if text::holds(word, pattern) {
                text::lemma_holds_within(Seq::empty(), word, rest, pattern);
                assert(Seq::<char>::empty() + word + rest =~= s);
            }
        } else {
            assert forall|k: int| 0 <= k < rest.len() implies !editor::quote_mark(
                #[trigger] rest[k],
            ) by {
                assert(rest[k] == s[word.len() + k]);
            }
            lemma_plain_words(rest, pattern, i - 1);
            assert(editor::words(s)[i] == editor::words(rest)[i - 1]);
            if text::holds(rest, pattern) {
                text::lemma_holds_within(word, rest, Seq::empty(), pattern);
                assert(word + rest + Seq::<char>::empty() =~= s);
            }
        }
    }
}

/// A template without quote marks that does not hold `{url}` is started as it stands, with the URL
/// behind its last word.
pub proof fn law_a_plain_template_is_followed_by_the_url(
    template: &str,
    url: &str,
    words: Vec<String>,
    r: Option<(String, Vec<String>)>,
)
    requires
        call_ensures(browser::opener_argv, (template, url), r),
        call_ensures(editor::split_command, (template,), words),
        words@.len() > 0,
        forall|i: int|
            0 <= i < template@.len() ==> #[trigger] template@[i] != '\'' && template@[i] != '"',
        forall|at: int|
            0 <= at <= template@.len() ==> !seq!['{', 'u', 'r', 'l', '}'].is_prefix_of(
                #[trigger] template@.skip(at),
            ),
    ensures
        r matches Some((program, args)) && {
            &&& program@ == words@[0]@
            &&& args@.len() == words@.len()
            &&& forall|i: int|
                0 <= i < words@.len() - 1 ==> (#[trigger] args@[i])@ == words@[i + 1]@
            &&& args@[args@.len() - 1]@ == url@
        },
{
    let name = seq!['{', 'u', 'r', 'l', '}'];
    text_laws::lemma_holds_is_a_prefix_somewhere(template@, name);
    let said = text::texts(words@);
    assert forall|i: int| 0 <= i < words@.len() implies (#[trigger] words@[i])@.len() > 0
        && !text::holds(words@[i]@, name) by {
        assert(said[i] == words@[i]@);
        lemma_plain_words(template@, name, i);
    }
    assert forall|i: int, at: int|
        0 <= i < words@.len() && 0 <= at <= words@[i]@.len() implies !name.is_prefix_of(
        #[trigger] words@[i]@.skip(at),
    ) by {
        text_laws::lemma_holds_is_a_prefix_somewhere(words@[i]@, name);
    }
    law_an_unnamed_url_stands_last(template, url, words, r);
}

/// Whatever the template is, its words keep their places with `{url}` replaced in each, and the
/// URL comes behind them where the template does not hold `{url}`, and only there.
pub proof fn law_the_template_settles_the_arguments(
    template: &str,
    url: &str,
    words: Vec<String>,
    r: Option<(String, Vec<String>)>,
)
    requires
        call_ensures(browser::opener_argv, (template, url), r),
        call_ensures(editor::split_command, (template,), words),
    ensures
        r is None <==> words@.len() == 0 || text::replaced(
            words@[0]@,
            seq!['{', 'u', 'r', 'l', '}'],
            url@,
        ).len() == 0,
        r matches Some((program, args)) ==> {
            &&& program@ == text::replaced(words@[0]@, seq!['{', 'u', 'r', 'l', '}'], url@)
            &&& forall|i: int|
                0 <= i < words@.len() - 1 ==> (#[trigger] args@[i])@ == text::replaced(
                    words@[i + 1]@,
                    seq!['{', 'u', 'r', 'l', '}'],
                    url@,
                )
            &&& if exists|at: int|
                0 <= at <= template@.len() && seq!['{', 'u', 'r', 'l', '}'].is_prefix_of(
                    #[trigger] template@.skip(at),
                ) {
                args@.len() == words@.len() - 1
            } else {
                args@.len() == words@.len() && args@[args@.len() - 1]@ == url@
            }
        },
{
    lemma_placeholder_spelled();
    text_laws::lemma_holds_is_a_prefix_somewhere(template@, browser::placeholder());
    lemma_argv_by_words(
        words,
        text::holds(template@, browser::placeholder()),
        url,
        r,
    );
}

/// A word that holds `{url}` once becomes the argument with the URL in that place, between what
/// stood before and behind it.
pub proof fn law_the_url_stands_where_it_is_named(
    words: Vec<String>,
    names_url: bool,
    url: &str,
    program: String,
    args: Vec<String>,
    i: int,
    before: Seq<char>,
    behind: Seq<char>,
)
    requires
        call_ensures(browser::words_argv, (&words, names_url, url), Some((program, args))),
        0 <= i < words@.len(),
        words@[i]@ == before + seq!['{', 'u', 'r', 'l', '}'] + behind,
        forall|at: int|
            0 <= at <= words@[i]@.len() && at != before.len() ==> !seq![
                '{',
                'u',
                'r',
                'l',
                '}',
            ].is_prefix_of(#[trigger] words@[i]@.skip(at)),
    ensures
        i == 0 ==> program@ == before + url@ + behind,
        i > 0 ==> args@[i - 1]@ == before + url@ + behind,
{
    let name = seq!['{', 'u', 'r', 'l', '}'];
    let word = words@[i]@;
    lemma_placeholder_spelled();
    lemma_argv_by_words(words, names_url, url, Some((program, args)));
    text_laws::lemma_replaced_from_left(word, name, url@, before, behind);
    text_laws::lemma_holds_is_a_prefix_somewhere(behind, name);
    if text::holds(behind, name) {
        let at = choose|at: int|
            0 <= at <= behind.len() && name.is_prefix_of(#[trigger] behind.skip(at));
        assert(word.skip(before.len() + name.len() + at) =~= behind.skip(at));
    }
    text::lemma_replaced_without_pattern(behind, name, url@);
    if i > 0 {
        assert(args@[i - 1]@ == browser::filled(word, url@));
    }
}

} // verus!

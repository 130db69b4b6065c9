//! Opening a URL in the user's browser.
//!
//! A configured opener wins; otherwise the host platform's default is used.
use vstd::prelude::*;

use crate::editor;
use crate::markdown;
use crate::text;

verus! {

/// `s` starts with `scheme`, whatever the case of its ASCII letters, and goes on behind it.
pub open spec fn schemed(s: Seq<char>, scheme: Seq<char>) -> bool {
    s.len() > scheme.len() && text::ascii_lowered(s.take(scheme.len() as int)) == scheme
}

/// What may reach the opener, white space at its ends aside: an `http` or `https` URL with
/// something behind the scheme and without hostile characters.
pub open spec fn openable(url: Seq<char>) -> bool {
    let t = text::trimmed(url);
    &&& !markdown::holds_hostile(t)
    &&& schemed(t, "http://"@) || schemed(t, "https://"@)
}

/// Whether `s` starts with `scheme` and goes on behind it.
fn has_scheme(s: &Vec<char>, scheme: &str) -> (r: bool)
    ensures
        r == schemed(s@, scheme@),
{
    let wanted = text::chars_of(scheme);
    if s.len() <= wanted.len() {
        return false;
    }
    for i in 0..wanted.len()
        invariant
            s.len() > wanted.len(),
            wanted@ == scheme@,
            forall|j: int| 0 <= j < i ==> text::ascii_lower(s@[j]) == #[trigger] wanted@[j],
    {
        if text::to_ascii_lower(s[i]) != wanted[i] {
            assert(text::ascii_lowered(s@.take(wanted@.len() as int))[i as int]
                == text::ascii_lower(s@[i as int]));
            return false;
        }
    }
    assert(text::ascii_lowered(s@.take(wanted@.len() as int)) =~= wanted@);
    true
}

/// Guard a markdown link destination before it reaches the opener: trimmed, `http://` or
/// `https://` in any case with something behind the scheme, and no control or direction-changing
/// character anywhere.
pub fn openable_url(url: &str) -> (r: Result<&str, &'static str>)
    ensures
        match r {
            Ok(t) => openable(url@) && t@ == text::trimmed(url@),
            Err(m) => !openable(url@) && m@ == "unsupported link scheme"@,
        },
{
    let trimmed = text::trim(url);
    let all = text::chars_of(trimmed);
    let mut hostile = false;
    for i in 0..all.len()
        invariant
            hostile == exists|j: int| 0 <= j < i && markdown::hostile(#[trigger] all@[j]),
    {
        if markdown::hostile_char(all[i]) {
            hostile = true;
        }
    }
    if !hostile && (has_scheme(&all, "http://") || has_scheme(&all, "https://")) {
        Ok(trimmed)
    } else {
        Err("unsupported link scheme")
    }
}

/// Where the URL goes in an opener's words.
pub open spec fn placeholder() -> Seq<char> {
    "{url}"@
}

/// `word` with the URL put in.
pub open spec fn filled(word: Seq<char>, url: Seq<char>) -> Seq<char> {
    text::replaced(word, placeholder(), url)
}

/// Each of `words` with the URL put in.
pub open spec fn all_filled(words: Seq<Seq<char>>, url: Seq<char>) -> Seq<Seq<char>> {
    words.map_values(|w: Seq<char>| filled(w, url))
}

/// The program and the arguments that come of a template's `words`: the URL is put in where they
/// name it, and stands last where the template does not (`names_url`).
pub open spec fn argv(words: Seq<Seq<char>>, names_url: bool, url: Seq<char>) -> Option<
    (Seq<char>, Seq<Seq<char>>),
> {
    let full = all_filled(words, url);
    if full.len() == 0 || full.first().len() == 0 {
        None
    } else if names_url {
        Some((full.first(), full.drop_first()))
    } else {
        Some((full.first(), full.drop_first().push(url)))
    }
}

/// The program and the arguments that come of `template`.
pub open spec fn template_argv(template: Seq<char>, url: Seq<char>) -> Option<
    (Seq<char>, Seq<Seq<char>>),
> {
    argv(editor::words(template), text::holds(template, placeholder()), url)
}

/// What a program and its arguments say.
pub open spec fn argv_view(r: Option<(String, Vec<String>)>) -> Option<
    (Seq<char>, Seq<Seq<char>>),
> {
    match r {
        Some((program, args)) => Some((program@, text::texts(args@))),
        None => None,
    }
}

/// The program and arguments for the words of an opener template. `names_url` says whether the
/// template names the URL; where it does not, the URL is appended.
pub fn words_argv(words: &Vec<String>, names_url: bool, url: &str) -> (r: Option<
    (String, Vec<String>),
>)
    ensures
        argv_view(r) == argv(text::texts(words@), names_url, url@),
{
    proof {
        reveal_strlit("{url}");
    }
    if words.len() == 0 {
        return None;
    }
    let program = text::replace(words[0].as_str(), "{url}", url);
    if program.as_str().is_empty() {
        return None;
    }
    let ghost full = all_filled(text::texts(words@), url@);
    let mut args: Vec<String> = Vec::new();
    for i in 1..words.len()
        invariant
            "{url}"@.len() > 0,
            full == all_filled(text::texts(words@), url@),
            text::texts(args@) == full.subrange(1, i as int),
    {
        let ghost before = args@;
        args.push(text::replace(words[i].as_str(), "{url}", url));
        assert(text::texts(args@) =~= text::texts(before).push(full[i as int]));
    }
    assert(full.subrange(1, words@.len() as int) =~= full.drop_first());
    if !names_url {
        let ghost before = args@;
        args.push(url.to_owned());
        assert(text::texts(args@) =~= text::texts(before).push(url@));
    }
    Some((program, args))
}

/// The configured opener's program and arguments: `template` split into words the way the
/// `editor` setting is, `{url}` substituted in each word, so that a URL never splits, and the URL
/// appended where the template does not name it.
pub fn opener_argv(template: &str, url: &str) -> (r: Option<(String, Vec<String>)>)
    ensures
        argv_view(r) == template_argv(template@, url@),
{
    let names_url = text::contains(template, "{url}");
    let words = editor::split_command(template);
    words_argv(&words, names_url, url)
}

/// A URL that was let through is let through again, and is not changed again.
pub proof fn law_guarding_twice_changes_nothing(url: Seq<char>)
    ensures
        text::trimmed(text::trimmed(url)) == text::trimmed(url),
        openable(text::trimmed(url)) == openable(url),
{
    text::lemma_trimmed_twice(url);
}

/// White space round a URL changes neither whether it opens nor what is opened.
pub proof fn law_white_space_round_a_url_does_not_matter(
    before: Seq<char>,
    url: Seq<char>,
    behind: Seq<char>,
)
    requires
        forall|i: int| 0 <= i < before.len() ==> text::white_space(#[trigger] before[i]),
        forall|i: int| 0 <= i < behind.len() ==> text::white_space(#[trigger] behind[i]),
    ensures
        text::trimmed(before + url + behind) == text::trimmed(url),
        openable(before + url + behind) == openable(url),
{
    text::lemma_trimmed_of_padded(before, url, behind);
}

/// The case of ASCII letters does not decide whether a URL opens.
pub proof fn law_case_of_letters_does_not_matter(a: Seq<char>, b: Seq<char>)
    requires
        text::ascii_lowered(a) == text::ascii_lowered(b),
    ensures
        openable(a) == openable(b),
{
    text::lemma_trimmed_ignoring_case(a, b);
    let s = text::trimmed(a);
    let t = text::trimmed(b);
    lemma_openable_part(s, t);
    lemma_openable_part(t, s);
}

proof fn lemma_openable_part(s: Seq<char>, t: Seq<char>)
    requires
        text::ascii_lowered(s) == text::ascii_lowered(t),
    ensures
        markdown::holds_hostile(s) ==> markdown::holds_hostile(t),
        forall|scheme: Seq<char>| #[trigger] schemed(s, scheme) ==> schemed(t, scheme),
{
    assert(text::ascii_lowered(s).len() == s.len());
    assert(text::ascii_lowered(t).len() == t.len());
    if markdown::holds_hostile(s) {
        let i = choose|i: int| 0 <= i < s.len() && markdown::hostile(#[trigger] s[i]);
        assert(text::ascii_lowered(s)[i] == text::ascii_lower(s[i]));
        assert(text::ascii_lowered(t)[i] == text::ascii_lower(t[i]));
        assert(markdown::hostile(t[i]));
    }
    assert forall|scheme: Seq<char>| #[trigger] schemed(s, scheme) implies schemed(t, scheme) by {
        let n = scheme.len() as int;
        assert(text::ascii_lowered(s.take(n)) =~= text::ascii_lowered(s).take(n));
        assert(text::ascii_lowered(t.take(n)) =~= text::ascii_lowered(t).take(n));
    }
}

/// A URL never splits, and stands behind the other arguments only where the template does not
/// name it: how many arguments there are is settled by the template.
pub proof fn law_a_url_never_splits(template: Seq<char>, url: Seq<char>)
    ensures
        template_argv(template, url) matches Some((program, args)) ==> args.len() + 1
            == editor::words(template).len() + if text::holds(template, placeholder()) {
            0int
        } else {
            1int
        },
{
}

/// The opener always gets the URL: it stands, whole, in the program or in one of the arguments.
pub proof fn law_the_opener_gets_the_url(template: Seq<char>, url: Seq<char>)
    ensures
        template_argv(template, url) matches Some((program, args)) ==> text::holds(program, url)
            || exists|i: int| 0 <= i < args.len() && text::holds(#[trigger] args[i], url),
{
    reveal_strlit("{url}");
    let words = editor::words(template);
    if let Some((program, args)) = template_argv(template, url) {
        if text::holds(template, placeholder()) {
            editor::law_plain_text_stays_in_one_word(template, placeholder());
            let i = choose|i: int|
                0 <= i < words.len() && text::holds(#[trigger] words[i], placeholder());
            text::lemma_replaced_holds_replacement(words[i], placeholder(), url);
            if i == 0 {
                assert(program == filled(words[0], url));
            } else {
                assert(args[i - 1] == filled(words[i], url));
            }
        } else {
            assert(args.last() == url);
            assert(url.subrange(0, url.len() as int) =~= url);
            assert(text::stands_at(url, url, 0));
            assert(text::holds(args[args.len() - 1], url));
        }
    }
}

/// A word that does not name the URL stays as it is, and one that is nothing but its name becomes
/// the URL, whatever the URL holds: what was put in is not searched again.
pub proof fn law_the_url_is_put_in_once(word: Seq<char>, url: Seq<char>)
    ensures
        !text::holds(word, placeholder()) ==> filled(word, url) == word,
        word == placeholder() ==> filled(word, url) == url,
{
    reveal_strlit("{url}");
    if !text::holds(word, placeholder()) {
        text::lemma_replaced_without_pattern(word, placeholder(), url);
    }
    if word == placeholder() {
        assert(word.subrange(0, word.len() as int) =~= word);
        assert(word.skip(word.len() as int) =~= Seq::<char>::empty());
        assert(text::replaced(Seq::empty(), placeholder(), url) == Seq::<char>::empty());
        assert(url + Seq::<char>::empty() =~= url);
    }
}

} // verus!

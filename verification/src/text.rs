//! Text helpers: white space, ASCII case, searching and replacing.
use vstd::prelude::*;

verus! {

/// `String::push` puts `c` behind the characters that `s` holds and changes nothing else.
pub assume_specification[ String::push ](s: &mut String, c: char)
    ensures
        final(s)@ == old(s)@.push(c),
;

/// The characters with the Unicode property `White_Space`.
pub open spec fn white_space(c: char) -> bool {
    let u = c as u32;
    ||| 0x09 <= u <= 0x0d
    ||| u == 0x20
    ||| u == 0x85
    ||| u == 0xa0
    ||| u == 0x1680
    ||| 0x2000 <= u <= 0x200a
    ||| 0x2028 <= u <= 0x2029
    ||| u == 0x202f
    ||| u == 0x205f
    ||| u == 0x3000
}

/// `s` without the white space it starts with.
pub open spec fn trim_start(s: Seq<char>) -> Seq<char>
    decreases s.len(),
{
    if s.len() > 0 && white_space(s.first()) {
        trim_start(s.drop_first())
    } else {
        s
    }
}

/// `s` without the white space it ends with.
pub open spec fn trim_end(s: Seq<char>) -> Seq<char>
    decreases s.len(),
{
    if s.len() > 0 && white_space(s.last()) {
        trim_end(s.drop_last())
    } else {
        s
    }
}

/// `s` without the white space at either end.
pub open spec fn trimmed(s: Seq<char>) -> Seq<char> {
    trim_end(trim_start(s))
}

/// `c` with an upper-case ASCII letter made lower case.
pub open spec fn ascii_lower(c: char) -> char {
    if 'A' <= c && c <= 'Z' {
        (c as u8 + 32) as char
    } else {
        c
    }
}

/// `s` with every upper-case ASCII letter made lower case.
pub open spec fn ascii_lowered(s: Seq<char>) -> Seq<char> {
    s.map_values(|c: char| ascii_lower(c))
}

/// `pattern` stands in `s` from position `at` on.
pub open spec fn stands_at(s: Seq<char>, pattern: Seq<char>, at: int) -> bool {
    0 <= at && at + pattern.len() <= s.len() && s.subrange(at, at + pattern.len()) == pattern
}

/// `pattern` stands somewhere in `s`.
pub open spec fn holds(s: Seq<char>, pattern: Seq<char>) -> bool {
    exists|at: int| stands_at(s, pattern, at)
}

/// `s` with each occurrence of `pattern` replaced by `with`, found from left to right; what was
/// put in is not searched again.
pub open spec fn replaced(s: Seq<char>, pattern: Seq<char>, with: Seq<char>) -> Seq<char>
    decreases s.len(),
{
    if pattern.len() == 0 || s.len() < pattern.len() {
        s
    } else if stands_at(s, pattern, 0) {
        with + replaced(s.skip(pattern.len() as int), pattern, with)
    } else {
        seq![s.first()] + replaced(s.drop_first(), pattern, with)
    }
}

/// What each of `strings` says.
pub open spec fn texts(strings: Seq<String>) -> Seq<Seq<char>> {
    strings.map_values(|s: String| s@)
}

/// Whether `c` is white space.
pub fn is_white_space(c: char) -> (r: bool)
    ensures
        r == white_space(c),
{
    let u: u32 = c as u32;
    (0x09 <= u && u <= 0x0d) || u == 0x20 || u == 0x85 || u == 0xa0 || u == 0x1680 || (0x2000 <= u
        && u <= 0x200a) || u == 0x2028 || u == 0x2029 || u == 0x202f || u == 0x205f || u == 0x3000
}

/// `c` in lower case, where it is an upper-case ASCII letter.
pub fn to_ascii_lower(c: char) -> (r: char)
    ensures
        r == ascii_lower(c),
{
    if 'A' <= c && c <= 'Z' {
        (c as u8 + 32) as char
    } else {
        c
    }
}

/// The characters of `s`.
pub fn chars_of(s: &str) -> (r: Vec<char>)
    ensures
        r@ == s@,
{
    let mut r: Vec<char> = Vec::new();
    for c in it: s.chars()
        invariant
            r@ == it.seq().take(it.index()),
    {
        r.push(c);
    }
    r
}

proof fn lemma_trim_start_skips(s: Seq<char>, n: int)
    requires
        0 <= n <= s.len(),
        forall|i: int| 0 <= i < n ==> white_space(#[trigger] s[i]),
    ensures
        trim_start(s) == trim_start(s.skip(n)),
    decreases n,
{
    if n > 0 {
        lemma_trim_start_skips(s.drop_first(), n - 1);
        assert(s.drop_first().skip(n - 1) =~= s.skip(n));
    } else {
        assert(s.skip(0) =~= s);
    }
}

proof fn lemma_trim_end_takes(s: Seq<char>, n: int)
    requires
        0 <= n <= s.len(),
        forall|i: int| n <= i < s.len() ==> white_space(#[trigger] s[i]),
    ensures
        trim_end(s) == trim_end(s.take(n)),
    decreases s.len() - n,
{
    if n < s.len() {
        lemma_trim_end_takes(s.drop_last(), n);
        assert(s.drop_last().take(n) =~= s.take(n));
    } else {
        assert(s.take(n) =~= s);
    }
}

/// White space before and behind a text makes no difference to what trimming leaves of it.
pub proof fn lemma_trimmed_of_padded(before: Seq<char>, s: Seq<char>, behind: Seq<char>)
    requires
        forall|i: int| 0 <= i < before.len() ==> white_space(#[trigger] before[i]),
        forall|i: int| 0 <= i < behind.len() ==> white_space(#[trigger] behind[i]),
    ensures
        trimmed(before + s + behind) == trimmed(s),
{
    let whole = before + s + behind;
    lemma_trim_start_skips(whole, before.len() as int);
    assert(whole.skip(before.len() as int) =~= s + behind);
    lemma_trim_start_of_appended(s, behind);
    if trim_start(s).len() > 0 {
        let t = trim_start(s) + behind;
        lemma_trim_end_takes(t, trim_start(s).len() as int);
        assert(t.take(trim_start(s).len() as int) =~= trim_start(s));
    }
}

proof fn lemma_trim_start_of_appended(s: Seq<char>, behind: Seq<char>)
    requires
        forall|i: int| 0 <= i < behind.len() ==> white_space(#[trigger] behind[i]),
    ensures
        trim_start(s + behind) == if trim_start(s).len() > 0 {
            trim_start(s) + behind
        } else {
            Seq::empty()
        },
    decreases s.len(),
{
    if s.len() == 0 {
        assert(s + behind =~= behind);
        lemma_trim_start_skips(behind, behind.len() as int);
        assert(behind.skip(behind.len() as int) =~= Seq::empty());
    } else if white_space(s.first()) {
        assert((s + behind).drop_first() =~= s.drop_first() + behind);
        lemma_trim_start_of_appended(s.drop_first(), behind);
    }
}

/// Trimming is done once: what it leaves starts and ends with something else than white space.
pub proof fn lemma_trimmed_twice(s: Seq<char>)
    ensures
        trimmed(trimmed(s)) == trimmed(s),
{
    lemma_trim_start_stops(s);
    lemma_trim_end_stops(trim_start(s));
    let t = trimmed(s);
    if t.len() > 0 {
        assert(t.first() == trim_start(s).first());
    }
}

proof fn lemma_trim_start_stops(s: Seq<char>)
    ensures
        trim_start(s).len() > 0 ==> !white_space(trim_start(s).first()),
    decreases s.len(),
{
    if s.len() > 0 && white_space(s.first()) {
        lemma_trim_start_stops(s.drop_first());
    }
}

proof fn lemma_trim_end_stops(s: Seq<char>)
    ensures
        trim_end(s).len() > 0 ==> !white_space(trim_end(s).last()) && trim_end(s).first()
            == s.first(),
    decreases s.len(),
{
    if s.len() > 0 && white_space(s.last()) {
        lemma_trim_end_stops(s.drop_last());
    }
}

/// Texts that differ in the case of ASCII letters alone are trimmed alike.
pub proof fn lemma_trimmed_ignoring_case(a: Seq<char>, b: Seq<char>)
    requires
        ascii_lowered(a) == ascii_lowered(b),
    ensures
        ascii_lowered(trimmed(a)) == ascii_lowered(trimmed(b)),
{
    lemma_trim_start_ignoring_case(a, b);
    lemma_trim_end_ignoring_case(trim_start(a), trim_start(b));
}

proof fn lemma_lowered_alike(a: Seq<char>, b: Seq<char>)
    requires
        ascii_lowered(a) == ascii_lowered(b),
    ensures
        a.len() == b.len(),
        forall|i: int|
            0 <= i < a.len() ==> ascii_lower(#[trigger] a[i]) == ascii_lower(#[trigger] b[i]),
{
    assert(ascii_lowered(a).len() == a.len());
    assert(ascii_lowered(b).len() == b.len());
    assert forall|i: int| 0 <= i < a.len() implies ascii_lower(#[trigger] a[i]) == ascii_lower(
        #[trigger] b[i],
    ) by {
        assert(ascii_lowered(a)[i] == ascii_lower(a[i]));
        assert(ascii_lowered(b)[i] == ascii_lower(b[i]));
    }
}

proof fn lemma_trim_start_ignoring_case(a: Seq<char>, b: Seq<char>)
    requires
        ascii_lowered(a) == ascii_lowered(b),
    ensures
        ascii_lowered(trim_start(a)) == ascii_lowered(trim_start(b)),
    decreases a.len(),
{
    lemma_lowered_alike(a, b);
    if a.len() > 0 && white_space(a.first()) {
        assert(ascii_lowered(a.drop_first()) =~= ascii_lowered(b.drop_first()));
        lemma_trim_start_ignoring_case(a.drop_first(), b.drop_first());
    }
}

proof fn lemma_trim_end_ignoring_case(a: Seq<char>, b: Seq<char>)
    requires
        ascii_lowered(a) == ascii_lowered(b),
    ensures
        ascii_lowered(trim_end(a)) == ascii_lowered(trim_end(b)),
    decreases a.len(),
{
    lemma_lowered_alike(a, b);
    if a.len() > 0 && white_space(a.last()) {
        assert(ascii_lowered(a.drop_last()) =~= ascii_lowered(b.drop_last()));
        lemma_trim_end_ignoring_case(a.drop_last(), b.drop_last());
    }
}

/// A text that does not hold the pattern is left as it is.
pub proof fn lemma_replaced_without_pattern(s: Seq<char>, pattern: Seq<char>, with: Seq<char>)
    requires
        !holds(s, pattern),
    ensures
        replaced(s, pattern, with) == s,
    decreases s.len(),
{
    if pattern.len() > 0 && s.len() >= pattern.len() {
        assert(!stands_at(s, pattern, 0));
        if holds(s.drop_first(), pattern) {
            lemma_holds_within(seq![s.first()], s.drop_first(), Seq::empty(), pattern);
            assert(seq![s.first()] + s.drop_first() + Seq::<char>::empty() =~= s);
        }
        lemma_replaced_without_pattern(s.drop_first(), pattern, with);
        assert(seq![s.first()] + s.drop_first() =~= s);
    }
}

/// Where the pattern was, its replacement is.
pub proof fn lemma_replaced_holds_replacement(s: Seq<char>, pattern: Seq<char>, with: Seq<char>)
    requires
        holds(s, pattern),
        pattern.len() > 0,
    ensures
        holds(replaced(s, pattern, with), with),
    decreases s.len(),
{
    let at = choose|at: int| stands_at(s, pattern, at);
    if stands_at(s, pattern, 0) {
        let rest = replaced(s.skip(pattern.len() as int), pattern, with);
        assert((with + rest).subrange(0, with.len() as int) =~= with);
        assert(stands_at(with + rest, with, 0));
    } else {
        lemma_stands_behind_first(s, pattern, at);
        lemma_replaced_holds_replacement(s.drop_first(), pattern, with);
        let rest = replaced(s.drop_first(), pattern, with);
        lemma_holds_within(seq![s.first()], rest, Seq::empty(), with);
        assert(seq![s.first()] + rest + Seq::<char>::empty() =~= seq![s.first()] + rest);
    }
}

/// What `middle` holds is held too by a text that `middle` is a part of.
pub proof fn lemma_holds_within(
    before: Seq<char>,
    middle: Seq<char>,
    behind: Seq<char>,
    pattern: Seq<char>,
)
    requires
        holds(middle, pattern),
    ensures
        holds(before + middle + behind, pattern),
{
    let at = choose|at: int| stands_at(middle, pattern, at);
    let whole = before + middle + behind;
    let there = before.len() + at;
    assert(whole.subrange(there, there + pattern.len()) =~= middle.subrange(
        at,
        at + pattern.len(),
    ));
    assert(stands_at(whole, pattern, there));
}

/// A pattern that stands in a text behind its first character stands in what is left when that
/// character is dropped.
pub proof fn lemma_stands_behind_first(s: Seq<char>, pattern: Seq<char>, at: int)
    requires
        stands_at(s, pattern, at),
        at > 0,
        s.len() > 0,
    ensures
        holds(s.drop_first(), pattern),
{
    assert(s.drop_first().subrange(at - 1, at - 1 + pattern.len()) =~= s.subrange(
        at,
        at + pattern.len(),
    ));
    assert(stands_at(s.drop_first(), pattern, at - 1));
}

/// `s` without the white space at either end.
pub fn trim(s: &str) -> (r: &str)
    ensures
        r@ == trimmed(s@),
{
    let all = chars_of(s);
    let mut from: usize = 0;
    while from < all.len() && is_white_space(all[from])
        invariant
            0 <= from <= all.len(),
            forall|i: int| 0 <= i < from ==> white_space(#[trigger] all@[i]),
        decreases all.len() - from,
    {
        from = from + 1;
    }
    let mut to: usize = all.len();
    while to > from && is_white_space(all[to - 1])
        invariant
            0 <= from <= to <= all.len(),
            forall|i: int| to <= i < all.len() ==> white_space(#[trigger] all@[i]),
        decreases to,
    {
        to = to - 1;
    }
    proof {
        let rest = all@.skip(from as int);
        lemma_trim_start_skips(all@, from as int);
        lemma_trim_end_takes(rest, to - from);
        assert(rest.take(to - from) =~= all@.subrange(from as int, to as int));
    }
    s.substring_char(from, to)
}

/// Whether `pattern` stands in `s` from position `at` on.
fn is_at(s: &Vec<char>, pattern: &Vec<char>, at: usize) -> (r: bool)
    requires
        at <= s.len(),
    ensures
        r == stands_at(s@, pattern@, at as int),
{
    if s.len() - at < pattern.len() {
        return false;
    }
    for i in 0..pattern.len()
        invariant
            at + pattern.len() <= s.len(),
            forall|j: int| 0 <= j < i ==> s@[at + j] == #[trigger] pattern@[j],
    {
        if s[at + i] != pattern[i] {
            assert(s@.subrange(at as int, at + pattern.len())[i as int] == s@[at + i]);
            return false;
        }
    }
    assert(s@.subrange(at as int, at + pattern.len()) =~= pattern@);
    true
}

/// Whether `pattern` stands somewhere in `s`.
pub fn contains(s: &str, pattern: &str) -> (r: bool)
    ensures
        r == holds(s@, pattern@),
{
    let all = chars_of(s);
    let sought = chars_of(pattern);
    let mut at: usize = 0;
    while at < all.len()
        invariant
            at <= all.len(),
            all@ == s@,
            sought@ == pattern@,
            forall|i: int| 0 <= i < at ==> !stands_at(s@, pattern@, i),
        decreases all.len() - at,
    {
        if is_at(&all, &sought, at) {
            return true;
        }
        at = at + 1;
    }
    is_at(&all, &sought, at)
}

/// `s` with each occurrence of `pattern` replaced by `with`.
pub fn replace(s: &str, pattern: &str, with: &str) -> (r: String)
    requires
        pattern@.len() > 0,
    ensures
        r@ == replaced(s@, pattern@, with@),
{
    let all = chars_of(s);
    let sought = chars_of(pattern);
    let mut r = String::new();
    let mut at: usize = 0;
    assert(all@.skip(0) =~= all@);
    while at < all.len()
        invariant
            at <= all.len(),
            all@ == s@,
            sought@ == pattern@,
            pattern@.len() > 0,
            r@ + replaced(all@.skip(at as int), pattern@, with@) == replaced(s@, pattern@, with@),
        decreases all.len() - at,
    {
        let ghost rest = all@.skip(at as int);
        let ghost before = r@;
        if is_at(&all, &sought, at) {
            assert(stands_at(rest, pattern@, 0)) by {
                assert(rest.subrange(0, pattern@.len() as int) =~= all@.subrange(
                    at as int,
                    at + pattern@.len(),
                ));
            }
            assert(rest.skip(pattern@.len() as int) =~= all@.skip(at + pattern@.len()));
            r.append(with);
            at = at + sought.len();
            assert(r@ + replaced(all@.skip(at as int), pattern@, with@) =~= before + replaced(
                rest,
                pattern@,
                with@,
            ));
        } else {
            assert(!stands_at(rest, pattern@, 0)) by {
                if stands_at(rest, pattern@, 0) {
                    assert(rest.subrange(0, pattern@.len() as int) =~= all@.subrange(
                        at as int,
                        at + pattern@.len(),
                    ));
                }
            }
            assert(rest.drop_first() =~= all@.skip(at + 1));
            assert(rest.len() < pattern@.len() ==> rest.drop_first().len() < pattern@.len());
            r.push(all[at]);
            at = at + 1;
            assert(r@ + replaced(all@.skip(at as int), pattern@, with@) =~= before + replaced(
                rest,
                pattern@,
                with@,
            ));
        }
    }
    assert(all@.skip(at as int) =~= Seq::<char>::empty());
    assert(r@ + replaced(all@.skip(at as int), pattern@, with@) =~= r@);
    r
}

} // verus!

//! What holds of relative paths.
use vstd::prelude::*;
use vstd::utf8::*;

use crate::path;
use crate::path::{DOT, SLASH};
use crate::path_set::PathSet;

verus! {

/// `parts` with a slash between each two.
spec fn slashed(parts: Seq<Seq<u8>>) -> Seq<u8>
    decreases parts.len(),
{
    if parts.len() == 0 {
        Seq::empty()
    } else if parts.len() == 1 {
        parts[0]
    } else {
        slashed(parts.drop_last()).push(SLASH) + parts.last()
    }
}

/// A name in which no slash stands.
spec fn is_plain_name(part: Seq<u8>) -> bool {
    path::is_name(part) && !part.contains(SLASH)
}

proof fn lemma_encode_utf8_concat(a: Seq<char>, b: Seq<char>)
    ensures
        encode_utf8(a + b) == encode_utf8(a) + encode_utf8(b),
    decreases a.len(),
{
    if a.len() == 0 {
        assert(a + b =~= b);
        assert(encode_utf8(a) + encode_utf8(b) =~= encode_utf8(b));
    } else {
        assert((a + b).drop_first() =~= a.drop_first() + b);
        lemma_encode_utf8_concat(a.drop_first(), b);
        assert(encode_utf8(a + b) =~= encode_utf8(a) + encode_utf8(b));
    }
}

proof fn lemma_encode_slash()
    ensures
        encode_utf8(seq!['/']) == seq![SLASH],
{
    assert(is_ascii_chars(seq!['/']));
    is_ascii_chars_encode_utf8(seq!['/']);
    assert(seq!['/'][0] as u8 == encode_utf8(seq!['/'])[0]);
    assert(encode_utf8(seq!['/']) =~= seq![SLASH]);
}

proof fn lemma_joined_encodes_to_slashed(parts: Seq<Seq<u8>>)
    requires
        path::all_utf8(parts),
    ensures
        encode_utf8(path::joined(path::decoded(parts))) == slashed(parts),
    decreases parts.len(),
{
    if parts.len() == 1 {
        assert(valid_utf8(parts[0]));
        decode_utf8_encode_utf8(parts[0]);
    } else if parts.len() > 1 {
        let front = parts.drop_last();
        assert(path::all_utf8(front));
        assert(path::decoded(parts).drop_last() =~= path::decoded(front));
        assert(valid_utf8(parts.last()));
        decode_utf8_encode_utf8(parts.last());
        lemma_joined_encodes_to_slashed(front);
        let text = path::joined(path::decoded(front));
        lemma_encode_slash();
        lemma_encode_utf8_concat(text, seq!['/']);
        assert(text.push('/') =~= text + seq!['/']);
        assert(slashed(front).push(SLASH) =~= slashed(front) + seq![SLASH]);
        lemma_encode_utf8_concat(text.push('/'), decode_utf8(parts.last()));
    }
}

proof fn lemma_segments_of_appended(a: Seq<u8>, b: Seq<u8>)
    ensures
        path::segments(a.push(SLASH) + b) == path::segments(a) + path::segments(b),
    decreases a.len(),
{
    let whole = a.push(SLASH) + b;
    if a.len() == 0 {
        assert(whole.drop_first() =~= b);
        assert(path::segments(a) =~= seq![Seq::empty()]);
    } else {
        assert(whole.drop_first() =~= a.drop_first().push(SLASH) + b);
        lemma_segments_of_appended(a.drop_first(), b);
        path::lemma_segments_not_empty(a.drop_first());
        let behind = path::segments(a.drop_first());
        assert((behind + path::segments(b)).drop_first() =~= behind.drop_first() + path::segments(b));
        assert(path::segments(whole) =~= path::segments(a) + path::segments(b));
    }
}

proof fn lemma_segments_hold_no_slash(path: Seq<u8>, i: int)
    requires
        0 <= i < path::segments(path).len(),
    ensures
        !path::segments(path)[i].contains(SLASH),
    decreases path.len(),
{
    if path.len() > 0 {
        let tail = path.drop_first();
        path::lemma_segments_not_empty(tail);
        if path.first() == SLASH {
            if i > 0 {
                lemma_segments_hold_no_slash(tail, i - 1);
            }
        } else if i == 0 {
            lemma_segments_hold_no_slash(tail, 0);
            let first = path::segments(path)[0];
            assert forall|j: int| 0 <= j < first.len() implies first[j] != SLASH by {
                if j > 0 {
                    assert(first[j] == path::segments(tail)[0][j - 1]);
                    assert(path::segments(tail)[0].contains(path::segments(tail)[0][j - 1]));
                }
            }
        } else {
            assert(path::segments(path)[i] == path::segments(tail)[i]);
            lemma_segments_hold_no_slash(tail, i);
        }
    }
}

proof fn lemma_segments_of_slashless(part: Seq<u8>)
    requires
        !part.contains(SLASH),
    ensures
        path::segments(part) == seq![part],
    decreases part.len(),
{
    if part.len() > 0 {
        let tail = part.drop_first();
        assert(part[0] != SLASH) by {
            assert(part.contains(part[0]));
        }
        assert forall|j: int| 0 <= j < tail.len() implies tail[j] != SLASH by {
            assert(part.contains(part[j + 1]));
        }
        lemma_segments_of_slashless(tail);
        assert(seq![part.first()] + tail =~= part);
        assert(path::segments(part) =~= seq![part]);
    } else {
        assert(part =~= Seq::empty());
    }
}

/// Names that came out of a path hold no slash.
proof fn lemma_names_are_plain(path: Seq<u8>)
    ensures
        forall|i: int|
            0 <= i < path::names(path::segments(path)).len() ==> is_plain_name(
                #[trigger] path::names(path::segments(path))[i],
            ),
{
    let keep = |s: Seq<u8>| path::is_name(s);
    let all = path::segments(path);
    assert forall|i: int| 0 <= i < path::names(all).len() implies is_plain_name(
        #[trigger] path::names(all)[i],
    ) by {
        all.lemma_filter_pred(keep, i);
        assert(path::names(all).contains(path::names(all)[i]));
        all.lemma_filter_contains_rev(keep, path::names(all)[i]);
        let j = choose|j: int| 0 <= j < all.len() && all[j] == path::names(all)[i];
        lemma_segments_hold_no_slash(path, j);
    }
}

proof fn lemma_names_of_plain(parts: Seq<Seq<u8>>)
    requires
        forall|i: int| 0 <= i < parts.len() ==> is_plain_name(#[trigger] parts[i]),
    ensures
        path::names(parts) == parts,
    decreases parts.len(),
{
    reveal(Seq::filter);
    if parts.len() > 0 {
        let front = parts.drop_last();
        assert forall|i: int| 0 <= i < front.len() implies is_plain_name(#[trigger] front[i]) by {
            assert(front[i] == parts[i]);
        }
        lemma_names_of_plain(front);
        assert(front.push(parts.last()) =~= parts);
    }
}

proof fn lemma_names_of_concat(a: Seq<Seq<u8>>, b: Seq<Seq<u8>>)
    ensures
        path::names(a + b) == path::names(a) + path::names(b),
{
    Seq::filter_distributes_over_add(a, b, |s: Seq<u8>| path::is_name(s));
}

/// The segments of `parts` joined: those of the first, and the others, which hold no slash.
proof fn lemma_segments_of_slashed(parts: Seq<Seq<u8>>)
    requires
        parts.len() > 0,
        forall|i: int| 1 <= i < parts.len() ==> is_plain_name(#[trigger] parts[i]),
        parts[0].len() > 0,
    ensures
        path::segments(slashed(parts)) == path::segments(parts[0]) + parts.drop_first(),
        slashed(parts).len() > 0,
        slashed(parts)[0] == parts[0][0],
    decreases parts.len(),
{
    if parts.len() == 1 {
        assert(path::segments(parts[0]) + parts.drop_first() =~= path::segments(parts[0]));
    } else {
        let front = parts.drop_last();
        lemma_segments_of_slashed(front);
        lemma_segments_of_appended(slashed(front), parts.last());
        assert(is_plain_name(parts[parts.len() - 1]));
        lemma_segments_of_slashless(parts.last());
        assert(path::segments(parts[0]) + front.drop_first() + seq![parts.last()] =~= path::segments(parts[0])
            + parts.drop_first());
    }
}

proof fn lemma_components_of_empty()
    ensures
        path::components(Seq::<u8>::empty()) == Seq::<Seq<u8>>::empty(),
{
    let none = Seq::<u8>::empty();
    assert(path::segments(none).first() == none);
    assert(seq![DOT].len() == 1);
    path::lemma_names_push(Seq::empty(), none);
    reveal(Seq::filter);
    assert(path::segments(none) =~= Seq::<Seq<u8>>::empty().push(none));
    assert(path::components(none) =~= Seq::<Seq<u8>>::empty());
}

/// A path that is not empty has a component.
proof fn lemma_some_component(path: Seq<u8>)
    requires
        path.len() > 0,
    ensures
        path::components(path).len() > 0,
{
    path::lemma_segments_not_empty(path);
    let all = path::segments(path);
    if path.first() != SLASH && all.first() != seq![DOT] {
        path::lemma_segments_not_empty(path.drop_first());
        assert(path::is_name(all[0]));
        all.lemma_filter_contains(|s: Seq<u8>| path::is_name(s), 0);
        assert(path::names(all).contains(all[0]));
    }
}

/// The path that `text` leads to from `root`.
pub open spec fn appended(root: Seq<u8>, text: Seq<char>) -> Seq<u8> {
    if root.len() == 0 {
        encode_utf8(text)
    } else {
        root.push(SLASH) + encode_utf8(text)
    }
}

/// Plain names put behind a path that is not empty are components behind its own.
proof fn lemma_components_below(root: Seq<u8>, rest: Seq<Seq<u8>>)
    requires
        root.len() > 0,
        forall|i: int| 0 <= i < rest.len() ==> is_plain_name(#[trigger] rest[i]),
    ensures
        path::components(root.push(SLASH) + slashed(rest)) == path::components(root) + rest,
{
    let whole = root.push(SLASH) + slashed(rest);
    lemma_segments_of_appended(root, slashed(rest));
    path::lemma_segments_not_empty(root);
    lemma_names_of_concat(path::segments(root), path::segments(slashed(rest)));
    assert(path::names(path::segments(slashed(rest))) == rest) by {
        if rest.len() > 0 {
            assert(is_plain_name(rest[0]));
            lemma_segments_of_slashed(rest);
            lemma_segments_of_slashless(rest[0]);
            assert(seq![rest[0]] + rest.drop_first() =~= rest);
            lemma_names_of_plain(rest);
        } else {
            lemma_components_of_empty();
            assert(path::names(path::segments(Seq::<u8>::empty())) =~= Seq::<Seq<u8>>::empty());
            assert(rest =~= Seq::empty());
        }
    }
    assert(whole.first() == root.first());
    assert(path::segments(whole).first() == path::segments(root).first());
    assert(path::anchor(whole) == path::anchor(root));
    assert(path::anchor(root) + (path::names(path::segments(root)) + rest) =~= path::components(root) + rest);
}

/// The names in the segments of what a path can start with.
proof fn lemma_names_of_start(path: Seq<u8>)
    requires
        path::components(path).len() > 0,
    ensures
        ({
            let first = path::components(path)[0];
            &&& first.len() > 0
            &&& path::names(path::segments(first)) == if path::anchor(path).len() > 0 {
                Seq::empty()
            } else {
                seq![first]
            }
            &&& path::anchor(path).len() == 0 ==> first[0] != SLASH && path::segments(first) == seq![first]
                && first != seq![DOT]
            &&& first == seq![DOT] ==> path::segments(first) == seq![first]
        }),
{
    let first = path::components(path)[0];
    let none = Seq::<Seq<u8>>::empty();
    lemma_names_are_plain(path);
    assert(path::names(none) =~= none) by {
        reveal(Seq::filter);
    }
    if path::anchor(path).len() == 0 {
        assert(first == path::names(path::segments(path))[0]);
        assert(is_plain_name(first));
        assert(first.contains(first[0]));
        lemma_segments_of_slashless(first);
        assert(seq![first] =~= none.push(first));
        path::lemma_names_push(none, first);
    } else if path.first() == SLASH {
        assert(first == seq![SLASH]);
        let blank = Seq::<u8>::empty();
        assert(first.drop_first() =~= blank);
        assert(path::segments(blank) =~= seq![blank]);
        assert(path::segments(first) =~= none.push(blank).push(blank));
        path::lemma_names_push(none.push(blank), blank);
        path::lemma_names_push(none, blank);
        assert(seq![SLASH][0] != seq![DOT][0]);
    } else {
        assert(first == seq![DOT]);
        assert(!first.contains(SLASH));
        lemma_segments_of_slashless(first);
        assert(seq![first] =~= none.push(first));
        path::lemma_names_push(none, first);
    }
}

/// A path that starts as the first component of `path` does has its anchor.
proof fn lemma_anchor_rejoined(path: Seq<u8>, whole: Seq<u8>)
    requires
        path::components(path).len() > 0,
        whole.len() > 0,
        whole[0] == path::components(path)[0][0],
        path::segments(whole).first() == path::segments(path::components(path)[0]).first(),
    ensures
        path::anchor(whole) == path::anchor(path),
{
    let first = path::components(path)[0];
    lemma_names_of_start(path);
    if path::anchor(path).len() == 0 {
        assert(path::segments(first).first() == first);
    } else if path.first() == SLASH {
        assert(first == seq![SLASH]);
    } else {
        assert(first == seq![DOT]);
        assert(path::segments(first).first() == first);
    }
}

/// Behind the first, all components of a path are plain names.
proof fn lemma_later_components_are_plain(path: Seq<u8>)
    ensures
        forall|i: int|
            1 <= i < path::components(path).len() ==> is_plain_name(#[trigger] path::components(path)[i]),
{
    let own = path::names(path::segments(path));
    lemma_names_are_plain(path);
    assert forall|i: int| 1 <= i < path::components(path).len() implies is_plain_name(
        #[trigger] path::components(path)[i],
    ) by {
        assert(path::components(path)[i] == own[i - path::anchor(path).len()]);
    }
}

/// Taking a sequence apart at its first element and putting it together again.
proof fn lemma_regrouped(start: Seq<Seq<u8>>, named: Seq<Seq<u8>>, all: Seq<Seq<u8>>)
    requires
        all.len() > 0,
        start.len() <= 1,
        start.len() == 1 ==> start[0] == all[0] && named.len() == 0,
        start.len() == 0 ==> named == seq![all[0]],
    ensures
        start + (named + all.drop_first()) == all,
{
    assert(start + (named + all.drop_first()) =~= all);
}

/// The first component of a path, and what its segments name.
proof fn lemma_start_and_others(path: Seq<u8>)
    requires
        path::components(path).len() > 0,
    ensures
        path::anchor(path) + (path::names(path::segments(path::components(path)[0]))
            + path::components(path).drop_first()) == path::components(path),
{
    let all = path::components(path);
    lemma_names_of_start(path);
    assert(path::anchor(path).len() == 1 ==> all[0] == path::anchor(path)[0]);
    lemma_regrouped(path::anchor(path), path::names(path::segments(all[0])), all);
}

/// The components of a path, joined, have the same components again.
proof fn lemma_components_rejoined(path: Seq<u8>)
    ensures
        path::components(slashed(path::components(path))) == path::components(path),
{
    let all = path::components(path);
    let whole = slashed(all);
    if all.len() == 0 {
        lemma_components_of_empty();
        assert(all =~= Seq::empty());
    } else {
        let first = all[0];
        let others = all.drop_first();
        lemma_later_components_are_plain(path);
        assert(path::names(others) == others) by {
            assert forall|i: int| 0 <= i < others.len() implies is_plain_name(
                #[trigger] others[i],
            ) by {
                assert(others[i] == all[i + 1]);
            }
            lemma_names_of_plain(others);
        }
        assert(first.len() > 0) by {
            lemma_names_of_start(path);
        }
        lemma_segments_of_slashed(all);
        lemma_names_of_concat(path::segments(first), others);
        assert(path::anchor(whole) == path::anchor(path)) by {
            path::lemma_segments_not_empty(first);
            lemma_anchor_rejoined(path, whole);
        }
        lemma_start_and_others(path);
    }
}

/// A relative path leads back: followed from the root that it is relative to, it gives the
/// components of the path that it was made of.
pub proof fn law_relative_path_leads_back(root: Seq<u8>, path: Seq<u8>)
    requires
        path::relative_text(root, path) is Some,
    ensures
        path::components(appended(root, path::relative_text(root, path)->0)) == path::components(path),
{
    let rest = path::rest_below(root, path);
    lemma_joined_encodes_to_slashed(rest);
    assert(path::components(root) + rest =~= path::components(path));
    if root.len() > 0 {
        lemma_later_components_are_plain(path);
        lemma_some_component(root);
        assert forall|i: int| 0 <= i < rest.len() implies is_plain_name(#[trigger] rest[i]) by {
            assert(rest[i] == path::components(path)[path::components(root).len() + i]);
        }
        lemma_components_below(root, rest);
    } else {
        assert(root =~= Seq::empty());
        lemma_components_of_empty();
        assert(rest =~= path::components(path));
        lemma_components_rejoined(path);
    }
}

/// Paths with the same path relative to one root are the same path.
pub proof fn law_relative_paths_tell_paths_apart(root: Seq<u8>, a: Seq<u8>, b: Seq<u8>)
    requires
        path::relative_text(root, a) is Some,
        path::relative_text(root, a) == path::relative_text(root, b),
    ensures
        path::components(a) == path::components(b),
{
    law_relative_path_leads_back(root, a);
    law_relative_path_leads_back(root, b);
}

/// A segment is empty or a lone dot, and names nothing.
spec fn names_nothing(segment: Seq<u8>) -> bool {
    segment.len() == 0 || segment == seq![0x2eu8]
}

/// The name that a segment is, if it is one.
spec fn names_in(segment: Seq<u8>) -> Seq<Seq<u8>> {
    if names_nothing(segment) {
        Seq::empty()
    } else {
        seq![segment]
    }
}

proof fn lemma_names_of_one(segment: Seq<u8>)
    ensures
        path::names(seq![segment]) == names_in(segment),
{
    let none = Seq::<Seq<u8>>::empty();
    path::lemma_names_push(none, segment);
    assert(none.push(segment) =~= seq![segment]);
    assert(path::names(none) =~= none) by {
        reveal(Seq::filter);
    }
}

/// The components of a path that has no slash in it.
proof fn lemma_components_of_slashless(part: Seq<u8>)
    requires
        part.len() > 0,
        !part.contains(SLASH),
    ensures
        path::components(part) == seq![part],
{
    lemma_segments_of_slashless(part);
    lemma_names_of_one(part);
    assert(part.first() != SLASH) by {
        assert(part.contains(part[0]));
    }
    assert(path::components(part) =~= seq![part]);
}

/// What one more segment does to the names in a path.
proof fn lemma_names_of_extended(front: Seq<u8>, segment: Seq<u8>)
    requires
        !segment.contains(SLASH),
    ensures
        path::segments(front.push(SLASH) + segment) == path::segments(front).push(segment),
        path::names(path::segments(front.push(SLASH) + segment)) == path::names(
            path::segments(front),
        ) + names_in(segment),
{
    lemma_segments_of_appended(front, segment);
    lemma_segments_of_slashless(segment);
    lemma_names_of_concat(path::segments(front), seq![segment]);
    lemma_names_of_one(segment);
    assert(path::segments(front) + seq![segment] =~= path::segments(front).push(segment));
}

/// What one segment behind a first slash does to the components of a path.
proof fn lemma_components_below_slash(segment: Seq<u8>)
    requires
        !segment.contains(SLASH),
    ensures
        path::components(seq![SLASH] + segment) == seq![seq![SLASH]] + names_in(segment),
{
    let none = Seq::<u8>::empty();
    let whole = seq![SLASH] + segment;
    assert(whole =~= none.push(SLASH) + segment);
    lemma_names_of_extended(none, segment);
    assert(path::segments(none) =~= seq![none]);
    lemma_names_of_one(none);
    assert(whole.first() == SLASH);
    assert(Seq::<Seq<u8>>::empty() + names_in(segment) =~= names_in(segment));
}

/// What one more segment does to the components of a path that is not empty.
proof fn lemma_components_of_extended(front: Seq<u8>, segment: Seq<u8>)
    requires
        front.len() > 0,
        !segment.contains(SLASH),
    ensures
        path::components(front.push(SLASH) + segment) == path::components(front) + names_in(
            segment,
        ),
{
    let whole = front.push(SLASH) + segment;
    lemma_names_of_extended(front, segment);
    path::lemma_segments_not_empty(front);
    assert(whole.first() == front.first());
    assert(path::segments(whole).first() == path::segments(front).first());
    assert(path::anchor(whole) == path::anchor(front));
    assert(path::anchor(front) + (path::names(path::segments(front)) + names_in(segment))
        =~= path::anchor(front) + path::names(path::segments(front)) + names_in(segment));
}

proof fn lemma_parts_apart(parts: Seq<Vec<u8>>, i: int)
    requires
        0 <= i < parts.len(),
    ensures
        path::bytes_of(parts).len() == parts.len(),
        path::bytes_of(parts)[i] == parts[i]@,
{
}

/// A path without a slash is its one component, and a path without bytes has none.
pub proof fn law_a_path_without_slashes_is_its_component(path: &[u8], r: Vec<Vec<u8>>)
    requires
        call_ensures(path::components_of, (path,), r),
        forall|i: int| 0 <= i < path@.len() ==> #[trigger] path@[i] != 0x2f,
    ensures
        path@.len() == 0 ==> r@.len() == 0,
        path@.len() > 0 ==> r@.len() == 1 && r@[0]@ == path@,
{
    assert(path::bytes_of(r@).len() == r@.len());
    if path@.len() == 0 {
        assert(path@ =~= Seq::<u8>::empty());
        lemma_components_of_empty();
    } else {
        lemma_components_of_slashless(path@);
        lemma_parts_apart(r@, 0);
    }
}

/// What stands behind the last slash of a path is its last component, behind those of what stands
/// before that slash; where that is nothing, behind the slash itself. An empty name and a lone dot
/// are no components.
pub proof fn law_a_slash_parts_components(
    front: &[u8],
    name: Seq<u8>,
    path: &[u8],
    before: Vec<Vec<u8>>,
    r: Vec<Vec<u8>>,
)
    requires
        call_ensures(path::components_of, (front,), before),
        call_ensures(path::components_of, (path,), r),
        path@ == front@ + seq![0x2fu8] + name,
        forall|i: int| 0 <= i < name.len() ==> #[trigger] name[i] != 0x2f,
    ensures
        ({
            let more: int = if name.len() == 0 || name == seq![0x2eu8] {
                0
            } else {
                1
            };
            &&& front@.len() > 0 ==> {
                &&& r@.len() == before@.len() + more
                &&& forall|i: int| 0 <= i < before@.len() ==> (#[trigger] r@[i])@ == before@[i]@
            }
            &&& front@.len() == 0 ==> r@.len() == 1 + more && r@[0]@ == seq![0x2fu8]
            &&& more == 1 ==> r@[r@.len() - 1]@ == name
        }),
{
    assert(path@ =~= front@.push(SLASH) + name);
    assert(!name.contains(SLASH));
    if front@.len() > 0 {
        lemma_components_of_extended(front@, name);
    } else {
        assert(path@ =~= seq![SLASH] + name);
        lemma_components_below_slash(name);
    }
    assert(path::bytes_of(r@).len() == r@.len());
    assert(path::bytes_of(before@).len() == before@.len());
    assert forall|i: int| 0 <= i < r@.len() implies path::bytes_of(r@)[i] == (
    #[trigger] r@[i])@ by {
        lemma_parts_apart(r@, i);
    }
    assert forall|i: int| 0 <= i < before@.len() && front@.len() > 0 implies (#[trigger] r@[i])@
        == before@[i]@ by {
        lemma_parts_apart(before@, i);
    }
    if front@.len() == 0 {
        assert(path::components(path@)[0] == seq![SLASH]);
        lemma_parts_apart(r@, 0);
    }
    if !names_nothing(name) {
        assert(path::components(path@).last() == name);
        lemma_parts_apart(r@, r@.len() - 1);
    }
}

/// There is a relative path exactly where the components of the root are the first ones of the
/// path's, and all that follow are UTF-8. It is empty where none follow.
pub proof fn law_a_path_below_the_root_has_a_relative_path(
    root: &[u8],
    path: &[u8],
    above: Vec<Vec<u8>>,
    all: Vec<Vec<u8>>,
    r: Option<String>,
)
    requires
        call_ensures(path::relative, (root, path), r),
        call_ensures(path::components_of, (root,), above),
        call_ensures(path::components_of, (path,), all),
    ensures
        r is Some <==> {
            &&& above@.len() <= all@.len()
            &&& forall|i: int| 0 <= i < above@.len() ==> (#[trigger] all@[i])@ == above@[i]@
            &&& forall|i: int| above@.len() <= i < all@.len() ==> valid_utf8((#[trigger] all@[i])@)
        },
        r matches Some(text) ==> (all@.len() == above@.len() ==> text@.len() == 0),
{
    let base = path::components(root@);
    let whole = path::components(path@);
    let rest = path::rest_below(root@, path@);
    assert(base.len() == above@.len());
    assert(whole.len() == all@.len());
    assert forall|i: int| 0 <= i < above@.len() implies base[i] == (#[trigger] above@[i])@ by {
        lemma_parts_apart(above@, i);
    }
    assert forall|i: int| 0 <= i < all@.len() implies whole[i] == (#[trigger] all@[i])@ by {
        lemma_parts_apart(all@, i);
    }
    if above@.len() <= all@.len() {
        assert(forall|i: int| 0 <= i < rest.len() ==> rest[i] == whole[base.len() + i]);
        if r is Some {
            assert(whole.subrange(0, base.len() as int) == base);
            assert forall|i: int| 0 <= i < above@.len() implies (#[trigger] all@[i])@
                == above@[i]@ by {
                assert(whole.subrange(0, base.len() as int)[i] == whole[i]);
                assert(above@[i]@ == base[i]);
            }
            assert forall|i: int| above@.len() <= i < all@.len() implies valid_utf8(
                (#[trigger] all@[i])@,
            ) by {
                assert(rest[i - base.len()] == all@[i]@);
            }
        }
        if (forall|i: int| 0 <= i < above@.len() ==> (#[trigger] all@[i])@ == above@[i]@) && (
        forall|i: int| above@.len() <= i < all@.len() ==> valid_utf8((#[trigger] all@[i])@)) {
            assert forall|i: int| 0 <= i < base.len() implies whole[i] == base[i] by {
                assert(all@[i]@ == above@[i]@);
            }
            assert(whole.subrange(0, base.len() as int) =~= base);
            assert forall|i: int| 0 <= i < rest.len() implies valid_utf8(#[trigger] rest[i]) by {
                assert(rest[i] == all@[base.len() + i]@);
            }
        }
    }
}

/// Paths with the same components have the same relative path, or none has one.
pub proof fn law_a_relative_path_goes_by_components(
    root: &[u8],
    a: &[u8],
    b: &[u8],
    of_a: Vec<Vec<u8>>,
    of_b: Vec<Vec<u8>>,
    r: Option<String>,
    s: Option<String>,
)
    requires
        call_ensures(path::relative, (root, a), r),
        call_ensures(path::relative, (root, b), s),
        call_ensures(path::components_of, (a,), of_a),
        call_ensures(path::components_of, (b,), of_b),
        of_a@.len() == of_b@.len(),
        forall|i: int| 0 <= i < of_a@.len() ==> (#[trigger] of_a@[i])@ == of_b@[i]@,
    ensures
        match (r, s) {
            (Some(x), Some(y)) => x@ == y@,
            (None, None) => true,
            _ => false,
        },
{
    assert(path::components(a@) =~= path::components(b@)) by {
        assert(path::bytes_of(of_a@).len() == of_a@.len());
        assert(path::bytes_of(of_b@).len() == of_b@.len());
        assert forall|i: int| 0 <= i < of_a@.len() implies path::bytes_of(of_a@)[i]
            == path::bytes_of(of_b@)[i] by {
            lemma_parts_apart(of_a@, i);
            lemma_parts_apart(of_b@, i);
        }
    }
}

/// One level further down, a relative path goes on with a slash and the name that was gone down
/// to, or is that name where it was empty. Where the name is not UTF-8 there is none.
pub proof fn law_a_relative_path_grows_by_names(
    root: &[u8],
    front: &[u8],
    name: Seq<u8>,
    path: &[u8],
    before: String,
    r: Option<String>,
)
    requires
        call_ensures(path::relative, (root, front), Some(before)),
        call_ensures(path::relative, (root, path), r),
        front@.len() > 0,
        path@ == front@ + seq![0x2fu8] + name,
        forall|i: int| 0 <= i < name.len() ==> #[trigger] name[i] != 0x2f,
        name.len() > 0,
        name != seq![0x2eu8],
    ensures
        !valid_utf8(name) ==> r is None,
        valid_utf8(name) ==> (r matches Some(text) && text@ == if before@.len() == 0 {
            decode_utf8(name)
        } else {
            before@ + seq!['/'] + decode_utf8(name)
        }),
{
    let base = path::components(root@);
    let less = path::rest_below(root@, front@);
    let rest = path::rest_below(root@, path@);
    assert(path@ =~= front@.push(SLASH) + name);
    assert(!name.contains(SLASH));
    lemma_components_of_extended(front@, name);
    assert(path::components(path@) =~= path::components(front@).push(name));
    assert(rest =~= less.push(name));
    assert(path::components(path@).subrange(0, base.len() as int) =~= path::components(
        front@,
    ).subrange(0, base.len() as int));
    assert(rest[less.len() as int] == name);
    if valid_utf8(name) {
        assert forall|i: int| 0 <= i < rest.len() implies valid_utf8(#[trigger] rest[i]) by {
            if i < less.len() {
                assert(rest[i] == less[i]);
            }
        }
        assert(path::decoded(rest) =~= path::decoded(less).push(decode_utf8(name)));
        assert(path::decoded(rest).drop_last() =~= path::decoded(less));
        lemma_joined_is_empty(front@, root@);
        if less.len() > 0 {
            assert(before@.push('/') =~= before@ + seq!['/']);
        }
    }
}

/// A relative path is empty only where the path is the root.
proof fn lemma_joined_is_empty(path: Seq<u8>, root: Seq<u8>)
    requires
        path::relative_text(root, path) is Some,
    ensures
        path::relative_text(root, path)->0.len() == 0 <==> path::rest_below(root, path).len() == 0,
{
    let rest = path::rest_below(root, path);
    let text = path::relative_text(root, path)->0;
    lemma_joined_encodes_to_slashed(rest);
    if rest.len() > 0 && text.len() == 0 {
        assert(encode_utf8(text) =~= Seq::<u8>::empty());
        assert(slashed(rest).len() == 0);
        if rest.len() == 1 {
            let last = path::components(path).len() - 1;
            assert(rest[0] == path::components(path)[last]);
            if last > 0 {
                lemma_later_components_are_plain(path);
                assert(is_plain_name(path::components(path)[last]));
            } else {
                lemma_names_of_start(path);
            }
        }
    }
}

/// A new set of paths holds none.
pub proof fn law_a_new_set_holds_nothing(set: PathSet, path: &[u8], r: bool)
    requires
        call_ensures(PathSet::new, (), set),
        call_ensures(PathSet::contains, (&set, path), r),
    ensures
        !r,
{
}

/// A set of paths holds, once a path was put in, what it held before and every path with the
/// components of that one, and nothing else.
pub proof fn law_a_set_holds_what_was_put_in(
    set: &mut PathSet,
    path: &[u8],
    of_path: Vec<Vec<u8>>,
    other: &[u8],
    of_other: Vec<Vec<u8>>,
    before: bool,
    after: bool,
)
    requires
        call_ensures(PathSet::insert, (set, path), ()),
        call_ensures(PathSet::contains, (&*old(set), other), before),
        call_ensures(path::components_of, (path,), of_path),
        call_ensures(path::components_of, (other,), of_other),
    ensures
        call_ensures(PathSet::contains, (&*final(set), other), after) ==> (after <==> before || (
        of_path@.len() == of_other@.len() && forall|i: int|
            0 <= i < of_path@.len() ==> (#[trigger] of_path@[i])@ == of_other@[i]@)),
{
    let a = path::bytes_of(of_path@);
    let b = path::bytes_of(of_other@);
    assert(a.len() == of_path@.len());
    assert(b.len() == of_other@.len());
    assert forall|i: int| 0 <= i < of_path@.len() implies a[i] == (#[trigger] of_path@[i])@ by {
        lemma_parts_apart(of_path@, i);
    }
    assert forall|i: int| 0 <= i < of_other@.len() implies b[i] == (#[trigger] of_other@[i])@ by {
        lemma_parts_apart(of_other@, i);
    }
    if of_path@.len() == of_other@.len() && forall|i: int|
        0 <= i < of_path@.len() ==> (#[trigger] of_path@[i])@ == of_other@[i]@ {
        assert forall|i: int| 0 <= i < a.len() implies a[i] == b[i] by {
            assert(of_path@[i]@ == of_other@[i]@);
        }
        assert(a =~= b);
    }
}

} // verus!

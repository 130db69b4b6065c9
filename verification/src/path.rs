//! File paths as the bytes that a Unix system hands out: their components, and what is left of one
//! below another.
use vstd::prelude::*;
use vstd::utf8::*;

verus! {

/// The byte `/`.
pub const SLASH: u8 = 0x2f;

/// The byte `.`.
pub const DOT: u8 = 0x2e;

/// What stands between the slashes of `path`, empty stretches included.
pub open spec fn segments(path: Seq<u8>) -> Seq<Seq<u8>>
    decreases path.len(),
{
    if path.len() == 0 {
        seq![Seq::empty()]
    } else {
        let behind = segments(path.drop_first());
        if path.first() == SLASH {
            seq![Seq::<u8>::empty()] + behind
        } else {
            seq![seq![path.first()] + behind.first()] + behind.drop_first()
        }
    }
}

/// A segment that names something: neither empty nor a lone dot.
pub open spec fn is_name(segment: Seq<u8>) -> bool {
    segment.len() > 0 && segment != seq![DOT]
}

/// Those of `segments` that name something.
pub open spec fn names(segments: Seq<Seq<u8>>) -> Seq<Seq<u8>> {
    segments.filter(|s: Seq<u8>| is_name(s))
}

/// The component that a path has before its names: `/` where it is absolute, `.` where it starts
/// with a lone dot.
pub open spec fn anchor(path: Seq<u8>) -> Seq<Seq<u8>> {
    if path.len() > 0 && path.first() == SLASH {
        seq![seq![SLASH]]
    } else if segments(path).first() == seq![DOT] {
        seq![seq![DOT]]
    } else {
        Seq::empty()
    }
}

/// The components of `path`. Repeated and trailing slashes make none, and neither does a lone
/// dot, except as the start of a relative path.
pub open spec fn components(path: Seq<u8>) -> Seq<Seq<u8>> {
    anchor(path) + names(segments(path))
}

/// `parts` with a slash between each two.
pub open spec fn joined(parts: Seq<Seq<char>>) -> Seq<char>
    decreases parts.len(),
{
    if parts.len() == 0 {
        Seq::empty()
    } else if parts.len() == 1 {
        parts[0]
    } else {
        joined(parts.drop_last()).push('/') + parts.last()
    }
}

/// All of `parts` are UTF-8.
pub open spec fn all_utf8(parts: Seq<Seq<u8>>) -> bool {
    forall|i: int| 0 <= i < parts.len() ==> valid_utf8(#[trigger] parts[i])
}

/// The text of each of `parts`.
pub open spec fn decoded(parts: Seq<Seq<u8>>) -> Seq<Seq<char>> {
    parts.map_values(|p: Seq<u8>| decode_utf8(p))
}

/// `path` lies at or below `root`.
pub open spec fn is_below(root: Seq<u8>, path: Seq<u8>) -> bool {
    components(root).is_prefix_of(components(path))
}

/// The components of `path` behind those of `root`.
pub open spec fn rest_below(root: Seq<u8>, path: Seq<u8>) -> Seq<Seq<u8>> {
    components(path).skip(components(root).len() as int)
}

/// `path` relative to `root`, its components parted by slashes; `None` where it does not lie
/// below `root` or where a component is not UTF-8.
pub open spec fn relative_text(root: Seq<u8>, path: Seq<u8>) -> Option<Seq<char>> {
    if is_below(root, path) && all_utf8(rest_below(root, path)) {
        Some(joined(decoded(rest_below(root, path))))
    } else {
        None
    }
}

/// The bytes of each of `parts`.
pub open spec fn bytes_of(parts: Seq<Vec<u8>>) -> Seq<Seq<u8>> {
    parts.map_values(|p: Vec<u8>| p@)
}

/// `segment` put before the first of `behind`.
spec fn glued(segment: Seq<u8>, behind: Seq<Seq<u8>>) -> Seq<Seq<u8>> {
    seq![segment + behind.first()] + behind.drop_first()
}

/// There is always a segment, if an empty one.
pub proof fn lemma_segments_not_empty(path: Seq<u8>)
    ensures
        segments(path).len() > 0,
    decreases path.len(),
{
    if path.len() > 0 {
        lemma_segments_not_empty(path.drop_first());
    }
}

/// Reading on by one byte, in the middle of a segment.
proof fn lemma_glued_step(segment: Seq<u8>, rest: Seq<u8>)
    requires
        rest.len() > 0,
    ensures
        glued(segment, segments(rest)) == if rest.first() == SLASH {
            seq![segment] + glued(Seq::empty(), segments(rest.drop_first()))
        } else {
            glued(segment.push(rest.first()), segments(rest.drop_first()))
        },
{
    let behind = segments(rest.drop_first());
    lemma_segments_not_empty(rest.drop_first());
    if rest.first() == SLASH {
        assert(segments(rest).drop_first() =~= behind);
        assert(segment + Seq::<u8>::empty() =~= segment);
        assert(glued(Seq::empty(), behind) =~= behind) by {
            assert(Seq::<u8>::empty() + behind.first() =~= behind.first());
        }
    } else {
        assert(segments(rest).drop_first() =~= behind.drop_first());
        assert(segment + (seq![rest.first()] + behind.first()) =~= segment.push(rest.first())
            + behind.first());
    }
}

/// A copy of `bytes`.
pub fn copied(bytes: &[u8]) -> (r: Vec<u8>)
    ensures
        r@ == bytes@,
{
    let mut r: Vec<u8> = Vec::new();
    for i in 0..bytes.len()
        invariant
            r@ == bytes@.take(i as int),
    {
        r.push(bytes[i]);
    }
    r
}

/// Whether a segment names something.
fn names_something(segment: &Vec<u8>) -> (r: bool)
    ensures
        r == is_name(segment@),
{
    if segment.len() == 0 {
        return false;
    }
    let lone_dot = segment.len() == 1 && segment[0] == DOT;
    assert(lone_dot == (segment@ =~= seq![DOT]));
    !lone_dot
}

/// One more segment is one more name, if it names something.
pub proof fn lemma_names_push(done: Seq<Seq<u8>>, s: Seq<u8>)
    ensures
        names(done.push(s)) == if is_name(s) {
            names(done).push(s)
        } else {
            names(done)
        },
{
    reveal(Seq::filter);
    assert(done.push(s).drop_last() =~= done);
}

/// The components of `path`.
pub fn components_of(path: &[u8]) -> (r: Vec<Vec<u8>>)
    ensures
        bytes_of(r@) == components(path@),
{
    let mut r: Vec<Vec<u8>> = Vec::new();
    let ghost done: Seq<Seq<u8>> = Seq::empty();
    let mut segment: Vec<u8> = Vec::new();
    let mut at: usize = 0;
    if path.len() > 0 && path[0] == SLASH {
        let mut root: Vec<u8> = Vec::new();
        root.push(SLASH);
        r.push(root);
        assert(root@ =~= seq![SLASH]);
    } else if path.len() > 0 && path[0] == DOT && (path.len() == 1 || path[1] == SLASH) {
        let mut here: Vec<u8> = Vec::new();
        here.push(DOT);
        r.push(here);
        assert(here@ =~= seq![DOT]);
    }
    proof {
        lemma_starts_with_lone_dot(path@);
        assert(bytes_of(r@) =~= anchor(path@));
        lemma_segments_not_empty(path@);
        assert(path@.skip(0) =~= path@);
        assert(Seq::<u8>::empty() + segments(path@).first() =~= segments(path@).first());
        assert(done + glued(segment@, segments(path@)) =~= segments(path@));
        reveal(Seq::filter);
        assert(anchor(path@) + names(done) =~= anchor(path@));
    }
    while at < path.len()
        invariant
            at <= path@.len(),
            done + glued(segment@, segments(path@.skip(at as int))) == segments(path@),
            bytes_of(r@) == anchor(path@) + names(done),
        decreases path@.len() - at,
    {
        let ghost rest = path@.skip(at as int);
        let ghost so_far = done;
        let ghost before = bytes_of(r@);
        let ghost current = segment@;
        proof {
            lemma_glued_step(segment@, rest);
            assert(rest.drop_first() =~= path@.skip(at + 1));
        }
        let byte = path[at];
        at = at + 1;
        if byte == SLASH {
            proof {
                lemma_names_push(done, current);
                done = done.push(current);
                assert(done + glued(Seq::empty(), segments(path@.skip(at as int))) =~= so_far + (
                seq![current] + glued(Seq::empty(), segments(path@.skip(at as int)))));
            }
            if names_something(&segment) {
                r.push(segment);
                assert(bytes_of(r@) =~= before.push(current));
                assert(before.push(current) =~= anchor(path@) + names(done));
            }
            segment = Vec::new();
            assert(segment@ =~= Seq::empty());
        } else {
            segment.push(byte);
        }
    }
    let ghost current = segment@;
    let ghost before = bytes_of(r@);
    proof {
        assert(path@.skip(at as int) =~= Seq::empty());
        assert(glued(current, segments(Seq::empty())) =~= seq![current]) by {
            assert(current + Seq::<u8>::empty() =~= current);
        }
        assert(done + seq![current] =~= done.push(current));
        lemma_names_push(done, current);
    }
    if names_something(&segment) {
        r.push(segment);
        assert(bytes_of(r@) =~= before.push(current));
        assert(before.push(current) =~= anchor(path@) + names(done.push(current)));
    }
    r
}

/// When the first segment is a lone dot.
proof fn lemma_starts_with_lone_dot(path: Seq<u8>)
    ensures
        (segments(path).first() == seq![DOT]) == (path.len() > 0 && path[0] == DOT && (path.len()
            == 1 || path[1] == SLASH)),
{
    let first = segments(path).first();
    if path.len() > 0 && path[0] != SLASH {
        let tail = path.drop_first();
        lemma_segments_not_empty(tail);
        let behind = segments(tail).first();
        assert(first == seq![path[0]] + behind);
        if tail.len() > 0 && tail[0] != SLASH {
            assert(behind.len() > 0);
            assert(first.len() > 1);
            assert(seq![DOT].len() == 1);
        } else {
            assert(behind =~= Seq::empty());
            assert(first =~= seq![path[0]]);
            assert((first =~= seq![DOT]) == (path[0] == DOT)) by {
                assert(first[0] == path[0]);
                assert(seq![DOT][0] == DOT);
            }
        }
    } else {
        assert(first =~= Seq::empty());
        assert(seq![DOT].len() == 1);
    }
}

/// `std::str::from_utf8`: the text that `bytes` encode, or nothing where they are not UTF-8.
#[verifier::external_body]
fn text_of(bytes: &[u8]) -> (r: Option<&str>)
    ensures
        match r {
            Some(s) => valid_utf8(bytes@) && s@ == decode_utf8(bytes@),
            None => !valid_utf8(bytes@),
        },
{
    std::str::from_utf8(bytes).ok()
}

/// Whether `a` and `b` are the same bytes.
pub fn same_bytes(a: &[u8], b: &[u8]) -> (r: bool)
    ensures
        r == (a@ == b@),
{
    if a.len() != b.len() {
        return false;
    }
    for i in 0..a.len()
        invariant
            a@.len() == b@.len(),
            forall|j: int| 0 <= j < i ==> a@[j] == b@[j],
    {
        if a[i] != b[i] {
            return false;
        }
    }
    assert(a@ =~= b@);
    true
}

/// `path` relative to `root`, `/`-separated, or `None` for a path that does not lie below `root`
/// and for one with a name that is not UTF-8.
pub fn relative(root: &[u8], path: &[u8]) -> (r: Option<String>)
    ensures
        match r {
            Some(s) => relative_text(root@, path@) == Some(s@),
            None => relative_text(root@, path@) is None,
        },
{
    let base = components_of(root);
    let all = components_of(path);
    let ghost rest = rest_below(root@, path@);
    if base.len() > all.len() {
        return None;
    }
    for i in 0..base.len()
        invariant
            base.len() <= all.len(),
            bytes_of(base@) == components(root@),
            bytes_of(all@) == components(path@),
            forall|j: int| 0 <= j < i ==> components(root@)[j] == components(path@)[j],
    {
        assert(components(root@)[i as int] == base@[i as int]@);
        assert(components(path@)[i as int] == all@[i as int]@);
        if !same_bytes(base[i].as_slice(), all[i].as_slice()) {
            assert(components(path@).subrange(0, components(root@).len() as int)[i as int]
                == all@[i as int]@);
            return None;
        }
    }
    assert(is_below(root@, path@)) by {
        assert(components(path@).subrange(0, components(root@).len() as int) =~= components(root@));
    }
    let mut text = String::new();
    assert(rest.take(0) =~= Seq::empty());
    assert(decoded(rest.take(0)) =~= Seq::empty());
    for i in base.len()..all.len()
        invariant
            base@.len() <= i <= all@.len(),
            bytes_of(all@) == components(path@),
            base@.len() == components(root@).len(),
            rest == rest_below(root@, path@),
            rest.len() == all@.len() - base@.len(),
            forall|j: int| 0 <= j < i - base@.len() ==> valid_utf8(#[trigger] rest[j]),
            text@ == joined(decoded(rest.take(i - base@.len()))),
    {
        let ghost at = i - base@.len();
        assert(rest[at] == all@[i as int]@);
        match text_of(all[i].as_slice()) {
            None => {
                return None;
            },
            Some(part) => {
                let ghost before = rest.take(at);
                let ghost after = rest.take(at + 1);
                assert(after =~= before.push(rest[at]));
                assert(decoded(after) =~= decoded(before).push(part@));
                assert(decoded(after).drop_last() =~= decoded(before));
                if i > base.len() {
                    text.push('/');
                }
                text.append(part);
                assert(at == 0 ==> text@ =~= part@);
            },
        }
    }
    assert(rest.take(rest.len() as int) =~= rest);
    Some(text)
}

} // verus!

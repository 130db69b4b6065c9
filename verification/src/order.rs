//! The order of a listing: by path, byte for byte.
use vstd::multiset::*;
use vstd::prelude::*;
use vstd::seq_lib::*;
use vstd::utf8::*;

use crate::git;
use crate::git::WorktreeEntry;

verus! {

/// `a` stands before `b` in the lexicographic order of bytes, or is the same.
pub open spec fn not_after(a: Seq<u8>, b: Seq<u8>) -> bool
    decreases a.len(),
{
    if a.len() == 0 {
        true
    } else if b.len() == 0 {
        false
    } else if a.first() == b.first() {
        not_after(a.drop_first(), b.drop_first())
    } else {
        a.first() < b.first()
    }
}

/// The path of `a` does not come after the path of `b`.
pub open spec fn listed_before(a: git::Entry, b: git::Entry) -> bool {
    not_after(encode_utf8(a.path), encode_utf8(b.path))
}

/// `entries` stand in the order of their paths.
pub open spec fn in_order(entries: Seq<git::Entry>) -> bool {
    forall|i: int, j: int|
        0 <= i <= j < entries.len() ==> listed_before(#[trigger] entries[i], #[trigger] entries[j])
}

/// Those of `entries` that have the path `path`.
pub open spec fn at_path(entries: Seq<git::Entry>, path: Seq<char>) -> Seq<git::Entry> {
    entries.filter(|e: git::Entry| e.path == path)
}

/// `after` is `before` in the order of the paths, where entries with the same path have kept
/// their places among each other.
pub open spec fn stably_sorted(before: Seq<git::Entry>, after: Seq<git::Entry>) -> bool {
    &&& in_order(after)
    &&& after.to_multiset() == before.to_multiset()
    &&& forall|path: Seq<char>| #[trigger] at_path(after, path) == at_path(before, path)
}

pub proof fn lemma_not_after_itself(a: Seq<u8>)
    ensures
        not_after(a, a),
    decreases a.len(),
{
    if a.len() > 0 {
        lemma_not_after_itself(a.drop_first());
    }
}

pub proof fn lemma_not_after_total(a: Seq<u8>, b: Seq<u8>)
    ensures
        not_after(a, b) || not_after(b, a),
    decreases a.len(),
{
    if a.len() > 0 && b.len() > 0 {
        lemma_not_after_total(a.drop_first(), b.drop_first());
    }
}

pub proof fn lemma_not_after_transitive(a: Seq<u8>, b: Seq<u8>, c: Seq<u8>)
    requires
        not_after(a, b),
        not_after(b, c),
    ensures
        not_after(a, c),
    decreases a.len(),
{
    if a.len() > 0 && b.len() > 0 && c.len() > 0 {
        if a.first() == b.first() && b.first() == c.first() {
            lemma_not_after_transitive(a.drop_first(), b.drop_first(), c.drop_first());
        }
    }
}

/// Whether `a` stands before `b` in the order of bytes, or is the same.
pub fn is_not_after(a: &[u8], b: &[u8]) -> (r: bool)
    ensures
        r == not_after(a@, b@),
{
    let mut at: usize = 0;
    assert(a@.skip(0) =~= a@);
    assert(b@.skip(0) =~= b@);
    while at < a.len() && at < b.len() && a[at] == b[at]
        invariant
            at <= a@.len(),
            at <= b@.len(),
            not_after(a@, b@) == not_after(a@.skip(at as int), b@.skip(at as int)),
        decreases a@.len() - at,
    {
        assert(a@.skip(at as int).drop_first() =~= a@.skip(at + 1));
        assert(b@.skip(at as int).drop_first() =~= b@.skip(at + 1));
        at = at + 1;
    }
    if at >= a.len() {
        true
    } else if at >= b.len() {
        false
    } else {
        a[at] < b[at]
    }
}

/// What is true before the merged part `tail` of `left` and `right` grows by one entry: `i` and
/// `j` entries are left over.
spec fn merging(
    left: Seq<git::Entry>,
    right: Seq<git::Entry>,
    i: int,
    j: int,
    tail: Seq<git::Entry>,
) -> bool {
    &&& 0 <= i <= left.len()
    &&& 0 <= j <= right.len()
    &&& in_order(left)
    &&& in_order(right)
    &&& in_order(tail)
    &&& forall|m: int, k: int|
        0 <= m < i && 0 <= k < tail.len() ==> listed_before(
            #[trigger] left[m],
            #[trigger] tail[k],
        )
    &&& forall|m: int, k: int|
        0 <= m < j && 0 <= k < tail.len() ==> listed_before(
            #[trigger] right[m],
            #[trigger] tail[k],
        )
    &&& forall|m: int, k: int|
        i <= m < left.len() && 0 <= k < j ==> !listed_before(
            #[trigger] left[m],
            #[trigger] right[k],
        )
    &&& tail.to_multiset() == left.skip(i).to_multiset().add(right.skip(j).to_multiset())
    &&& forall|path: Seq<char>| #[trigger]
        at_path(tail, path) == at_path(left.skip(i), path) + at_path(right.skip(j), path)
}

proof fn lemma_put_before(s: Seq<git::Entry>, e: git::Entry)
    ensures
        (seq![e] + s).to_multiset() == s.to_multiset().insert(e),
        forall|path: Seq<char>| #[trigger]
            at_path(seq![e] + s, path) == if e.path == path {
                seq![e] + at_path(s, path)
            } else {
                at_path(s, path)
            },
{
    broadcast use group_multiset_axioms;

    lemma_multiset_commutative(seq![e], s);
    assert(seq![e].to_multiset() =~= Multiset::<git::Entry>::empty().insert(e)) by {
        let none = Seq::<git::Entry>::empty();
        to_multiset_build(none, e);
        assert(none.push(e) =~= seq![e]);
        to_multiset_len(none);
        assert(none.to_multiset() =~= Multiset::empty());
    }
    assert((seq![e] + s).to_multiset() =~= s.to_multiset().insert(e));
    assert forall|path: Seq<char>| #[trigger]
        at_path(seq![e] + s, path) == if e.path == path {
            seq![e] + at_path(s, path)
        } else {
            at_path(s, path)
        } by {
        s.lemma_filter_prepend(e, |x: git::Entry| x.path == path);
        assert(Seq::<git::Entry>::empty() + at_path(s, path) =~= at_path(s, path));
    }
}

proof fn lemma_in_order_put_before(s: Seq<git::Entry>, e: git::Entry)
    requires
        in_order(s),
        forall|k: int| 0 <= k < s.len() ==> listed_before(e, #[trigger] s[k]),
    ensures
        in_order(seq![e] + s),
{
    lemma_not_after_itself(encode_utf8(e.path));
    let t = seq![e] + s;
    assert forall|i: int, j: int| 0 <= i <= j < t.len() implies listed_before(
        #[trigger] t[i],
        #[trigger] t[j],
    ) by {
        if i == 0 {
            if j > 0 {
                assert(t[j] == s[j - 1]);
            }
        } else {
            assert(t[i] == s[i - 1]);
            assert(t[j] == s[j - 1]);
        }
    }
}

/// The last entry of the left part goes first where it comes after what is left of the right.
proof fn lemma_merging_takes_left(
    left: Seq<git::Entry>,
    right: Seq<git::Entry>,
    i: int,
    j: int,
    tail: Seq<git::Entry>,
)
    requires
        merging(left, right, i, j, tail),
        i > 0,
        j > 0 ==> !listed_before(left[i - 1], right[j - 1]),
    ensures
        merging(left, right, i - 1, j, seq![left[i - 1]] + tail),
{
    broadcast use group_multiset_axioms;

    let e = left[i - 1];
    let grown = seq![e] + tail;
    lemma_in_order_put_before(tail, e);
    lemma_put_before(tail, e);
    assert(left.skip(i - 1) =~= seq![e] + left.skip(i));
    lemma_put_before(left.skip(i), e);
    assert(grown.to_multiset() =~= left.skip(i - 1).to_multiset().add(
        right.skip(j).to_multiset(),
    ));
    assert forall|path: Seq<char>| #[trigger]
        at_path(grown, path) == at_path(left.skip(i - 1), path) + at_path(right.skip(j), path) by {
        if e.path == path {
            assert(seq![e] + (at_path(left.skip(i), path) + at_path(right.skip(j), path)) =~= seq![
                e,
            ] + at_path(left.skip(i), path) + at_path(right.skip(j), path));
        }
    }
    assert forall|m: int, k: int| 0 <= m < i - 1 && 0 <= k < grown.len() implies listed_before(
        #[trigger] left[m],
        #[trigger] grown[k],
    ) by {
        if k > 0 {
            assert(grown[k] == tail[k - 1]);
        }
    }
    assert forall|m: int, k: int| 0 <= m < j && 0 <= k < grown.len() implies listed_before(
        #[trigger] right[m],
        #[trigger] grown[k],
    ) by {
        if k > 0 {
            assert(grown[k] == tail[k - 1]);
        } else {
            lemma_not_after_total(encode_utf8(e.path), encode_utf8(right[j - 1].path));
            lemma_not_after_transitive(
                encode_utf8(right[m].path),
                encode_utf8(right[j - 1].path),
                encode_utf8(e.path),
            );
        }
    }
    assert forall|m: int, k: int| i - 1 <= m < left.len() && 0 <= k < j implies !listed_before(
        #[trigger] left[m],
        #[trigger] right[k],
    ) by {
        if m == i - 1 && listed_before(left[m], right[k]) {
            assert(listed_before(right[k], right[j - 1]));
            lemma_not_after_transitive(
                encode_utf8(e.path),
                encode_utf8(right[k].path),
                encode_utf8(right[j - 1].path),
            );
        }
    }
}

/// Otherwise the last entry of the right part does.
proof fn lemma_merging_takes_right(
    left: Seq<git::Entry>,
    right: Seq<git::Entry>,
    i: int,
    j: int,
    tail: Seq<git::Entry>,
)
    requires
        merging(left, right, i, j, tail),
        j > 0,
        i > 0 ==> listed_before(left[i - 1], right[j - 1]),
    ensures
        merging(left, right, i, j - 1, seq![right[j - 1]] + tail),
{
    broadcast use group_multiset_axioms;

    let e = right[j - 1];
    let grown = seq![e] + tail;
    lemma_in_order_put_before(tail, e);
    lemma_put_before(tail, e);
    assert(right.skip(j - 1) =~= seq![e] + right.skip(j));
    lemma_put_before(right.skip(j), e);
    assert(grown.to_multiset() =~= left.skip(i).to_multiset().add(
        right.skip(j - 1).to_multiset(),
    ));
    assert forall|path: Seq<char>| #[trigger]
        at_path(grown, path) == at_path(left.skip(i), path) + at_path(right.skip(j - 1), path) by {
        if e.path == path {
            let same = |x: git::Entry| x.path == path;
            let done = left.skip(i);
            if at_path(done, path).len() > 0 {
                done.lemma_filter_pred(same, 0);
                let x = at_path(done, path)[0];
                assert(done.filter(same).contains(x));
                done.lemma_filter_contains_rev(same, x);
                let m = choose|m: int| 0 <= m < done.len() && done[m] == x;
                assert(left[i + m] == x);
                assert(!listed_before(left[i + m], right[j - 1]));
                lemma_not_after_itself(encode_utf8(path));
            }
            assert(at_path(done, path) =~= Seq::empty());
            assert(seq![e] + (at_path(done, path) + at_path(right.skip(j), path)) =~= at_path(
                done,
                path,
            ) + (seq![e] + at_path(right.skip(j), path)));
        }
    }
    assert forall|m: int, k: int| 0 <= m < i && 0 <= k < grown.len() implies listed_before(
        #[trigger] left[m],
        #[trigger] grown[k],
    ) by {
        if k > 0 {
            assert(grown[k] == tail[k - 1]);
        } else {
            assert(listed_before(left[m], left[i - 1]));
            lemma_not_after_transitive(
                encode_utf8(left[m].path),
                encode_utf8(left[i - 1].path),
                encode_utf8(e.path),
            );
        }
    }
    assert forall|m: int, k: int| 0 <= m < j - 1 && 0 <= k < grown.len() implies listed_before(
        #[trigger] right[m],
        #[trigger] grown[k],
    ) by {
        if k > 0 {
            assert(grown[k] == tail[k - 1]);
        }
    }
}

/// The last of `entries`, and the others in `entries`.
fn take_last(entries: &mut Vec<WorktreeEntry>) -> (r: WorktreeEntry)
    requires
        old(entries)@.len() > 0,
    ensures
        r == old(entries)@.last(),
        final(entries)@ == old(entries)@.drop_last(),
{
    let r = entries.pop().unwrap();
    assert(entries@ =~= old(entries)@.drop_last());
    r
}

/// `left` and `right`, each in order, in one order; of entries with the same path those of `left`
/// come first.
fn merge(left: Vec<WorktreeEntry>, right: Vec<WorktreeEntry>) -> (r: Vec<WorktreeEntry>)
    requires
        in_order(git::entries_of(left@)),
        in_order(git::entries_of(right@)),
    ensures
        stably_sorted(git::entries_of(left@) + git::entries_of(right@), git::entries_of(r@)),
{
    let ghost a = git::entries_of(left@);
    let ghost b = git::entries_of(right@);
    let mut left = left;
    let mut right = right;
    let mut backward: Vec<WorktreeEntry> = Vec::new();
    let ghost tail: Seq<git::Entry> = Seq::empty();
    proof {
        broadcast use group_multiset_axioms;

        assert(a.skip(a.len() as int) =~= Seq::empty());
        assert(b.skip(b.len() as int) =~= Seq::empty());
        let none = Seq::<git::Entry>::empty();
        to_multiset_len(none);
        assert(none.to_multiset() =~= none.to_multiset().add(none.to_multiset()));
        assert forall|path: Seq<char>| #[trigger]
            at_path(none, path) == at_path(none, path) + at_path(none, path) by {
            reveal(Seq::filter);
            assert(at_path(none, path) =~= none);
        }
        assert(tail.reverse() =~= Seq::empty());
    }
    while left.len() > 0 || right.len() > 0
        invariant
            git::entries_of(left@) == a.take(left@.len() as int),
            git::entries_of(right@) == b.take(right@.len() as int),
            left@.len() <= a.len(),
            right@.len() <= b.len(),
            merging(a, b, left@.len() as int, right@.len() as int, tail),
            git::entries_of(backward@) == tail.reverse(),
        decreases left.len() + right.len(),
    {
        let ghost i = left@.len() as int;
        let ghost j = right@.len() as int;
        let ghost before = tail;
        assert(i > 0 ==> left@[i - 1]@ == git::entries_of(left@)[i - 1]);
        assert(j > 0 ==> right@[j - 1]@ == git::entries_of(right@)[j - 1]);
        let from_right = right.len() > 0 && (left.len() == 0 || is_not_after(
            left[left.len() - 1].path.as_str().as_bytes(),
            right[right.len() - 1].path.as_str().as_bytes(),
        ));
        let e = if from_right {
            proof {
                lemma_merging_takes_right(a, b, i, j, tail);
            }
            take_last(&mut right)
        } else {
            proof {
                lemma_merging_takes_left(a, b, i, j, tail);
            }
            take_last(&mut left)
        };
        proof {
            tail = seq![e@] + before;
            assert(git::entries_of(left@) =~= a.take(left@.len() as int));
            assert(git::entries_of(right@) =~= b.take(right@.len() as int));
        }
        let ghost turned = git::entries_of(backward@);
        backward.push(e);
        assert(git::entries_of(backward@) =~= turned.push(e@));
        assert(tail.reverse() =~= before.reverse().push(e@));
    }
    let mut r: Vec<WorktreeEntry> = Vec::new();
    let ghost n = tail.len();
    while backward.len() > 0
        invariant
            n == tail.len(),
            r@.len() + backward@.len() == n,
            git::entries_of(backward@) == tail.skip(r@.len() as int).reverse(),
            git::entries_of(r@) == tail.take(r@.len() as int),
        decreases backward.len(),
    {
        let ghost k = r@.len() as int;
        assert(backward@.last()@ == git::entries_of(backward@).last());
        let ghost turned = git::entries_of(backward@);
        let e = take_last(&mut backward);
        r.push(e);
        assert(git::entries_of(backward@) =~= turned.drop_last());
        assert(tail.skip(k).reverse().drop_last() =~= tail.skip(k + 1).reverse());
        assert(git::entries_of(r@) =~= tail.take(k + 1));
    }
    proof {
        assert(git::entries_of(r@) =~= tail);
        assert(a.skip(0) =~= a);
        assert(b.skip(0) =~= b);
        lemma_multiset_commutative(a, b);
        assert forall|path: Seq<char>| #[trigger]
            at_path(tail, path) == at_path(a + b, path) by {
            Seq::filter_distributes_over_add(a, b, |e: git::Entry| e.path == path);
        }
    }
    r
}

/// `entries` in the order of their paths; entries with the same path keep their places among each
/// other.
pub fn sort_by_path(entries: Vec<WorktreeEntry>) -> (r: Vec<WorktreeEntry>)
    ensures
        stably_sorted(git::entries_of(entries@), git::entries_of(r@)),
    decreases entries.len(),
{
    let ghost all = git::entries_of(entries@);
    if entries.len() <= 1 {
        proof {
            if all.len() == 1 {
                lemma_not_after_itself(encode_utf8(all[0].path));
            }
        }
        return entries;
    }
    let mut entries = entries;
    let half: usize = entries.len() / 2;
    let right = entries.split_off(half);
    let ghost a = git::entries_of(entries@);
    let ghost b = git::entries_of(right@);
    assert(a + b =~= all);
    let left = sort_by_path(entries);
    let right = sort_by_path(right);
    let r = merge(left, right);
    proof {
        let la = git::entries_of(left@);
        let lb = git::entries_of(right@);
        lemma_multiset_commutative(a, b);
        lemma_multiset_commutative(la, lb);
        assert forall|path: Seq<char>| #[trigger]
            at_path(git::entries_of(r@), path) == at_path(all, path) by {
            Seq::filter_distributes_over_add(a, b, |e: git::Entry| e.path == path);
            Seq::filter_distributes_over_add(la, lb, |e: git::Entry| e.path == path);
            assert(at_path(la, path) == at_path(a, path));
            assert(at_path(lb, path) == at_path(b, path));
            assert(at_path(git::entries_of(r@), path) == at_path(la + lb, path));
        }
    }
    r
}

proof fn lemma_not_after_antisymmetric(a: Seq<u8>, b: Seq<u8>)
    requires
        not_after(a, b),
        not_after(b, a),
    ensures
        a == b,
    decreases a.len(),
{
    if a.len() > 0 && b.len() > 0 {
        lemma_not_after_antisymmetric(a.drop_first(), b.drop_first());
        assert(a =~= seq![a.first()] + a.drop_first());
        assert(b =~= seq![b.first()] + b.drop_first());
    } else {
        assert(a =~= b);
    }
}

/// The first entry of an order comes before any entry that occurs in it.
proof fn lemma_first_in_order(s: Seq<git::Entry>, e: git::Entry)
    requires
        in_order(s),
        s.to_multiset().count(e) > 0,
    ensures
        s.len() > 0,
        listed_before(s[0], e),
{
    to_multiset_contains(s, e);
    let i = choose|i: int| 0 <= i < s.len() && s[i] == e;
    assert(listed_before(s[0], s[i]));
}

/// The order is settled: there is one way only to put entries in the order of their paths so that
/// entries with the same path keep their places among each other.
pub proof fn law_the_order_is_settled(
    before: Seq<git::Entry>,
    a: Seq<git::Entry>,
    b: Seq<git::Entry>,
)
    requires
        stably_sorted(before, a),
        stably_sorted(before, b),
    ensures
        a == b,
    decreases a.len(),
{
    to_multiset_len(a);
    to_multiset_len(b);
    if a.len() == 0 {
        assert(a =~= b);
    } else {
        let x = a[0];
        let y = b[0];
        let rest_a = a.drop_first();
        let rest_b = b.drop_first();
        to_multiset_contains(a, x);
        to_multiset_contains(b, y);
        assert(a.contains(x));
        assert(b.contains(y));
        lemma_first_in_order(a, y);
        lemma_first_in_order(b, x);
        lemma_not_after_antisymmetric(encode_utf8(x.path), encode_utf8(y.path));
        encode_utf8_decode_utf8(x.path);
        encode_utf8_decode_utf8(y.path);
        assert(x.path == y.path);
        assert(a =~= seq![x] + rest_a);
        assert(b =~= seq![y] + rest_b);
        lemma_put_before(rest_a, x);
        lemma_put_before(rest_b, y);
        assert(at_path(a, x.path) == at_path(b, x.path));
        assert(at_path(a, x.path)[0] == x);
        assert(at_path(b, x.path)[0] == y);
        assert(stably_sorted(rest_a, rest_b)) by {
            broadcast use group_multiset_axioms;

            assert(rest_a.to_multiset() =~= a.to_multiset().remove(x));
            assert(rest_b.to_multiset() =~= b.to_multiset().remove(x));
            assert forall|path: Seq<char>| #[trigger]
                at_path(rest_b, path) == at_path(rest_a, path) by {
                assert(at_path(a, path) == at_path(b, path));
                if x.path == path {
                    assert(at_path(rest_a, path) =~= at_path(a, path).drop_first());
                    assert(at_path(rest_b, path) =~= at_path(b, path).drop_first());
                }
            }
        }
        law_the_order_is_settled(rest_a, rest_a, rest_b);
    }
}

} // verus!

//! Sets of paths.
use vstd::hash_set::StringHashSet;
use vstd::prelude::*;

use crate::path;

verus! {

/// The character that ends a component in the key of a path; no byte is mapped to it.
const END: char = '\u{100}';

/// One character for each byte of a component, and `END`.
spec fn component_key(component: Seq<u8>) -> Seq<char> {
    component.map_values(|b: u8| b as char).push(END)
}

/// The keys of all components, one behind the other.
spec fn path_key(components: Seq<Seq<u8>>) -> Seq<char>
    decreases components.len(),
{
    if components.len() == 0 {
        Seq::empty()
    } else {
        path_key(components.drop_last()) + component_key(components.last())
    }
}

/// A key ends with `END`, and the component before that can be read off it.
proof fn lemma_component_key_at_end(a: Seq<char>, b: Seq<char>, x: Seq<u8>, y: Seq<u8>)
    requires
        a + component_key(x) == b + component_key(y),
        a.len() == 0 || a.last() == END,
        b.len() == 0 || b.last() == END,
    ensures
        a == b,
        x == y,
{
    let whole = a + component_key(x);
    let other = b + component_key(y);
    if x.len() < y.len() {
        // The position before `x` holds `END` on the left and a byte of `y` on the right.
        assert(whole.len() == a.len() + x.len() + 1);
        assert(other.len() == b.len() + y.len() + 1);
        assert(whole[a.len() - 1] == END);
        assert(other[a.len() - 1] == y[a.len() - 1 - b.len()] as char);
        assert(false);
    } else if y.len() < x.len() {
        assert(whole.len() == a.len() + x.len() + 1);
        assert(other.len() == b.len() + y.len() + 1);
        assert(other[b.len() - 1] == END);
        assert(whole[b.len() - 1] == x[b.len() - 1 - a.len()] as char);
        assert(false);
    } else {
        assert(whole.len() == a.len() + x.len() + 1);
        assert(other.len() == b.len() + y.len() + 1);
        assert(a =~= whole.take(a.len() as int));
        assert(b =~= other.take(b.len() as int));
        assert forall|i: int| 0 <= i < x.len() implies x[i] == y[i] by {
            assert(whole[a.len() + i] == x[i] as char);
            assert(other[b.len() + i] == y[i] as char);
        }
        assert(x =~= y);
    }
}

proof fn lemma_path_key_ends(components: Seq<Seq<u8>>)
    ensures
        path_key(components).len() == 0 <==> components.len() == 0,
        components.len() > 0 ==> path_key(components).last() == END,
{
}

/// Paths with the same key have the same components.
proof fn lemma_path_key_injective(a: Seq<Seq<u8>>, b: Seq<Seq<u8>>)
    requires
        path_key(a) == path_key(b),
    ensures
        a == b,
    decreases a.len(),
{
    lemma_path_key_ends(a);
    lemma_path_key_ends(b);
    if a.len() > 0 {
        lemma_path_key_ends(a.drop_last());
        lemma_path_key_ends(b.drop_last());
        lemma_component_key_at_end(
            path_key(a.drop_last()),
            path_key(b.drop_last()),
            a.last(),
            b.last(),
        );
        lemma_path_key_injective(a.drop_last(), b.drop_last());
        assert(a =~= a.drop_last().push(a.last()));
        assert(b =~= b.drop_last().push(b.last()));
    } else {
        assert(a =~= b);
    }
}

/// The key of `path`.
fn key_of(path: &[u8]) -> (r: String)
    ensures
        r@ == path_key(path::components(path@)),
{
    let parts = path::components_of(path);
    let ghost all = path::components(path@);
    let mut r = String::new();
    assert(all.take(0) =~= Seq::empty());
    for i in 0..parts.len()
        invariant
            path::bytes_of(parts@) == all,
            r@ == path_key(all.take(i as int)),
    {
        let ghost before = r@;
        let part = &parts[i];
        assert(part@ == all[i as int]);
        assert(before + part@.take(0).map_values(|b: u8| b as char) =~= before);
        for j in 0..part.len()
            invariant
                r@ == before + part@.take(j as int).map_values(|b: u8| b as char),
        {
            r.push(part[j] as char);
            assert(part@.take(j + 1).map_values(|b: u8| b as char) =~= part@.take(
                j as int,
            ).map_values(|b: u8| b as char).push(part@[j as int] as char));
        }
        r.push(END);
        assert(part@.take(part@.len() as int) =~= part@);
        assert(r@ =~= before + component_key(part@));
        assert(all.take(i + 1).drop_last() =~= all.take(i as int));
        assert(all.take(i + 1).last() == part@);
    }
    assert(all.take(all.len() as int) =~= all);
    r
}

/// A set of paths. Two paths are the same where their components are.
pub struct PathSet {
    keys: StringHashSet,
}

impl View for PathSet {
    type V = Set<Seq<Seq<u8>>>;

    closed spec fn view(&self) -> Set<Seq<Seq<u8>>> {
        Set::new(|c: Seq<Seq<u8>>| self.keys@.contains(path_key(c)))
    }
}

impl PathSet {
    /// The set without paths.
    pub fn new() -> (r: PathSet)
        ensures
            r@ == Set::<Seq<Seq<u8>>>::empty(),
    {
        let r = PathSet { keys: StringHashSet::new() };
        assert(r@ =~= Set::<Seq<Seq<u8>>>::empty());
        r
    }

    /// Adds `path`.
    pub fn insert(&mut self, path: &[u8])
        ensures
            final(self)@ == old(self)@.insert(path::components(path@)),
    {
        let ghost before = self@;
        let key = key_of(path);
        self.keys.insert(key);
        assert forall|c: Seq<Seq<u8>>| self@.contains(c) == before.insert(
            path::components(path@),
        ).contains(c) by {
            if path_key(c) == path_key(path::components(path@)) {
                lemma_path_key_injective(c, path::components(path@));
            }
        }
        assert(self@ =~= before.insert(path::components(path@)));
    }

    /// Whether `path` was added.
    pub fn contains(&self, path: &[u8]) -> (r: bool)
        ensures
            r == self@.contains(path::components(path@)),
    {
        let key = key_of(path);
        self.keys.contains(key.as_str())
    }
}

} // verus!

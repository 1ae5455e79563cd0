//! A map from names to indices, where a later binding of a name replaces the
//! earlier one.
use vstd::prelude::*;

verus! {

/// The characters of `s`, in order.
pub(crate) fn chars_of(s: &str) -> (v: Vec<char>)
    ensures
        v@ == s@,
{
    let mut v: Vec<char> = Vec::new();
    for c in it: s.chars()
        invariant
            v@ == it.seq().take(it.index() as int),
    {
        v.push(c);
    }
    v
}

/// Whether two string slices hold the same characters.
pub(crate) fn str_eq(a: &str, b: &str) -> (r: bool)
    ensures
        r == (a@ == b@),
{
    let ca = chars_of(a);
    let cb = chars_of(b);
    if ca.len() != cb.len() {
        return false;
    }
    let mut i: usize = 0;
    while i < ca.len()
        invariant
            ca@ == a@,
            cb@ == b@,
            ca@.len() == cb@.len(),
            i <= ca@.len(),
            forall|k: int| 0 <= k < i ==> ca@[k] == cb@[k],
        decreases ca@.len() - i,
    {
        if ca[i] != cb[i] {
            assert(a@[i as int] != b@[i as int]);
            return false;
        }
        i = i + 1;
    }
    assert(ca@ =~= cb@);
    true
}

/// The map that a list of bindings denotes when each binding overrides the
/// earlier ones for its name.
pub open spec fn bindings_map(es: Seq<(Seq<char>, usize)>) -> Map<Seq<char>, usize>
    decreases es.len(),
{
    if es.len() == 0 {
        Map::empty()
    } else {
        bindings_map(es.drop_last()).insert(es.last().0, es.last().1)
    }
}

/// Names bound to indices.
#[derive(Debug)]
pub struct SymbolMap<'a> {
    entries: Vec<(&'a str, usize)>,
}

/// Bindings after the first `i` do not bind `k`: the map agrees with the one
/// of the first `i` bindings on `k`.
proof fn lemma_bindings_tail(es: Seq<(Seq<char>, usize)>, i: int, k: Seq<char>)
    requires
        0 <= i <= es.len(),
        forall|j: int| i <= j < es.len() ==> (#[trigger] es[j]).0 != k,
    ensures
        bindings_map(es).contains_key(k) == bindings_map(es.take(i)).contains_key(k),
        bindings_map(es).contains_key(k) ==> bindings_map(es)[k] == bindings_map(es.take(i))[k],
    decreases es.len(),
{
    if es.len() > i {
        let d = es.drop_last();
        assert(es[es.len() - 1].0 != k);
        assert forall|j: int| i <= j < d.len() implies (#[trigger] d[j]).0 != k by {
            assert(d[j] == es[j]);
        }
        lemma_bindings_tail(d, i, k);
        assert(d.take(i) =~= es.take(i));
    } else {
        assert(es.take(i) =~= es);
    }
}

impl<'a> SymbolMap<'a> {
    pub closed spec fn bindings(&self) -> Seq<(Seq<char>, usize)> {
        self.entries@.map_values(|e: (&'a str, usize)| (e.0@, e.1))
    }

    /// The names and the indices they are bound to.
    pub closed spec fn spec_map(&self) -> Map<Seq<char>, usize> {
        bindings_map(self.bindings())
    }

    pub fn new() -> (m: Self)
        ensures
            m.spec_map() == Map::<Seq<char>, usize>::empty(),
    {
        let m = SymbolMap { entries: Vec::new() };
        assert(m.bindings() =~= Seq::empty());
        m
    }

    /// The index bound to `name`, if any.
    pub fn get(&self, name: &str) -> (r: Option<usize>)
        ensures
            r == (if self.spec_map().contains_key(name@) {
                Some(self.spec_map()[name@])
            } else {
                None
            }),
    {
        let ghost es = self.bindings();
        let mut i = self.entries.len();
        while i > 0
            invariant
                es == self.bindings(),
                i <= es.len(),
                forall|j: int| i <= j < es.len() ==> (#[trigger] es[j]).0 != name@,
            decreases i,
        {
            let e = self.entries[i - 1];
            if str_eq(e.0, name) {
                proof {
                    lemma_bindings_tail(es, i as int, name@);
                    assert(es.take(i as int).drop_last() =~= es.take(i - 1));
                }
                return Some(e.1);
            }
            i = i - 1;
        }
        proof {
            lemma_bindings_tail(es, 0, name@);
        }
        None
    }

    /// Binds `name` to `index`, replacing any earlier binding of `name`;
    /// returns the index that `name` was bound to before, if any.
    pub fn insert(&mut self, name: &'a str, index: usize) -> (r: Option<usize>)
        ensures
            final(self).spec_map() == old(self).spec_map().insert(name@, index),
            r == (if old(self).spec_map().contains_key(name@) {
                Some(old(self).spec_map()[name@])
            } else {
                None
            }),
    {
        let r = self.get(name);
        let ghost before = self.bindings();
        self.entries.push((name, index));
        assert(self.bindings().drop_last() =~= before);
        r
    }
}

/// A read gives back the latest write: after `insert(name, index)` on a map
/// with bindings `m`, `get(name)` gives `index`, and every other name keeps
/// what it was bound to.
pub proof fn lemma_read_after_write(m: Map<Seq<char>, usize>, name: Seq<char>, index: usize, other: Seq<char>)
    requires
        other != name,
    ensures
        m.insert(name, index).contains_key(name),
        m.insert(name, index)[name] == index,
        m.insert(name, index).contains_key(other) == m.contains_key(other),
        m.contains_key(other) ==> m.insert(name, index)[other] == m[other],
{
}

} // verus!

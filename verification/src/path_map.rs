//! A map from paths to values that lists its entries in the order of paths.
use crate::key::{lemma_path_order_total, lemma_path_order_transitive, path_before, ConfigKey};
use vstd::prelude::*;

verus! {

/// Whether the paths of a list of entries ascend strictly.
pub open spec fn ascending<V>(l: Seq<(Seq<char>, V)>) -> bool {
    forall|i: int, j: int| 0 <= i < j < l.len() ==> path_before((#[trigger] l[i]).0, (#[trigger] l[j]).0)
}

/// Whether the list holds an entry for the path.
pub open spec fn listed<V>(l: Seq<(Seq<char>, V)>, p: Seq<char>) -> bool {
    exists|i: int| 0 <= i < l.len() && (#[trigger] l[i]).0 == p
}

/// The place of an entry for the path in the list.
pub open spec fn place_of<V>(l: Seq<(Seq<char>, V)>, p: Seq<char>) -> int {
    choose|i: int| 0 <= i < l.len() && (#[trigger] l[i]).0 == p
}

/// The map that a list of entries stands for.
pub open spec fn listing_map<V>(l: Seq<(Seq<char>, V)>) -> Map<Seq<char>, V> {
    Map::new(|p: Seq<char>| listed(l, p), |p: Seq<char>| l[place_of(l, p)].1)
}

/// In an ascending list each path stands once, so the map holds each entry
/// of the list and nothing else.
pub proof fn lemma_listing_map<V>(l: Seq<(Seq<char>, V)>)
    requires
        ascending(l),
    ensures
        forall|i: int|
            0 <= i < l.len() ==> listing_map(l).contains_key((#[trigger] l[i]).0) && listing_map(
                l,
            )[l[i].0] == l[i].1,
        forall|i: int, j: int|
            0 <= i < l.len() && 0 <= j < l.len() && (#[trigger] l[i]).0 == (#[trigger] l[j]).0
                ==> i == j,
        forall|p: Seq<char>| listing_map(l).contains_key(p) ==> listed(l, p),
{
    assert forall|i: int, j: int|
        0 <= i < l.len() && 0 <= j < l.len() && (#[trigger] l[i]).0 == (#[trigger] l[j]).0 implies i
        == j by {
        lemma_path_order_total(l[i].0, l[j].0);
    }
    assert forall|i: int| 0 <= i < l.len() implies listing_map(l).contains_key(
        (#[trigger] l[i]).0,
    ) && listing_map(l)[l[i].0] == l[i].1 by {
        let p = l[i].0;
        assert(listed(l, p));
        let k = place_of(l, p);
        assert(l[k].0 == l[i].0);
    }
}

/// Putting an entry into an ascending list at the place that keeps it
/// ascending adds the entry to the map.
pub proof fn lemma_insert_entry<V>(l: Seq<(Seq<char>, V)>, at: int, p: Seq<char>, v: V)
    requires
        0 <= at <= l.len(),
        ascending(l),
        ascending(l.insert(at, (p, v))),
    ensures
        listing_map(l.insert(at, (p, v))) == listing_map(l).insert(p, v),
{
    let m = l.insert(at, (p, v));
    lemma_listing_map(l);
    lemma_listing_map(m);
    assert(m[at] == (p, v));
    assert forall|q: Seq<char>| listing_map(m).contains_key(q) <==> listing_map(l).insert(
        p,
        v,
    ).contains_key(q) by {
        if listed(m, q) {
            let k = place_of(m, q);
            if k < at {
                assert(l[k] == m[k]);
            } else if k > at {
                assert(l[k - 1] == m[k]);
            }
        }
        if listed(l, q) {
            let k = place_of(l, q);
            if k < at {
                assert(m[k] == l[k]);
            } else {
                assert(m[k + 1] == l[k]);
            }
        }
    }
    assert forall|q: Seq<char>| listing_map(m).contains_key(q) implies listing_map(m)[q]
        == listing_map(l).insert(p, v)[q] by {
        let k = place_of(m, q);
        if k < at {
            assert(l[k] == m[k]);
        } else if k > at {
            assert(l[k - 1] == m[k]);
        }
    }
    assert(listing_map(m) =~= listing_map(l).insert(p, v));
}

/// Giving the entry of a path another value changes the map at that path.
pub proof fn lemma_replace_entry<V>(l: Seq<(Seq<char>, V)>, at: int, v: V)
    requires
        0 <= at < l.len(),
        ascending(l),
    ensures
        ascending(l.update(at, (l[at].0, v))),
        listing_map(l.update(at, (l[at].0, v))) == listing_map(l).insert(l[at].0, v),
{
    let p = l[at].0;
    let m = l.update(at, (p, v));
    assert(ascending(m)) by {
        assert forall|i: int, j: int| 0 <= i < j < m.len() implies path_before(
            (#[trigger] m[i]).0,
            (#[trigger] m[j]).0,
        ) by {
            assert(m[i].0 == l[i].0);
            assert(m[j].0 == l[j].0);
        }
    }
    lemma_listing_map(l);
    lemma_listing_map(m);
    assert forall|q: Seq<char>| listing_map(m).contains_key(q) <==> listing_map(l).insert(
        p,
        v,
    ).contains_key(q) by {
        if listed(m, q) {
            let k = place_of(m, q);
            assert(l[k].0 == m[k].0);
        }
        if listed(l, q) {
            let k = place_of(l, q);
            assert(m[k].0 == l[k].0);
        }
        assert(m[at].0 == p);
    }
    assert forall|q: Seq<char>| listing_map(m).contains_key(q) implies listing_map(m)[q]
        == listing_map(l).insert(p, v)[q] by {
        let k = place_of(m, q);
        assert(l[k].0 == m[k].0);
        if k != at {
            assert(m[k] == l[k]);
        }
    }
    assert(listing_map(m) =~= listing_map(l).insert(p, v));
}

/// A map from paths to values. It holds each path once and lists its
/// entries in the order of paths.
pub struct PathMap<V> {
    entries: Vec<(ConfigKey, V)>,
}

impl<V> PathMap<V> {
    /// The entries as they are stored.
    spec fn stored(&self) -> Seq<(Seq<char>, V)> {
        Seq::new(self.entries@.len(), |i: int| (self.entries@[i].0@, self.entries@[i].1))
    }

    #[verifier::type_invariant]
    spec fn in_order(&self) -> bool {
        ascending(self.stored())
    }

    /// The entries in the order in which they are listed.
    pub closed spec fn listing(&self) -> Seq<(Seq<char>, V)> {
        if ascending(self.stored()) {
            self.stored()
        } else {
            Seq::empty()
        }
    }

    /// The listing ascends, and the map holds what the listing holds.
    pub proof fn lemma_listing(&self)
        ensures
            ascending(self.listing()),
            forall|i: int|
                0 <= i < self.listing().len() ==> self@.contains_key((#[trigger] self.listing()[i]).0)
                    && self@[self.listing()[i].0] == self.listing()[i].1,
            forall|p: Seq<char>| self@.contains_key(p) ==> listed(self.listing(), p),
    {
        lemma_listing_map(self.listing());
    }

    /// A map without entries.
    pub fn new() -> (r: Self)
        ensures
            r@ == Map::<Seq<char>, V>::empty(),
            r.listing().len() == 0,
    {
        let r = PathMap { entries: Vec::new() };
        proof {
            assert(r@ =~= Map::<Seq<char>, V>::empty());
        }
        r
    }

    /// The number of entries.
    pub fn len(&self) -> (n: usize)
        ensures
            n == self.listing().len(),
    {
        proof {
            use_type_invariant(self);
        }
        self.entries.len()
    }

    /// Whether the map has no entry.
    pub fn is_empty(&self) -> (r: bool)
        ensures
            r == (self.listing().len() == 0),
    {
        proof {
            use_type_invariant(self);
        }
        self.entries.len() == 0
    }

    /// The entry at place `i` of the listing, if there are that many.
    pub fn entry(&self, i: usize) -> (r: Option<(&ConfigKey, &V)>)
        ensures
            i >= self.listing().len() ==> r is None,
            i < self.listing().len() ==> (r matches Some(e) && e.0@ == self.listing()[i as int].0
                && *e.1 == self.listing()[i as int].1),
    {
        proof {
            use_type_invariant(self);
        }
        if i < self.entries.len() {
            Some((&self.entries[i].0, &self.entries[i].1))
        } else {
            None
        }
    }

    /// The place at which `key` stands or would have to stand.
    fn position(&self, key: &ConfigKey) -> (r: (usize, bool))
        ensures
            r.0 <= self.listing().len(),
            forall|j: int| 0 <= j < r.0 ==> path_before((#[trigger] self.listing()[j]).0, key@),
            r.1 ==> r.0 < self.listing().len() && self.listing()[r.0 as int].0 == key@,
            !r.1 ==> forall|j: int|
                r.0 <= j < self.listing().len() ==> path_before(
                    key@,
                    (#[trigger] self.listing()[j]).0,
                ),
    {
        proof {
            use_type_invariant(self);
        }
        let mut i: usize = 0;
        while i < self.entries.len() && self.entries[i].0.comes_before(key)
            invariant
                i <= self.entries.len(),
                self.listing() == self.stored(),
                forall|j: int| 0 <= j < i ==> path_before((#[trigger] self.listing()[j]).0, key@),
            decreases self.entries.len() - i,
        {
            i = i + 1;
        }
        if i < self.entries.len() {
            let after = key.comes_before(&self.entries[i].0);
            proof {
                let here = self.listing()[i as int].0;
                lemma_path_order_total(here, key@);
                if after {
                    assert forall|j: int| i <= j < self.listing().len() implies path_before(
                        key@,
                        (#[trigger] self.listing()[j]).0,
                    ) by {
                        if j > i {
                            assert(path_before(self.listing()[i as int].0, self.listing()[j].0));
                            lemma_path_order_transitive(key@, here, self.listing()[j].0);
                        }
                    }
                }
            }
            (i, !after)
        } else {
            (i, false)
        }
    }

    /// The value of a path, if the map holds the path.
    pub fn get(&self, key: &ConfigKey) -> (r: Option<&V>)
        ensures
            r is Some == self@.contains_key(key@),
            r matches Some(v) ==> *v == self@[key@],
    {
        let (i, found) = self.position(key);
        proof {
            use_type_invariant(self);
            self.lemma_listing();
            if !found && listed(self.listing(), key@) {
                let k = place_of(self.listing(), key@);
                lemma_path_order_total(self.listing()[k].0, key@);
            }
        }
        if found {
            Some(&self.entries[i].1)
        } else {
            None
        }
    }

    /// Whether the map holds the path.
    pub fn contains_key(&self, key: &ConfigKey) -> (r: bool)
        ensures
            r == self@.contains_key(key@),
    {
        self.get(key).is_some()
    }

    /// Gives the path the value, in place of the one it had, if any.
    pub fn insert(&mut self, key: ConfigKey, value: V)
        ensures
            final(self)@ == old(self)@.insert(key@, value),
    {
        let (i, found) = self.position(&key);
        let ghost before = self.listing();
        proof {
            use_type_invariant(&*self);
        }
        let mut entries: Vec<(ConfigKey, V)> = Vec::new();
        std::mem::swap(&mut entries, &mut self.entries);
        if found {
            entries.set(i, (key, value));
            proof {
                lemma_replace_entry(before, i as int, value);
                assert(Seq::new(entries@.len(), |k: int| (entries@[k].0@, entries@[k].1))
                    =~= before.update(i as int, (before[i as int].0, value)));
            }
        } else {
            entries.insert(i, (key, value));
            proof {
                let after = before.insert(i as int, (key@, value));
                assert(Seq::new(entries@.len(), |k: int| (entries@[k].0@, entries@[k].1))
                    =~= after);
                assert(ascending(after)) by {
                    assert forall|a: int, b: int| 0 <= a < b < after.len() implies path_before(
                        (#[trigger] after[a]).0,
                        (#[trigger] after[b]).0,
                    ) by {
                        if b < i {
                            assert(after[a] == before[a] && after[b] == before[b]);
                        } else if b == i {
                            assert(after[a] == before[a]);
                        } else if a < i {
                            assert(after[a] == before[a] && after[b] == before[b - 1]);
                        } else if a == i {
                            assert(after[b] == before[b - 1]);
                        } else {
                            assert(after[a] == before[a - 1] && after[b] == before[b - 1]);
                        }
                    }
                }
                lemma_insert_entry(before, i as int, key@, value);
            }
        }
        self.entries = entries;
    }
}

impl<V> View for PathMap<V> {
    type V = Map<Seq<char>, V>;

    open spec fn view(&self) -> Map<Seq<char>, V> {
        listing_map(self.listing())
    }
}

} // verus!

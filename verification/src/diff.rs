//! The difference of two documents, leaf by leaf.
use crate::flatten::{docs, extract_key_vals, flat};
use crate::path_map::{ascending, listed, PathMap};
use crate::value::{doc_eq, lemma_doc_eq_reflexive, value_eq, Doc, Value};
use vstd::prelude::*;

verus! {

/// The leaves of the new document whose paths the old one lacks.
pub open spec fn added_of(o: Map<Seq<char>, Doc>, n: Map<Seq<char>, Doc>) -> Map<Seq<char>, Doc> {
    n.remove_keys(o.dom())
}

/// The leaves of the old document whose paths the new one lacks.
pub open spec fn removed_of(o: Map<Seq<char>, Doc>, n: Map<Seq<char>, Doc>) -> Map<
    Seq<char>,
    Doc,
> {
    o.remove_keys(n.dom())
}

/// The paths that both documents have with leaves that are not equal, each
/// with the old leaf and the new one.
pub open spec fn modified_of(o: Map<Seq<char>, Doc>, n: Map<Seq<char>, Doc>) -> Map<
    Seq<char>,
    (Doc, Doc),
> {
    Map::new(
        |p: Seq<char>| o.contains_key(p) && n.contains_key(p) && !doc_eq(o[p], n[p]),
        |p: Seq<char>| (o[p], n[p]),
    )
}

/// The pairs of documents that the values of a map stand for.
pub open spec fn doc_pairs<'a>(m: Map<Seq<char>, (&'a Value, &'a Value)>) -> Map<
    Seq<char>,
    (Doc, Doc),
> {
    Map::new(|p: Seq<char>| m.contains_key(p), |p: Seq<char>| (m[p].0@, m[p].1@))
}

/// What changed from one document to another. Each of the three maps lists
/// its entries in the order of paths.
pub struct ConfigDiff<'a> {
    /// Leaves that only the new document has.
    pub added: PathMap<&'a Value>,
    /// Leaves that only the old document has.
    pub removed: PathMap<&'a Value>,
    /// Leaves that both have and that differ: the old one, then the new.
    pub modified: PathMap<(&'a Value, &'a Value)>,
}

/// A document compared with itself has no added, removed or modified
/// leaf.
pub proof fn lemma_diff_of_same(d: Doc)
    ensures
        added_of(flat(d, Seq::empty()), flat(d, Seq::empty())) == Map::<Seq<char>, Doc>::empty(),
        removed_of(flat(d, Seq::empty()), flat(d, Seq::empty())) == Map::<Seq<char>, Doc>::empty(),
        modified_of(flat(d, Seq::empty()), flat(d, Seq::empty())) == Map::<
            Seq<char>,
            (Doc, Doc),
        >::empty(),
{
    let m = flat(d, Seq::empty());
    assert(added_of(m, m) =~= Map::<Seq<char>, Doc>::empty());
    assert(removed_of(m, m) =~= Map::<Seq<char>, Doc>::empty());
    assert forall|p: Seq<char>| !modified_of(m, m).contains_key(p) by {
        if m.contains_key(p) {
            lemma_doc_eq_reflexive(m[p]);
        }
    }
    assert(modified_of(m, m) =~= Map::<Seq<char>, (Doc, Doc)>::empty());
}

/// No path is at once among the added, the removed and the modified ones,
/// nor among two of them.
pub proof fn lemma_diff_disjoint(o: Doc, n: Doc)
    ensures
        ({
            let a = added_of(flat(o, Seq::empty()), flat(n, Seq::empty())).dom();
            let r = removed_of(flat(o, Seq::empty()), flat(n, Seq::empty())).dom();
            let m = modified_of(flat(o, Seq::empty()), flat(n, Seq::empty())).dom();
            a.disjoint(r) && a.disjoint(m) && r.disjoint(m)
        }),
{
}

/// Taking one more entry of a list adds its path to the listed ones.
proof fn lemma_listed_next<V>(l: Seq<(Seq<char>, V)>, i: int)
    requires
        0 <= i < l.len(),
    ensures
        forall|p: Seq<char>| #[trigger]
            listed(l.take(i + 1), p) <==> (listed(l.take(i), p) || p == l[i].0),
{
    let done = l.take(i);
    let next = l.take(i + 1);
    assert(next[i] == l[i]);
    assert forall|p: Seq<char>| listed(next, p) <==> (listed(done, p) || p == l[i].0) by {
        if listed(next, p) {
            let k = choose|k: int| 0 <= k < next.len() && (#[trigger] next[k]).0 == p;
            if k < i {
                assert(done[k] == next[k]);
            }
        }
        if listed(done, p) {
            let k = choose|k: int| 0 <= k < done.len() && (#[trigger] done[k]).0 == p;
            assert(next[k] == done[k]);
        }
    }
}

/// The leaves that only `new_key_vals` has, and the leaves that both have
/// and that differ.
fn added_and_modified<'a>(
    old_key_vals: &PathMap<&'a Value>,
    new_key_vals: &PathMap<&'a Value>,
) -> (r: (PathMap<&'a Value>, PathMap<(&'a Value, &'a Value)>))
    ensures
        docs(r.0@) == added_of(docs(old_key_vals@), docs(new_key_vals@)),
        doc_pairs(r.1@) == modified_of(docs(old_key_vals@), docs(new_key_vals@)),
{
    let ghost o = docs(old_key_vals@);
    let ghost n = docs(new_key_vals@);
    let ghost new_list = new_key_vals.listing();
    proof {
        new_key_vals.lemma_listing();
    }
    let mut added: PathMap<&'a Value> = PathMap::new();
    let mut modified: PathMap<(&'a Value, &'a Value)> = PathMap::new();
    let mut i: usize = 0;
    while i < new_key_vals.len()
        invariant
            i <= new_list.len(),
            new_list == new_key_vals.listing(),
            o == docs(old_key_vals@),
            n == docs(new_key_vals@),
            forall|k: int|
                0 <= k < new_list.len() ==> new_key_vals@.contains_key((#[trigger] new_list[k]).0)
                    && new_key_vals@[new_list[k].0] == new_list[k].1,
            forall|p: Seq<char>| #[trigger]
                added@.contains_key(p) <==> listed(new_list.take(i as int), p) && !o.contains_key(p),
            forall|p: Seq<char>| #[trigger] added@.contains_key(p) ==> added@[p]@ == n[p],
            forall|p: Seq<char>| #[trigger]
                modified@.contains_key(p) <==> listed(new_list.take(i as int), p) && o.contains_key(
                    p,
                ) && !doc_eq(o[p], n[p]),
            forall|p: Seq<char>| #[trigger]
                modified@.contains_key(p) ==> modified@[p].0@ == o[p] && modified@[p].1@ == n[p],
        decreases new_list.len() - i,
    {
        let ghost added0 = added@;
        let ghost modified0 = modified@;
        if let Some((key, value)) = new_key_vals.entry(i) {
            proof {
                lemma_listed_next(new_list, i as int);
                assert(new_key_vals@[key@] == *value);
                assert(n[key@] == value@);
            }
            match old_key_vals.get(key) {
                None => {
                    added.insert(key.clone(), *value);
                    proof {
                        assert(!o.contains_key(key@));
                    }
                },
                Some(old_value) => {
                    proof {
                        assert(o.contains_key(key@));
                        assert(o[key@] == old_value@);
                    }
                    if !value_eq(*old_value, *value) {
                        modified.insert(key.clone(), (*old_value, *value));
                    }
                },
            }
            proof {
                let next = new_list.take(i + 1);
                assert forall|p: Seq<char>| #[trigger]
                    added@.contains_key(p) <==> listed(next, p) && !o.contains_key(p) by {
                    assert(added0.contains_key(p) <==> listed(new_list.take(i as int), p)
                        && !o.contains_key(p));
                }
                assert forall|p: Seq<char>| #[trigger] added@.contains_key(p) implies added@[p]@
                    == n[p] by {
                    if p != key@ {
                        assert(added0.contains_key(p));
                    }
                }
                assert forall|p: Seq<char>| #[trigger]
                    modified@.contains_key(p) <==> listed(next, p) && o.contains_key(p) && !doc_eq(
                        o[p],
                        n[p],
                    ) by {
                    assert(modified0.contains_key(p) <==> listed(new_list.take(i as int), p)
                        && o.contains_key(p) && !doc_eq(o[p], n[p]));
                }
                assert forall|p: Seq<char>| #[trigger] modified@.contains_key(p) implies modified@[p].0@
                    == o[p] && modified@[p].1@ == n[p] by {
                    if p != key@ {
                        assert(modified0.contains_key(p));
                    }
                }
            }
        }
        i = i + 1;
    }
    proof {
        assert(new_list.take(new_list.len() as int) =~= new_list);
        assert forall|p: Seq<char>| n.contains_key(p) implies listed(new_list, p) by {}
        assert forall|p: Seq<char>| docs(added@).contains_key(p) <==> added_of(o, n).contains_key(
            p,
        ) by {
            assert(added@.contains_key(p) <==> listed(new_list, p) && !o.contains_key(p));
            if listed(new_list, p) {
                let k = choose|k: int| 0 <= k < new_list.len() && (#[trigger] new_list[k]).0 == p;
                assert(new_key_vals@.contains_key(new_list[k].0));
            }
        }
        assert(docs(added@) =~= added_of(o, n));
        assert forall|p: Seq<char>|
            doc_pairs(modified@).contains_key(p) <==> modified_of(o, n).contains_key(p) by {
            assert(modified@.contains_key(p) <==> listed(new_list, p) && o.contains_key(p)
                && !doc_eq(o[p], n[p]));
            if listed(new_list, p) {
                let k = choose|k: int| 0 <= k < new_list.len() && (#[trigger] new_list[k]).0 == p;
                assert(new_key_vals@.contains_key(new_list[k].0));
            }
        }
        assert(doc_pairs(modified@) =~= modified_of(o, n));
    }
    (added, modified)
}

/// The leaves that only `old_key_vals` has.
fn removed_entries<'a>(old_key_vals: &PathMap<&'a Value>, new_key_vals: &PathMap<&'a Value>) -> (r:
    PathMap<&'a Value>)
    ensures
        docs(r@) == removed_of(docs(old_key_vals@), docs(new_key_vals@)),
{
    let ghost o = docs(old_key_vals@);
    let ghost n = docs(new_key_vals@);
    let ghost old_list = old_key_vals.listing();
    proof {
        old_key_vals.lemma_listing();
    }
    let mut removed: PathMap<&'a Value> = PathMap::new();
    let mut j: usize = 0;
    while j < old_key_vals.len()
        invariant
            j <= old_list.len(),
            old_list == old_key_vals.listing(),
            o == docs(old_key_vals@),
            n == docs(new_key_vals@),
            forall|k: int|
                0 <= k < old_list.len() ==> old_key_vals@.contains_key((#[trigger] old_list[k]).0)
                    && old_key_vals@[old_list[k].0] == old_list[k].1,
            forall|p: Seq<char>| #[trigger]
                removed@.contains_key(p) <==> listed(old_list.take(j as int), p) && !n.contains_key(
                    p,
                ),
            forall|p: Seq<char>| #[trigger] removed@.contains_key(p) ==> removed@[p]@ == o[p],
        decreases old_list.len() - j,
    {
        let ghost removed0 = removed@;
        if let Some((key, value)) = old_key_vals.entry(j) {
            proof {
                lemma_listed_next(old_list, j as int);
                assert(old_key_vals@[key@] == *value);
                assert(o[key@] == value@);
            }
            if !new_key_vals.contains_key(key) {
                removed.insert(key.clone(), *value);
            }
            proof {
                let next = old_list.take(j + 1);
                assert forall|p: Seq<char>| #[trigger]
                    removed@.contains_key(p) <==> listed(next, p) && !n.contains_key(p) by {
                    assert(removed0.contains_key(p) <==> listed(old_list.take(j as int), p)
                        && !n.contains_key(p));
                }
                assert forall|p: Seq<char>| #[trigger] removed@.contains_key(p) implies removed@[p]@
                    == o[p] by {
                    if p != key@ {
                        assert(removed0.contains_key(p));
                    }
                }
            }
        }
        j = j + 1;
    }
    proof {
        assert(old_list.take(old_list.len() as int) =~= old_list);
        assert forall|p: Seq<char>| o.contains_key(p) implies listed(old_list, p) by {}
        assert forall|p: Seq<char>|
            docs(removed@).contains_key(p) <==> removed_of(o, n).contains_key(p) by {
            assert(removed@.contains_key(p) <==> listed(old_list, p) && !n.contains_key(p));
            if listed(old_list, p) {
                let k = choose|k: int| 0 <= k < old_list.len() && (#[trigger] old_list[k]).0 == p;
                assert(old_key_vals@.contains_key(old_list[k].0));
            }
        }
        assert(docs(removed@) =~= removed_of(o, n));
    }
    removed
}

/// Compares two documents leaf by leaf.
pub fn cmp_yml_vals<'a>(old_doc: &'a Value, new_doc: &'a Value) -> (diff: ConfigDiff<'a>)
    ensures
        docs(diff.added@) == added_of(flat(old_doc@, Seq::empty()), flat(new_doc@, Seq::empty())),
        docs(diff.removed@) == removed_of(
            flat(old_doc@, Seq::empty()),
            flat(new_doc@, Seq::empty()),
        ),
        doc_pairs(diff.modified@) == modified_of(
            flat(old_doc@, Seq::empty()),
            flat(new_doc@, Seq::empty()),
        ),
        ascending(diff.added.listing()),
        ascending(diff.removed.listing()),
        ascending(diff.modified.listing()),
{
    let old_key_vals = extract_key_vals(old_doc, String::new());
    let new_key_vals = extract_key_vals(new_doc, String::new());
    let (added, modified) = added_and_modified(&old_key_vals, &new_key_vals);
    let removed = removed_entries(&old_key_vals, &new_key_vals);
    proof {
        added.lemma_listing();
        removed.lemma_listing();
        modified.lemma_listing();
    }
    ConfigDiff { added, removed, modified }
}

} // verus!

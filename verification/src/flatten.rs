//! Flattening a document into a map from paths to leaves.
use crate::key::ConfigKey;
use crate::path_map::PathMap;
use crate::value::{Doc, Value};
use vstd::prelude::*;
use vstd::string::StringExecFns;

verus! {

/// The text of a mapping key that is a string, whatever tags it carries.
/// Other keys have none.
pub open spec fn key_text(k: Doc) -> Option<Seq<char>>
    decreases k,
{
    match k {
        Doc::Text(s) => Some(s),
        Doc::Tagged(_, inner) => key_text(*inner),
        _ => None,
    }
}

/// The path of the entry `key` of the mapping at `prefix`.
pub open spec fn child_path(prefix: Seq<char>, key: Seq<char>) -> Seq<char> {
    if prefix.len() == 0 {
        key
    } else {
        prefix + seq!['.'] + key
    }
}

/// The leaves of a document by their paths, for a document that stands at
/// `prefix`. A mapping gives the leaves of its entries; any other value is
/// itself a leaf, at `prefix`, unless `prefix` is empty.
pub open spec fn flat(d: Doc, prefix: Seq<char>) -> Map<Seq<char>, Doc>
    decreases d, 0nat,
{
    match d {
        Doc::Dict(entries) => flat_entries(entries, prefix, entries.len()),
        _ => if prefix.len() == 0 {
            Map::empty()
        } else {
            Map::empty().insert(prefix, d)
        },
    }
}

/// The leaves of the first `n` entries of a mapping that stands at `prefix`.
/// An entry whose key has no text is passed over; of two leaves with the
/// same path the later one stays.
pub open spec fn flat_entries(entries: Seq<(Doc, Doc)>, prefix: Seq<char>, n: nat) -> Map<
    Seq<char>,
    Doc,
>
    decreases entries, n,
{
    if n == 0 || n > entries.len() {
        Map::empty()
    } else {
        let before = flat_entries(entries, prefix, (n - 1) as nat);
        let e = entries[n - 1];
        match key_text(e.0) {
            None => before,
            Some(k) => {
                let path = child_path(prefix, k);
                if e.1 is Dict {
                    before.union_prefer_right(flat(e.1, path))
                } else {
                    before.insert(path, e.1)
                }
            },
        }
    }
}

/// Whether flattening the document from the root gives a leaf with the
/// empty path: whether a mapping key with the empty text leads to a leaf,
/// through mappings under such keys only.
pub open spec fn has_blank_path(d: Doc) -> bool
    decreases d, 1nat,
{
    match d {
        Doc::Dict(entries) => exists|i: int|
            0 <= i < entries.len() && blank_entry(#[trigger] entries[i]),
        _ => false,
    }
}

/// Whether the entry of a root mapping gives a leaf with the empty path.
pub open spec fn blank_entry(e: (Doc, Doc)) -> bool
    decreases e, 0nat,
{
    key_text(e.0) == Some(Seq::<char>::empty()) && (e.1 is Dict ==> has_blank_path(e.1))
}

/// What holds of each leaf of a flattened document.
proof fn lemma_flat_shape(d: Doc, prefix: Seq<char>)
    ensures
        forall|p: Seq<char>| #[trigger]
            flat(d, prefix).contains_key(p) ==> !(flat(d, prefix)[p] is Dict) && (p.len() == 0
                ==> prefix.len() == 0 && has_blank_path(d)),
    decreases d, 0nat,
{
    match d {
        Doc::Dict(entries) => {
            lemma_flat_entries_shape(entries, prefix, entries.len());
        },
        _ => {},
    }
}

/// What holds of each leaf of the first `n` entries of a mapping.
proof fn lemma_flat_entries_shape(entries: Seq<(Doc, Doc)>, prefix: Seq<char>, n: nat)
    requires
        n <= entries.len(),
    ensures
        forall|p: Seq<char>| #[trigger]
            flat_entries(entries, prefix, n).contains_key(p) ==> !(flat_entries(
                entries,
                prefix,
                n,
            )[p] is Dict) && (p.len() == 0 ==> prefix.len() == 0 && exists|i: int|
                0 <= i < n && blank_entry(#[trigger] entries[i])),
    decreases entries, n,
{
    if n > 0 {
        lemma_flat_entries_shape(entries, prefix, (n - 1) as nat);
        let e = entries[n - 1];
        match key_text(e.0) {
            None => {},
            Some(k) => {
                let path = child_path(prefix, k);
                if e.1 is Dict {
                    lemma_flat_shape(e.1, path);
                }
                assert forall|p: Seq<char>| #[trigger]
                    flat_entries(entries, prefix, n).contains_key(p) && p.len() == 0 implies exists|
                    i: int,
                | 0 <= i < n && blank_entry(#[trigger] entries[i]) by {
                    let before = flat_entries(entries, prefix, (n - 1) as nat);
                    let here = if e.1 is Dict {
                        flat(e.1, path).contains_key(p)
                    } else {
                        p == path
                    };
                    if here {
                        assert(path.len() == 0);
                        assert(k =~= Seq::<char>::empty());
                        assert(blank_entry(entries[n - 1]));
                    } else {
                        assert(before.contains_key(p));
                    }
                }
            },
        }
    }
}

/// A leaf of the first entries of a mapping stays a leaf, with this value
/// or a later one, when more entries are taken.
proof fn lemma_flat_entries_grow(entries: Seq<(Doc, Doc)>, prefix: Seq<char>, n: nat, m: nat)
    requires
        n <= m <= entries.len(),
    ensures
        forall|p: Seq<char>| #[trigger]
            flat_entries(entries, prefix, n).contains_key(p) ==> flat_entries(
                entries,
                prefix,
                m,
            ).contains_key(p),
    decreases m,
{
    if n < m {
        lemma_flat_entries_grow(entries, prefix, n, (m - 1) as nat);
    }
}

/// Where a key with the empty text leads to a leaf through mappings under
/// such keys only, flattening from the root gives the empty path.
pub proof fn lemma_blank_path_is_listed(d: Doc)
    requires
        has_blank_path(d),
    ensures
        flat(d, Seq::empty()).contains_key(Seq::empty()),
    decreases d,
{
    let entries = d->Dict_0;
    let i = choose|i: int| 0 <= i < entries.len() && blank_entry(#[trigger] entries[i]);
    let e = entries[i];
    let blank = Seq::<char>::empty();
    assert(child_path(blank, blank) == blank);
    if e.1 is Dict {
        lemma_blank_path_is_listed(e.1);
    }
    assert(flat_entries(entries, blank, (i + 1) as nat).contains_key(blank));
    lemma_flat_entries_grow(entries, blank, (i + 1) as nat, entries.len());
}

/// No leaf of a flattened document is a mapping.
pub proof fn lemma_leaves_are_not_mappings(d: Doc, prefix: Seq<char>)
    ensures
        forall|p: Seq<char>| #[trigger]
            flat(d, prefix).contains_key(p) ==> !(flat(d, prefix)[p] is Dict),
{
    lemma_flat_shape(d, prefix);
}

/// No leaf of a document flattened from the root has the empty path,
/// unless a key with the empty text leads to one.
pub proof fn lemma_paths_are_not_empty(d: Doc)
    requires
        !has_blank_path(d),
    ensures
        forall|p: Seq<char>| #[trigger] flat(d, Seq::empty()).contains_key(p) ==> p.len() > 0,
{
    lemma_flat_shape(d, Seq::empty());
}

/// The documents that the values of a map stand for.
pub open spec fn docs<'a>(m: Map<Seq<char>, &'a Value>) -> Map<Seq<char>, Doc> {
    Map::new(|p: Seq<char>| m.contains_key(p), |p: Seq<char>| m[p]@)
}

/// The text of a mapping key, if it is a string.
pub fn key_str<'a>(k: &'a Value) -> (r: Option<&'a str>)
    ensures
        match r {
            Some(s) => key_text(k@) == Some(s@),
            None => key_text(k@) is None,
        },
    decreases k,
{
    match k {
        Value::String(s) => Some(s.as_str()),
        Value::Tagged(_, inner) => key_str(inner),
        _ => None,
    }
}

/// Adds the leaves of `value`, which stands at `prefix`, to `acc`.
fn collect<'a>(value: &'a Value, prefix: &String, acc: &mut PathMap<&'a Value>)
    ensures
        docs(final(acc)@) == docs(old(acc)@).union_prefer_right(flat(value@, prefix@)),
    decreases value,
{
    let ghost start = docs(acc@);
    match value {
        Value::Mapping(entries) => {
            let ghost dict = value@->Dict_0;
            let mut i: usize = 0;
            proof {
                assert(docs(acc@) =~= start.union_prefer_right(flat_entries(dict, prefix@, 0)));
            }
            while i < entries.len()
                invariant
                    i <= entries.len(),
                    *value == Value::Mapping(*entries),
                    dict == value@->Dict_0,
                    dict.len() == entries.len(),
                    docs(acc@) == start.union_prefer_right(flat_entries(dict, prefix@, i as nat)),
                decreases entries.len() - i,
            {
                let ghost before = flat_entries(dict, prefix@, i as nat);
                let ghost held = acc@;
                match key_str(&entries[i].0) {
                    Some(key) => {
                        let mut path = prefix.clone();
                        if !prefix.as_str().is_empty() {
                            proof {
                                reveal_strlit(".");
                            }
                            path.append(".");
                        }
                        path.append(key);
                        proof {
                            assert("."@ =~= seq!['.']) by {
                                reveal_strlit(".");
                            }
                            assert(path@ =~= child_path(prefix@, key@));
                        }
                        match &entries[i].1 {
                            Value::Mapping(_) => {
                                collect(&entries[i].1, &path, acc);
                                proof {
                                    assert(docs(acc@) =~= start.union_prefer_right(
                                        before.union_prefer_right(flat(dict[i as int].1, path@)),
                                    ));
                                }
                            },
                            _ => {
                                acc.insert(ConfigKey(path), &entries[i].1);
                                proof {
                                    assert(entries[i as int].1@ == dict[i as int].1);
                                    assert(docs(acc@) =~= docs(held).insert(
                                        path@,
                                        dict[i as int].1,
                                    ));
                                    assert(docs(acc@) =~= start.union_prefer_right(
                                        before.insert(path@, dict[i as int].1),
                                    ));
                                }
                            },
                        }
                    },
                    None => {},
                }
                i = i + 1;
            }
        },
        _ => {
            if !prefix.as_str().is_empty() {
                acc.insert(ConfigKey(prefix.clone()), value);
                proof {
                    assert(docs(acc@) =~= start.union_prefer_right(flat(value@, prefix@)));
                }
            } else {
                proof {
                    assert(docs(acc@) =~= start.union_prefer_right(flat(value@, prefix@)));
                }
            }
        },
    }
}

/// Flattens a document that stands at `prefix` into the map from the paths
/// of its leaves to the leaves.
pub fn extract_key_vals<'a>(value: &'a Value, prefix: String) -> (r: PathMap<&'a Value>)
    ensures
        docs(r@) == flat(value@, prefix@),
{
    let mut acc: PathMap<&'a Value> = PathMap::new();
    collect(value, &prefix, &mut acc);
    proof {
        assert(docs(acc@) =~= flat(value@, prefix@));
    }
    acc
}

} // verus!

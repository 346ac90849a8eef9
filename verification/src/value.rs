//! The document model: a parsed configuration tree, its mathematical view,
//! and deep structural equality.
use crate::text::chars_of;
use vstd::prelude::*;
use vstd::relations::injective_on;
use vstd::set_lib::{lemma_int_range, lemma_map_size, lemma_subset_equality, set_int_range};

verus! {

/// A number as a configuration file writes it: a non-negative integer, a
/// negative integer, or a floating-point number.
#[derive(Debug)]
pub enum Number {
    PosInt(u64),
    NegInt(i64),
    /// A floating-point number: its IEEE-754 bits, by which it is compared,
    /// and its decimal text, by which it is shown.
    Float { bits: u64, text: String },
}

/// The mathematical view of a [`Number`].
pub ghost enum Num {
    PosInt(u64),
    NegInt(i64),
    Float { bits: u64, text: Seq<char> },
}

impl View for Number {
    type V = Num;

    open spec fn view(&self) -> Num {
        match self {
            Number::PosInt(u) => Num::PosInt(*u),
            Number::NegInt(i) => Num::NegInt(*i),
            Number::Float { bits, text } => Num::Float { bits: *bits, text: text@ },
        }
    }
}

/// A parsed configuration document.
#[derive(Debug)]
pub enum Value {
    Null,
    Bool(bool),
    Number(Number),
    String(String),
    Sequence(Vec<Value>),
    /// Key and value pairs in document order.
    Mapping(Vec<(Value, Value)>),
    /// A type tag and the value that carries it.
    Tagged(String, Box<Value>),
}

/// The mathematical view of a [`Value`].
pub ghost enum Doc {
    Null,
    Bool(bool),
    Number(Num),
    Text(Seq<char>),
    List(Seq<Doc>),
    Dict(Seq<(Doc, Doc)>),
    Tagged(Seq<char>, Box<Doc>),
}

impl Value {
    /// The document that this value stands for.
    pub open spec fn doc(&self) -> Doc
        decreases self,
    {
        match self {
            Value::Null => Doc::Null,
            Value::Bool(b) => Doc::Bool(*b),
            Value::Number(n) => Doc::Number(n@),
            Value::String(s) => Doc::Text(s@),
            Value::Sequence(items) => Doc::List(
                Seq::new(
                    items.len() as nat,
                    |i: int|
                        if 0 <= i < items.len() {
                            items[i].doc()
                        } else {
                            Doc::Null
                        },
                ),
            ),
            Value::Mapping(entries) => Doc::Dict(
                Seq::new(
                    entries.len() as nat,
                    |i: int|
                        if 0 <= i < entries.len() {
                            (entries[i].0.doc(), entries[i].1.doc())
                        } else {
                            (Doc::Null, Doc::Null)
                        },
                ),
            ),
            Value::Tagged(tag, inner) => Doc::Tagged(tag@, Box::new(inner.doc())),
        }
    }
}

impl View for Value {
    type V = Doc;

    open spec fn view(&self) -> Doc {
        self.doc()
    }
}

pub const MAGNITUDE_MASK: u64 = 0x7fff_ffff_ffff_ffff;

pub const INFINITY_BITS: u64 = 0x7ff0_0000_0000_0000;

/// Whether the bits are those of a not-a-number.
pub open spec fn is_nan_bits(bits: u64) -> bool {
    bits & MAGNITUDE_MASK > INFINITY_BITS
}

/// Whether the bits are those of positive or negative zero.
pub open spec fn is_zero_bits(bits: u64) -> bool {
    bits & MAGNITUDE_MASK == 0
}

/// Equality of two floating-point numbers given by their bits: one
/// not-a-number equals every other, the two zeros are equal, and otherwise
/// the bits decide.
pub open spec fn float_bits_eq(a: u64, b: u64) -> bool {
    if is_nan_bits(a) || is_nan_bits(b) {
        is_nan_bits(a) && is_nan_bits(b)
    } else {
        a == b || (is_zero_bits(a) && is_zero_bits(b))
    }
}

/// Equality of numbers: same kind and same value. The text of a
/// floating-point number plays no part.
pub open spec fn number_eq(a: Num, b: Num) -> bool {
    match (a, b) {
        (Num::PosInt(x), Num::PosInt(y)) => x == y,
        (Num::NegInt(x), Num::NegInt(y)) => x == y,
        (Num::Float { bits: x, .. }, Num::Float { bits: y, .. }) => float_bits_eq(x, y),
        _ => false,
    }
}

/// A tag without its leading exclamation mark, which is not significant.
/// The tag that is nothing but the mark stays as it is.
pub open spec fn bare_tag(tag: Seq<char>) -> Seq<char> {
    if tag.len() > 1 && tag[0] == '!' {
        tag.skip(1)
    } else {
        tag
    }
}

/// Deep structural equality: same variant and equal children, sequences in
/// order, mappings whatever the order of their entries.
pub open spec fn doc_eq(a: Doc, b: Doc) -> bool
    decreases a,
{
    match (a, b) {
        (Doc::Null, Doc::Null) => true,
        (Doc::Bool(x), Doc::Bool(y)) => x == y,
        (Doc::Number(x), Doc::Number(y)) => number_eq(x, y),
        (Doc::Text(x), Doc::Text(y)) => x == y,
        (Doc::List(x), Doc::List(y)) => {
            &&& x.len() == y.len()
            &&& forall|i: int| 0 <= i < x.len() ==> doc_eq(#[trigger] x[i], y[i])
        },
        (Doc::Dict(x), Doc::Dict(y)) => {
            &&& x.len() == y.len()
            &&& forall|i: int| 0 <= i < x.len() ==> entry_in(#[trigger] x[i], y, y.len() as int)
        },
        (Doc::Tagged(t, x), Doc::Tagged(u, y)) => bare_tag(t) == bare_tag(u) && doc_eq(*x, *y),
        _ => false,
    }
}

/// Whether one of the first `n` entries of `entries` has a key and a value
/// equal to those of `e`.
pub open spec fn entry_in(e: (Doc, Doc), entries: Seq<(Doc, Doc)>, n: int) -> bool
    decreases e, 0nat,
{
    exists|j: int| 0 <= j < n && j < entries.len() && doc_eq(e.0, #[trigger] entries[j].0) && doc_eq(e.1, entries[j].1)
}

impl Clone for Number {
    fn clone(&self) -> (r: Self)
        ensures
            r@ == self@,
    {
        match self {
            Number::PosInt(u) => Number::PosInt(*u),
            Number::NegInt(i) => Number::NegInt(*i),
            Number::Float { bits, text } => Number::Float { bits: *bits, text: text.clone() },
        }
    }
}

impl Clone for Value {
    fn clone(&self) -> (r: Self)
        ensures
            r@ == self@,
    {
        deep_copy(self)
    }
}

/// A copy of the whole document.
pub fn deep_copy(v: &Value) -> (r: Value)
    ensures
        r@ == v@,
    decreases v,
{
    match v {
        Value::Null => Value::Null,
        Value::Bool(b) => Value::Bool(*b),
        Value::Number(n) => Value::Number(n.clone()),
        Value::String(s) => Value::String(s.clone()),
        Value::Sequence(items) => {
            let mut copy: Vec<Value> = Vec::new();
            let mut i: usize = 0;
            while i < items.len()
                invariant
                    i <= items.len(),
                    *v == Value::Sequence(*items),
                    copy.len() == i,
                    forall|k: int| 0 <= k < i ==> (#[trigger] copy[k])@ == items[k]@,
                decreases items.len() - i,
            {
                let item = &items[i];
                proof {
                    assert(v->Sequence_0[i as int] == *item);
                }
                copy.push(deep_copy(item));
                i = i + 1;
            }
            let r = Value::Sequence(copy);
            proof {
                assert(r@->List_0 =~= v@->List_0);
            }
            r
        },
        Value::Mapping(entries) => {
            let mut copy: Vec<(Value, Value)> = Vec::new();
            let mut i: usize = 0;
            while i < entries.len()
                invariant
                    i <= entries.len(),
                    *v == Value::Mapping(*entries),
                    copy.len() == i,
                    forall|k: int|
                        0 <= k < i ==> (#[trigger] copy[k]).0@ == entries[k].0@ && copy[k].1@
                            == entries[k].1@,
                decreases entries.len() - i,
            {
                let key = &entries[i].0;
                let value = &entries[i].1;
                proof {
                    assert(v->Mapping_0[i as int] == (*key, *value));
                }
                copy.push((deep_copy(key), deep_copy(value)));
                i = i + 1;
            }
            let r = Value::Mapping(copy);
            proof {
                assert(r@->Dict_0 =~= v@->Dict_0);
            }
            r
        },
        Value::Tagged(tag, inner) => {
            let copy = deep_copy(inner);
            Value::Tagged(tag.clone(), Box::new(copy))
        },
    }
}

impl PartialEq for Value {
    fn eq(&self, other: &Self) -> (r: bool) {
        value_eq(self, other)
    }
}

impl vstd::std_specs::cmp::PartialEqSpecImpl for Value {
    open spec fn obeys_eq_spec() -> bool {
        true
    }

    open spec fn eq_spec(&self, other: &Self) -> bool {
        doc_eq(self@, other@)
    }
}

/// Whether no mapping of the document, at whatever depth, has two equal
/// keys.
pub open spec fn unique_keys(d: Doc) -> bool
    decreases d,
{
    match d {
        Doc::List(items) => forall|i: int|
            0 <= i < items.len() ==> unique_keys(#[trigger] items[i]),
        Doc::Dict(entries) => {
            &&& forall|i: int|
                0 <= i < entries.len() ==> unique_keys((#[trigger] entries[i]).0) && unique_keys(
                    entries[i].1,
                )
            &&& forall|i: int, j: int|
                0 <= i < j < entries.len() ==> !doc_eq(
                    (#[trigger] entries[i]).0,
                    (#[trigger] entries[j]).0,
                )
        },
        Doc::Tagged(_, inner) => unique_keys(*inner),
        _ => true,
    }
}

/// Every document equals itself.
pub proof fn lemma_doc_eq_reflexive(d: Doc)
    ensures
        doc_eq(d, d),
    decreases d,
{
    match d {
        Doc::Number(n) => {
            assert(number_eq(n, n));
        },
        Doc::List(x) => {
            assert forall|i: int| 0 <= i < x.len() implies doc_eq(#[trigger] x[i], x[i]) by {
                lemma_doc_eq_reflexive(x[i]);
            }
        },
        Doc::Dict(x) => {
            assert forall|i: int| 0 <= i < x.len() implies entry_in(
                #[trigger] x[i],
                x,
                x.len() as int,
            ) by {
                lemma_doc_eq_reflexive(x[i].0);
                lemma_doc_eq_reflexive(x[i].1);
            }
        },
        Doc::Tagged(t, x) => {
            lemma_doc_eq_reflexive(*x);
        },
        _ => {},
    }
}

/// Two documents that equal a third one in turn are equal.
pub proof fn lemma_doc_eq_transitive(a: Doc, b: Doc, c: Doc)
    requires
        doc_eq(a, b),
        doc_eq(b, c),
    ensures
        doc_eq(a, c),
    decreases a,
{
    match (a, b, c) {
        (Doc::List(x), Doc::List(y), Doc::List(z)) => {
            assert forall|i: int| 0 <= i < x.len() implies doc_eq(#[trigger] x[i], z[i]) by {
                lemma_doc_eq_transitive(x[i], y[i], z[i]);
            }
        },
        (Doc::Dict(x), Doc::Dict(y), Doc::Dict(z)) => {
            assert forall|i: int| 0 <= i < x.len() implies entry_in(
                #[trigger] x[i],
                z,
                z.len() as int,
            ) by {
                assert(entry_in(x[i], y, y.len() as int));
                let j = choose|j: int|
                    0 <= j < y.len() && doc_eq(x[i].0, (#[trigger] y[j]).0) && doc_eq(
                        x[i].1,
                        y[j].1,
                    );
                assert(entry_in(y[j], z, z.len() as int));
                let k = choose|k: int|
                    0 <= k < z.len() && doc_eq(y[j].0, (#[trigger] z[k]).0) && doc_eq(
                        y[j].1,
                        z[k].1,
                    );
                lemma_doc_eq_transitive(x[i].0, y[j].0, z[k].0);
                lemma_doc_eq_transitive(x[i].1, y[j].1, z[k].1);
            }
        },
        (Doc::Tagged(_, x), Doc::Tagged(_, y), Doc::Tagged(_, z)) => {
            lemma_doc_eq_transitive(*x, *y, *z);
        },
        _ => {},
    }
}

/// Equality does not depend on which document is named first, where the
/// first has no mapping with two equal keys.
pub proof fn lemma_doc_eq_symmetric(a: Doc, b: Doc)
    requires
        unique_keys(a),
        doc_eq(a, b),
    ensures
        doc_eq(b, a),
    decreases a,
{
    match (a, b) {
        (Doc::List(x), Doc::List(y)) => {
            assert forall|i: int| 0 <= i < y.len() implies doc_eq(#[trigger] y[i], x[i]) by {
                lemma_doc_eq_symmetric(x[i], y[i]);
            }
        },
        (Doc::Dict(x), Doc::Dict(y)) => {
            let n = x.len() as int;
            let f = |i: int|
                choose|j: int|
                    0 <= j < n && doc_eq(x[i].0, (#[trigger] y[j]).0) && doc_eq(x[i].1, y[j].1);
            let places = set_int_range(0, n);
            let images = places.map(f);
            assert forall|i: int| 0 <= i < n implies 0 <= #[trigger] f(i) < n && doc_eq(
                x[i].0,
                y[f(i)].0,
            ) && doc_eq(x[i].1, y[f(i)].1) by {
                assert(entry_in(x[i], y, n));
            }
            assert forall|i: int, k: int|
                places.contains(i) && places.contains(k) && #[trigger] f(i) == #[trigger] f(
                    k,
                ) implies i == k by {
                if i != k {
                    let j = f(i);
                    lemma_doc_eq_symmetric(x[i].0, y[j].0);
                    lemma_doc_eq_symmetric(x[k].0, y[j].0);
                    lemma_doc_eq_transitive(x[i].0, y[j].0, x[k].0);
                    lemma_doc_eq_transitive(x[k].0, y[j].0, x[i].0);
                    assert(false);
                }
            }
            assert(injective_on(f, places));
            lemma_int_range(0, n);
            lemma_map_size(places, images, f);
            assert(images.subset_of(places));
            lemma_subset_equality(images, places);
            assert forall|j: int| 0 <= j < y.len() implies entry_in(#[trigger] y[j], x, n) by {
                assert(places.contains(j));
                assert(images.contains(j));
                let i = choose|i: int| places.contains(i) && j == f(i);
                lemma_doc_eq_symmetric(x[i].0, y[j].0);
                lemma_doc_eq_symmetric(x[i].1, y[j].1);
                assert(doc_eq(y[j].0, x[i].0) && doc_eq(y[j].1, x[i].1));
            }
        },
        (Doc::Tagged(_, x), Doc::Tagged(_, y)) => {
            lemma_doc_eq_symmetric(*x, *y);
        },
        _ => {},
    }
}

/// Whether no mapping of the document has two equal keys.
pub fn has_unique_keys(v: &Value) -> (r: bool)
    ensures
        r == unique_keys(v@),
    decreases v,
{
    match v {
        Value::Sequence(items) => {
            let mut i: usize = 0;
            while i < items.len()
                invariant
                    i <= items.len(),
                    v is Sequence,
                    v->Sequence_0 == *items,
                    forall|k: int| 0 <= k < i ==> unique_keys(#[trigger] v@->List_0[k]),
                decreases items.len() - i,
            {
                if !has_unique_keys(&items[i]) {
                    proof {
                        assert(!unique_keys(v@->List_0[i as int]));
                    }
                    return false;
                }
                i = i + 1;
            }
            true
        },
        Value::Mapping(entries) => {
            let mut i: usize = 0;
            while i < entries.len()
                invariant
                    i <= entries.len(),
                    v is Mapping,
                    v->Mapping_0 == *entries,
                    forall|k: int|
                        0 <= k < i ==> unique_keys((#[trigger] v@->Dict_0[k]).0) && unique_keys(
                            v@->Dict_0[k].1,
                        ),
                    forall|k: int, m: int|
                        0 <= k < i && k < m < entries.len() ==> !doc_eq(
                            (#[trigger] v@->Dict_0[k]).0,
                            (#[trigger] v@->Dict_0[m]).0,
                        ),
                decreases entries.len() - i,
            {
                if !has_unique_keys(&entries[i].0) || !has_unique_keys(&entries[i].1) {
                    proof {
                        let e = v@->Dict_0[i as int];
                        assert(!unique_keys(e.0) || !unique_keys(e.1));
                    }
                    return false;
                }
                let mut j: usize = i + 1;
                while j < entries.len()
                    invariant
                        i < j <= entries.len(),
                        v is Mapping,
                        v->Mapping_0 == *entries,
                        forall|m: int|
                            i < m < j ==> !doc_eq(
                                v@->Dict_0[i as int].0,
                                (#[trigger] v@->Dict_0[m]).0,
                            ),
                    decreases entries.len() - j,
                {
                    if value_eq(&entries[i].0, &entries[j].0) {
                        proof {
                            assert(doc_eq(v@->Dict_0[i as int].0, v@->Dict_0[j as int].0));
                        }
                        return false;
                    }
                    j = j + 1;
                }
                i = i + 1;
            }
            true
        },
        Value::Tagged(_, inner) => has_unique_keys(inner),
        _ => true,
    }
}

/// Whether two numbers are equal.
pub fn number_equal(a: &Number, b: &Number) -> (r: bool)
    ensures
        r == number_eq(a@, b@),
{
    match (a, b) {
        (Number::PosInt(x), Number::PosInt(y)) => *x == *y,
        (Number::NegInt(x), Number::NegInt(y)) => *x == *y,
        (Number::Float { bits: x, .. }, Number::Float { bits: y, .. }) => {
            let x_nan = *x & MAGNITUDE_MASK > INFINITY_BITS;
            let y_nan = *y & MAGNITUDE_MASK > INFINITY_BITS;
            if x_nan || y_nan {
                x_nan && y_nan
            } else {
                *x == *y || (*x & MAGNITUDE_MASK == 0 && *y & MAGNITUDE_MASK == 0)
            }
        },
        _ => false,
    }
}

/// Whether two tags are equal but for a leading exclamation mark.
pub fn tag_equal(a: &str, b: &str) -> (r: bool)
    ensures
        r == (bare_tag(a@) == bare_tag(b@)),
{
    let x = chars_of(a);
    let y = chars_of(b);
    let from_x: usize = if x.len() > 1 && x[0] == '!' {
        1
    } else {
        0
    };
    let from_y: usize = if y.len() > 1 && y[0] == '!' {
        1
    } else {
        0
    };
    proof {
        assert(x@.skip(0) =~= x@);
        assert(y@.skip(0) =~= y@);
        assert(bare_tag(a@) == x@.skip(from_x as int));
        assert(bare_tag(b@) == y@.skip(from_y as int));
    }
    if x.len() - from_x != y.len() - from_y {
        proof {
            assert(bare_tag(a@).len() != bare_tag(b@).len());
        }
        return false;
    }
    let n = x.len() - from_x;
    let mut i: usize = 0;
    while i < n
        invariant
            i <= n,
            bare_tag(a@) == x@.skip(from_x as int),
            bare_tag(b@) == y@.skip(from_y as int),
            n == x.len() - from_x,
            n == y.len() - from_y,
            from_x <= 1,
            from_y <= 1,
            forall|k: int|
                0 <= k < i ==> #[trigger] x@.skip(from_x as int)[k] == y@.skip(from_y as int)[k],
        decreases n - i,
    {
        if x[from_x + i] != y[from_y + i] {
            proof {
                assert(x@.skip(from_x as int)[i as int] != y@.skip(from_y as int)[i as int]);
            }
            return false;
        }
        i = i + 1;
    }
    proof {
        assert(x@.skip(from_x as int) =~= y@.skip(from_y as int));
    }
    true
}

/// Deep structural equality of two documents.
pub fn value_eq(a: &Value, b: &Value) -> (r: bool)
    ensures
        r == doc_eq(a@, b@),
    decreases a,
{
    match (a, b) {
        (Value::Null, Value::Null) => true,
        (Value::Bool(x), Value::Bool(y)) => *x == *y,
        (Value::Number(x), Value::Number(y)) => number_equal(x, y),
        (Value::String(x), Value::String(y)) => *x == *y,
        (Value::Sequence(x), Value::Sequence(y)) => {
            if x.len() != y.len() {
                return false;
            }
            let mut i: usize = 0;
            while i < x.len()
                invariant
                    i <= x.len(),
                    x.len() == y.len(),
                    *a == Value::Sequence(*x),
                    *b == Value::Sequence(*y),
                    forall|k: int| 0 <= k < i ==> doc_eq(#[trigger] a@->List_0[k], b@->List_0[k]),
                decreases x.len() - i,
            {
                if !value_eq(&x[i], &y[i]) {
                    proof {
                        assert(!doc_eq(a@->List_0[i as int], b@->List_0[i as int]));
                    }
                    return false;
                }
                i = i + 1;
            }
            true
        },
        (Value::Mapping(x), Value::Mapping(y)) => {
            if x.len() != y.len() {
                return false;
            }
            let mut i: usize = 0;
            while i < x.len()
                invariant
                    i <= x.len(),
                    x.len() == y.len(),
                    *a == Value::Mapping(*x),
                    *b == Value::Mapping(*y),
                    forall|k: int|
                        0 <= k < i ==> entry_in(
                            #[trigger] a@->Dict_0[k],
                            b@->Dict_0,
                            y.len() as int,
                        ),
                decreases x.len() - i,
            {
                let mut found = false;
                let mut j: usize = 0;
                while j < y.len() && !found
                    invariant
                        j <= y.len(),
                        i < x.len(),
                        *a == Value::Mapping(*x),
                        *b == Value::Mapping(*y),
                        found ==> entry_in(a@->Dict_0[i as int], b@->Dict_0, y.len() as int),
                        !found ==> !entry_in(a@->Dict_0[i as int], b@->Dict_0, j as int),
                    decreases y.len() - j,
                {
                    if value_eq(&x[i].0, &y[j].0) && value_eq(&x[i].1, &y[j].1) {
                        found = true;
                        proof {
                            let e = a@->Dict_0[i as int];
                            let other = b@->Dict_0;
                            assert(doc_eq(e.0, other[j as int].0) && doc_eq(e.1, other[j as int].1));
                        }
                    }
                    j = j + 1;
                }
                if !found {
                    return false;
                }
                i = i + 1;
            }
            true
        },
        (Value::Tagged(t, x), Value::Tagged(u, y)) => {
            tag_equal(t.as_str(), u.as_str()) && value_eq(x, y)
        },
        _ => false,
    }
}

} // verus!

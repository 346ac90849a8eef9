//! The text that a report shows for a leaf.
use crate::flatten::flat;
use crate::value::{bare_tag, Doc, Num, Number, Value};
use vstd::prelude::*;
use vstd::string::{StrSliceExecFns, StringExecFns};

verus! {

/// The character of a decimal digit.
pub open spec fn digit(d: nat) -> char {
    ((48 + d) as u8) as char
}

/// The decimal digits of a natural number, without leading zeros.
pub open spec fn digits(n: nat) -> Seq<char>
    decreases n,
{
    if n < 10 {
        seq![digit(n)]
    } else {
        digits(n / 10).push(digit(n % 10))
    }
}

/// The decimal text of an integer, with a minus sign where it is negative.
pub open spec fn int_text(i: int) -> Seq<char> {
    if i < 0 {
        seq!['-'] + digits((-i) as nat)
    } else {
        digits(i as nat)
    }
}

/// The decimal text of a number.
pub open spec fn number_text(n: Num) -> Seq<char> {
    match n {
        Num::PosInt(u) => digits(u as nat),
        Num::NegInt(i) => int_text(i as int),
        Num::Float { text, .. } => text,
    }
}

/// A tag as it is shown: an exclamation mark, then the tag without its own.
pub open spec fn tag_text(tag: Seq<char>) -> Seq<char> {
    seq!['!'] + bare_tag(tag)
}

/// A string in the debug form of the standard library, which puts it
/// between double quotes and escapes what cannot stand there as it is.
pub uninterp spec fn debug_quoted(s: Seq<char>) -> Seq<char>;

/// The text of a value.
///
/// A sequence is shown between square brackets, its items separated by a
/// comma and a space. A mapping is shown between braces as entries
/// `"key": "value"`, in document order, the texts of key and value in debug
/// form; of entries whose keys have the same text the last one is shown.
pub open spec fn rendered(d: Doc) -> Seq<char>
    decreases d, 0nat,
{
    match d {
        Doc::Null => seq!['n', 'u', 'l', 'l'],
        Doc::Bool(b) => if b {
            seq!['t', 'r', 'u', 'e']
        } else {
            seq!['f', 'a', 'l', 's', 'e']
        },
        Doc::Number(n) => number_text(n),
        Doc::Text(s) => s,
        Doc::List(items) => seq!['['] + joined(items, items.len()) + seq![']'],
        Doc::Dict(entries) => seq!['{'] + dumped(entries, entries.len()) + seq!['}'],
        Doc::Tagged(tag, inner) => tag_text(tag) + seq![':'] + rendered(*inner),
    }
}

/// The texts of the first `n` items, separated by a comma and a space.
pub open spec fn joined(items: Seq<Doc>, n: nat) -> Seq<char>
    decreases items, n,
{
    if n == 0 || n > items.len() {
        Seq::empty()
    } else if n == 1 {
        rendered(items[0])
    } else {
        joined(items, (n - 1) as nat) + seq![',', ' '] + rendered(items[n - 1])
    }
}

/// The texts of the keys of a mapping, in document order.
pub open spec fn key_texts(entries: Seq<(Doc, Doc)>) -> Seq<Seq<char>>
    decreases entries, 0nat,
{
    Seq::new(
        entries.len(),
        |i: int|
            if 0 <= i < entries.len() {
                rendered(entries[i].0)
            } else {
                Seq::empty()
            },
    )
}

/// Whether no later key has the same text as key `i`.
pub open spec fn shown(keys: Seq<Seq<char>>, i: int) -> bool {
    0 <= i < keys.len() && forall|j: int| i < j < keys.len() ==> #[trigger] keys[j] != keys[i]
}

/// Whether one of the first `n` entries is shown.
pub open spec fn any_shown(keys: Seq<Seq<char>>, n: nat) -> bool {
    exists|j: int| 0 <= j < n && #[trigger] shown(keys, j)
}

/// The text of the entries that are shown among the first `n`, separated
/// by a comma and a space.
pub open spec fn dumped(entries: Seq<(Doc, Doc)>, n: nat) -> Seq<char>
    decreases entries, n + 1,
{
    if n == 0 || n > entries.len() {
        Seq::empty()
    } else {
        let before = dumped(entries, (n - 1) as nat);
        if !shown(key_texts(entries), n - 1) {
            before
        } else {
            let e = entries[n - 1];
            let item = debug_quoted(rendered(e.0)) + seq![':', ' '] + debug_quoted(rendered(e.1));
            if any_shown(key_texts(entries), (n - 1) as nat) {
                before + seq![',', ' '] + item
            } else {
                item
            }
        }
    }
}

/// The leaves of a document flattened from the root, each as its path and
/// the text shown for it.
pub open spec fn leaf_texts(d: Doc) -> Set<(Seq<char>, Seq<char>)> {
    Set::new(
        |e: (Seq<char>, Seq<char>)|
            flat(d, Seq::empty()).contains_key(e.0) && e.1 == rendered(flat(d, Seq::empty())[e.0]),
    )
}

/// A document and a copy of it, built anew with the same content, flatten
/// to the same paths with the same texts.
pub proof fn lemma_copy_flattens_alike(a: Value, b: Value)
    requires
        a@ == b@,
    ensures
        leaf_texts(a@) == leaf_texts(b@),
{
}

/// Where none of the first `n` entries is shown, their text is empty.
proof fn lemma_nothing_dumped(entries: Seq<(Doc, Doc)>, n: nat)
    requires
        n <= entries.len(),
        !any_shown(key_texts(entries), n),
    ensures
        dumped(entries, n) == Seq::<char>::empty(),
    decreases n,
{
    if n > 0 {
        assert(!shown(key_texts(entries), n - 1));
        assert(!any_shown(key_texts(entries), (n - 1) as nat)) by {
            if any_shown(key_texts(entries), (n - 1) as nat) {
                let w = choose|w: int| 0 <= w < n - 1 && #[trigger] shown(key_texts(entries), w);
                assert(shown(key_texts(entries), w));
            }
        }
        lemma_nothing_dumped(entries, (n - 1) as nat);
    }
}

/// Makes a `serde_yaml::Number` of a non-negative integer, with its `From`,
/// and asks for its `Display` text. Taken on trust: that the text is the
/// decimal digits of the integer, without sign or leading zeros.
#[verifier::external_body]
fn unsigned_text(u: u64) -> (r: String)
    ensures
        r@ == digits(u as nat),
{
    serde_yaml::Number::from(u).to_string()
}

/// Makes a `serde_yaml::Number` of a signed integer, with its `From`, and
/// asks for its `Display` text. Taken on trust: that the text is a minus
/// sign where the integer is negative, then the decimal digits of its
/// magnitude.
#[verifier::external_body]
fn signed_text(i: i64) -> (r: String)
    ensures
        r@ == int_text(i as int),
{
    serde_yaml::Number::from(i).to_string()
}

/// Formats a string with the standard library's `Debug` for `str`. Taken on
/// trust: that the text depends on the string alone; [`debug_quoted`] is
/// the name of that text, and nothing more is claimed of it.
#[verifier::external_body]
pub(crate) fn quoted(s: &str) -> (r: String)
    ensures
        r@ == debug_quoted(s@),
{
    format!("{:?}", s)
}

/// The decimal text of a number.
pub fn number_string(n: &Number) -> (r: String)
    ensures
        r@ == number_text(n@),
{
    match n {
        Number::PosInt(u) => unsigned_text(*u),
        Number::NegInt(i) => signed_text(*i),
        Number::Float { text, .. } => text.clone(),
    }
}

/// A tag as it is shown.
pub fn tag_string(tag: &str) -> (r: String)
    ensures
        r@ == tag_text(tag@),
{
    proof {
        reveal_strlit("!");
    }
    let mut out = String::from_str("!");
    let n = tag.unicode_len();
    if n > 1 && tag.get_char(0) == '!' {
        out.append(tag.substring_char(1, n));
        proof {
            assert(tag@.subrange(1, n as int) =~= tag@.skip(1));
        }
    } else {
        out.append(tag);
    }
    proof {
        assert(out@ =~= tag_text(tag@));
    }
    out
}

/// The text of a value.
pub fn get_val_string(val: &Value) -> (r: String)
    ensures
        r@ == rendered(val@),
    decreases val,
{
    match val {
        Value::Null => {
            proof {
                reveal_strlit("null");
            }
            let r = String::from_str("null");
            proof {
                assert(r@ =~= rendered(val@));
            }
            r
        },
        Value::Bool(b) => {
            proof {
                reveal_strlit("true");
                reveal_strlit("false");
            }
            let r = if *b {
                String::from_str("true")
            } else {
                String::from_str("false")
            };
            proof {
                assert(r@ =~= rendered(val@));
            }
            r
        },
        Value::Number(n) => number_string(n),
        Value::String(s) => s.clone(),
        Value::Sequence(items) => {
            proof {
                reveal_strlit("[");
                reveal_strlit("]");
                reveal_strlit(", ");
            }
            let ghost list = val@->List_0;
            let mut out = String::from_str("[");
            let mut i: usize = 0;
            while i < items.len()
                invariant
                    i <= items.len(),
                    val->Sequence_0 == *items,
                    val is Sequence,
                    list == val@->List_0,
                    list.len() == items.len(),
                    out@ == seq!['['] + joined(list, i as nat),
                    ", "@ == seq![',', ' '],
                decreases items.len() - i,
            {
                let item = get_val_string(&items[i]);
                if i > 0 {
                    out.append(", ");
                }
                out.append(item.as_str());
                proof {
                    assert(item@ == rendered(list[i as int]));
                    assert(out@ =~= seq!['['] + joined(list, (i + 1) as nat));
                }
                i = i + 1;
            }
            out.append("]");
            proof {
                assert(out@ =~= rendered(val@));
            }
            out
        },
        Value::Mapping(entries) => {
            proof {
                reveal_strlit("{");
                reveal_strlit("}");
                reveal_strlit(", ");
                reveal_strlit(": ");
            }
            let ghost dict = val@->Dict_0;
            let ghost texts = key_texts(dict);
            let mut keys: Vec<String> = Vec::new();
            let mut values: Vec<String> = Vec::new();
            let mut i: usize = 0;
            while i < entries.len()
                invariant
                    i <= entries.len(),
                    val->Mapping_0 == *entries,
                    val is Mapping,
                    dict == val@->Dict_0,
                    dict.len() == entries.len(),
                    keys.len() == i,
                    values.len() == i,
                    forall|k: int| 0 <= k < i ==> (#[trigger] keys[k])@ == rendered(dict[k].0),
                    forall|k: int| 0 <= k < i ==> (#[trigger] values[k])@ == rendered(dict[k].1),
                decreases entries.len() - i,
            {
                let key = get_val_string(&entries[i].0);
                let value = get_val_string(&entries[i].1);
                keys.push(key);
                values.push(value);
                i = i + 1;
            }
            let mut out = String::from_str("{");
            let mut any = false;
            let mut i: usize = 0;
            while i < entries.len()
                invariant
                    i <= entries.len(),
                    dict.len() == entries.len(),
                    keys.len() == entries.len(),
                    values.len() == entries.len(),
                    forall|k: int|
                        0 <= k < keys.len() ==> (#[trigger] keys[k])@ == rendered(dict[k].0),
                    forall|k: int|
                        0 <= k < values.len() ==> (#[trigger] values[k])@ == rendered(dict[k].1),
                    texts == key_texts(dict),
                    out@ == seq!['{'] + dumped(dict, i as nat),
                    any == any_shown(texts, i as nat),
                    ", "@ == seq![',', ' '],
                    ": "@ == seq![':', ' '],
                decreases entries.len() - i,
            {
                let mut last = true;
                let mut j: usize = i + 1;
                while j < entries.len() && last
                    invariant
                        i < j <= entries.len(),
                        dict.len() == entries.len(),
                        keys.len() == entries.len(),
                        texts == key_texts(dict),
                        forall|k: int|
                            0 <= k < keys.len() ==> (#[trigger] keys[k])@ == rendered(dict[k].0),
                        last ==> forall|k: int| i < k < j ==> #[trigger] texts[k] != texts[i as int],
                        !last ==> !shown(texts, i as int),
                    decreases entries.len() - j,
                {
                    if keys[j] == keys[i] {
                        last = false;
                        proof {
                            assert(texts[j as int] == texts[i as int]);
                        }
                    }
                    j = j + 1;
                }
                proof {
                    assert(last == shown(texts, i as int));
                    if last {
                        assert(any_shown(texts, (i + 1) as nat));
                    } else {
                        assert(any_shown(texts, (i + 1) as nat) == any_shown(texts, i as nat)) by {
                            if any_shown(texts, (i + 1) as nat) {
                                let w = choose|w: int| 0 <= w < i + 1 && #[trigger] shown(texts, w);
                                assert(w < i);
                            }
                        }
                    }
                }
                let ghost before = dumped(dict, i as nat);
                if last {
                    if any {
                        out.append(", ");
                    }
                    let key = quoted(keys[i].as_str());
                    let value = quoted(values[i].as_str());
                    out.append(key.as_str());
                    out.append(": ");
                    out.append(value.as_str());
                    proof {
                        let e = dict[i as int];
                        assert(keys[i as int]@ == rendered(e.0));
                        assert(values[i as int]@ == rendered(e.1));
                        let item = debug_quoted(rendered(e.0)) + seq![':', ' '] + debug_quoted(
                            rendered(e.1),
                        );
                        if any {
                            assert(out@ =~= seq!['{'] + (before + seq![',', ' '] + item));
                        } else {
                            assert(before =~= Seq::<char>::empty()) by {
                                lemma_nothing_dumped(dict, i as nat);
                            }
                            assert(out@ =~= seq!['{'] + item);
                        }
                    }
                    any = true;
                }
                proof {
                    assert(out@ =~= seq!['{'] + dumped(dict, (i + 1) as nat));
                }
                i = i + 1;
            }
            out.append("}");
            proof {
                assert(out@ =~= rendered(val@));
            }
            out
        },
        Value::Tagged(tag, inner) => {
            proof {
                reveal_strlit(":");
            }
            let mut out = tag_string(tag.as_str());
            out.append(":");
            let rest = get_val_string(inner);
            out.append(rest.as_str());
            proof {
                assert(out@ =~= rendered(val@));
            }
            out
        },
    }
}

} // verus!

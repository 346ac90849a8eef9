//! Strings as sequences of characters.
use std::cmp::Ordering;
use vstd::prelude::*;
use vstd::std_specs::iter::IteratorSpec;

verus! {

/// The characters of a string, in order.
pub fn chars_of(s: &str) -> (out: Vec<char>)
    ensures
        out@ == s@,
{
    let mut out: Vec<char> = Vec::new();
    let mut rest = s.chars();
    let ghost mut done: int = 0;
    loop
        invariant
            0 <= done <= s@.len(),
            out@ == s@.take(done),
            rest.remaining() == s@.skip(done),
            rest.obeys_prophetic_iter_laws(),
            rest.decrease() is Some,
        ensures
            out@ == s@,
        decreases s@.len() - done,
    {
        match rest.next() {
            Some(c) => {
                out.push(c);
                proof {
                    done = done + 1;
                }
            },
            None => {
                proof {
                    assert(s@.skip(done).len() == 0);
                    assert(s@.take(done) =~= s@);
                }
                break;
            },
        }
    }
    out
}

/// The length of the longest run of equal items with which both sequences
/// start.
pub open spec fn common_len<T>(a: Seq<T>, b: Seq<T>) -> int
    decreases a.len(),
{
    if a.len() > 0 && b.len() > 0 && a[0] == b[0] {
        1 + common_len(a.skip(1), b.skip(1))
    } else {
        0
    }
}

/// `common_len` is an index up to which the two sequences agree and at which,
/// if both go on, they differ.
pub proof fn lemma_common_len<T>(a: Seq<T>, b: Seq<T>)
    ensures
        0 <= common_len(a, b) <= a.len(),
        common_len(a, b) <= b.len(),
        forall|i: int| 0 <= i < common_len(a, b) ==> a[i] == b[i],
        common_len(a, b) < a.len() && common_len(a, b) < b.len() ==> a[common_len(a, b)]
            != b[common_len(a, b)],
    decreases a.len(),
{
    if a.len() > 0 && b.len() > 0 && a[0] == b[0] {
        let a1 = a.skip(1);
        let b1 = b.skip(1);
        lemma_common_len(a1, b1);
        let c = common_len(a1, b1);
        assert forall|i: int| 0 <= i < c + 1 implies a[i] == b[i] by {
            if i > 0 {
                assert(a1[i - 1] == a[i]);
                assert(b1[i - 1] == b[i]);
            }
        }
        if c + 1 < a.len() && c + 1 < b.len() {
            assert(a1[c] == a[c + 1]);
            assert(b1[c] == b[c + 1]);
        }
    }
}

/// Only one index has the two properties of `common_len`.
pub proof fn lemma_common_len_unique<T>(a: Seq<T>, b: Seq<T>, k: int)
    requires
        0 <= k <= a.len(),
        k <= b.len(),
        forall|i: int| 0 <= i < k ==> a[i] == b[i],
        k < a.len() && k < b.len() ==> a[k] != b[k],
    ensures
        common_len(a, b) == k,
{
    lemma_common_len(a, b);
}

/// The common run does not depend on which sequence is named first.
pub proof fn lemma_common_len_symmetric<T>(a: Seq<T>, b: Seq<T>)
    ensures
        common_len(a, b) == common_len(b, a),
{
    lemma_common_len(a, b);
    lemma_common_len_unique(b, a, common_len(a, b));
}

/// Two sequences whose common run covers both are the same sequence.
pub proof fn lemma_common_len_full<T>(a: Seq<T>, b: Seq<T>)
    ensures
        (common_len(a, b) == a.len() && common_len(a, b) == b.len()) <==> a == b,
{
    lemma_common_len(a, b);
    if common_len(a, b) == a.len() && common_len(a, b) == b.len() {
        assert(a =~= b);
    }
    if a == b {
        lemma_common_len_unique(a, b, a.len() as int);
    }
}

/// Order of two characters by code point, which is also the order of
/// their UTF-8 bytes.
pub open spec fn char_lt(a: char, b: char) -> bool {
    (a as u32) < (b as u32)
}

/// Two different characters are ordered one way or the other.
pub proof fn lemma_char_order(a: char, b: char)
    ensures
        a != b ==> (char_lt(a, b) || char_lt(b, a)),
        !(char_lt(a, b) && char_lt(b, a)),
{
    if a as u32 == b as u32 {
        assert(a as u32 as char == b as u32 as char);
    }
}

/// Whether `a` comes before `b` by code point.
pub fn char_before(a: char, b: char) -> (r: bool)
    ensures
        r == char_lt(a, b),
{
    (a as u32) < (b as u32)
}

/// Plain lexical order of strings: `a` comes before `b` where it is a proper
/// prefix of `b`, or where at the first place at which they differ its
/// character is the smaller.
pub open spec fn lex_lt(a: Seq<char>, b: Seq<char>) -> bool {
    let c = common_len(a, b);
    c < b.len() && (c == a.len() || char_lt(a[c], b[c]))
}

/// Of two strings at most one comes before the other, and neither does
/// exactly when they are the same string.
pub proof fn lemma_lex_total(a: Seq<char>, b: Seq<char>)
    ensures
        !(lex_lt(a, b) && lex_lt(b, a)),
        (!lex_lt(a, b) && !lex_lt(b, a)) <==> a == b,
{
    lemma_common_len(a, b);
    lemma_common_len_symmetric(a, b);
    lemma_common_len_full(a, b);
    let c = common_len(a, b);
    if c < a.len() && c < b.len() {
        lemma_char_order(a[c], b[c]);
    }
}

/// Lexical order is transitive.
pub proof fn lemma_lex_transitive(a: Seq<char>, b: Seq<char>, c: Seq<char>)
    requires
        lex_lt(a, b),
        lex_lt(b, c),
    ensures
        lex_lt(a, c),
{
    lemma_common_len(a, b);
    lemma_common_len(b, c);
    let i = common_len(a, b);
    let j = common_len(b, c);
    let k = if i < j { i } else { j };
    lemma_common_len_unique(a, c, k);
}

/// A string comes after each of its proper prefixes.
pub proof fn lemma_lex_prefix(a: Seq<char>, b: Seq<char>)
    requires
        a.len() < b.len(),
        b.take(a.len() as int) == a,
    ensures
        lex_lt(a, b),
{
    assert forall|i: int| 0 <= i < a.len() implies a[i] == b[i] by {
        assert(b.take(a.len() as int)[i] == b[i]);
    }
    lemma_common_len_unique(a, b, a.len() as int);
}

/// The place at which two strings first differ, or the length of the
/// shorter where one starts with the other.
pub fn first_difference(a: &Vec<char>, b: &Vec<char>) -> (i: usize)
    ensures
        i == common_len(a@, b@),
{
    let mut i: usize = 0;
    while i < a.len() && i < b.len() && a[i] == b[i]
        invariant
            i <= a.len(),
            i <= b.len(),
            forall|k: int| 0 <= k < i ==> a@[k] == b@[k],
        decreases a.len() - i,
    {
        i = i + 1;
    }
    proof {
        lemma_common_len_unique(a@, b@, i as int);
    }
    i
}

/// The three-way form of lexical order.
pub open spec fn lex_order(a: Seq<char>, b: Seq<char>) -> Ordering {
    if lex_lt(a, b) {
        Ordering::Less
    } else if lex_lt(b, a) {
        Ordering::Greater
    } else {
        Ordering::Equal
    }
}

/// Compares two strings lexically, character by character.
pub fn lex_compare(a: &Vec<char>, b: &Vec<char>) -> (r: Ordering)
    ensures
        r == lex_order(a@, b@),
{
    let i = first_difference(a, b);
    proof {
        lemma_common_len(a@, b@);
        lemma_common_len_symmetric(a@, b@);
        lemma_lex_total(a@, b@);
    }
    if i == a.len() {
        if i == b.len() {
            Ordering::Equal
        } else {
            Ordering::Less
        }
    } else if i == b.len() {
        Ordering::Greater
    } else if char_before(a[i], b[i]) {
        Ordering::Less
    } else {
        Ordering::Greater
    }
}

/// Whether two strings of characters are the same.
pub fn same_chars(a: &Vec<char>, b: &Vec<char>) -> (r: bool)
    ensures
        r == (a@ == b@),
{
    if a.len() != b.len() {
        return false;
    }
    let mut i: usize = 0;
    while i < a.len()
        invariant
            i <= a.len(),
            a.len() == b.len(),
            forall|k: int| 0 <= k < i ==> a@[k] == b@[k],
        decreases a.len() - i,
    {
        if a[i] != b[i] {
            return false;
        }
        i = i + 1;
    }
    proof {
        assert(a@ =~= b@);
    }
    true
}

} // verus!

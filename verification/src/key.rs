//! Paths into a document and the order in which a report lists them.
use crate::text::{
    chars_of, common_len, lemma_common_len, lemma_common_len_full, lemma_common_len_symmetric,
    lemma_common_len_unique, lemma_lex_prefix, lemma_lex_total, lemma_lex_transitive, lex_compare,
    lex_lt, same_chars,
};
use std::cmp::Ordering;
use vstd::prelude::*;
use vstd::string::StringExecFns;

verus! {

/// The segments of a path: the pieces between its dots, in order. A path
/// with no dot is one segment; so is the empty path.
pub open spec fn segments(s: Seq<char>) -> Seq<Seq<char>>
    decreases s.len(),
{
    if s.len() == 0 {
        seq![Seq::empty()]
    } else {
        let init = segments(s.drop_last());
        if s.last() == '.' {
            init.push(Seq::empty())
        } else {
            init.drop_last().push(init.last().push(s.last()))
        }
    }
}

/// Whether a string holds no dot.
pub open spec fn dot_free(s: Seq<char>) -> bool {
    forall|i: int| 0 <= i < s.len() ==> s[i] != '.'
}

/// The segments put together again, with a dot between neighbours.
pub open spec fn join(segs: Seq<Seq<char>>) -> Seq<char>
    decreases segs.len(),
{
    if segs.len() == 0 {
        Seq::empty()
    } else if segs.len() == 1 {
        segs[0]
    } else {
        join(segs.drop_last()) + seq!['.'] + segs.last()
    }
}

/// A path has at least one segment, no segment holds a dot, and the segments
/// joined by dots are the path.
pub proof fn lemma_segments(s: Seq<char>)
    ensures
        segments(s).len() >= 1,
        forall|i: int| 0 <= i < segments(s).len() ==> dot_free(#[trigger] segments(s)[i]),
        join(segments(s)) == s,
    decreases s.len(),
{
    if s.len() == 0 {
        assert(join(segments(s)) =~= s);
    } else {
        let t = s.drop_last();
        lemma_segments(t);
        let init = segments(t);
        if s.last() == '.' {
            let now = init.push(Seq::empty());
            assert(now.drop_last() =~= init);
            assert(join(now) =~= join(init) + seq!['.'] + Seq::<char>::empty());
            assert(join(now) =~= s);
        } else {
            let grown = init.last().push(s.last());
            let now = init.drop_last().push(grown);
            assert forall|i: int| 0 <= i < now.len() implies dot_free(#[trigger] now[i]) by {
                if i < now.len() - 1 {
                    assert(now[i] == init[i]);
                } else {
                    assert(dot_free(init[init.len() - 1]));
                }
            }
            if init.len() == 1 {
                assert(join(init) == init[0]);
                assert(join(now) =~= s);
            } else {
                assert(now.drop_last() =~= init.drop_last());
                assert(join(now) =~= (join(init.drop_last()) + seq!['.'] + init.last()).push(
                    s.last(),
                ));
                assert(join(now) =~= s);
            }
        }
    }
}

/// Two paths with the same segments are the same path.
pub proof fn lemma_segments_injective(a: Seq<char>, b: Seq<char>)
    requires
        segments(a) == segments(b),
    ensures
        a == b,
{
    lemma_segments(a);
    lemma_segments(b);
}

/// The first segment is the path up to its first dot: it starts the path,
/// it is the whole path where there is one segment, and a dot follows it
/// where there are more.
pub proof fn lemma_first_segment(s: Seq<char>)
    ensures
        segments(s).len() >= 1,
        dot_free(segments(s)[0]),
        segments(s)[0].len() <= s.len(),
        s.take(segments(s)[0].len() as int) == segments(s)[0],
        segments(s).len() == 1 ==> segments(s)[0] == s,
        segments(s).len() >= 2 ==> segments(s)[0].len() < s.len() && s[segments(s)[0].len() as int]
            == '.',
    decreases s.len(),
{
    lemma_segments(s);
    if s.len() == 0 {
        assert(s.take(0) =~= segments(s)[0]);
    } else {
        let t = s.drop_last();
        lemma_first_segment(t);
        let init = segments(t);
        let x = init[0];
        if s.last() == '.' || init.len() >= 2 {
            assert(segments(s)[0] == x);
            assert(s.take(x.len() as int) =~= t.take(x.len() as int));
        } else {
            assert(segments(s)[0] =~= s);
            assert(s.take(s.len() as int) =~= s);
        }
    }
}

/// The segments of a path, a dot and a second path are those of the first
/// followed by those of the second.
pub proof fn lemma_segments_of_child(a: Seq<char>, b: Seq<char>)
    ensures
        segments(a + seq!['.'] + b) == segments(a) + segments(b),
    decreases b.len(),
{
    let whole = a + seq!['.'] + b;
    lemma_segments(a);
    lemma_segments(b);
    if b.len() == 0 {
        assert(whole.drop_last() =~= a);
        assert(segments(whole) =~= segments(a) + segments(b));
    } else {
        let t = b.drop_last();
        lemma_segments_of_child(a, t);
        lemma_segments(t);
        assert(whole.drop_last() =~= a + seq!['.'] + t);
        assert(whole.last() == b.last());
        assert(segments(whole) =~= segments(a) + segments(b));
    }
}

/// Whether path `a` is listed before path `b`.
///
/// Paths that do not start with the same segment are in plain lexical
/// order. Among paths that do, a path comes before the paths below it, a
/// path of fewer segments before one of more, and of two paths with as many
/// segments the first segment in which they differ decides, lexically.
pub open spec fn path_before(a: Seq<char>, b: Seq<char>) -> bool {
    let sa = segments(a);
    let sb = segments(b);
    let c = common_len(sa, sb);
    if c == 0 {
        lex_lt(a, b)
    } else if c == sa.len() && sa.len() < sb.len() {
        true
    } else if c == sb.len() && sb.len() < sa.len() {
        false
    } else if sa.len() != sb.len() {
        sa.len() < sb.len()
    } else {
        c < sa.len() && lex_lt(sa[c], sb[c])
    }
}

/// Of two paths at most one is listed before the other, and neither is
/// exactly when they are the same path.
pub proof fn lemma_path_order_total(a: Seq<char>, b: Seq<char>)
    ensures
        !(path_before(a, b) && path_before(b, a)),
        (!path_before(a, b) && !path_before(b, a)) <==> a == b,
{
    let sa = segments(a);
    let sb = segments(b);
    lemma_segments(a);
    lemma_segments(b);
    lemma_common_len(sa, sb);
    lemma_common_len_symmetric(sa, sb);
    lemma_common_len_full(sa, sb);
    lemma_lex_total(a, b);
    let c = common_len(sa, sb);
    if c > 0 && sa.len() == sb.len() {
        if c < sa.len() {
            lemma_lex_total(sa[c], sb[c]);
        } else {
            lemma_segments_injective(a, b);
        }
    }
}

/// A path that starts with another segment than `p` and `q`, which start
/// with the same one and go on after it, stands on the same side of both in
/// lexical order.
proof fn lemma_outsider(c: Seq<char>, p: Seq<char>, q: Seq<char>)
    requires
        segments(p)[0] == segments(q)[0],
        segments(p).len() >= 2,
        segments(q).len() >= 2,
        segments(c)[0] != segments(p)[0],
    ensures
        lex_lt(c, p) == lex_lt(c, q),
        lex_lt(p, c) == lex_lt(q, c),
{
    lemma_first_segment(c);
    lemma_first_segment(p);
    lemma_first_segment(q);
    let x = segments(p)[0];
    let y = segments(c)[0];
    let m = x.len() + 1;
    lemma_common_len(c, p);
    let k = common_len(c, p);
    assert forall|i: int| 0 <= i < m implies p[i] == q[i] by {
        if i < x.len() {
            assert(p.take(x.len() as int)[i] == p[i]);
            assert(q.take(x.len() as int)[i] == q[i]);
        }
    }
    if k >= m {
        assert forall|i: int| 0 <= i < x.len() implies c[i] == x[i] by {
            assert(p.take(x.len() as int)[i] == p[i]);
        }
        assert(c[x.len() as int] == '.');
        if y.len() < x.len() {
            assert(c[y.len() as int] == x[y.len() as int]);
            assert(false);
        } else if y.len() > x.len() {
            assert(c.take(y.len() as int)[x.len() as int] == c[x.len() as int]);
            assert(false);
        } else {
            assert forall|i: int| 0 <= i < x.len() implies y[i] == x[i] by {
                assert(c.take(y.len() as int)[i] == c[i]);
            }
            assert(y =~= x);
            assert(false);
        }
    }
    lemma_common_len_unique(c, q, k);
    lemma_common_len_symmetric(c, p);
    lemma_common_len_symmetric(c, q);
}

/// A path of one segment comes before every other path that starts with
/// that segment, in lexical order too.
proof fn lemma_root_first(a: Seq<char>, b: Seq<char>)
    requires
        segments(a).len() == 1,
        segments(b)[0] == segments(a)[0],
        a != b,
    ensures
        segments(b).len() >= 2,
        lex_lt(a, b),
        path_before(a, b),
{
    lemma_first_segment(a);
    lemma_first_segment(b);
    lemma_lex_prefix(a, b);
    let sa = segments(a);
    let sb = segments(b);
    lemma_common_len_unique(sa, sb, 1);
}

/// Among three paths that start with the same segment the order is
/// transitive.
proof fn lemma_transitive_within(a: Seq<char>, b: Seq<char>, c: Seq<char>)
    requires
        path_before(a, b),
        path_before(b, c),
        segments(a)[0] == segments(b)[0],
        segments(b)[0] == segments(c)[0],
    ensures
        path_before(a, c),
{
    let sa = segments(a);
    let sb = segments(b);
    let sc = segments(c);
    lemma_segments(a);
    lemma_segments(b);
    lemma_segments(c);
    lemma_common_len(sa, sb);
    lemma_common_len(sb, sc);
    lemma_common_len(sa, sc);
    let i = common_len(sa, sb);
    let j = common_len(sb, sc);
    if sa.len() == sb.len() && sb.len() == sc.len() {
        let k = if i < j { i } else { j };
        lemma_lex_total(sa[i], sb[i]);
        lemma_lex_total(sb[j], sc[j]);
        if i == j {
            lemma_lex_transitive(sa[i], sb[i], sc[i]);
        }
        lemma_lex_total(sa[k], sc[k]);
        lemma_common_len_unique(sa, sc, k);
    }
}

/// The order of paths is transitive.
pub proof fn lemma_path_order_transitive(a: Seq<char>, b: Seq<char>, c: Seq<char>)
    requires
        path_before(a, b),
        path_before(b, c),
    ensures
        path_before(a, c),
{
    let sa = segments(a);
    let sb = segments(b);
    let sc = segments(c);
    lemma_segments(a);
    lemma_segments(b);
    lemma_segments(c);
    lemma_common_len(sa, sb);
    lemma_common_len(sb, sc);
    lemma_common_len(sa, sc);
    lemma_path_order_total(a, b);
    lemma_path_order_total(b, c);
    lemma_lex_total(a, b);
    lemma_lex_total(b, c);
    lemma_lex_total(a, c);
    let ab = sa[0] == sb[0];
    let bc = sb[0] == sc[0];
    let ac = sa[0] == sc[0];
    if ab && bc {
        lemma_transitive_within(a, b, c);
    } else if ab {
        // `c` starts with another segment than `a` and `b`.
        if sa.len() == 1 {
            lemma_root_first(a, b);
            lemma_lex_transitive(a, b, c);
        } else {
            lemma_outsider(c, a, b);
        }
    } else if bc {
        // `a` starts with another segment than `b` and `c`.
        if sb.len() == 1 {
            lemma_root_first(b, c);
            lemma_lex_transitive(a, b, c);
        } else {
            lemma_outsider(a, b, c);
        }
    } else if ac {
        // `b` starts with another segment than `a` and `c`.
        lemma_lex_transitive(a, b, c);
        if sa.len() == 1 {
            lemma_root_first(a, c);
        } else if sc.len() == 1 {
            lemma_root_first(c, a);
        } else {
            lemma_outsider(b, a, c);
        }
    } else {
        lemma_lex_transitive(a, b, c);
    }
}

/// A path is listed before every path below it.
pub proof fn lemma_ancestor_first(a: Seq<char>, b: Seq<char>)
    ensures
        path_before(a, a + seq!['.'] + b),
{
    let child = a + seq!['.'] + b;
    lemma_segments_of_child(a, b);
    lemma_segments(a);
    lemma_segments(b);
    let sa = segments(a);
    let sc = segments(child);
    assert forall|i: int| 0 <= i < sa.len() implies sa[i] == sc[i] by {}
    lemma_common_len_unique(sa, sc, sa.len() as int);
}

/// Where two paths part at a segment that both have, the two segments at
/// that place are in lexical order one way or the other.
proof fn lemma_deciding_segment(a: Seq<char>, b: Seq<char>)
    ensures
        ({
            let sa = segments(a);
            let sb = segments(b);
            let c = common_len(sa, sb);
            c < sa.len() && c < sb.len() ==> lex_lt(sa[c], sb[c]) != lex_lt(sb[c], sa[c])
        }),
{
    let sa = segments(a);
    let sb = segments(b);
    let c = common_len(sa, sb);
    lemma_common_len(sa, sb);
    if c < sa.len() && c < sb.len() {
        lemma_lex_total(sa[c], sb[c]);
    }
}

/// The three-way form of the order of paths.
pub open spec fn path_order(a: Seq<char>, b: Seq<char>) -> Ordering {
    if path_before(a, b) {
        Ordering::Less
    } else if path_before(b, a) {
        Ordering::Greater
    } else {
        Ordering::Equal
    }
}

/// The strings that a list of character vectors stands for.
pub open spec fn seg_views(v: Seq<Vec<char>>) -> Seq<Seq<char>> {
    Seq::new(v.len(), |i: int| v[i]@)
}

/// Splits a path at its dots.
pub fn split_dots(s: &Vec<char>) -> (out: Vec<Vec<char>>)
    ensures
        seg_views(out@) == segments(s@),
{
    let mut done: Vec<Vec<char>> = Vec::new();
    let mut cur: Vec<char> = Vec::new();
    let mut i: usize = 0;
    proof {
        assert(segments(s@.take(0)) =~= seg_views(done@).push(cur@));
    }
    while i < s.len()
        invariant
            i <= s.len(),
            segments(s@.take(i as int)) == seg_views(done@).push(cur@),
        decreases s.len() - i,
    {
        let ch = s[i];
        proof {
            assert(s@.take(i + 1).drop_last() =~= s@.take(i as int));
            assert(s@.take(i + 1).last() == ch);
        }
        let ghost before = seg_views(done@).push(cur@);
        if ch == '.' {
            done.push(cur);
            cur = Vec::new();
            proof {
                assert(seg_views(done@).push(cur@) =~= before.push(Seq::empty()));
            }
        } else {
            cur.push(ch);
            proof {
                assert(seg_views(done@).push(cur@) =~= before.drop_last().push(
                    before.last().push(ch),
                ));
            }
        }
        i = i + 1;
    }
    proof {
        assert(s@.take(s.len() as int) =~= s@);
    }
    let ghost before = seg_views(done@).push(cur@);
    done.push(cur);
    proof {
        assert(seg_views(done@) =~= before);
    }
    done
}

/// The number of segments with which both lists start.
pub fn common_run(a: &Vec<Vec<char>>, b: &Vec<Vec<char>>) -> (n: usize)
    ensures
        n == common_len(seg_views(a@), seg_views(b@)),
{
    let mut i: usize = 0;
    while i < a.len() && i < b.len() && same_chars(&a[i], &b[i])
        invariant
            i <= a.len(),
            i <= b.len(),
            forall|k: int| 0 <= k < i ==> seg_views(a@)[k] == seg_views(b@)[k],
        decreases a.len() - i,
    {
        i = i + 1;
    }
    proof {
        lemma_common_len_unique(seg_views(a@), seg_views(b@), i as int);
    }
    i
}

/// The path of a leaf in a document: the keys that lead to it, joined by
/// dots.
#[derive(Debug)]
pub struct ConfigKey(pub String);

impl View for ConfigKey {
    type V = Seq<char>;

    open spec fn view(&self) -> Seq<char> {
        self.0@
    }
}

impl Clone for ConfigKey {
    fn clone(&self) -> (r: Self)
        ensures
            r@ == self@,
    {
        ConfigKey(self.0.clone())
    }
}

impl PartialEq for ConfigKey {
    fn eq(&self, other: &Self) -> (r: bool) {
        self.0 == other.0
    }
}

impl Eq for ConfigKey {

}

impl vstd::std_specs::cmp::PartialEqSpecImpl for ConfigKey {
    open spec fn obeys_eq_spec() -> bool {
        true
    }

    open spec fn eq_spec(&self, other: &Self) -> bool {
        self@ == other@
    }
}

impl PartialOrd for ConfigKey {
    fn partial_cmp(&self, other: &Self) -> (r: Option<Ordering>) {
        Some(self.hierarchical_cmp(other))
    }
}

impl vstd::std_specs::cmp::PartialOrdSpecImpl for ConfigKey {
    open spec fn obeys_partial_cmp_spec() -> bool {
        true
    }

    open spec fn partial_cmp_spec(&self, other: &Self) -> Option<Ordering> {
        Some(path_order(self@, other@))
    }
}

impl From<String> for ConfigKey {
    fn from(s: String) -> (r: Self) {
        ConfigKey(s)
    }
}

impl vstd::std_specs::convert::FromSpecImpl<String> for ConfigKey {
    open spec fn obeys_from_spec() -> bool {
        true
    }

    open spec fn from_spec(s: String) -> Self {
        ConfigKey(s)
    }
}

impl From<&String> for ConfigKey {
    fn from(s: &String) -> (r: Self)
        ensures
            r@ == s@,
    {
        ConfigKey(s.clone())
    }
}

impl vstd::std_specs::convert::FromSpecImpl<&String> for ConfigKey {
    open spec fn obeys_from_spec() -> bool {
        true
    }

    open spec fn from_spec(s: &String) -> Self {
        ConfigKey(*s)
    }
}

impl From<&str> for ConfigKey {
    fn from(s: &str) -> (r: Self)
        ensures
            r@ == s@,
    {
        ConfigKey(String::from_str(s))
    }
}

impl vstd::std_specs::convert::FromSpecImpl<&str> for ConfigKey {
    open spec fn obeys_from_spec() -> bool {
        false
    }

    open spec fn from_spec(s: &str) -> Self {
        choose|k: ConfigKey| k@ == s@
    }
}

impl std::ops::Deref for ConfigKey {
    type Target = String;

    fn deref(&self) -> (r: &String)
        ensures
            r@ == self@,
    {
        &self.0
    }
}

impl AsRef<str> for ConfigKey {
    fn as_ref(&self) -> (r: &str)
        ensures
            r@ == self@,
    {
        self.0.as_str()
    }
}

impl ConfigKey {
    /// Compares two paths in the order in which a report lists them.
    pub fn cmp(&self, other: &Self) -> (r: Ordering)
        ensures
            r == path_order(self@, other@),
    {
        self.hierarchical_cmp(other)
    }

    /// Whether this path is listed before `other`.
    pub fn comes_before(&self, other: &Self) -> (r: bool)
        ensures
            r == path_before(self@, other@),
    {
        match self.hierarchical_cmp(other) {
            Ordering::Less => true,
            _ => false,
        }
    }

    /// Compares two paths in the order in which a report lists them.
    pub fn hierarchical_cmp(&self, other: &Self) -> (r: Ordering)
        ensures
            r == path_order(self@, other@),
    {
        let a = chars_of(self.0.as_str());
        let b = chars_of(other.0.as_str());
        let sa = split_dots(&a);
        let sb = split_dots(&b);
        let common = common_run(&sa, &sb);
        proof {
            lemma_path_order_total(a@, b@);
            lemma_common_len(segments(a@), segments(b@));
            lemma_common_len_symmetric(segments(a@), segments(b@));
            lemma_segments(a@);
            lemma_segments(b@);
        }
        if common > 0 {
            if common == sa.len() && sa.len() < sb.len() {
                return Ordering::Less;
            }
            if common == sb.len() && sb.len() < sa.len() {
                return Ordering::Greater;
            }
            if sa.len() < sb.len() {
                Ordering::Less
            } else if sa.len() > sb.len() {
                Ordering::Greater
            } else if common < sa.len() {
                proof {
                    lemma_deciding_segment(a@, b@);
                }
                lex_compare(&sa[common], &sb[common])
            } else {
                proof {
                    lemma_common_len_full(segments(a@), segments(b@));
                    lemma_segments_injective(a@, b@);
                }
                Ordering::Equal
            }
        } else {
            lex_compare(&a, &b)
        }
    }
}

} // verus!

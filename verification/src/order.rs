//! Orders on text and paths, and sorting by them.
//!
//! Rule ids and other strings are ordered as `str` orders them: by their
//! characters from left to right, each by its code point. Paths are ordered as
//! `Path` orders the normalized paths that this library handles (no empty, `.`
//! or `..` components, no trailing separator): component by component, which is
//! the character order with the separator `/` below every other character.
use vstd::prelude::*;
use vstd::multiset::Multiset;

verus! {

/// The rank of a character in one of the two orders.
pub open spec fn rank(c: char, path_order: bool) -> int {
    if path_order && c == '/' {
        -1
    } else {
        c as int
    }
}

/// `a` comes strictly before `b`.
pub open spec fn lex_lt(a: Seq<char>, b: Seq<char>, path_order: bool) -> bool
    decreases a.len(),
{
    if a.len() == 0 {
        b.len() > 0
    } else if b.len() == 0 {
        false
    } else if rank(a[0], path_order) != rank(b[0], path_order) {
        rank(a[0], path_order) < rank(b[0], path_order)
    } else {
        lex_lt(a.drop_first(), b.drop_first(), path_order)
    }
}

/// Character order of strings, as `str::cmp` gives it.
pub open spec fn str_lt(a: Seq<char>, b: Seq<char>) -> bool {
    lex_lt(a, b, false)
}

/// Path order of normalized paths, as `Path::cmp` gives it.
pub open spec fn path_lt(a: Seq<char>, b: Seq<char>) -> bool {
    lex_lt(a, b, true)
}

proof fn lemma_rank_injective(c: char, d: char, p: bool)
    ensures
        rank(c, p) == rank(d, p) ==> c == d,
{
    if rank(c, p) == rank(d, p) {
        if p && c == '/' {
            assert(d == '/');
        } else if p && d == '/' {
        } else {
            assert(c as int == d as int);
        }
    }
}

proof fn lemma_char_nonnegative(c: char)
    ensures
        c as int >= 0,
{
}

/// The order is irreflexive and asymmetric.
pub proof fn lemma_lex_asymmetric(a: Seq<char>, b: Seq<char>, p: bool)
    ensures
        !(lex_lt(a, b, p) && lex_lt(b, a, p)),
        !lex_lt(a, a, p),
    decreases a.len(),
{
    if a.len() > 0 && b.len() > 0 && rank(a[0], p) == rank(b[0], p) {
        lemma_lex_asymmetric(a.drop_first(), b.drop_first(), p);
    }
    if a.len() > 0 {
        lemma_lex_asymmetric(a.drop_first(), a.drop_first(), p);
    }
}

/// The order is transitive.
pub proof fn lemma_lex_transitive(a: Seq<char>, b: Seq<char>, c: Seq<char>, p: bool)
    requires
        lex_lt(a, b, p),
        lex_lt(b, c, p),
    ensures
        lex_lt(a, c, p),
    decreases a.len(),
{
    if a.len() > 0 && b.len() > 0 && c.len() > 0 && rank(a[0], p) == rank(b[0], p) && rank(
        b[0],
        p,
    ) == rank(c[0], p) {
        lemma_lex_transitive(a.drop_first(), b.drop_first(), c.drop_first(), p);
    }
}

/// Distinct sequences are ordered one way or the other.
pub proof fn lemma_lex_total(a: Seq<char>, b: Seq<char>, p: bool)
    ensures
        a != b ==> lex_lt(a, b, p) || lex_lt(b, a, p),
    decreases a.len(),
{
    if a.len() > 0 && b.len() > 0 {
        lemma_rank_injective(a[0], b[0], p);
        if rank(a[0], p) == rank(b[0], p) {
            lemma_lex_total(a.drop_first(), b.drop_first(), p);
            if a.drop_first() == b.drop_first() {
                assert(a == seq![a[0]] + a.drop_first());
                assert(b == seq![b[0]] + b.drop_first());
            }
        }
    } else if a.len() == 0 && b.len() == 0 {
        assert(a == b);
    }
}

/// Not after: `a` does not come strictly after `b`.
pub open spec fn lex_le(a: Seq<char>, b: Seq<char>, p: bool) -> bool {
    !lex_lt(b, a, p)
}

proof fn lemma_le_transitive(a: Seq<char>, b: Seq<char>, c: Seq<char>, p: bool)
    requires
        lex_le(a, b, p),
        lex_le(b, c, p),
    ensures
        lex_le(a, c, p),
{
    lemma_lex_total(a, b, p);
    lemma_lex_total(b, c, p);
    if lex_lt(c, a, p) {
        if a == b {
        } else if b == c {
        } else {
            lemma_lex_transitive(a, b, c, p);
            lemma_lex_asymmetric(a, c, p);
        }
    }
}

/// Compares `a[i..]` and `b[i..]`.
pub fn chars_lt(a: &[char], b: &[char], path_order: bool) -> (r: bool)
    ensures
        r == lex_lt(a@, b@, path_order),
{
    let mut i: usize = 0;
    proof {
        assert(a@.skip(0) == a@);
        assert(b@.skip(0) == b@);
    }
    while i < a.len() && i < b.len()
        invariant
            i <= a.len(),
            i <= b.len(),
            lex_lt(a@, b@, path_order) == lex_lt(a@.skip(i as int), b@.skip(i as int), path_order),
        decreases a.len() - i,
    {
        let ca = a[i];
        let cb = b[i];
        proof {
            assert(a@.skip(i as int)[0] == ca);
            assert(b@.skip(i as int)[0] == cb);
            assert(a@.skip(i as int).drop_first() == a@.skip(i + 1));
            assert(b@.skip(i as int).drop_first() == b@.skip(i + 1));
            lemma_rank_injective(ca, cb, path_order);
            lemma_char_nonnegative(ca);
            lemma_char_nonnegative(cb);
        }
        if ca != cb {
            if path_order && ca == '/' {
                return true;
            } else if path_order && cb == '/' {
                return false;
            } else {
                return ca < cb;
            }
        }
        i += 1;
    }
    i == a.len() && i < b.len()
}

/// Values sorted by a text key.
pub trait Keyed {
    /// The text that orders the value.
    spec fn sort_key(&self) -> Seq<char>;

    /// The characters of [`Keyed::sort_key`].
    fn key_chars(&self) -> (r: Vec<char>)
        ensures
            r@ == self.sort_key(),
    ;
}

/// The keys of `s` never descend.
pub open spec fn sorted_by_key<T: Keyed>(s: Seq<T>, path_order: bool) -> bool {
    forall|i: int, j: int|
        0 <= i < j < s.len() ==> lex_le(#[trigger] s[i].sort_key(), #[trigger] s[j].sort_key(), path_order)
}

proof fn lemma_insert_multiset<T>(s: Seq<T>, p: int, x: T)
    requires
        0 <= p <= s.len(),
    ensures
        s.insert(p, x).to_multiset() =~= s.to_multiset().insert(x),
{
    broadcast use vstd::seq_lib::group_seq_properties;
    let t = s.insert(p, x);
    assert(t.remove(p) =~= s);
    t.to_multiset_ensures();
    s.to_multiset_ensures();
    assert(t[p] == x);
    assert(t.contains(x));
    assert(t.to_multiset().count(x) > 0);
}

/// Sorts by key, keeping values with equal keys in their order.
pub fn sort_by_key<T: Keyed>(v: Vec<T>, path_order: bool) -> (r: Vec<T>)
    ensures
        sorted_by_key(r@, path_order),
        r@.to_multiset() == v@.to_multiset(),
{
    let ghost initial = v@;
    let mut v = v;
    let mut r: Vec<T> = Vec::new();
    proof {
        broadcast use vstd::seq_lib::group_seq_properties;
        assert(r@.to_multiset() =~= Multiset::empty());
    }
    while v.len() > 0
        invariant
            sorted_by_key(r@, path_order),
            r@.to_multiset().add(v@.to_multiset()) == initial.to_multiset(),
        decreases v.len(),
    {
        let ghost before = v@;
        let x = v.pop().unwrap();
        proof {
            assert(before == v@.push(x));
            v@.to_multiset_ensures();
        }
        let xk = x.key_chars();
        let mut p: usize = 0;
        let mut placed = false;
        while p < r.len() && !placed
            invariant
                p <= r.len(),
                xk@ == x.sort_key(),
                forall|q: int| 0 <= q < p ==> lex_lt(#[trigger] r@[q].sort_key(), x.sort_key(), path_order),
                placed ==> p < r.len() && !lex_lt(r@[p as int].sort_key(), x.sort_key(), path_order),
            decreases r.len() - p, if placed { 0int } else { 1int },
        {
            let rk = r[p].key_chars();
            if chars_lt(rk.as_slice(), xk.as_slice(), path_order) {
                p += 1;
            } else {
                placed = true;
            }
        }
        let ghost old_r = r@;
        proof {
            lemma_insert_multiset(old_r, p as int, x);
        }
        r.insert(p, x);
        proof {
            assert(r@ == old_r.insert(p as int, x));
            assert forall|i: int, j: int| 0 <= i < j < r@.len() implies lex_le(
                #[trigger] r@[i].sort_key(),
                #[trigger] r@[j].sort_key(),
                path_order,
            ) by {
                if j < p {
                    assert(r@[i] == old_r[i] && r@[j] == old_r[j]);
                } else if j == p {
                    assert(r@[i] == old_r[i]);
                    lemma_lex_asymmetric(old_r[i].sort_key(), x.sort_key(), path_order);
                } else if i == p {
                    assert(r@[j] == old_r[j - 1]);
                    if p < old_r.len() {
                        assert(lex_le(x.sort_key(), old_r[p as int].sort_key(), path_order));
                        if j - 1 > p {
                            assert(lex_le(old_r[p as int].sort_key(), old_r[j - 1].sort_key(), path_order));
                            lemma_le_transitive(x.sort_key(), old_r[p as int].sort_key(), old_r[j - 1].sort_key(), path_order);
                        }
                    }
                } else if i < p {
                    assert(r@[i] == old_r[i] && r@[j] == old_r[j - 1]);
                } else {
                    assert(r@[i] == old_r[i - 1] && r@[j] == old_r[j - 1]);
                }
            }
            assert(r@.to_multiset().add(v@.to_multiset()) =~= initial.to_multiset());
        }
    }
    proof {
        assert(v@ =~= Seq::<T>::empty());
        assert(v@.to_multiset() =~= Multiset::empty()) by {
            broadcast use vstd::seq_lib::group_seq_properties;
        }
        assert(r@.to_multiset() =~= initial.to_multiset());
    }
    r
}

/// Each value once, and no two values with one key.
pub open spec fn keys_unique<T: Keyed>(s: Seq<T>) -> bool {
    &&& s.no_duplicates()
    &&& forall|x: T, y: T|
        s.contains(x) && s.contains(y) && #[trigger] x.sort_key() == #[trigger] y.sort_key() ==> x == y
}

/// Values whose keys differ pairwise have unique keys.
pub proof fn lemma_distinct_keys_unique<T: Keyed>(s: Seq<T>)
    requires
        forall|i: int, j: int| 0 <= i < j < s.len() ==> (#[trigger] s[i]).sort_key() != (#[trigger] s[j]).sort_key(),
    ensures
        keys_unique(s),
{
    assert forall|i: int, j: int| 0 <= i < s.len() && 0 <= j < s.len() && i != j implies s[i] != s[j] by {
        if i < j {
            assert(s[i].sort_key() != s[j].sort_key());
        } else {
            assert(s[j].sort_key() != s[i].sort_key());
        }
    }
    assert forall|x: T, y: T|
        s.contains(x) && s.contains(y) && #[trigger] x.sort_key() == #[trigger] y.sort_key() implies x == y by {
        let i = choose|i: int| 0 <= i < s.len() && s[i] == x;
        let j = choose|j: int| 0 <= j < s.len() && s[j] == y;
        if i < j {
            assert(s[i].sort_key() != s[j].sort_key());
        } else if j < i {
            assert(s[j].sort_key() != s[i].sort_key());
        }
    }
}

/// Unique keys stay unique when the values are reordered.
pub proof fn lemma_keys_unique_permutation<T: Keyed>(s: Seq<T>, t: Seq<T>)
    requires
        keys_unique(s),
        s.to_multiset() == t.to_multiset(),
    ensures
        keys_unique(t),
{
    broadcast use vstd::seq_lib::group_to_multiset_ensures;
    s.lemma_multiset_has_no_duplicates();
    t.lemma_multiset_has_no_duplicates_conv();
    assert forall|x: T, y: T|
        t.contains(x) && t.contains(y) && #[trigger] x.sort_key() == #[trigger] y.sort_key() implies x == y by {
        assert(t.to_multiset().count(x) > 0 && t.to_multiset().count(y) > 0);
        assert(s.to_multiset().count(x) > 0 && s.to_multiset().count(y) > 0);
    }
}

/// Unique keys stay unique when values are left out.
pub proof fn lemma_keys_unique_filter<T: Keyed>(s: Seq<T>, pred: spec_fn(T) -> bool)
    requires
        keys_unique(s),
    ensures
        keys_unique(s.filter(pred)),
    decreases s.len(),
{
    broadcast use vstd::seq_lib::group_filter_ensures;
    let f = s.filter(pred);
    if s.len() > 0 {
        let d = s.drop_last();
        assert(keys_unique(d)) by {
            assert forall|i: int, j: int| 0 <= i < d.len() && 0 <= j < d.len() && i != j implies d[i] != d[j] by {
                assert(d[i] == s[i]);
                assert(d[j] == s[j]);
            }
            assert forall|x: T, y: T|
                d.contains(x) && d.contains(y) && #[trigger] x.sort_key() == #[trigger] y.sort_key() implies x == y by {
                let i = choose|i: int| 0 <= i < d.len() && d[i] == x;
                let j = choose|j: int| 0 <= j < d.len() && d[j] == y;
                assert(s[i] == x && s[j] == y);
            }
        }
        lemma_keys_unique_filter(d, pred);
        let fd = d.filter(pred);
        reveal(Seq::filter);
        assert(s.drop_last() == d);
        if pred(s.last()) {
            assert(f == fd.push(s.last()));
            assert(!fd.contains(s.last())) by {
                if fd.contains(s.last()) {
                    d.lemma_filter_contains_rev(pred, s.last());
                    let i = choose|i: int| 0 <= i < d.len() && d[i] == s.last();
                    assert(s[i] == s[s.len() - 1]);
                }
            }
            assert forall|i: int, j: int| 0 <= i < f.len() && 0 <= j < f.len() && i != j implies f[i] != f[j] by {
                if i < fd.len() && j < fd.len() {
                    assert(f[i] == fd[i] && f[j] == fd[j]);
                } else if i < fd.len() {
                    assert(f[i] == fd[i]);
                    assert(fd.contains(fd[i]));
                } else {
                    assert(f[j] == fd[j]);
                    assert(fd.contains(fd[j]));
                }
            }
        } else {
            assert(f == fd);
        }
        assert forall|x: T, y: T|
            f.contains(x) && f.contains(y) && #[trigger] x.sort_key() == #[trigger] y.sort_key() implies x == y by {
            s.lemma_filter_contains_rev(pred, x);
            s.lemma_filter_contains_rev(pred, y);
        }
    } else {
        reveal(Seq::filter);
        assert(f.len() == 0);
    }
}

/// Sorted values with unique keys are in strictly ascending key order.
pub proof fn lemma_sorted_strict<T: Keyed>(s: Seq<T>, path_order: bool)
    requires
        sorted_by_key(s, path_order),
        keys_unique(s),
    ensures
        forall|i: int, j: int|
            0 <= i < j < s.len() ==> lex_lt(#[trigger] s[i].sort_key(), #[trigger] s[j].sort_key(), path_order),
{
    assert forall|i: int, j: int| 0 <= i < j < s.len() implies lex_lt(
        #[trigger] s[i].sort_key(),
        #[trigger] s[j].sort_key(),
        path_order,
    ) by {
        assert(s.contains(s[i]) && s.contains(s[j]));
        assert(s[i] != s[j]);
        lemma_lex_total(s[i].sort_key(), s[j].sort_key(), path_order);
    }
}

/// Two sorted orders of the same values with unique keys are one order.
pub proof fn lemma_sorted_unique<T: Keyed>(x: Seq<T>, y: Seq<T>, path_order: bool)
    requires
        sorted_by_key(x, path_order),
        sorted_by_key(y, path_order),
        keys_unique(x),
        x.to_multiset() == y.to_multiset(),
    ensures
        x == y,
    decreases x.len(),
{
    broadcast use vstd::seq_lib::group_to_multiset_ensures;
    broadcast use vstd::multiset::group_multiset_axioms;
    if x.len() == 0 || y.len() == 0 {
        assert(x.to_multiset().len() == 0 && y.to_multiset().len() == 0);
        assert(x =~= y);
    } else {
        assert(x.to_multiset().contains(x[0]));
        assert(x.to_multiset().contains(y[0]));
        let i = choose|i: int| 0 <= i < x.len() && x[i] == y[0];
        let j = choose|j: int| 0 <= j < y.len() && y[j] == x[0];
        if i > 0 {
            assert(lex_le(x[0].sort_key(), x[i].sort_key(), path_order));
        }
        if j > 0 {
            assert(lex_le(y[0].sort_key(), y[j].sort_key(), path_order));
        }
        lemma_lex_total(x[0].sort_key(), y[0].sort_key(), path_order);
        assert(x.contains(x[0]) && x.contains(y[0]));
        assert(x[0] == y[0]);
        vstd::seq_lib::to_multiset_remove(x, 0);
        vstd::seq_lib::to_multiset_remove(y, 0);
        assert(x.remove(0) == x.drop_first());
        assert(y.remove(0) == y.drop_first());
        let xd = x.drop_first();
        let yd = y.drop_first();
        assert(sorted_by_key(xd, path_order)) by {
            assert forall|a: int, b: int| 0 <= a < b < xd.len() implies lex_le(
                #[trigger] xd[a].sort_key(),
                #[trigger] xd[b].sort_key(),
                path_order,
            ) by {
                assert(xd[a] == x[a + 1] && xd[b] == x[b + 1]);
            }
        }
        assert(sorted_by_key(yd, path_order)) by {
            assert forall|a: int, b: int| 0 <= a < b < yd.len() implies lex_le(
                #[trigger] yd[a].sort_key(),
                #[trigger] yd[b].sort_key(),
                path_order,
            ) by {
                assert(yd[a] == y[a + 1] && yd[b] == y[b + 1]);
            }
        }
        assert(keys_unique(xd)) by {
            assert forall|a: int, b: int| 0 <= a < xd.len() && 0 <= b < xd.len() && a != b implies xd[a] != xd[b] by {
                assert(xd[a] == x[a + 1] && xd[b] == x[b + 1]);
            }
            assert forall|u: T, v: T|
                xd.contains(u) && xd.contains(v) && #[trigger] u.sort_key() == #[trigger] v.sort_key() implies u == v by {
                let a = choose|a: int| 0 <= a < xd.len() && xd[a] == u;
                let b = choose|b: int| 0 <= b < xd.len() && xd[b] == v;
                assert(x[a + 1] == u && x[b + 1] == v);
                assert(x.contains(u) && x.contains(v));
            }
        }
        lemma_sorted_unique(xd, yd, path_order);
        assert(x =~= seq![x[0]] + xd);
        assert(y =~= seq![y[0]] + yd);
    }
}

impl Keyed for String {
    open spec fn sort_key(&self) -> Seq<char> {
        self@
    }

    fn key_chars(&self) -> (r: Vec<char>) {
        crate::text::chars_of(self.as_str())
    }
}

} // verus!

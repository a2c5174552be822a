//! Operations on `/`-separated paths held as text.
use vstd::prelude::*;
use crate::text::{chars_of, push_str, push_char};

verus! {

/// `PathBuf::push`/`Path::join`: an absolute `other` replaces `base`; otherwise
/// `other` follows `base`, separated by `/` unless `base` is empty or already
/// ends with one.
pub open spec fn join_path(base: Seq<char>, other: Seq<char>) -> Seq<char> {
    if other.len() > 0 && other[0] == '/' {
        other
    } else if base.len() == 0 || base.last() == '/' {
        base + other
    } else {
        base.push('/') + other
    }
}

/// `Path::join`.
pub fn join(base: &str, other: &str) -> (r: String)
    ensures
        r@ == join_path(base@, other@),
{
    let b = chars_of(base);
    let o = chars_of(other);
    let mut r = String::new();
    if o.len() > 0 && o[0] == '/' {
        push_str(&mut r, other);
    } else if b.len() == 0 || b[b.len() - 1] == '/' {
        push_str(&mut r, base);
        push_str(&mut r, other);
    } else {
        push_str(&mut r, base);
        push_char(&mut r, '/');
        push_str(&mut r, other);
    }
    r
}

/// The index of the last `c` in `s`, if any.
pub open spec fn last_index_of(s: Seq<char>, c: char) -> Option<int>
    decreases s.len(),
{
    if s.len() == 0 {
        None
    } else if s.last() == c {
        Some(s.len() - 1)
    } else {
        last_index_of(s.drop_last(), c)
    }
}

/// The two halves that `Path::file_stem` and `Path::extension` take from a
/// file name: the text before and after the last dot, with no split for a
/// name whose only dot leads it and for `..`.
pub open spec fn split_at_dot(name: Seq<char>) -> (Option<Seq<char>>, Option<Seq<char>>) {
    if name == seq!['.', '.'] {
        (Some(name), None)
    } else {
        match last_index_of(name, '.') {
            None => (None, Some(name)),
            Some(i) => if i == 0 {
                (Some(name), None)
            } else {
                (Some(name.take(i)), Some(name.skip(i + 1)))
            },
        }
    }
}

/// `Path::extension` of a file name.
pub open spec fn extension(name: Seq<char>) -> Option<Seq<char>> {
    let (before, after) = split_at_dot(name);
    if before is Some {
        after
    } else {
        None
    }
}

/// `Path::file_stem` of a file name.
pub open spec fn file_stem(name: Seq<char>) -> Seq<char> {
    let (before, after) = split_at_dot(name);
    match before {
        Some(b) => b,
        None => after->0,
    }
}

proof fn lemma_last_index_bounds(s: Seq<char>, c: char)
    ensures
        last_index_of(s, c) matches Some(i) ==> 0 <= i < s.len() && s[i] == c,
    decreases s.len(),
{
    if s.len() > 0 && s.last() != c {
        lemma_last_index_bounds(s.drop_last(), c);
    }
}

fn last_dot(cs: &[char]) -> (r: Option<usize>)
    ensures
        r matches Some(i) ==> last_index_of(cs@, '.') == Some(i as int) && i < cs@.len(),
        r is None ==> last_index_of(cs@, '.') is None,
{
    let mut i = cs.len();
    proof {
        assert(cs@.take(cs@.len() as int) == cs@);
    }
    while i > 0
        invariant
            i <= cs@.len(),
            last_index_of(cs@, '.') == last_index_of(cs@.take(i as int), '.'),
        decreases i,
    {
        proof {
            assert(cs@.take(i as int).drop_last() == cs@.take(i - 1));
        }
        if cs[i - 1] == '.' {
            return Some(i - 1);
        }
        i -= 1;
    }
    None
}

/// `Path::file_stem` and `Path::extension` of a file name.
pub fn stem_and_extension(name: &str) -> (r: (String, Option<String>))
    ensures
        r.0@ == file_stem(name@),
        r.1 matches Some(e) ==> extension(name@) == Some(e@),
        r.1 is None ==> extension(name@) is None,
{
    let cs = chars_of(name);
    proof {
        assert(cs@.take(cs@.len() as int) == cs@);
    }
    if cs.len() == 2 && cs[0] == '.' && cs[1] == '.' {
        proof {
            assert(cs@ == seq!['.', '.']);
        }
        return (crate::text::string_of(cs.as_slice(), 0, 2), None);
    }
    proof {
        if cs@ == seq!['.', '.'] {
            assert(cs@[0] == '.' && cs@[1] == '.');
        }
    }
    match last_dot(cs.as_slice()) {
        None => {
            proof {
                assert(cs@.subrange(0, cs@.len() as int) == cs@);
            }
            (crate::text::string_of(cs.as_slice(), 0, cs.len()), None)
        },
        Some(i) => {
            if i == 0 {
                proof {
                    assert(cs@.subrange(0, cs@.len() as int) == cs@);
                }
                (crate::text::string_of(cs.as_slice(), 0, cs.len()), None)
            } else {
                proof {
                    assert(cs@.subrange(0, i as int) == cs@.take(i as int));
                    assert(cs@.subrange(i + 1, cs@.len() as int) == cs@.skip(i + 1));
                }
                (
                    crate::text::string_of(cs.as_slice(), 0, i),
                    Some(crate::text::string_of(cs.as_slice(), i + 1, cs.len())),
                )
            }
        },
    }
}

/// The pieces of `p` between `/` separators, empty pieces included.
pub open spec fn pieces(p: Seq<char>) -> Seq<Seq<char>>
    decreases p.len(),
{
    if p.len() == 0 {
        seq![Seq::<char>::empty()]
    } else if p.last() == '/' {
        pieces(p.drop_last()).push(Seq::<char>::empty())
    } else {
        let s = pieces(p.drop_last());
        s.update(s.len() - 1, s.last().push(p.last()))
    }
}

/// A piece that names a directory entry: neither empty nor `.`.
pub open spec fn named(piece: Seq<char>) -> bool {
    piece.len() > 0 && piece != seq!['.']
}

/// The named pieces, in order.
pub open spec fn named_pieces(ps: Seq<Seq<char>>) -> Seq<Seq<char>>
    decreases ps.len(),
{
    if ps.len() == 0 {
        Seq::empty()
    } else if named(ps.last()) {
        named_pieces(ps.drop_last()).push(ps.last())
    } else {
        named_pieces(ps.drop_last())
    }
}

/// The components that `Path::components` yields on a Unix path: `/` for
/// the root of an absolute path, `.` for a leading `.` piece of a relative
/// path, then each named piece. Repeated separators, a trailing separator
/// and other `.` pieces yield nothing. Two paths are equal, one starts with
/// the other, and one is stripped of the other by these lists.
pub open spec fn components(p: Seq<char>) -> Seq<Seq<char>> {
    let absolute = p.len() > 0 && p[0] == '/';
    (if absolute { seq![seq!['/']] } else { Seq::empty() })
        + (if !absolute && pieces(p)[0] == seq!['.'] { seq![seq!['.']] } else { Seq::empty() })
        + named_pieces(pieces(p))
}

/// `Path::starts_with`: `base`'s components begin those of `p`.
pub open spec fn path_starts_with(p: Seq<char>, base: Seq<char>) -> bool {
    components(base).is_prefix_of(components(p))
}

/// The path that `Path::strip_prefix` leaves, as its components joined by
/// `/`.
pub open spec fn stripped(p: Seq<char>, base: Seq<char>) -> Option<Seq<char>> {
    if path_starts_with(p, base) {
        Some(crate::text::join(components(p).skip(components(base).len() as int), seq!['/']))
    } else {
        None
    }
}

proof fn lemma_named_pieces_push(ps: Seq<Seq<char>>, x: Seq<char>)
    ensures
        named_pieces(ps.push(x)) == if named(x) { named_pieces(ps).push(x) } else { named_pieces(ps) },
{
    assert(ps.push(x).drop_last() == ps);
}

/// Whether the piece is `.`.
fn is_dot(piece: &str) -> (r: bool)
    ensures
        r == (piece@ == seq!['.']),
{
    let cs = chars_of(piece);
    let r = cs.len() == 1 && cs[0] == '.';
    proof {
        if r {
            assert(cs@ =~= seq!['.']);
        }
        if piece@ == seq!['.'] {
            assert(cs@.len() == 1 && cs@[0] == '.');
        }
    }
    r
}

/// Whether the piece is named: neither empty nor `.`.
fn is_named(piece: &str) -> (r: bool)
    ensures
        r == named(piece@),
{
    piece.unicode_len() > 0 && !is_dot(piece)
}

/// The components of `p`.
pub fn components_of(p: &str) -> (r: Vec<String>)
    ensures
        crate::text::views(r@) == components(p@),
{
    let cs = chars_of(p);
    let absolute = cs.len() > 0 && cs[0] == '/';
    let mut done: Vec<String> = Vec::new();
    let mut cur = String::new();
    let mut first = String::new();
    let mut seen_slash = false;
    let mut i: usize = 0;
    while i < cs.len()
        invariant
            i <= cs@.len(),
            cs@ == p@,
            pieces(cs@.take(i as int)).len() >= 1,
            cur@ == pieces(cs@.take(i as int)).last(),
            crate::text::views(done@) == named_pieces(pieces(cs@.take(i as int)).drop_last()),
            seen_slash <==> pieces(cs@.take(i as int)).len() > 1,
            pieces(cs@.take(i as int))[0] == if seen_slash { first@ } else { cur@ },
        decreases cs@.len() - i,
    {
        let c = cs[i];
        let ghost t = cs@.take(i as int);
        let ghost t1 = cs@.take(i + 1);
        proof {
            assert(t1.drop_last() == t);
            assert(t1.last() == c);
        }
        if c == '/' {
            proof {
                assert(pieces(t1) == pieces(t).push(Seq::<char>::empty()));
                assert(pieces(t1).drop_last() == pieces(t));
                assert(pieces(t) == pieces(t).drop_last().push(cur@));
                lemma_named_pieces_push(pieces(t).drop_last(), cur@);
            }
            if !seen_slash {
                first = cur.clone();
                seen_slash = true;
            }
            let ghost before = done@;
            if is_named(cur.as_str()) {
                done.push(cur);
                proof {
                    crate::text::lemma_views_push(before, done@[before.len() as int]);
                }
            }
            cur = String::new();
        } else {
            let ghost s = pieces(t);
            proof {
                assert(pieces(t1) == s.update(s.len() - 1, s.last().push(c)));
                assert(pieces(t1).drop_last() =~= s.drop_last());
            }
            crate::text::push_char(&mut cur, c);
        }
        i += 1;
    }
    proof {
        assert(cs@.take(cs@.len() as int) == cs@);
        let ps = pieces(cs@);
        assert(ps == ps.drop_last().push(cur@));
        lemma_named_pieces_push(ps.drop_last(), cur@);
    }
    let lead = if seen_slash { first } else { cur.clone() };
    if is_named(cur.as_str()) {
        let ghost before = done@;
        done.push(cur);
        proof {
            crate::text::lemma_views_push(before, done@[before.len() as int]);
        }
    }
    let mut r: Vec<String> = Vec::new();
    if absolute {
        let mut root = String::new();
        crate::text::push_char(&mut root, '/');
        r.push(root);
    } else if is_dot(lead.as_str()) {
        let mut dot = String::new();
        crate::text::push_char(&mut dot, '.');
        r.push(dot);
    }
    let ghost head = r@;
    proof {
        if absolute {
            assert(crate::text::views(head) =~= seq![seq!['/']]);
        } else if lead@ == seq!['.'] {
            assert(crate::text::views(head) =~= seq![seq!['.']]);
        } else {
            assert(crate::text::views(head) =~= Seq::<Seq<char>>::empty());
        }
    }
    let mut k: usize = 0;
    while k < done.len()
        invariant
            k <= done@.len(),
            crate::text::views(r@) == crate::text::views(head) + crate::text::views(done@).take(k as int),
        decreases done@.len() - k,
    {
        let ghost before = r@;
        r.push(done[k].clone());
        proof {
            crate::text::lemma_views_push(before, r@[before.len() as int]);
            assert(crate::text::views(done@).take(k + 1) == crate::text::views(done@).take(k as int).push(done@[k as int]@));
        }
        k += 1;
    }
    proof {
        assert(crate::text::views(done@).take(done@.len() as int) == crate::text::views(done@));
        assert(crate::text::views(r@) =~= components(p@));
    }
    r
}

/// Whether the first `n` texts of `a` are those of `b`.
fn same_texts(a: &Vec<String>, b: &Vec<String>, n: usize) -> (r: bool)
    requires
        n <= a@.len(),
        n <= b@.len(),
    ensures
        r == (crate::text::views(a@).take(n as int) == crate::text::views(b@).take(n as int)),
{
    let mut i: usize = 0;
    while i < n
        invariant
            i <= n <= a@.len(),
            n <= b@.len(),
            crate::text::views(a@).take(i as int) == crate::text::views(b@).take(i as int),
        decreases n - i,
    {
        if a[i] != b[i] {
            proof {
                assert(crate::text::views(a@).take(n as int)[i as int] == a@[i as int]@);
                assert(crate::text::views(b@).take(n as int)[i as int] == b@[i as int]@);
            }
            return false;
        }
        proof {
            assert(crate::text::views(a@).take(i + 1) =~= crate::text::views(b@).take(i + 1)) by {
                assert(crate::text::views(a@).take(i + 1) == crate::text::views(a@).take(i as int).push(a@[i as int]@));
                assert(crate::text::views(b@).take(i + 1) == crate::text::views(b@).take(i as int).push(b@[i as int]@));
            }
        }
        i += 1;
    }
    true
}

/// `Path::eq`: whether two paths have the same components.
pub fn same_path(p: &str, q: &str) -> (r: bool)
    ensures
        r == (components(p@) == components(q@)),
{
    let a = components_of(p);
    let b = components_of(q);
    if a.len() != b.len() {
        return false;
    }
    let r = same_texts(&a, &b, a.len());
    proof {
        assert(crate::text::views(a@).take(a@.len() as int) == components(p@));
        assert(crate::text::views(b@).take(b@.len() as int) == components(q@));
    }
    r
}

/// `Path::starts_with`: whether `base`'s components begin those of `p`.
pub fn starts_with(p: &str, base: &str) -> (r: bool)
    ensures
        r == path_starts_with(p@, base@),
{
    let a = components_of(p);
    let b = components_of(base);
    if b.len() > a.len() {
        return false;
    }
    let r = same_texts(&b, &a, b.len());
    proof {
        assert(crate::text::views(b@).take(b@.len() as int) == components(base@));
    }
    r
}

/// `Path::strip_prefix`, the rest given as its components joined by `/`.
pub fn strip_prefix(p: &str, base: &str) -> (r: Option<String>)
    ensures
        r matches Some(s) ==> stripped(p@, base@) == Some(s@),
        r is None ==> stripped(p@, base@) is None,
{
    if !starts_with(p, base) {
        return None;
    }
    let a = components_of(p);
    let n = components_of(base).len();
    let mut rest: Vec<String> = Vec::new();
    let mut i = n;
    while i < a.len()
        invariant
            n <= i <= a@.len(),
            n == components(base@).len(),
            crate::text::views(a@) == components(p@),
            crate::text::views(rest@) == components(p@).subrange(n as int, i as int),
        decreases a@.len() - i,
    {
        let ghost before = rest@;
        rest.push(a[i].clone());
        proof {
            crate::text::lemma_views_push(before, rest@[before.len() as int]);
            assert(components(p@).subrange(n as int, i + 1) == components(p@).subrange(n as int, i as int).push(a@[i as int]@));
        }
        i += 1;
    }
    proof {
        assert(components(p@).subrange(n as int, a@.len() as int) == components(p@).skip(n as int));
        reveal_strlit("/");
        assert("/"@ =~= seq!['/']);
    }
    Some(crate::text::join_strings(&rest, "/"))
}

} // verus!

//! Character-level text helpers: line splitting, trimming, joining and
//! decimal numbers, each with the meaning that std gives it.
use vstd::prelude::*;

verus! {

/// `char::is_whitespace`: the Unicode `White_Space` property.
pub open spec fn is_white_space(c: char) -> bool {
    ||| '\u{9}' <= c <= '\u{d}'
    ||| c == ' '
    ||| c == '\u{85}'
    ||| c == '\u{a0}'
    ||| c == '\u{1680}'
    ||| '\u{2000}' <= c <= '\u{200a}'
    ||| c == '\u{2028}'
    ||| c == '\u{2029}'
    ||| c == '\u{202f}'
    ||| c == '\u{205f}'
    ||| c == '\u{3000}'
}

/// Exec form of [`is_white_space`].
pub fn char_is_whitespace(c: char) -> (r: bool)
    ensures
        r == is_white_space(c),
{
    ('\u{9}' <= c && c <= '\u{d}') || c == ' ' || c == '\u{85}' || c == '\u{a0}' || c
        == '\u{1680}' || ('\u{2000}' <= c && c <= '\u{200a}') || c == '\u{2028}' || c
        == '\u{2029}' || c == '\u{202f}' || c == '\u{205f}' || c == '\u{3000}'
}

/// `str::trim_start`.
pub open spec fn trim_start(s: Seq<char>) -> Seq<char>
    decreases s.len(),
{
    if s.len() > 0 && is_white_space(s[0]) {
        trim_start(s.drop_first())
    } else {
        s
    }
}

/// `str::trim_end`.
pub open spec fn trim_end(s: Seq<char>) -> Seq<char>
    decreases s.len(),
{
    if s.len() > 0 && is_white_space(s.last()) {
        trim_end(s.drop_last())
    } else {
        s
    }
}

/// `str::trim`.
pub open spec fn trim(s: Seq<char>) -> Seq<char> {
    trim_end(trim_start(s))
}

/// `str::trim_start_matches(c)` for a single character.
pub open spec fn trim_start_char(s: Seq<char>, c: char) -> Seq<char>
    decreases s.len(),
{
    if s.len() > 0 && s[0] == c {
        trim_start_char(s.drop_first(), c)
    } else {
        s
    }
}

/// Drops one trailing carriage return.
pub open spec fn strip_cr(s: Seq<char>) -> Seq<char> {
    if s.len() > 0 && s.last() == '\r' {
        s.drop_last()
    } else {
        s
    }
}

/// The index of the first `c` in `s`, if any.
pub open spec fn find_char(s: Seq<char>, c: char) -> Option<int>
    decreases s.len(),
{
    if s.len() == 0 {
        None
    } else if s[0] == c {
        Some(0)
    } else {
        match find_char(s.drop_first(), c) {
            Some(i) => Some(i + 1),
            None => None,
        }
    }
}

/// `str::lines`: pieces split at `\n`, a `\r` right before the `\n` dropped,
/// and no empty piece after a final line ending.
pub open spec fn lines_of(s: Seq<char>) -> Seq<Seq<char>>
    decreases s.len(),
{
    if s.len() == 0 {
        Seq::empty()
    } else {
        match find_char(s, '\n') {
            None => seq![s],
            Some(i) => {
                if 0 <= i < s.len() {
                    seq![strip_cr(s.take(i))] + lines_of(s.skip(i + 1))
                } else {
                    Seq::empty()
                }
            },
        }
    }
}

/// `[..].join(sep)`.
pub open spec fn join(parts: Seq<Seq<char>>, sep: Seq<char>) -> Seq<char>
    decreases parts.len(),
{
    if parts.len() == 0 {
        Seq::empty()
    } else if parts.len() == 1 {
        parts[0]
    } else {
        join(parts.drop_last(), sep) + sep + parts.last()
    }
}

/// The decimal digit for `d`.
pub open spec fn digit(d: nat) -> char {
    if d == 0 {
        '0'
    } else if d == 1 {
        '1'
    } else if d == 2 {
        '2'
    } else if d == 3 {
        '3'
    } else if d == 4 {
        '4'
    } else if d == 5 {
        '5'
    } else if d == 6 {
        '6'
    } else if d == 7 {
        '7'
    } else if d == 8 {
        '8'
    } else {
        '9'
    }
}

/// The decimal notation of `n`, as `Display` writes an integer.
pub open spec fn decimal(n: nat) -> Seq<char>
    decreases n,
{
    if n < 10 {
        seq![digit(n)]
    } else {
        decimal(n / 10).push(digit(n % 10))
    }
}

proof fn lemma_find_char_bounds(s: Seq<char>, c: char)
    ensures
        find_char(s, c) matches Some(i) ==> 0 <= i < s.len() && s[i] == c && forall|j: int|
            0 <= j < i ==> s[j] != c,
        find_char(s, c) is None ==> forall|j: int| 0 <= j < s.len() ==> s[j] != c,
    decreases s.len(),
{
    if s.len() > 0 && s[0] != c {
        lemma_find_char_bounds(s.drop_first(), c);
        assert forall|j: int| 1 <= j < s.len() implies s[j] == s.drop_first()[j - 1] by {}
    }
}

/// The characters of a string.
pub fn chars_of(s: &str) -> (r: Vec<char>)
    ensures
        r@ == s@,
{
    let mut r: Vec<char> = Vec::new();
    for c in it: s.chars()
        invariant
            it.seq() == s@,
            r@ == it.seq().take(it.index()),
    {
        proof {
            assert(it.seq().take(it.index() + 1) == it.seq().take(it.index()).push(c));
        }
        r.push(c);
    }
    r
}

/// Calls `String::push`. Trusted: as its documentation says, the character
/// is appended, so the string's characters are the old ones followed by it.
#[verifier::external_body]
pub(crate) fn push_char(s: &mut String, c: char)
    ensures
        final(s)@ == old(s)@.push(c),
{
    s.push(c);
}

/// A string made of the characters `cs[from..to]`.
pub fn string_of(cs: &[char], from: usize, to: usize) -> (r: String)
    requires
        from <= to <= cs@.len(),
    ensures
        r@ == cs@.subrange(from as int, to as int),
{
    let mut r = String::new();
    let mut i = from;
    while i < to
        invariant
            from <= i <= to <= cs@.len(),
            r@ == cs@.subrange(from as int, i as int),
        decreases to - i,
    {
        push_char(&mut r, cs[i]);
        proof {
            assert(cs@.subrange(from as int, i + 1) == cs@.subrange(from as int, i as int).push(
                cs@[i as int],
            ));
        }
        i += 1;
    }
    r
}

/// Appends `cs[from..to]` to `out`.
pub fn push_chars(out: &mut String, cs: &[char], from: usize, to: usize)
    requires
        from <= to <= cs@.len(),
    ensures
        final(out)@ == old(out)@ + cs@.subrange(from as int, to as int),
{
    let mut i = from;
    while i < to
        invariant
            from <= i <= to <= cs@.len(),
            out@ == old(out)@ + cs@.subrange(from as int, i as int),
        decreases to - i,
    {
        push_char(out, cs[i]);
        proof {
            assert(cs@.subrange(from as int, i + 1) == cs@.subrange(from as int, i as int).push(
                cs@[i as int],
            ));
        }
        i += 1;
    }
}

/// Appends a whole string to `out`.
pub fn push_str(out: &mut String, s: &str)
    ensures
        final(out)@ == old(out)@ + s@,
{
    let cs = chars_of(s);
    push_chars(out, cs.as_slice(), 0, cs.len());
    proof {
        assert(cs@.subrange(0, cs@.len() as int) == cs@);
    }
}

/// The bounds of the characters that `trim` keeps.
pub fn trim_bounds(cs: &[char], from: usize, to: usize) -> (r: (usize, usize))
    requires
        from <= to <= cs@.len(),
    ensures
        from <= r.0 <= r.1 <= to,
        cs@.subrange(r.0 as int, r.1 as int) == trim(cs@.subrange(from as int, to as int)),
{
    let mut a = from;
    while a < to && char_is_whitespace(cs[a])
        invariant
            from <= a <= to <= cs@.len(),
            trim_start(cs@.subrange(from as int, to as int)) == trim_start(
                cs@.subrange(a as int, to as int),
            ),
        decreases to - a,
    {
        proof {
            assert(cs@.subrange(a as int, to as int).drop_first() == cs@.subrange(
                a + 1,
                to as int,
            ));
        }
        a += 1;
    }
    let mut b = to;
    while b > a && char_is_whitespace(cs[b - 1])
        invariant
            from <= a <= b <= to <= cs@.len(),
            trim_end(cs@.subrange(a as int, to as int)) == trim_end(
                cs@.subrange(a as int, b as int),
            ),
        decreases b - a,
    {
        proof {
            assert(cs@.subrange(a as int, b as int).drop_last() == cs@.subrange(
                a as int,
                b - 1,
            ));
        }
        b -= 1;
    }
    (a, b)
}

/// `str::trim`, returned as an owned string.
pub fn trimmed(s: &str) -> (r: String)
    ensures
        r@ == trim(s@),
{
    let cs = chars_of(s);
    let (a, b) = trim_bounds(cs.as_slice(), 0, cs.len());
    proof {
        assert(cs@.subrange(0, cs@.len() as int) == cs@);
    }
    string_of(cs.as_slice(), a, b)
}

/// The half-open character ranges of the pieces that `str::lines` yields.
pub open spec fn line_ranges_match(s: Seq<char>, ranges: Seq<(usize, usize)>) -> bool {
    ranges_spell(s, ranges, lines_of(s), s.len() as int)
}

proof fn lemma_lines_step(s: Seq<char>, i: int)
    requires
        0 <= i < s.len(),
        s[i] == '\n',
        forall|j: int| 0 <= j < i ==> s[j] != '\n',
    ensures
        lines_of(s) == seq![strip_cr(s.take(i))] + lines_of(s.skip(i + 1)),
{
    lemma_find_char_bounds(s, '\n');
    let f = find_char(s, '\n');
    assert(f == Some(i)) by {
        if f is None {
            assert(s[i] != '\n');
        } else {
            let k = f->0;
            if k < i {
                assert(s[k] != '\n');
            } else if k > i {
            }
        }
    }
}

proof fn lemma_lines_last(s: Seq<char>)
    requires
        s.len() > 0,
        forall|j: int| 0 <= j < s.len() ==> s[j] != '\n',
    ensures
        lines_of(s) == seq![s],
{
    lemma_find_char_bounds(s, '\n');
    if find_char(s, '\n') is Some {
        let k = find_char(s, '\n')->0;
        assert(s[k] == '\n');
    }
}

/// The range lies within `bound` and its characters are `piece`.
pub open spec fn spells(cs: Seq<char>, range: (usize, usize), piece: Seq<char>, bound: int) -> bool {
    &&& range.0 <= range.1
    &&& range.1 <= bound
    &&& cs.subrange(range.0 as int, range.1 as int) =~= piece
}

/// Every range lies within `bound` and spells the matching piece of `pieces`.
pub open spec fn ranges_spell(
    cs: Seq<char>,
    ranges: Seq<(usize, usize)>,
    pieces: Seq<Seq<char>>,
    bound: int,
) -> bool {
    &&& ranges.len() == pieces.len()
    &&& bound <= cs.len()
    &&& forall|k: int| 0 <= k < ranges.len() ==> spells(cs, ranges[k], #[trigger] pieces[k], bound)
}

proof fn lemma_ranges_push(
    cs: Seq<char>,
    ranges: Seq<(usize, usize)>,
    pieces: Seq<Seq<char>>,
    bound: int,
    a: usize,
    b: usize,
    new_bound: int,
)
    requires
        ranges_spell(cs, ranges, pieces, bound),
        bound <= new_bound <= cs.len(),
        a <= b <= new_bound,
    ensures
        ranges_spell(cs, ranges.push((a, b)), pieces.push(cs.subrange(a as int, b as int)), new_bound),
{
    let r2 = ranges.push((a, b));
    let p2 = pieces.push(cs.subrange(a as int, b as int));
    assert forall|k: int| 0 <= k < r2.len() implies spells(cs, r2[k], #[trigger] p2[k], new_bound) by {
        if k < ranges.len() {
            assert(r2[k] == ranges[k]);
            assert(p2[k] == pieces[k]);
            assert(spells(cs, ranges[k], pieces[k], bound));
        } else {
            assert(r2[k] == (a, b));
            assert(p2[k] == cs.subrange(a as int, b as int));
        }
    }
}

/// The character ranges of `str::lines` over `cs`.
pub fn line_ranges(cs: &[char]) -> (r: Vec<(usize, usize)>)
    ensures
        line_ranges_match(cs@, r@),
{
    let mut r: Vec<(usize, usize)> = Vec::new();
    let mut start: usize = 0;
    let mut i: usize = 0;
    let ghost mut done: Seq<Seq<char>> = Seq::empty();
    proof {
        assert(cs@.skip(0) == cs@);
    }
    while i < cs.len()
        invariant
            start <= i <= cs@.len(),
            forall|j: int| start <= j < i ==> cs@[j] != '\n',
            done + lines_of(cs@.skip(start as int)) == lines_of(cs@),
            ranges_spell(cs@, r@, done, start as int),
        decreases cs@.len() - i,
    {
        if cs[i] == '\n' {
            let end = if i > start && cs[i - 1] == '\r' {
                i - 1
            } else {
                i
            };
            proof {
                let rest = cs@.skip(start as int);
                let li = i - start;
                assert forall|j: int| 0 <= j < li implies rest[j] != '\n' by {
                    assert(rest[j] == cs@[start + j]);
                }
                lemma_lines_step(rest, li);
                assert(rest.skip(li + 1) == cs@.skip(i + 1));
                assert(rest.take(li) == cs@.subrange(start as int, i as int));
                assert(strip_cr(rest.take(li)) == cs@.subrange(start as int, end as int));
                lemma_ranges_push(cs@, r@, done, start as int, start, end, i + 1);
                done = done.push(cs@.subrange(start as int, end as int));
                assert(done + lines_of(cs@.skip(i + 1)) == lines_of(cs@)) by {
                    assert(lines_of(rest) == seq![cs@.subrange(start as int, end as int)]
                        + lines_of(cs@.skip(i + 1)));
                }
            }
            r.push((start, end));
            start = i + 1;
        }
        i += 1;
    }
    if start < cs.len() {
        proof {
            let rest = cs@.skip(start as int);
            assert forall|j: int| 0 <= j < rest.len() implies rest[j] != '\n' by {
                assert(rest[j] == cs@[start + j]);
            }
            lemma_lines_last(rest);
            assert(rest == cs@.subrange(start as int, cs@.len() as int));
            lemma_ranges_push(cs@, r@, done, start as int, start, cs.len(), cs@.len() as int);
            done = done.push(rest);
            assert(done == lines_of(cs@));
        }
        r.push((start, cs.len()));
    } else {
        proof {
            assert(cs@.skip(start as int).len() == 0);
            assert(done == lines_of(cs@));
        }
    }
    proof {
        assert(ranges_spell(cs@, r@, lines_of(cs@), cs@.len() as int));
    }
    r
}

/// The decimal notation of `n`.
pub fn decimal_string(n: usize) -> (r: String)
    ensures
        r@ == decimal(n as nat),
    decreases n,
{
    let d = n % 10;
    let c = if d == 0 {
        '0'
    } else if d == 1 {
        '1'
    } else if d == 2 {
        '2'
    } else if d == 3 {
        '3'
    } else if d == 4 {
        '4'
    } else if d == 5 {
        '5'
    } else if d == 6 {
        '6'
    } else if d == 7 {
        '7'
    } else if d == 8 {
        '8'
    } else {
        '9'
    };
    if n < 10 {
        let mut r = String::new();
        push_char(&mut r, c);
        r
    } else {
        let mut r = decimal_string(n / 10);
        push_char(&mut r, c);
        r
    }
}

} // verus!

verus! {

/// The text of each string.
pub open spec fn views(parts: Seq<String>) -> Seq<Seq<char>> {
    parts.map_values(|p: String| p@)
}

/// The texts after a push are the texts before and the new one.
pub proof fn lemma_views_push(parts: Seq<String>, x: String)
    ensures
        views(parts.push(x)) == views(parts).push(x@),
{
    assert(views(parts.push(x)) =~= views(parts).push(x@));
}

/// `parts.join(sep)`.
pub fn join_strings(parts: &Vec<String>, sep: &str) -> (r: String)
    ensures
        r@ == join(views(parts@), sep@),
{
    let mut r = String::new();
    let mut i: usize = 0;
    while i < parts.len()
        invariant
            i <= parts.len(),
            r@ == join(views(parts@).take(i as int), sep@),
        decreases parts.len() - i,
    {
        let ghost vs = views(parts@);
        proof {
            assert(vs.take(i + 1).drop_last() == vs.take(i as int));
            assert(vs.take(i + 1).last() == parts@[i as int]@);
        }
        if i > 0 {
            push_str(&mut r, sep);
        } else {
            assert(vs.take(0) == Seq::<Seq<char>>::empty());
        }
        push_str(&mut r, parts[i].as_str());
        i += 1;
    }
    proof {
        assert(views(parts@).take(parts.len() as int) == views(parts@));
    }
    r
}

} // verus!

verus! {

/// A copy of a vector of strings.
pub fn clone_strings(v: &Vec<String>) -> (r: Vec<String>)
    ensures
        r@ == v@,
{
    let mut r: Vec<String> = Vec::new();
    let mut i: usize = 0;
    while i < v.len()
        invariant
            i <= v@.len(),
            r@ == v@.take(i as int),
        decreases v@.len() - i,
    {
        r.push(v[i].clone());
        proof {
            assert(v@.take(i + 1) == v@.take(i as int).push(v@[i as int]));
        }
        i += 1;
    }
    proof {
        assert(v@.take(v@.len() as int) == v@);
    }
    r
}

/// `needle` occurs in `hay`.
pub open spec fn contains_text(hay: Seq<char>, needle: Seq<char>) -> bool {
    exists|i: int| 0 <= i && i + needle.len() <= hay.len() && #[trigger] hay.subrange(i, i + needle.len()) == needle
}

/// Whether `cs[at..at + needle.len()]` is `needle`.
fn occurs_at(cs: &[char], at: usize, needle: &[char]) -> (r: bool)
    requires
        at + needle@.len() <= cs@.len(),
    ensures
        r == (cs@.subrange(at as int, at + needle@.len()) == needle@),
{
    let n = cs.len();
    let mut k: usize = 0;
    while k < needle.len()
        invariant
            k <= needle@.len(),
            n == cs@.len(),
            at + needle@.len() <= cs@.len(),
            cs@.subrange(at as int, at + k) == needle@.take(k as int),
        decreases needle@.len() - k,
    {
        if cs[at + k] != needle[k] {
            proof {
                assert(cs@.subrange(at as int, at + needle@.len())[k as int] == cs@[at + k]);
            }
            return false;
        }
        proof {
            assert(cs@.subrange(at as int, at + k + 1) == cs@.subrange(at as int, at + k).push(cs@[at + k]));
            assert(needle@.take(k + 1) == needle@.take(k as int).push(needle@[k as int]));
        }
        k += 1;
    }
    proof {
        assert(needle@.take(needle@.len() as int) == needle@);
    }
    true
}

/// Whether `needle` occurs in `cs[from..to]`.
pub fn contains_chars(cs: &[char], from: usize, to: usize, needle: &[char]) -> (r: bool)
    requires
        from <= to <= cs@.len(),
    ensures
        r == contains_text(cs@.subrange(from as int, to as int), needle@),
{
    let ghost hay = cs@.subrange(from as int, to as int);
    if needle.len() > to - from {
        proof {
            if contains_text(hay, needle@) {
                let i = choose|i: int| 0 <= i && i + needle@.len() <= hay.len() && #[trigger] hay.subrange(i, i + needle@.len()) == needle@;
            }
        }
        return false;
    }
    let last = to - needle.len();
    let mut at = from;
    while at < last
        invariant
            from <= at <= last,
            last + needle@.len() == to,
            to <= cs@.len(),
            hay == cs@.subrange(from as int, to as int),
            forall|i: int| 0 <= i < at - from ==> #[trigger] hay.subrange(i, i + needle@.len()) != needle@,
        decreases last - at,
    {
        let found = occurs_at(cs, at, needle);
        proof {
            assert(hay.subrange(at - from, at - from + needle@.len()) =~= cs@.subrange(at as int, at + needle@.len()));
        }
        if found {
            proof {
                assert(hay.subrange(at - from, at - from + needle@.len()) == needle@);
            }
            return true;
        }
        at += 1;
    }
    let found = occurs_at(cs, at, needle);
    proof {
        assert(hay.subrange(at - from, at - from + needle@.len()) =~= cs@.subrange(at as int, at + needle@.len()));
        if !found && contains_text(hay, needle@) {
            let i = choose|i: int| 0 <= i && i + needle@.len() <= hay.len() && #[trigger] hay.subrange(i, i + needle@.len()) == needle@;
            assert(i <= at - from);
        }
    }
    found
}

} // verus!

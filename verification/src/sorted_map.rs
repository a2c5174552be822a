//! Maps keyed by text, held as vectors of pairs in ascending key order, the
//! way a `BTreeMap` holds and walks them.
use vstd::prelude::*;
use crate::order::{lex_lt, lemma_lex_asymmetric, lemma_lex_transitive, lemma_lex_total, chars_lt};
use crate::text::chars_of;

verus! {

/// Keys ascend strictly in the given order.
pub open spec fn ascending<V>(v: Seq<(String, V)>, path_order: bool) -> bool {
    forall|i: int, j: int|
        0 <= i < j < v.len() ==> lex_lt(#[trigger] v[i].0@, #[trigger] v[j].0@, path_order)
}

/// Some pair has key `k`.
pub open spec fn has_key<V>(v: Seq<(String, V)>, k: Seq<char>) -> bool {
    exists|i: int| 0 <= i < v.len() && #[trigger] v[i].0@ == k
}

/// The position of the pair with key `k`.
pub open spec fn key_index<V>(v: Seq<(String, V)>, k: Seq<char>) -> int {
    choose|i: int| 0 <= i < v.len() && #[trigger] v[i].0@ == k
}

/// The map that the pairs stand for.
pub open spec fn as_map<V>(v: Seq<(String, V)>) -> Map<Seq<char>, V> {
    Map::new(|k: Seq<char>| has_key(v, k), |k: Seq<char>| v[key_index(v, k)].1)
}

/// The values in key order.
pub open spec fn values_of<V>(v: Seq<(String, V)>) -> Seq<V> {
    v.map_values(|p: (String, V)| p.1)
}

/// In an ascending vector a key occurs once, so the map gives each pair's value.
pub proof fn lemma_as_map_index<V>(v: Seq<(String, V)>, p: bool, i: int)
    requires
        ascending(v, p),
        0 <= i < v.len(),
    ensures
        has_key(v, v[i].0@),
        key_index(v, v[i].0@) == i,
        as_map(v).dom().contains(v[i].0@),
        as_map(v)[v[i].0@] == v[i].1,
{
    assert(v[i].0@ == v[i].0@);
    let j = key_index(v, v[i].0@);
    if j != i {
        if j < i {
            assert(lex_lt(v[j].0@, v[i].0@, p));
        } else {
            assert(lex_lt(v[i].0@, v[j].0@, p));
        }
        lemma_lex_asymmetric(v[i].0@, v[i].0@, p);
    }
}

/// Where `key` is or would go: `Ok(i)` when `v[i]` has it, `Err(i)` when all
/// keys before `i` are smaller and all from `i` on are larger.
pub fn find<V>(v: &Vec<(String, V)>, key: &str, path_order: bool) -> (r: Result<usize, usize>)
    requires
        ascending(v@, path_order),
    ensures
        r matches Ok(i) ==> i < v@.len() && v@[i as int].0@ == key@,
        r matches Err(i) ==> i <= v@.len() && (forall|j: int| 0 <= j < i ==> lex_lt(#[trigger] v@[j].0@, key@, path_order))
            && (forall|j: int| i <= j < v@.len() ==> lex_lt(key@, #[trigger] v@[j].0@, path_order)),
        r is Err ==> !has_key(v@, key@),
{
    let kc = chars_of(key);
    let mut i: usize = 0;
    while i < v.len()
        invariant
            i <= v@.len(),
            kc@ == key@,
            ascending(v@, path_order),
            forall|j: int| 0 <= j < i ==> lex_lt(#[trigger] v@[j].0@, key@, path_order),
        decreases v@.len() - i,
    {
        let vc = chars_of(v[i].0.as_str());
        if chars_lt(vc.as_slice(), kc.as_slice(), path_order) {
            i += 1;
        } else {
            proof {
                lemma_lex_total(v@[i as int].0@, key@, path_order);
            }
            if !chars_lt(kc.as_slice(), vc.as_slice(), path_order) {
                return Ok(i);
            }
            proof {
                assert forall|j: int| i <= j < v@.len() implies lex_lt(key@, #[trigger] v@[j].0@, path_order) by {
                    if j > i {
                        lemma_lex_transitive(key@, v@[i as int].0@, v@[j].0@, path_order);
                    }
                }
                if has_key(v@, key@) {
                    let j = choose|j: int| 0 <= j < v@.len() && #[trigger] v@[j].0@ == key@;
                    if j < i {
                        lemma_lex_asymmetric(key@, key@, path_order);
                    } else {
                        lemma_lex_asymmetric(key@, key@, path_order);
                    }
                }
            }
            return Err(i);
        }
    }
    proof {
        if has_key(v@, key@) {
            let j = choose|j: int| 0 <= j < v@.len() && #[trigger] v@[j].0@ == key@;
            lemma_lex_asymmetric(key@, key@, path_order);
        }
    }
    Err(i)
}

/// Sets the value of `key`, adding the key in its place when it is new.
pub fn insert<V>(v: &mut Vec<(String, V)>, key: String, value: V, path_order: bool)
    requires
        ascending(old(v)@, path_order),
    ensures
        ascending(final(v)@, path_order),
        as_map(final(v)@) == as_map(old(v)@).insert(key@, value),
{
    let ghost k = key@;
    match find(v, key.as_str(), path_order) {
        Ok(i) => {
            let ghost before = v@;
            v.set(i, (key, value));
            proof {
                assert(v@ == before.update(i as int, (key, value)));
                assert(ascending(v@, path_order)) by {
                    assert forall|a: int, b: int| 0 <= a < b < v@.len() implies lex_lt(#[trigger] v@[a].0@, #[trigger] v@[b].0@, path_order) by {
                        assert(v@[a].0@ == before[a].0@);
                        assert(v@[b].0@ == before[b].0@);
                    }
                }
                lemma_map_after_update(before, v@, i as int, path_order);
            }
        },
        Err(i) => {
            let ghost before = v@;
            v.insert(i, (key, value));
            proof {
                assert(v@ == before.insert(i as int, (key, value)));
                assert(ascending(v@, path_order)) by {
                    assert forall|a: int, b: int| 0 <= a < b < v@.len() implies lex_lt(#[trigger] v@[a].0@, #[trigger] v@[b].0@, path_order) by {
                        if b < i {
                            assert(v@[a] == before[a] && v@[b] == before[b]);
                        } else if b == i {
                            assert(v@[a] == before[a]);
                        } else if a == i {
                            assert(v@[b] == before[b - 1]);
                        } else if a < i {
                            assert(v@[a] == before[a] && v@[b] == before[b - 1]);
                        } else {
                            assert(v@[a] == before[a - 1] && v@[b] == before[b - 1]);
                        }
                    }
                }
                lemma_map_after_insert(before, v@, i as int, path_order);
            }
        },
    }
}

pub proof fn lemma_map_after_update<V>(before: Seq<(String, V)>, after: Seq<(String, V)>, i: int, p: bool)
    requires
        ascending(before, p),
        ascending(after, p),
        0 <= i < before.len(),
        after.len() == before.len(),
        after[i].0@ == before[i].0@,
        forall|j: int| 0 <= j < before.len() && j != i ==> after[j] == before[j],
    ensures
        as_map(after) == as_map(before).insert(after[i].0@, after[i].1),
{
    let k = after[i].0@;
    assert forall|x: Seq<char>| has_key(after, x) <==> has_key(before, x) by {
        if has_key(after, x) {
            let j = choose|j: int| 0 <= j < after.len() && #[trigger] after[j].0@ == x;
            if j == i {
                assert(before[i].0@ == x);
            } else {
                assert(before[j].0@ == x);
            }
        }
        if has_key(before, x) {
            let j = choose|j: int| 0 <= j < before.len() && #[trigger] before[j].0@ == x;
            if j == i {
                assert(after[i].0@ == x);
            } else {
                assert(after[j].0@ == x);
            }
        }
    }
    assert forall|x: Seq<char>| #[trigger] as_map(after).dom().contains(x) implies as_map(after)[x] == as_map(before).insert(k, after[i].1)[x] by {
        let j = choose|j: int| 0 <= j < after.len() && #[trigger] after[j].0@ == x;
        lemma_as_map_index(after, p, j);
        if j != i {
            assert(before[j].0@ == x);
            lemma_as_map_index(before, p, j);
            lemma_as_map_index(after, p, i);
        }
    }
    assert(as_map(after).dom() =~= as_map(before).insert(k, after[i].1).dom()) by {
        assert(before[i].0@ == k);
        lemma_as_map_index(before, p, i);
    }
    assert(as_map(after) =~= as_map(before).insert(k, after[i].1));
}

proof fn lemma_map_after_insert<V>(before: Seq<(String, V)>, after: Seq<(String, V)>, i: int, p: bool)
    requires
        ascending(before, p),
        ascending(after, p),
        0 <= i <= before.len(),
        after == before.insert(i, after[i]),
    ensures
        as_map(after) == as_map(before).insert(after[i].0@, after[i].1),
{
    let k = after[i].0@;
    assert forall|x: Seq<char>| has_key(after, x) <==> (has_key(before, x) || x == k) by {
        if has_key(after, x) {
            let j = choose|j: int| 0 <= j < after.len() && #[trigger] after[j].0@ == x;
            if j < i {
                assert(before[j].0@ == x);
            } else if j > i {
                assert(before[j - 1].0@ == x);
            }
        }
        if has_key(before, x) {
            let j = choose|j: int| 0 <= j < before.len() && #[trigger] before[j].0@ == x;
            if j < i {
                assert(after[j].0@ == x);
            } else {
                assert(after[j + 1].0@ == x);
            }
        }
        if x == k {
            assert(after[i].0@ == x);
        }
    }
    assert forall|x: Seq<char>| #[trigger] as_map(after).dom().contains(x) implies as_map(after)[x] == as_map(before).insert(k, after[i].1)[x] by {
        let j = choose|j: int| 0 <= j < after.len() && #[trigger] after[j].0@ == x;
        lemma_as_map_index(after, p, j);
        lemma_as_map_index(after, p, i);
        if j < i {
            assert(before[j] == after[j]);
            lemma_as_map_index(before, p, j);
        } else if j > i {
            assert(before[j - 1] == after[j]);
            lemma_as_map_index(before, p, j - 1);
        }
    }
    assert(as_map(after).dom() =~= as_map(before).insert(k, after[i].1).dom());
    assert(as_map(after) =~= as_map(before).insert(k, after[i].1));
}

/// Adding a pair at its place adds it to the map.
pub proof fn lemma_map_after_insert_pub<V>(
    before: Seq<(String, V)>,
    after: Seq<(String, V)>,
    i: int,
    p: bool,
)
    requires
        ascending(before, p),
        ascending(after, p),
        0 <= i <= before.len(),
        after == before.insert(i, after[i]),
    ensures
        as_map(after) == as_map(before).insert(after[i].0@, after[i].1),
{
    lemma_map_after_insert(before, after, i, p);
}

/// An ascending vector has one pair per key of its map, and the map is finite.
pub proof fn lemma_ascending_len<V>(v: Seq<(String, V)>, p: bool)
    requires
        ascending(v, p),
    ensures
        as_map(v).dom().finite(),
        v.len() == as_map(v).dom().len(),
    decreases v.len(),
{
    if v.len() == 0 {
        assert(as_map(v).dom() =~= Set::<Seq<char>>::empty());
    } else {
        let u = v.drop_last();
        assert(ascending(u, p)) by {
            assert forall|a: int, b: int| 0 <= a < b < u.len() implies lex_lt(#[trigger] u[a].0@, #[trigger] u[b].0@, p) by {
                assert(u[a] == v[a] && u[b] == v[b]);
            }
        }
        lemma_ascending_len(u, p);
        assert(v == u.insert(u.len() as int, v.last()));
        lemma_map_after_insert(u, v, u.len() as int, p);
        assert(!has_key(u, v.last().0@)) by {
            if has_key(u, v.last().0@) {
                let j = choose|j: int| 0 <= j < u.len() && #[trigger] u[j].0@ == v.last().0@;
                assert(lex_lt(v[j].0@, v[v.len() - 1].0@, p));
                lemma_lex_asymmetric(v.last().0@, v.last().0@, p);
            }
        }
        assert(!as_map(u).dom().contains(v.last().0@));
        assert(as_map(v).dom() =~= as_map(u).dom().insert(v.last().0@));
    }
}

/// Removes `key` and returns its value, if present.
pub fn remove<V>(v: &mut Vec<(String, V)>, key: &str, path_order: bool) -> (r: Option<V>)
    requires
        ascending(old(v)@, path_order),
    ensures
        ascending(final(v)@, path_order),
        as_map(final(v)@) == as_map(old(v)@).remove(key@),
        r is Some <==> as_map(old(v)@).dom().contains(key@),
        r matches Some(x) ==> x == as_map(old(v)@)[key@],
{
    match find(v, key, path_order) {
        Ok(i) => {
            let ghost before = v@;
            proof {
                lemma_as_map_index(before, path_order, i as int);
            }
            let (_, value) = v.remove(i);
            proof {
                assert(v@ == before.remove(i as int));
                assert(ascending(v@, path_order)) by {
                    assert forall|a: int, b: int| 0 <= a < b < v@.len() implies lex_lt(#[trigger] v@[a].0@, #[trigger] v@[b].0@, path_order) by {
                        if b < i {
                            assert(v@[a] == before[a] && v@[b] == before[b]);
                        } else if a < i {
                            assert(v@[a] == before[a] && v@[b] == before[b + 1]);
                        } else {
                            assert(v@[a] == before[a + 1] && v@[b] == before[b + 1]);
                        }
                    }
                }
                assert(before == v@.insert(i as int, before[i as int]));
                lemma_map_after_insert(v@, before, i as int, path_order);
                assert(!has_key(v@, key@)) by {
                    if has_key(v@, key@) {
                        let j = choose|j: int| 0 <= j < v@.len() && #[trigger] v@[j].0@ == key@;
                        if j < i {
                            assert(before[j].0@ == key@);
                            assert(lex_lt(before[j].0@, before[i as int].0@, path_order));
                        } else {
                            assert(before[j + 1].0@ == key@);
                            assert(lex_lt(before[i as int].0@, before[j + 1].0@, path_order));
                        }
                        lemma_lex_asymmetric(key@, key@, path_order);
                    }
                }
                assert(!as_map(v@).dom().contains(key@));
                assert(as_map(v@) =~= as_map(before).remove(key@));
            }
            Some(value)
        },
        Err(_) => {
            proof {
                assert(as_map(v@) =~= as_map(v@).remove(key@));
            }
            None
        },
    }
}

/// The keys in order.
pub fn keys<V>(v: &Vec<(String, V)>) -> (r: Vec<String>)
    ensures
        crate::text::views(r@) == v@.map_values(|e: (String, V)| e.0@),
{
    let mut r: Vec<String> = Vec::new();
    let mut i: usize = 0;
    while i < v.len()
        invariant
            i <= v@.len(),
            crate::text::views(r@) == v@.take(i as int).map_values(|e: (String, V)| e.0@),
        decreases v@.len() - i,
    {
        let ghost before = r@;
        r.push(v[i].0.clone());
        proof {
            crate::text::lemma_views_push(before, r@[before.len() as int]);
            assert(v@.take(i + 1) == v@.take(i as int).push(v@[i as int]));
            v@.take(i as int).lemma_push_map_commute(|e: (String, V)| e.0@, v@[i as int]);
        }
        i += 1;
    }
    proof {
        assert(v@.take(v@.len() as int) == v@);
    }
    r
}

/// The keys of the map are the keys of the pairs.
pub proof fn lemma_keys_dom<V>(v: Seq<(String, V)>, k: Seq<char>)
    ensures
        as_map(v).dom().contains(k) <==> v.map_values(|e: (String, V)| e.0@).contains(k),
{
    let ks = v.map_values(|e: (String, V)| e.0@);
    if has_key(v, k) {
        let j = choose|j: int| 0 <= j < v.len() && #[trigger] v[j].0@ == k;
        assert(ks[j] == k);
    }
    if ks.contains(k) {
        let j = choose|j: int| 0 <= j < ks.len() && ks[j] == k;
        assert(v[j].0@ == k);
    }
}

} // verus!

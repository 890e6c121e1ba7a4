//! Association lists keyed by name: the named fields of an entry and the
//! custom data of a node. Looked up by the first pair with a given name, and
//! seen as the map from each name to that first value.

use vstd::prelude::*;
use crate::value::Structured;

verus! {

/// The pairs, each seen through its views.
pub open spec fn pairs_view<V: View>(s: Seq<(String, V)>) -> Seq<(Seq<char>, V::V)> {
    Seq::new(s.len(), |i: int| (s[i].0@, s[i].1@))
}

/// The value of the first pair named `k`.
pub open spec fn assoc<W>(ps: Seq<(Seq<char>, W)>, k: Seq<char>) -> Option<W>
    decreases ps.len(),
{
    if ps.len() == 0 {
        None
    } else if ps[0].0 == k {
        Some(ps[0].1)
    } else {
        assoc(ps.drop_first(), k)
    }
}

/// The map from each name to the value of its first pair.
pub open spec fn keyed_map<V: View>(s: Seq<(String, V)>) -> Map<Seq<char>, V::V> {
    Map::new(
        |k: Seq<char>| assoc(pairs_view(s), k).is_some(),
        |k: Seq<char>| assoc(pairs_view(s), k).unwrap(),
    )
}

pub proof fn lemma_assoc_first<W>(ps: Seq<(Seq<char>, W)>, k: Seq<char>, i: int)
    requires
        0 <= i < ps.len(),
        ps[i].0 == k,
        forall|j: int| 0 <= j < i ==> ps[j].0 != k,
    ensures
        assoc(ps, k) == Some(ps[i].1),
    decreases i,
{
    if i > 0 {
        lemma_assoc_first(ps.drop_first(), k, i - 1);
    }
}

pub proof fn lemma_assoc_none<W>(ps: Seq<(Seq<char>, W)>, k: Seq<char>)
    requires
        forall|j: int| 0 <= j < ps.len() ==> ps[j].0 != k,
    ensures
        assoc(ps, k).is_none(),
    decreases ps.len(),
{
    if ps.len() > 0 {
        lemma_assoc_none(ps.drop_first(), k);
    }
}

pub proof fn lemma_assoc_some_index<W>(ps: Seq<(Seq<char>, W)>, k: Seq<char>)
    requires
        assoc(ps, k).is_some(),
    ensures
        exists|i: int| 0 <= i < ps.len() && ps[i].0 == k,
    decreases ps.len(),
{
    if ps[0].0 != k {
        lemma_assoc_some_index(ps.drop_first(), k);
        let i = choose|i: int| 0 <= i < ps.drop_first().len() && ps.drop_first()[i].0 == k;
        assert(ps[i + 1].0 == k);
    }
}

/// The index of the first pair named `k`.
pub fn find_key<V: View>(s: &Vec<(String, V)>, k: &String) -> (r: Option<usize>)
    ensures
        r.is_none() ==> assoc(pairs_view(s@), k@).is_none(),
        r.is_some() ==> r.unwrap() < s@.len() && s@[r.unwrap() as int].0@ == k@
            && assoc(pairs_view(s@), k@) == Some(s@[r.unwrap() as int].1@)
            && forall|j: int| 0 <= j < r.unwrap() ==> s@[j].0@ != k@,
{
    let mut i: usize = 0;
    while i < s.len()
        invariant
            0 <= i <= s@.len(),
            forall|j: int| 0 <= j < i ==> s@[j].0@ != k@,
        decreases s.len() - i,
    {
        if s[i].0 == *k {
            proof { lemma_assoc_first(pairs_view(s@), k@, i as int); }
            return Some(i);
        }
        i += 1;
    }
    proof { lemma_assoc_none(pairs_view(s@), k@); }
    None
}

/// Whether both lists give every name the same value.
pub fn keyed_equal<V: Structured>(a: &Vec<(String, V)>, b: &Vec<(String, V)>) -> (r: bool)
    ensures
        r == (keyed_map(a@) == keyed_map(b@)),
{
    let mut i: usize = 0;
    while i < a.len()
        invariant
            0 <= i <= a@.len(),
            forall|j: int| 0 <= j < i ==> assoc(pairs_view(a@), #[trigger] a@[j].0@) == assoc(pairs_view(b@), a@[j].0@),
        decreases a.len() - i,
    {
        if !same_at(a, b, &a[i].0) {
            assert(keyed_map(a@) != keyed_map(b@)) by {
                let k = a@[i as int].0@;
                lemma_assoc_first_some(a@, i as int);
                if keyed_map(b@).dom().contains(k) {
                    assert(keyed_map(a@)[k] != keyed_map(b@)[k]);
                } else {
                    assert(!keyed_map(b@).dom().contains(k));
                }
            }
            return false;
        }
        i += 1;
    }
    let mut i: usize = 0;
    while i < b.len()
        invariant
            0 <= i <= b@.len(),
            forall|j: int| 0 <= j < a@.len() ==> assoc(pairs_view(a@), #[trigger] a@[j].0@) == assoc(pairs_view(b@), a@[j].0@),
            forall|j: int| 0 <= j < i ==> assoc(pairs_view(a@), #[trigger] b@[j].0@) == assoc(pairs_view(b@), b@[j].0@),
        decreases b.len() - i,
    {
        if !same_at(a, b, &b[i].0) {
            assert(keyed_map(a@) != keyed_map(b@)) by {
                let k = b@[i as int].0@;
                lemma_assoc_first_some(b@, i as int);
                if keyed_map(a@).dom().contains(k) {
                    assert(keyed_map(a@)[k] != keyed_map(b@)[k]);
                } else {
                    assert(!keyed_map(a@).dom().contains(k));
                }
            }
            return false;
        }
        i += 1;
    }
    assert(keyed_map(a@) =~= keyed_map(b@)) by {
        assert forall|k: Seq<char>| #[trigger] assoc(pairs_view(a@), k) == assoc(pairs_view(b@), k) by {
            if assoc(pairs_view(a@), k).is_some() {
                lemma_assoc_some_index(pairs_view(a@), k);
                let j = choose|j: int| 0 <= j < pairs_view(a@).len() && pairs_view(a@)[j].0 == k;
                assert(a@[j].0@ == k);
            } else if assoc(pairs_view(b@), k).is_some() {
                lemma_assoc_some_index(pairs_view(b@), k);
                let j = choose|j: int| 0 <= j < pairs_view(b@).len() && pairs_view(b@)[j].0 == k;
                assert(b@[j].0@ == k);
            }
        }
    }
    true
}

proof fn lemma_assoc_first_some<V: View>(s: Seq<(String, V)>, i: int)
    requires
        0 <= i < s.len(),
    ensures
        assoc(pairs_view(s), s[i].0@).is_some(),
{
    assert(pairs_view(s)[i].0 == s[i].0@);
    if assoc(pairs_view(s), s[i].0@).is_none() {
        lemma_assoc_none_all(pairs_view(s), s[i].0@);
    }
}

proof fn lemma_assoc_none_all<W>(ps: Seq<(Seq<char>, W)>, k: Seq<char>)
    requires
        assoc(ps, k).is_none(),
    ensures
        forall|j: int| 0 <= j < ps.len() ==> ps[j].0 != k,
    decreases ps.len(),
{
    if ps.len() > 0 {
        lemma_assoc_none_all(ps.drop_first(), k);
        assert forall|j: int| 0 <= j < ps.len() implies ps[j].0 != k by {
            if j > 0 {
                assert(ps[j] == ps.drop_first()[j - 1]);
            }
        }
    }
}

/// Whether the first pairs named `k` in both lists agree (or neither has one).
fn same_at<V: Structured>(a: &Vec<(String, V)>, b: &Vec<(String, V)>, k: &String) -> (r: bool)
    ensures
        r == (assoc(pairs_view(a@), k@) == assoc(pairs_view(b@), k@)),
{
    let ia = find_key(a, k);
    let ib = find_key(b, k);
    match ia {
        None => ib.is_none(),
        Some(x) => match ib {
            None => false,
            Some(y) => a[x].1.same_as(&b[y].1),
        },
    }
}

/// An independent copy of the list, pair by pair.
pub fn keyed_copy<V: Structured>(a: &Vec<(String, V)>) -> (r: Vec<(String, V)>)
    ensures
        pairs_view(r@) == pairs_view(a@),
{
    let mut r: Vec<(String, V)> = Vec::new();
    let mut i: usize = 0;
    while i < a.len()
        invariant
            0 <= i <= a@.len(),
            r@.len() == i,
            forall|j: int| 0 <= j < i ==> r@[j].0@ == a@[j].0@ && r@[j].1@ == a@[j].1@,
        decreases a.len() - i,
    {
        let k = a[i].0.clone();
        let v = a[i].1.duplicate();
        r.push((k, v));
        i += 1;
    }
    assert(pairs_view(r@) =~= pairs_view(a@));
    r
}

/// Sets the value named `k`: the first pair with that name takes `v`, or
/// a new pair is added at the end.
pub fn keyed_set<V: View>(s: &mut Vec<(String, V)>, k: String, v: V)
    ensures
        keyed_map(final(s)@) == keyed_map(old(s)@).insert(k@, v@),
{
    let ghost kv = k@;
    let ghost vv = v@;
    match find_key(s, &k) {
        Some(i) => {
            let ghost before = s@;
            s.set(i, (k, v));
            assert(keyed_map(s@) =~= keyed_map(before).insert(kv, vv)) by {
                assert forall|key: Seq<char>| #[trigger] assoc(pairs_view(s@), key) == (if key == kv { Some(vv) } else { assoc(pairs_view(before), key) }) by {
                    lemma_assoc_set(pairs_view(before), pairs_view(s@), i as int, key);
                }
            }
        },
        None => {
            let ghost before = s@;
            s.push((k, v));
            assert(keyed_map(s@) =~= keyed_map(before).insert(kv, vv)) by {
                assert forall|key: Seq<char>| #[trigger] assoc(pairs_view(s@), key) == (if key == kv { Some(vv) } else { assoc(pairs_view(before), key) }) by {
                    assert(pairs_view(s@) =~= pairs_view(before).push((kv, vv)));
                    lemma_assoc_push(pairs_view(before), (kv, vv), key);
                }
            }
        },
    }
}

proof fn lemma_assoc_set<W>(ps: Seq<(Seq<char>, W)>, qs: Seq<(Seq<char>, W)>, i: int, key: Seq<char>)
    requires
        0 <= i < ps.len(),
        qs.len() == ps.len(),
        qs[i].0 == ps[i].0,
        forall|j: int| 0 <= j < ps.len() && j != i ==> qs[j] == ps[j],
        forall|j: int| 0 <= j < i ==> ps[j].0 != ps[i].0,
    ensures
        assoc(qs, key) == (if key == ps[i].0 { Some(qs[i].1) } else { assoc(ps, key) }),
    decreases ps.len(),
{
    if ps[0].0 == key {
    } else if i == 0 {
        assert(ps.drop_first() =~= qs.drop_first());
    } else {
        if ps[0].0 != ps[i].0 {
            lemma_assoc_set(ps.drop_first(), qs.drop_first(), i - 1, key);
        }
    }
}

proof fn lemma_assoc_push<W>(ps: Seq<(Seq<char>, W)>, p: (Seq<char>, W), key: Seq<char>)
    ensures
        assoc(ps.push(p), key) == (if assoc(ps, key).is_some() { assoc(ps, key) } else if p.0 == key { Some(p.1) } else { None }),
    decreases ps.len(),
{
    if ps.len() > 0 {
        assert(ps.push(p).drop_first() =~= ps.drop_first().push(p));
        assert(ps.push(p)[0] == ps[0]);
        lemma_assoc_push(ps.drop_first(), p, key);
    } else {
        assert(ps.push(p).drop_first().len() == 0);
        assert(ps.push(p)[0] == p);
        assert(assoc(ps.push(p).drop_first(), key).is_none());
    }
}

/// Removes every pair named `k`.
pub fn keyed_remove<V: View>(s: &mut Vec<(String, V)>, k: &String)
    ensures
        keyed_map(final(s)@) == keyed_map(old(s)@).remove(k@),
{
    let ghost before = s@;
    let mut i: usize = 0;
    while i < s.len()
        invariant
            0 <= i <= s@.len(),
            forall|j: int| 0 <= j < i ==> s@[j].0@ != k@,
            forall|key: Seq<char>| key != k@ ==> #[trigger] assoc(pairs_view(s@), key) == assoc(pairs_view(before), key),
        decreases s.len() - i,
    {
        if s[i].0 == *k {
            let ghost prev = s@;
            s.remove(i);
            proof {
                assert(pairs_view(s@) =~= pairs_view(prev).remove(i as int));
                assert forall|key: Seq<char>| key != k@ implies #[trigger] assoc(pairs_view(s@), key) == assoc(pairs_view(before), key) by {
                    lemma_assoc_remove(pairs_view(prev), i as int, key);
                }
            }
        } else {
            i += 1;
        }
    }
    proof {
        assert(forall|j: int| 0 <= j < pairs_view(s@).len() ==> pairs_view(s@)[j].0 != k@);
        lemma_assoc_none(pairs_view(s@), k@);
    }
    assert(keyed_map(s@) =~= keyed_map(before).remove(k@));
}

proof fn lemma_assoc_remove<W>(ps: Seq<(Seq<char>, W)>, i: int, key: Seq<char>)
    requires
        0 <= i < ps.len(),
        ps[i].0 != key,
    ensures
        assoc(ps.remove(i), key) == assoc(ps, key),
    decreases ps.len(),
{
    if i > 0 && ps[0].0 != key {
        assert(ps.remove(i).drop_first() =~= ps.drop_first().remove(i - 1));
        lemma_assoc_remove(ps.drop_first(), i - 1, key);
    } else if i == 0 {
        assert(ps.remove(0) =~= ps.drop_first());
    }
}

} // verus!

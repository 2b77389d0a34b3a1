//! Entity-keyed association lists.
//!
//! The state store and the hover snapshots are maps whose iteration order
//! decides the order of emitted events, so they are kept as vectors of
//! key/value pairs: lookup and update go to the first occurrence of a key,
//! insertion of a fresh key appends. The spec functions below are the
//! mathematical reading of those operations, and the lemmas connect them
//! to the index-level shape the executable code produces.

use vstd::prelude::*;
use crate::pointer::Entity;

verus! {

/// First-match lookup.
pub open spec fn al_get<V>(s: Seq<(Entity, V)>, k: Entity) -> Option<V>
    decreases s.len(),
{
    if s.len() == 0 {
        None
    } else if s[0].0 == k {
        Some(s[0].1)
    } else {
        al_get(s.drop_first(), k)
    }
}

pub open spec fn al_contains<V>(s: Seq<(Entity, V)>, k: Entity) -> bool {
    al_get(s, k) is Some
}

/// Overwrite the first occurrence of `k`, or append `(k, v)` if absent.
pub open spec fn al_insert<V>(s: Seq<(Entity, V)>, k: Entity, v: V) -> Seq<(Entity, V)>
    decreases s.len(),
{
    if s.len() == 0 {
        seq![(k, v)]
    } else if s[0].0 == k {
        seq![(k, v)] + s.drop_first()
    } else {
        seq![s[0]] + al_insert(s.drop_first(), k, v)
    }
}

/// Remove the first occurrence of `k`, if any.
pub open spec fn al_remove<V>(s: Seq<(Entity, V)>, k: Entity) -> Seq<(Entity, V)>
    decreases s.len(),
{
    if s.len() == 0 {
        s
    } else if s[0].0 == k {
        s.drop_first()
    } else {
        seq![s[0]] + al_remove(s.drop_first(), k)
    }
}

/// Some entry carries key `e` (the index form of `al_contains`).
pub open spec fn has_key<V>(s: Seq<(Entity, V)>, e: Entity) -> bool {
    exists|i: int| 0 <= i < s.len() && (#[trigger] s[i]).0 == e
}

/// `i` is the index of the first occurrence of `k` in `s`.
pub open spec fn first_match<V>(s: Seq<(Entity, V)>, k: Entity, i: int) -> bool {
    &&& 0 <= i < s.len()
    &&& s[i].0 == k
    &&& forall|j: int| 0 <= j < i ==> s[j].0 != k
}

pub open spec fn no_match<V>(s: Seq<(Entity, V)>, k: Entity) -> bool {
    forall|j: int| 0 <= j < s.len() ==> s[j].0 != k
}

pub proof fn lemma_al_get_first_match<V>(s: Seq<(Entity, V)>, k: Entity, i: int)
    requires
        first_match(s, k, i),
    ensures
        al_get(s, k) == Some(s[i].1),
    decreases i,
{
    if i == 0 {
    } else {
        assert(first_match(s.drop_first(), k, i - 1));
        lemma_al_get_first_match(s.drop_first(), k, i - 1);
    }
}

pub proof fn lemma_al_get_no_match<V>(s: Seq<(Entity, V)>, k: Entity)
    requires
        no_match(s, k),
    ensures
        al_get(s, k) is None,
    decreases s.len(),
{
    if s.len() > 0 {
        assert(no_match(s.drop_first(), k));
        lemma_al_get_no_match(s.drop_first(), k);
    }
}

pub proof fn lemma_al_insert_first_match<V>(s: Seq<(Entity, V)>, k: Entity, v: V, i: int)
    requires
        first_match(s, k, i),
    ensures
        al_insert(s, k, v) =~= s.update(i, (k, v)),
    decreases i,
{
    if i == 0 {
    } else {
        assert(first_match(s.drop_first(), k, i - 1));
        lemma_al_insert_first_match(s.drop_first(), k, v, i - 1);
    }
}

pub proof fn lemma_al_insert_no_match<V>(s: Seq<(Entity, V)>, k: Entity, v: V)
    requires
        no_match(s, k),
    ensures
        al_insert(s, k, v) =~= s.push((k, v)),
    decreases s.len(),
{
    if s.len() > 0 {
        assert(no_match(s.drop_first(), k));
        lemma_al_insert_no_match(s.drop_first(), k, v);
    }
}

pub proof fn lemma_al_remove_first_match<V>(s: Seq<(Entity, V)>, k: Entity, i: int)
    requires
        first_match(s, k, i),
    ensures
        al_remove(s, k) =~= s.remove(i),
    decreases i,
{
    if i == 0 {
    } else {
        assert(first_match(s.drop_first(), k, i - 1));
        lemma_al_remove_first_match(s.drop_first(), k, i - 1);
    }
}

pub proof fn lemma_al_remove_no_match<V>(s: Seq<(Entity, V)>, k: Entity)
    requires
        no_match(s, k),
    ensures
        al_remove(s, k) =~= s,
    decreases s.len(),
{
    if s.len() > 0 {
        assert(no_match(s.drop_first(), k));
        lemma_al_remove_no_match(s.drop_first(), k);
    }
}

/// Lookup after insertion of the same key.
pub proof fn lemma_al_get_insert_same<V>(s: Seq<(Entity, V)>, k: Entity, v: V)
    ensures
        al_get(al_insert(s, k, v), k) == Some(v),
    decreases s.len(),
{
    if s.len() == 0 {
    } else if s[0].0 == k {
        assert(al_insert(s, k, v)[0] == (k, v));
    } else {
        lemma_al_get_insert_same(s.drop_first(), k, v);
        assert(al_insert(s, k, v).drop_first() =~= al_insert(s.drop_first(), k, v));
    }
}

/// Lookup of another key is unchanged by insertion.
pub proof fn lemma_al_get_insert_other<V>(s: Seq<(Entity, V)>, k: Entity, v: V, k2: Entity)
    requires
        k2 != k,
    ensures
        al_get(al_insert(s, k, v), k2) == al_get(s, k2),
    decreases s.len(),
{
    let r = al_insert(s, k, v);
    if s.len() == 0 {
        assert(r =~= seq![(k, v)]);
        assert(r[0].0 == k);
        assert(r.drop_first() =~= Seq::<(Entity, V)>::empty());
        assert(al_get(r, k2) == al_get(r.drop_first(), k2));
        assert(al_get(r.drop_first(), k2) is None);
    } else if s[0].0 == k {
        assert(r =~= seq![(k, v)] + s.drop_first());
        assert(r[0].0 == k);
        assert(r.drop_first() =~= s.drop_first());
        assert(al_get(r, k2) == al_get(s.drop_first(), k2));
        assert(al_get(s, k2) == al_get(s.drop_first(), k2));
    } else {
        lemma_al_get_insert_other(s.drop_first(), k, v, k2);
        assert(r =~= seq![s[0]] + al_insert(s.drop_first(), k, v));
        assert(r.len() > 0 && r[0] == s[0]);
        assert(r.drop_first() =~= al_insert(s.drop_first(), k, v));
        if s[0].0 == k2 {
            assert(al_get(r, k2) == Some(s[0].1));
        } else {
            assert(al_get(r, k2) == al_get(al_insert(s.drop_first(), k, v), k2));
            assert(al_get(s, k2) == al_get(s.drop_first(), k2));
        }
    }
}

/// Every entry of an insertion result is an old entry or the new pair.
pub proof fn lemma_al_insert_entries<V>(s: Seq<(Entity, V)>, k: Entity, v: V)
    ensures
        forall|j: int|
            0 <= j < al_insert(s, k, v).len() ==> (al_insert(s, k, v)[j] == (k, v) || exists|i: int|
                0 <= i < s.len() && s[i] == #[trigger] al_insert(s, k, v)[j]),
    decreases s.len(),
{
    if s.len() == 0 {
    } else if s[0].0 == k {
        assert forall|j: int| 0 <= j < al_insert(s, k, v).len() implies (al_insert(s, k, v)[j] == (
        k,
        v,
        ) || exists|i: int| 0 <= i < s.len() && s[i] == #[trigger] al_insert(s, k, v)[j]) by {
            if j > 0 {
                assert(al_insert(s, k, v)[j] == s[j]);
            }
        }
    } else {
        lemma_al_insert_entries(s.drop_first(), k, v);
        let r = al_insert(s, k, v);
        assert forall|j: int| 0 <= j < r.len() implies (r[j] == (k, v) || exists|i: int|
            0 <= i < s.len() && s[i] == #[trigger] r[j]) by {
            if j == 0 {
                assert(r[0] == s[0]);
                assert(s[0] == r[j]);
            } else {
                assert(r[j] == al_insert(s.drop_first(), k, v)[j - 1]);
                if al_insert(s.drop_first(), k, v)[j - 1] != (k, v) {
                    let i = choose|i: int|
                        0 <= i < s.drop_first().len() && s.drop_first()[i] == al_insert(
                            s.drop_first(),
                            k,
                            v,
                        )[j - 1];
                    assert(s[i + 1] == r[j]);
                }
            }
        }
    }
}

/// A successful lookup returns the value of some entry.
pub proof fn lemma_al_get_entry<V>(s: Seq<(Entity, V)>, k: Entity)
    requires
        al_get(s, k) is Some,
    ensures
        exists|i: int| 0 <= i < s.len() && #[trigger] s[i] == (k, al_get(s, k).unwrap()),
    decreases s.len(),
{
    if s.len() == 0 {
    } else if s[0].0 == k {
        assert(s[0] == (k, al_get(s, k).unwrap()));
    } else {
        lemma_al_get_entry(s.drop_first(), k);
        let i = choose|i: int|
            0 <= i < s.drop_first().len() && #[trigger] s.drop_first()[i] == (
                k,
                al_get(s.drop_first(), k).unwrap(),
            );
        assert(s[i + 1] == (k, al_get(s, k).unwrap()));
    }
}

/// A key is contained exactly when some entry carries it.
pub proof fn lemma_al_contains_index<V>(s: Seq<(Entity, V)>, k: Entity)
    ensures
        al_contains(s, k) <==> exists|i: int| 0 <= i < s.len() && (#[trigger] s[i]).0 == k,
    decreases s.len(),
{
    if s.len() == 0 {
    } else if s[0].0 == k {
    } else {
        lemma_al_contains_index(s.drop_first(), k);
        if al_contains(s, k) {
            let i = choose|i: int|
                0 <= i < s.drop_first().len() && (#[trigger] s.drop_first()[i]).0 == k;
            assert(s[i + 1].0 == k);
        }
        if exists|i: int| 0 <= i < s.len() && (#[trigger] s[i]).0 == k {
            let i = choose|i: int| 0 <= i < s.len() && (#[trigger] s[i]).0 == k;
            assert(s.drop_first()[i - 1].0 == k);
        }
    }
}

/// Insertion adds its own key and keeps every existing key.
pub proof fn lemma_al_insert_keys<V>(s: Seq<(Entity, V)>, k: Entity, v: V)
    ensures
        has_key(al_insert(s, k, v), k),
        forall|x: Entity| #[trigger] has_key(s, x) ==> has_key(al_insert(s, k, v), x),
{
    lemma_al_get_insert_same(s, k, v);
    lemma_al_contains_index(al_insert(s, k, v), k);
    assert forall|x: Entity| #[trigger] has_key(s, x) implies has_key(al_insert(s, k, v), x) by {
        if x != k {
            lemma_al_contains_index(s, x);
            lemma_al_get_insert_other(s, k, v, x);
            lemma_al_contains_index(al_insert(s, k, v), x);
        }
    }
}

/// Find the index of the first entry with key `k`.
pub fn al_find<V>(v: &Vec<(Entity, V)>, k: Entity) -> (r: Option<usize>)
    ensures
        match r {
            Some(i) => first_match(v@, k, i as int),
            None => no_match(v@, k),
        },
{
    let n = v.len();
    for i in 0..n
        invariant
            n == v@.len(),
            forall|j: int| 0 <= j < i ==> v@[j].0 != k,
    {
        if v[i].0 == k {
            return Some(i);
        }
    }
    None
}

/// First-match lookup, as executable code.
pub fn al_lookup<V: Copy>(v: &Vec<(Entity, V)>, k: Entity) -> (r: Option<V>)
    ensures
        r == al_get(v@, k),
{
    match al_find(v, k) {
        Some(i) => {
            proof {
                lemma_al_get_first_match(v@, k, i as int);
            }
            Some(v[i].1)
        },
        None => {
            proof {
                lemma_al_get_no_match(v@, k);
            }
            None
        },
    }
}

pub fn al_has<V: Copy>(v: &Vec<(Entity, V)>, k: Entity) -> (r: bool)
    ensures
        r == al_contains(v@, k),
{
    al_lookup(v, k).is_some()
}

/// Overwrite the first occurrence of `k`, or append.
pub fn al_set<V: Copy>(v: &mut Vec<(Entity, V)>, k: Entity, val: V)
    ensures
        final(v)@ == al_insert(old(v)@, k, val),
{
    match al_find(v, k) {
        Some(i) => {
            proof {
                lemma_al_insert_first_match(v@, k, val, i as int);
            }
            v[i] = (k, val);
        },
        None => {
            proof {
                lemma_al_insert_no_match(v@, k, val);
            }
            v.push((k, val));
        },
    }
}

/// Remove the first occurrence of `k`, if any.
pub fn al_delete<V: Copy>(v: &mut Vec<(Entity, V)>, k: Entity)
    ensures
        final(v)@ == al_remove(old(v)@, k),
{
    match al_find(v, k) {
        Some(i) => {
            proof {
                lemma_al_remove_first_match(v@, k, i as int);
            }
            v.remove(i);
        },
        None => {
            proof {
                lemma_al_remove_no_match(v@, k);
            }
        },
    }
}

/// Copy a vector of copyable elements.
pub fn copy_vec<T: Copy>(v: &Vec<T>) -> (r: Vec<T>)
    ensures
        r@ == v@,
{
    let mut r: Vec<T> = Vec::new();
    let n = v.len();
    for i in 0..n
        invariant
            n == v@.len(),
            r@ == v@.take(i as int),
    {
        r.push(v[i]);
        proof {
            assert(r@ =~= v@.take(i as int + 1));
        }
    }
    proof {
        assert(v@.take(n as int) =~= v@);
    }
    r
}

} // verus!

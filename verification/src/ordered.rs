//! Ordered maps keyed by an id or by a pair of ids.
//!
//! The functions here put the standard ordered map's operations in the
//! terms the rest of the library uses: a `Map` of what is stored, and the
//! keys as a sequence in ascending order.

use std::collections::BTreeMap;
use vstd::prelude::*;
use vstd::std_specs::btree::{increasing_seq, key_obeys_cmp_spec, spec_keys_iter};
use vstd::std_specs::cmp::OrdSpec;
use vstd::std_specs::iter::IteratorSpec;

verus! {

/// Whether the ids of `s` grow strictly.
pub open spec fn ascending(s: Seq<usize>) -> bool {
    forall|i: int, j: int| 0 <= i < j < s.len() ==> s[i] < s[j]
}

/// The order of pairs: by the first id, then by the second.
pub open spec fn pair_lt(a: (usize, usize), b: (usize, usize)) -> bool {
    a.0 < b.0 || (a.0 == b.0 && a.1 < b.1)
}

/// Whether the pairs of `s` grow strictly.
pub open spec fn ascending_pairs(s: Seq<(usize, usize)>) -> bool {
    forall|i: int, j: int| 0 <= i < j < s.len() ==> pair_lt(s[i], s[j])
}

/// Whether `s` holds the members of `dom` and nothing else.
pub open spec fn lists<K>(s: Seq<K>, dom: Set<K>) -> bool {
    forall|k: K| dom.contains(k) <==> s.contains(k)
}

proof fn lemma_increasing_ids(s: Seq<&usize>)
    requires
        increasing_seq(s),
    ensures
        ascending(s.unref()),
{
    broadcast use vstd::laws_cmp::group_laws_cmp;
    broadcast use vstd::std_specs::btree::axiom_increasing_seq_meaning;

    assert(vstd::laws_cmp::obeys_cmp::<&usize>());
    let t = s.unref();
    assert forall|i: int, j: int| 0 <= i < j < t.len() implies t[i] < t[j] by {
        assert(OrdSpec::cmp_spec(&s[i], &s[j]) is Less);
    }
}

proof fn lemma_increasing_pairs(s: Seq<&(usize, usize)>)
    requires
        increasing_seq(s),
    ensures
        ascending_pairs(s.unref()),
{
    broadcast use vstd::laws_cmp::group_laws_cmp;
    broadcast use vstd::std_specs::btree::axiom_increasing_seq_meaning;

    assert(vstd::laws_cmp::obeys_cmp::<&(usize, usize)>());
    let t = s.unref();
    assert forall|i: int, j: int| 0 <= i < j < t.len() implies pair_lt(t[i], t[j]) by {
        assert(OrdSpec::cmp_spec(&s[i], &s[j]) is Less);
    }
}

/// The ids under which `m` holds something, in ascending order.
pub fn ids<V>(m: &BTreeMap<usize, V>) -> (r: Vec<usize>)
    ensures
        ascending(r@),
        lists(r@, m@.dom()),
{
    proof {
        broadcast use vstd::laws_cmp::group_laws_cmp;

        assert(key_obeys_cmp_spec::<usize>());
    }
    let iter = m.keys();
    let ghost all = iter.remaining();
    let ghost keys = all.unref();
    proof {
        assert(iter == spec_keys_iter(m));
        assert(keys.to_set() == m@.dom());
        lemma_increasing_ids(all);
    }
    let mut r: Vec<usize> = Vec::new();
    for k in it: iter
        invariant
            it.seq() == all,
            keys == all.unref(),
            r@ == keys.take(it.index()),
    {
        r.push(*k);
        assert(keys.take(it.index() + 1) =~= keys.take(it.index()).push(keys[it.index()]));
    }
    proof {
        assert(r@ =~= keys);
        assert forall|k: usize| m@.dom().contains(k) <==> r@.contains(k) by {
            assert(keys.to_set().contains(k) <==> keys.contains(k));
        }
    }
    r
}

/// The pairs under which `m` holds something, in ascending order.
pub fn pair_ids<V>(m: &BTreeMap<(usize, usize), V>) -> (r: Vec<(usize, usize)>)
    ensures
        ascending_pairs(r@),
        lists(r@, m@.dom()),
{
    proof {
        broadcast use vstd::laws_cmp::group_laws_cmp;

        assert(key_obeys_cmp_spec::<(usize, usize)>());
    }
    let iter = m.keys();
    let ghost all = iter.remaining();
    let ghost keys = all.unref();
    proof {
        assert(iter == spec_keys_iter(m));
        assert(keys.to_set() == m@.dom());
        lemma_increasing_pairs(all);
    }
    let mut r: Vec<(usize, usize)> = Vec::new();
    for k in it: iter
        invariant
            it.seq() == all,
            keys == all.unref(),
            r@ == keys.take(it.index()),
    {
        r.push(*k);
        assert(keys.take(it.index() + 1) =~= keys.take(it.index()).push(keys[it.index()]));
    }
    proof {
        assert(r@ =~= keys);
        assert forall|k: (usize, usize)| m@.dom().contains(k) <==> r@.contains(k) by {
            assert(keys.to_set().contains(k) <==> keys.contains(k));
        }
    }
    r
}

/// How many ids `m` holds something under.
pub fn count<V>(m: &BTreeMap<usize, V>) -> (n: usize)
    ensures
        n == m@.len(),
        m@.dom().finite(),
{
    proof {
        broadcast use vstd::laws_cmp::group_laws_cmp;

        assert(key_obeys_cmp_spec::<usize>());
    }
    m.len()
}

pub fn put<V>(m: &mut BTreeMap<usize, V>, id: usize, v: V)
    ensures
        final(m)@ == old(m)@.insert(id, v),
{
    proof {
        broadcast use vstd::laws_cmp::group_laws_cmp;

    }
    m.insert(id, v);
}

pub fn take<V>(m: &mut BTreeMap<usize, V>, id: usize) -> (r: Option<V>)
    ensures
        final(m)@ == old(m)@.remove(id),
        r is Some <==> old(m)@.contains_key(id),
        r is Some ==> r->0 == old(m)@[id],
{
    proof {
        broadcast use vstd::laws_cmp::group_laws_cmp;

    }
    m.remove(&id)
}

pub fn lookup<V>(m: &BTreeMap<usize, V>, id: usize) -> (r: Option<&V>)
    ensures
        r is Some <==> m@.contains_key(id),
        r is Some ==> *r->0 == m@[id],
{
    proof {
        broadcast use vstd::laws_cmp::group_laws_cmp;

    }
    m.get(&id)
}

pub fn put_pair<V>(m: &mut BTreeMap<(usize, usize), V>, id: (usize, usize), v: V)
    ensures
        final(m)@ == old(m)@.insert(id, v),
{
    proof {
        broadcast use vstd::laws_cmp::group_laws_cmp;

    }
    m.insert(id, v);
}

pub fn take_pair<V>(m: &mut BTreeMap<(usize, usize), V>, id: (usize, usize)) -> (r: Option<V>)
    ensures
        final(m)@ == old(m)@.remove(id),
        r is Some <==> old(m)@.contains_key(id),
        r is Some ==> r->0 == old(m)@[id],
{
    proof {
        broadcast use vstd::laws_cmp::group_laws_cmp;

    }
    m.remove(&id)
}

pub fn lookup_pair<V>(m: &BTreeMap<(usize, usize), V>, id: (usize, usize)) -> (r: Option<&V>)
    ensures
        r is Some <==> m@.contains_key(id),
        r is Some ==> *r->0 == m@[id],
{
    proof {
        broadcast use vstd::laws_cmp::group_laws_cmp;

    }
    m.get(&id)
}

pub fn put_point(m: &mut BTreeMap<(i64, i64), usize>, at: (i64, i64), id: usize)
    ensures
        final(m)@ == old(m)@.insert(at, id),
{
    proof {
        broadcast use vstd::laws_cmp::group_laws_cmp;

    }
    m.insert(at, id);
}

pub fn lookup_point(m: &BTreeMap<(i64, i64), usize>, at: (i64, i64)) -> (r: Option<usize>)
    ensures
        r is Some <==> m@.contains_key(at),
        r is Some ==> r->0 == m@[at],
{
    proof {
        broadcast use vstd::laws_cmp::group_laws_cmp;

    }
    match m.get(&at) {
        Some(id) => Some(*id),
        None => None,
    }
}

/// The map that filing the entries of `s` one after another gives: where a
/// key comes twice, its last entry stays.
pub open spec fn filed<K, V>(s: Seq<(K, V)>) -> Map<K, V>
    decreases s.len(),
{
    if s.len() == 0 {
        Map::empty()
    } else {
        filed(s.drop_last()).insert(s.last().0, s.last().1)
    }
}

/// What is filed comes from an entry, and every entry's key is filed.
pub proof fn lemma_filed<K, V>(s: Seq<(K, V)>)
    ensures
        filed(s).dom().finite(),
        forall|k: K| #[trigger]
            filed(s).contains_key(k) ==> exists|i: int|
                0 <= i < s.len() && s[i].0 == k && s[i].1 == filed(s)[k],
        forall|i: int| 0 <= i < s.len() ==> filed(s).contains_key(#[trigger] s[i].0),
    decreases s.len(),
{
    if s.len() > 0 {
        let t = s.drop_last();
        lemma_filed(t);
        assert forall|k: K| #[trigger] filed(s).contains_key(k) implies exists|i: int|
            0 <= i < s.len() && s[i].0 == k && s[i].1 == filed(s)[k] by {
            if k == s.last().0 {
                assert(s[s.len() - 1].0 == k);
            } else {
                assert(filed(t).contains_key(k));
                let i = choose|i: int| 0 <= i < t.len() && t[i].0 == k && t[i].1 == filed(t)[k];
                assert(s[i] == t[i]);
            }
        }
        assert forall|i: int| 0 <= i < s.len() implies filed(s).contains_key(
            #[trigger] s[i].0,
        ) by {
            if i < s.len() - 1 {
                assert(s[i] == t[i]);
            }
        }
    }
}

/// Entries under distinct keys that list a map file back into that map.
pub proof fn lemma_filed_listing<K, V>(s: Seq<(K, V)>, m: Map<K, V>)
    requires
        forall|i: int, j: int| 0 <= i < j < s.len() ==> s[i].0 != s[j].0,
        forall|i: int| 0 <= i < s.len() ==> m.contains_key(#[trigger] s[i].0) && m[s[i].0] == s[i].1,
        forall|k: K| #[trigger] m.contains_key(k) ==> exists|i: int| 0 <= i < s.len() && s[i].0 == k,
    ensures
        filed(s) == m,
{
    lemma_filed(s);
    assert forall|k: K| filed(s).contains_key(k) <==> m.contains_key(k) by {
        if filed(s).contains_key(k) {
            let i = choose|i: int| 0 <= i < s.len() && s[i].0 == k && s[i].1 == filed(s)[k];
            assert(m.contains_key(s[i].0));
        }
        if m.contains_key(k) {
            let i = choose|i: int| 0 <= i < s.len() && s[i].0 == k;
            assert(filed(s).contains_key(s[i].0));
        }
    }
    assert forall|k: K| filed(s).contains_key(k) implies filed(s)[k] == m[k] by {
        let i = choose|i: int| 0 <= i < s.len() && s[i].0 == k && s[i].1 == filed(s)[k];
        assert(m[s[i].0] == s[i].1);
    }
    assert(filed(s) =~= m);
}

} // verus!

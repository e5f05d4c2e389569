//! Small helpers shared by the policies.
use std::collections::BTreeMap;
use vstd::prelude::*;
use vstd::std_specs::cmp::OrdSpec;
use vstd::std_specs::iter::IteratorSpec;

verus! {

/// `BTreeMap::get_mut` from std: on a key that is present it hands out the
/// value, and whatever is written through the reference becomes the map's
/// value under that key; on an absent key it returns `None` and leaves the map.
#[verifier::external_body]
pub(crate) fn map_get_mut<V>(m: &mut BTreeMap<usize, V>, k: usize) -> (r: Option<&mut V>)
    ensures
        match r {
            Some(v) => {
                &&& old(m)@.contains_key(k)
                &&& *v == old(m)@[k]
                &&& final(m)@ == old(m)@.insert(k, *final(v))
            },
            None => !old(m)@.contains_key(k) && final(m)@ == old(m)@,
        },
{
    m.get_mut(&k)
}

/// `s` lists the entries of `m` by increasing key.
pub open spec fn sorted_entries<V>(m: Map<usize, V>, s: Seq<(usize, V)>) -> bool {
    &&& forall|i: int, j: int| 0 <= i < j < s.len() ==> s[i].0 < s[j].0
    &&& forall|i: int| 0 <= i < s.len() ==> m.contains_key(#[trigger] s[i].0) && m[s[i].0] == s[i].1
    &&& forall|k: usize| m.contains_key(k) ==> exists|i: int| 0 <= i < s.len() && #[trigger] s[i].0 == k
}

/// Two listings of the same map by increasing key agree up to position `i`.
proof fn lemma_sorted_entries_prefix<V>(m: Map<usize, V>, a: Seq<(usize, V)>, b: Seq<(usize, V)>, i: int)
    requires
        sorted_entries(m, a),
        sorted_entries(m, b),
        0 <= i,
        i < a.len(),
        i < b.len(),
    ensures
        forall|j: int| 0 <= j <= i ==> a[j] == b[j],
    decreases i,
{
    if i > 0 {
        lemma_sorted_entries_prefix(m, a, b, i - 1);
    }
    if a[i].0 < b[i].0 {
        let j = choose|j: int| 0 <= j < b.len() && #[trigger] b[j].0 == a[i].0;
        if j < i {
            assert(a[j] == b[j]);
            assert(a[j].0 < a[i].0);
        } else if j > i {
            assert(b[i].0 < b[j].0);
        }
    } else if b[i].0 < a[i].0 {
        let j = choose|j: int| 0 <= j < a.len() && #[trigger] a[j].0 == b[i].0;
        if j < i {
            assert(a[j] == b[j]);
            assert(b[j].0 < b[i].0);
        } else if j > i {
            assert(a[i].0 < a[j].0);
        }
    }
    assert(m.contains_key(a[i].0));
}

/// A map has one listing by increasing key.
pub proof fn lemma_sorted_entries_unique<V>(m: Map<usize, V>, a: Seq<(usize, V)>, b: Seq<(usize, V)>)
    requires
        sorted_entries(m, a),
        sorted_entries(m, b),
    ensures
        a == b,
{
    if a.len() > 0 && b.len() > 0 {
        let n = if a.len() < b.len() { a.len() } else { b.len() };
        lemma_sorted_entries_prefix(m, a, b, n - 1);
    }
    if a.len() < b.len() {
        let k = b[a.len() as int].0;
        assert(m.contains_key(k));
        let j = choose|j: int| 0 <= j < a.len() && #[trigger] a[j].0 == k;
        assert(a[j] == b[j]);
        assert(b[j].0 < b[a.len() as int].0);
    } else if b.len() < a.len() {
        let k = a[b.len() as int].0;
        assert(m.contains_key(k));
        let j = choose|j: int| 0 <= j < b.len() && #[trigger] b[j].0 == k;
        assert(a[j] == b[j]);
        assert(a[j].0 < a[b.len() as int].0);
    }
    assert(a =~= b);
}

/// A finite nonempty set of keys has a largest one.
proof fn lemma_max_key(s: Set<usize>)
    requires
        s.finite(),
        s.len() > 0,
    ensures
        exists|k: usize| s.contains(k) && forall|j: usize| #[trigger] s.contains(j) ==> j <= k,
    decreases s.len(),
{
    let a = s.choose();
    let rest = s.remove(a);
    if rest.len() == 0 {
        assert forall|j: usize| #[trigger] s.contains(j) implies j <= a by {
            if j != a {
                assert(rest.contains(j));
            }
        }
    } else {
        lemma_max_key(rest);
        let k = choose|k: usize| rest.contains(k) && forall|j: usize| #[trigger] rest.contains(j) ==> j <= k;
        let m = if a > k { a } else { k };
        assert forall|j: usize| #[trigger] s.contains(j) implies j <= m by {
            if j != a {
                assert(rest.contains(j));
            }
        }
        assert(s.contains(m));
    }
}

/// Every finite map has a listing of its entries by increasing key.
pub proof fn lemma_sorted_entries_exist<V>(m: Map<usize, V>)
    requires
        m.dom().finite(),
    ensures
        exists|es: Seq<(usize, V)>| sorted_entries(m, es),
    decreases m.dom().len(),
{
    if m.dom().len() == 0 {
        let es = Seq::<(usize, V)>::empty();
        assert forall|k: usize| m.contains_key(k) implies exists|i: int| 0 <= i < es.len() && #[trigger] es[i].0 == k by {
            assert(m.dom().contains(k));
        }
        assert(sorted_entries(m, es));
    } else {
        lemma_max_key(m.dom());
        let k = choose|k: usize| m.dom().contains(k) && forall|j: usize| #[trigger] m.dom().contains(j) ==> j <= k;
        let rest = m.remove(k);
        assert(rest.dom() =~= m.dom().remove(k));
        lemma_sorted_entries_exist(rest);
        let er = choose|es: Seq<(usize, V)>| sorted_entries(rest, es);
        let es = er.push((k, m[k]));
        assert forall|i: int, j: int| 0 <= i < j < es.len() implies es[i].0 < es[j].0 by {
            if j == er.len() {
                assert(rest.contains_key(er[i].0));
                assert(m.dom().contains(er[i].0));
            }
        }
        assert forall|i: int| 0 <= i < es.len() implies m.contains_key(#[trigger] es[i].0) && m[es[i].0] == es[i].1 by {
            if i < er.len() {
                assert(rest.contains_key(er[i].0));
            }
        }
        assert forall|j: usize| m.contains_key(j) implies exists|i: int| 0 <= i < es.len() && #[trigger] es[i].0 == j by {
            if j == k {
                assert(es[er.len() as int].0 == j);
            } else {
                assert(rest.contains_key(j));
                let i = choose|i: int| 0 <= i < er.len() && #[trigger] er[i].0 == j;
                assert(es[i].0 == j);
            }
        }
        assert(sorted_entries(m, es));
    }
}

/// The entries of `m` by increasing key, as std's `BTreeMap::iter` yields them.
pub(crate) fn entries<V: Copy>(m: &BTreeMap<usize, V>) -> (r: Vec<(usize, V)>)
    ensures
        sorted_entries(m@, r@),
{
    let mut ret: Vec<(usize, V)> = Vec::new();
    let ghost s = m.iter().remaining();
    proof {
        broadcast use vstd::std_specs::btree::axiom_increasing_seq_meaning;
        assert(vstd::laws_cmp::obeys_cmp::<usize>());
    }
    for (k, v) in it: m.iter()
        invariant
            ret@.len() == it.index(),
            it.seq() == s,
            forall|i: int| 0 <= i < ret@.len() ==> #[trigger] ret@[i] == (*it.seq()[i].0, *it.seq()[i].1),
    {
        ret.push((*k, *v));
    }
    proof {
        assert(ret@.len() == s.len());
        let ks = s.map_values(|kv: (&usize, &V)| *kv.0);
        assert(vstd::std_specs::btree::increasing_seq(ks));
        assert forall|k: usize| m@.contains_key(k) implies exists|i: int|
            0 <= i < ret@.len() && #[trigger] ret@[i].0 == k by {
            assert(s.contains((&k, &m@[k])));
            let i = choose|i: int| 0 <= i < s.len() && s[i] == (&k, &m@[k]);
            assert(ret@[i].0 == k);
        }
        assert forall|i: int, j: int| 0 <= i < j < ret@.len() implies ret@[i].0 < ret@[j].0 by {
            assert(ks[i] == ret@[i].0);
            assert(ks[j] == ret@[j].0);
            assert(ks[i].cmp_spec(&ks[j]) is Less);
        }
    }
    ret
}

/// `s` lists the keys of `m` in increasing order.
pub open spec fn sorted_keys<V>(m: Map<usize, V>, s: Seq<usize>) -> bool {
    &&& forall|i: int, j: int| 0 <= i < j < s.len() ==> s[i] < s[j]
    &&& forall|i: int| 0 <= i < s.len() ==> m.contains_key(#[trigger] s[i])
    &&& forall|k: usize| m.contains_key(k) ==> exists|i: int| 0 <= i < s.len() && #[trigger] s[i] == k
}

/// A map has one listing of its keys in increasing order.
pub proof fn lemma_sorted_keys_unique<V>(m: Map<usize, V>, a: Seq<usize>, b: Seq<usize>)
    requires
        sorted_keys(m, a),
        sorted_keys(m, b),
    ensures
        a == b,
{
    let ma = Map::new(|k: usize| m.contains_key(k), |k: usize| ());
    let ea = a.map_values(|k: usize| (k, ()));
    let eb = b.map_values(|k: usize| (k, ()));
    assert(sorted_entries(ma, ea)) by {
        assert forall|k: usize| ma.contains_key(k) implies exists|i: int|
            0 <= i < ea.len() && #[trigger] ea[i].0 == k by {
            let i = choose|i: int| 0 <= i < a.len() && #[trigger] a[i] == k;
            assert(ea[i].0 == k);
        }
    }
    assert(sorted_entries(ma, eb)) by {
        assert forall|k: usize| ma.contains_key(k) implies exists|i: int|
            0 <= i < eb.len() && #[trigger] eb[i].0 == k by {
            let i = choose|i: int| 0 <= i < b.len() && #[trigger] b[i] == k;
            assert(eb[i].0 == k);
        }
    }
    lemma_sorted_entries_unique(ma, ea, eb);
    assert forall|i: int| 0 <= i < a.len() implies a[i] == b[i] by {
        assert(ea[i] == eb[i]);
    }
    assert(a =~= b);
}

/// The keys of `m` in increasing order, as std's `BTreeMap::iter` yields them.
pub(crate) fn keys_of<V>(m: &BTreeMap<usize, V>) -> (r: Vec<usize>)
    ensures
        sorted_keys(m@, r@),
{
    let mut ret: Vec<usize> = Vec::new();
    let ghost s = m.iter().remaining();
    proof {
        broadcast use vstd::std_specs::btree::axiom_increasing_seq_meaning;
        assert(vstd::laws_cmp::obeys_cmp::<usize>());
    }
    for (k, _v) in it: m.iter()
        invariant
            ret@.len() == it.index(),
            it.seq() == s,
            forall|i: int| 0 <= i < ret@.len() ==> #[trigger] ret@[i] == *it.seq()[i].0,
    {
        ret.push(*k);
    }
    proof {
        assert(ret@.len() == s.len());
        let ks = s.map_values(|kv: (&usize, &V)| *kv.0);
        assert(vstd::std_specs::btree::increasing_seq(ks));
        assert forall|k: usize| m@.contains_key(k) implies exists|i: int|
            0 <= i < ret@.len() && #[trigger] ret@[i] == k by {
            assert(s.contains((&k, &m@[k])));
            let i = choose|i: int| 0 <= i < s.len() && s[i] == (&k, &m@[k]);
            assert(ret@[i] == k);
        }
        assert forall|i: int, j: int| 0 <= i < j < ret@.len() implies ret@[i] < ret@[j] by {
            assert(ks[i] == ret@[i]);
            assert(ks[j] == ret@[j]);
            assert(ks[i].cmp_spec(&ks[j]) is Less);
        }
        assert forall|i: int| 0 <= i < ret@.len() implies m@.contains_key(#[trigger] ret@[i]) by {
            assert(s.contains(s[i]));
        }
    }
    ret
}

} // verus!

//! Opened leaves, keyed by their position.
use std::collections::BTreeMap;
use vstd::prelude::*;

verus! {

/// The positions in increasing order.
pub open spec fn increasing(s: Seq<usize>) -> bool {
    forall|i: int, j: int| 0 <= i < j < s.len() ==> s[i] < s[j]
}

/// The positions of a map in increasing order.
pub open spec fn keys_of<V>(m: Map<usize, V>) -> Seq<usize> {
    choose|s: Seq<usize>| increasing(s) && #[trigger] s.to_set() == m.dom()
}

/// Increasing sequences with the same elements are equal.
pub proof fn lemma_increasing_unique(s: Seq<usize>, t: Seq<usize>)
    requires
        increasing(s),
        increasing(t),
        s.to_set() == t.to_set(),
    ensures
        s == t,
    decreases s.len(),
{
    if s.len() == 0 {
        if t.len() > 0 {
            assert(t.to_set().contains(t[0]));
        }
        assert(s =~= t);
    } else {
        assert(s.to_set().contains(s.last()));
        let i = choose|i: int| 0 <= i < t.len() && t[i] == s.last();
        assert(t.to_set().contains(t.last()));
        let j = choose|j: int| 0 <= j < s.len() && s[j] == t.last();
        assert(s.last() == t.last());
        let (s1, t1) = (s.drop_last(), t.drop_last());
        assert forall|v: usize| s1.to_set().contains(v) == t1.to_set().contains(v) by {
            if s1.to_set().contains(v) {
                let k = choose|k: int| 0 <= k < s1.len() && s1[k] == v;
                assert(s[k] == v);
                assert(s.to_set().contains(v));
                assert(t.to_set().contains(v));
                let l = choose|l: int| 0 <= l < t.len() && t[l] == v;
                assert(s[k] < s.last());
                assert(t1[l] == v);
            }
            if t1.to_set().contains(v) {
                let k = choose|k: int| 0 <= k < t1.len() && t1[k] == v;
                assert(t[k] == v);
                assert(t.to_set().contains(v));
                assert(s.to_set().contains(v));
                let l = choose|l: int| 0 <= l < s.len() && s[l] == v;
                assert(t[k] < t.last());
                assert(s1[l] == v);
            }
        }
        assert(s1.to_set() =~= t1.to_set());
        lemma_increasing_unique(s1, t1);
        assert(s =~= s1.push(s.last()));
        assert(t =~= t1.push(t.last()));
    }
}

/// The position list of a map is the only increasing one with its positions.
pub proof fn lemma_keys_of<V>(m: Map<usize, V>, s: Seq<usize>)
    requires
        increasing(s),
        s.to_set() == m.dom(),
    ensures
        keys_of(m) == s,
{
    let t = keys_of(m);
    assert(increasing(t) && t.to_set() == m.dom());
    lemma_increasing_unique(s, t);
}

/// Puts `x` in its place in an increasing sequence, unless it is there.
pub open spec fn inserted(t: Seq<usize>, x: usize) -> Seq<usize>
    decreases t.len(),
{
    if t.len() == 0 {
        seq![x]
    } else if x > t.last() {
        t.push(x)
    } else if x == t.last() {
        t
    } else {
        inserted(t.drop_last(), x).push(t.last())
    }
}

/// The distinct entries in increasing order.
pub open spec fn sorted_distinct(s: Seq<usize>) -> Seq<usize>
    decreases s.len(),
{
    if s.len() == 0 {
        Seq::empty()
    } else {
        inserted(sorted_distinct(s.drop_last()), s.last())
    }
}

proof fn lemma_inserted(t: Seq<usize>, x: usize)
    requires
        increasing(t),
    ensures
        increasing(inserted(t, x)),
        inserted(t, x).len() > 0,
        forall|v: usize| #[trigger] inserted(t, x).contains(v) <==> t.contains(v) || v == x,
        forall|b: int| #[trigger] below(t, b) && x < b ==> below(inserted(t, x), b),
    decreases t.len(),
{
    let r = inserted(t, x);
    if t.len() == 0 {
        assert(r[0] == x);
    } else if x > t.last() {
        assert forall|v: usize| #[trigger] r.contains(v) <==> t.contains(v) || v == x by {
            if t.contains(v) {
                let i = choose|i: int| 0 <= i < t.len() && t[i] == v;
                assert(r[i] == v);
            }
            assert(r[t.len() as int] == x);
        }
    } else if x == t.last() {
        assert(t.contains(x));
    } else {
        let u = t.drop_last();
        lemma_inserted(u, x);
        let w = inserted(u, x);
        assert forall|v: usize| #[trigger] r.contains(v) <==> t.contains(v) || v == x by {
            if r.contains(v) {
                let i = choose|i: int| 0 <= i < r.len() && r[i] == v;
                if i < w.len() {
                    assert(w.contains(v));
                    if u.contains(v) {
                        let j = choose|j: int| 0 <= j < u.len() && u[j] == v;
                        assert(t[j] == v);
                    }
                } else {
                    assert(t[t.len() - 1] == v);
                }
            }
            if t.contains(v) {
                let i = choose|i: int| 0 <= i < t.len() && t[i] == v;
                if i < u.len() {
                    assert(u[i] == v);
                    assert(w.contains(v));
                    let j = choose|j: int| 0 <= j < w.len() && w[j] == v;
                    assert(r[j] == v);
                } else {
                    assert(r[w.len() as int] == v);
                }
            }
            if v == x {
                assert(w.contains(v));
                let j = choose|j: int| 0 <= j < w.len() && w[j] == v;
                assert(r[j] == v);
            }
        }
        assert forall|i: int, j: int| 0 <= i < j < r.len() implies r[i] < r[j] by {
            if j == w.len() {
                assert(w.contains(w[i]));
                if u.contains(w[i]) {
                    let k = choose|k: int| 0 <= k < u.len() && u[k] == w[i];
                    assert(t[k] < t[t.len() - 1]);
                }
            }
        }
    }
    assert forall|b: int| #[trigger] below(t, b) && x < b implies below(r, b) by {
        assert forall|i: int| 0 <= i < r.len() implies #[trigger] r[i] < b by {
            assert(r.contains(r[i]));
            if t.contains(r[i]) {
                let k = choose|k: int| 0 <= k < t.len() && t[k] == r[i];
                assert(t[k] < b);
            }
        }
    }
}

/// All entries are below `b`.
pub open spec fn below(s: Seq<usize>, b: int) -> bool {
    forall|i: int| 0 <= i < s.len() ==> #[trigger] s[i] < b
}

/// The sorted list increases and has the same entries.
pub proof fn lemma_sorted_distinct(s: Seq<usize>, b: int)
    ensures
        increasing(sorted_distinct(s)),
        s.len() > 0 ==> sorted_distinct(s).len() > 0,
        forall|v: usize| #[trigger] sorted_distinct(s).contains(v) <==> s.contains(v),
        below(s, b) ==> below(sorted_distinct(s), b),
    decreases s.len(),
{
    if s.len() > 0 {
        let u = s.drop_last();
        lemma_sorted_distinct(u, b);
        let t = sorted_distinct(u);
        lemma_inserted(t, s.last());
        assert forall|v: usize| #[trigger] sorted_distinct(s).contains(v) <==> s.contains(v) by {
            if s.contains(v) {
                let i = choose|i: int| 0 <= i < s.len() && s[i] == v;
                if i < u.len() {
                    assert(u[i] == v);
                    assert(t.contains(v));
                }
            }
            if t.contains(v) {
                assert(u.contains(v));
                let i = choose|i: int| 0 <= i < u.len() && u[i] == v;
                assert(s[i] == v);
            }
            assert(s[s.len() - 1] == s.last());
        }
        if below(s, b) {
            assert forall|i: int| 0 <= i < u.len() implies #[trigger] u[i] < b by {
                assert(s[i] < b);
            }
            assert(s[s.len() - 1] < b);
            assert(below(t, b));
        }
    }
}

/// Puts `x` in its place in an increasing vector, unless it is there.
fn insert_sorted(v: &mut Vec<usize>, x: usize)
    ensures
        final(v)@ == inserted(old(v)@, x),
{
    let ghost t = v@;
    let mut i: usize = v.len();
    assert(t.subrange(i as int, i as int) =~= Seq::<usize>::empty());
    assert(t.take(i as int) =~= t);
    assert(inserted(t, x) + Seq::<usize>::empty() =~= inserted(t, x));
    while i > 0 && v[i - 1] > x
        invariant
            i <= v.len(),
            v@ == t,
            inserted(t, x) == inserted(t.take(i as int), x) + t.skip(i as int),
        decreases i,
    {
        proof {
            let u = t.take(i as int);
            assert(u.drop_last() =~= t.take(i - 1));
            assert(u.last() == t[i - 1]);
            assert(inserted(u, x) == inserted(u.drop_last(), x).push(u.last()));
            assert(inserted(t.take(i - 1), x).push(t[i - 1]) + t.skip(i as int) =~= inserted(
                t.take(i - 1),
                x,
            ) + t.skip(i - 1));
        }
        i -= 1;
    }
    proof {
        let u = t.take(i as int);
        if i > 0 {
            assert(u.last() == t[i - 1]);
        }
    }
    if i > 0 && v[i - 1] == x {
        assert(t.take(i as int) + t.skip(i as int) =~= t);
        return;
    }
    v.insert(i, x);
    assert(v@ =~= t.take(i as int).push(x) + t.skip(i as int));
    assert(i == 0 ==> seq![x] =~= t.take(0).push(x));
}

/// The distinct entries in increasing order.
pub fn sort_distinct(s: &Vec<usize>) -> (r: Vec<usize>)
    ensures
        r@ == sorted_distinct(s@),
{
    let mut r: Vec<usize> = Vec::new();
    let mut i: usize = 0;
    assert(s@.take(0) =~= Seq::<usize>::empty());
    while i < s.len()
        invariant
            i <= s.len(),
            r@ == sorted_distinct(s@.take(i as int)),
        decreases s.len() - i,
    {
        proof {
            let t = s@.take(i + 1);
            assert(t.drop_last() =~= s@.take(i as int));
            assert(t.last() == s@[i as int]);
        }
        insert_sorted(&mut r, s[i]);
        i += 1;
    }
    assert(s@.take(s@.len() as int) =~= s@);
    r
}

/// Enters a leaf.
pub fn put<V>(m: &mut BTreeMap<usize, V>, k: usize, v: V)
    ensures
        final(m)@ == old(m)@.insert(k, v),
{
    broadcast use vstd::laws_cmp::group_laws_cmp;
    broadcast use vstd::std_specs::btree::group_btree_axioms;
    m.insert(k, v);
}

/// Looks up a leaf.
pub fn look_up<V>(m: &BTreeMap<usize, V>, k: usize) -> (r: Option<&V>)
    ensures
        r == (if m@.contains_key(k) { Some(&m@[k]) } else { None }),
{
    broadcast use vstd::laws_cmp::group_laws_cmp;
    broadcast use vstd::std_specs::btree::group_btree_axioms;
    m.get(&k)
}

/// All positions, in increasing order.
pub fn positions<V>(m: &BTreeMap<usize, V>) -> (r: Vec<usize>)
    ensures
        increasing(r@),
        r@.to_set() == m@.dom(),
        r@ == keys_of(m@),
{
    broadcast use vstd::laws_cmp::group_laws_cmp;
    broadcast use vstd::std_specs::btree::group_btree_axioms;
    let mut r: Vec<usize> = Vec::new();
    let it = m.iter();
    let ghost all = vstd::std_specs::iter::IteratorSpec::remaining(&it);
    let ghost keys = all.map_values(|kv: (&usize, &V)| *kv.0);
    assert(vstd::std_specs::btree::increasing_seq(keys));
    for e in iter: it
        invariant
            r@.len() == iter.index(),
            iter.seq() == all,
            forall|i: int| 0 <= i < r@.len() ==> r@[i] == *all[i].0,
    {
        r.push(*e.0);
    }
    proof {
        assert(r@ =~= keys);
        assert forall|i: int, j: int| 0 <= i < j < r@.len() implies r@[i] < r@[j] by {
            let c = vstd::std_specs::cmp::OrdSpec::cmp_spec(&keys[i], &keys[j]);
            assert(c is Less);
        }
        assert forall|k: usize| r@.to_set().contains(k) == m@.dom().contains(k) by {
            if r@.to_set().contains(k) {
                let i = choose|i: int| 0 <= i < r@.len() && r@[i] == k;
                assert(m@.contains_key(*all[i].0));
            }
            if m@.dom().contains(k) {
                assert(m@.contains_key(k));
                assert(all.contains((&k, &m@[k])));
                let i = choose|i: int| 0 <= i < all.len() && all[i] == (&k, &m@[k]);
                assert(r@[i] == k);
            }
        }
        assert(r@.to_set() =~= m@.dom());
        lemma_keys_of(m@, r@);
    }
    r
}

} // verus!

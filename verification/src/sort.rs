//! Stable sorting by an integer key.
use vstd::prelude::*;

verus! {

/// `s` with `x` inserted after every element whose key is not above `x`'s,
/// counting from the end: for a sorted `s`, after the last element with a
/// key at most `x`'s.
pub open spec fn insert_by<A>(s: Seq<A>, x: A, key: spec_fn(A) -> int) -> Seq<A>
    decreases s.len(),
{
    if s.len() == 0 || key(s.last()) <= key(x) {
        s.push(x)
    } else {
        insert_by(s.drop_last(), x, key).push(s.last())
    }
}

/// Stable sort by `key`: elements with equal keys keep their order.
pub open spec fn sort_by<A>(s: Seq<A>, key: spec_fn(A) -> int) -> Seq<A>
    decreases s.len(),
{
    if s.len() == 0 {
        s
    } else {
        insert_by(sort_by(s.drop_last(), key), s.last(), key)
    }
}

pub open spec fn sorted_by<A>(s: Seq<A>, key: spec_fn(A) -> int) -> bool {
    forall|i: int, j: int| 0 <= i <= j < s.len() ==> key(#[trigger] s[i]) <= key(#[trigger] s[j])
}

/// Values that carry an integer key.
pub trait Keyed: Sized {
    spec fn key_spec(&self) -> int;

    fn key(&self) -> (r: i32)
        ensures
            r as int == self.key_spec(),
    ;
}

pub open spec fn key_of<T: Keyed>() -> spec_fn(T) -> int {
    |x: T| x.key_spec()
}

proof fn lemma_insert_by_split<A>(s: Seq<A>, x: A, key: spec_fn(A) -> int, p: int)
    requires
        0 <= p <= s.len(),
        forall|q: int| p <= q < s.len() ==> key(#[trigger] s[q]) > key(x),
        p == 0 || key(s[p - 1]) <= key(x),
    ensures
        insert_by(s, x, key) == s.take(p).push(x) + s.skip(p),
    decreases s.len(),
{
    if p == s.len() {
        assert(s.take(p) =~= s);
        assert(s.skip(p) =~= Seq::<A>::empty());
        assert(s.take(p).push(x) + s.skip(p) =~= s.push(x));
    } else {
        assert(key(s.last()) > key(x));
        let d = s.drop_last();
        assert forall|q: int| p <= q < d.len() implies key(#[trigger] d[q]) > key(x) by {
            assert(d[q] == s[q]);
        }
        if p > 0 {
            assert(d[p - 1] == s[p - 1]);
        }
        lemma_insert_by_split(d, x, key, p);
        assert(d.take(p) =~= s.take(p));
        assert((d.take(p).push(x) + d.skip(p)).push(s.last()) =~= s.take(p).push(x) + s.skip(p));
    }
}

/// Sorts by key, keeping elements with equal keys in their order.
pub fn stable_sort<T: Keyed>(v: Vec<T>) -> (r: Vec<T>)
    ensures
        r@ == sort_by(v@, key_of::<T>()),
{
    let ghost orig = v@;
    assert(orig.len() == v.len());
    let mut rest = v;
    let mut r: Vec<T> = Vec::new();
    let mut i: usize = 0;
    assert(orig.skip(0) =~= orig);
    assert(sort_by(orig.take(0), key_of::<T>()) =~= Seq::<T>::empty());
    while rest.len() > 0
        invariant
            orig.len() <= usize::MAX,
            i + rest@.len() == orig.len(),
            rest@ == orig.skip(i as int),
            r@ == sort_by(orig.take(i as int), key_of::<T>()),
        decreases rest@.len(),
    {
        let x = rest.remove(0);
        assert(x == orig[i as int]);
        let kx = x.key();
        let mut p: usize = r.len();
        while p > 0 && r[p - 1].key() > kx
            invariant
                p <= r@.len(),
                kx as int == x.key_spec(),
                forall|q: int| p <= q < r@.len() ==> key_of::<T>()(#[trigger] r@[q]) > key_of::<T>()(x),
            decreases p,
        {
            p = p - 1;
        }
        proof {
            lemma_insert_by_split(r@, x, key_of::<T>(), p as int);
            assert(orig.take(i + 1).drop_last() =~= orig.take(i as int));
            assert(orig.take(i + 1).last() == x);
        }
        let ghost before = r@;
        r.insert(p, x);
        assert(r@ =~= before.take(p as int).push(x) + before.skip(p as int));
        assert(rest@ =~= orig.skip(i + 1));
        i = i + 1;
    }
    assert(orig.take(i as int) =~= orig);
    r
}

proof fn lemma_insert_by_map<A, B>(s: Seq<A>, x: A, k1: spec_fn(A) -> int, f: spec_fn(A) -> B, k2: spec_fn(B) -> int)
    requires
        forall|a: A| #[trigger] k2(f(a)) == k1(a),
    ensures
        insert_by(s, x, k1).map_values(f) == insert_by(s.map_values(f), f(x), k2),
    decreases s.len(),
{
    assert(k2(f(x)) == k1(x));
    if s.len() > 0 {
        assert(k2(f(s.last())) == k1(s.last()));
        assert(s.map_values(f).last() == f(s.last()));
        assert(s.map_values(f).drop_last() =~= s.drop_last().map_values(f));
        lemma_insert_by_map(s.drop_last(), x, k1, f, k2);
        if k1(s.last()) <= k1(x) {
            assert(s.push(x).map_values(f) =~= s.map_values(f).push(f(x)));
        } else {
            assert(insert_by(s.drop_last(), x, k1).push(s.last()).map_values(f) =~= insert_by(
                s.drop_last(),
                x,
                k1,
            ).map_values(f).push(f(s.last())));
        }
    } else {
        assert(s.push(x).map_values(f) =~= s.map_values(f).push(f(x)));
    }
}

/// Sorting commutes with a map that keeps the keys.
pub proof fn lemma_sort_by_map<A, B>(s: Seq<A>, k1: spec_fn(A) -> int, f: spec_fn(A) -> B, k2: spec_fn(B) -> int)
    requires
        forall|a: A| #[trigger] k2(f(a)) == k1(a),
    ensures
        sort_by(s, k1).map_values(f) == sort_by(s.map_values(f), k2),
    decreases s.len(),
{
    if s.len() > 0 {
        lemma_sort_by_map(s.drop_last(), k1, f, k2);
        assert(s.map_values(f).drop_last() =~= s.drop_last().map_values(f));
        assert(s.map_values(f).last() == f(s.last()));
        lemma_insert_by_map(sort_by(s.drop_last(), k1), s.last(), k1, f, k2);
    } else {
        assert(s.map_values(f) =~= Seq::<B>::empty());
    }
}

proof fn lemma_insert_by_sorted<A>(s: Seq<A>, x: A, key: spec_fn(A) -> int)
    requires
        sorted_by(s, key),
    ensures
        sorted_by(insert_by(s, x, key), key),
        insert_by(s, x, key).to_multiset() == s.to_multiset().insert(x),
    decreases s.len(),
{
    broadcast use vstd::seq_lib::group_to_multiset_ensures;

    if s.len() == 0 || key(s.last()) <= key(x) {
        let t = s.push(x);
        assert forall|i: int, j: int| 0 <= i <= j < t.len() implies key(#[trigger] t[i]) <= key(
            #[trigger] t[j],
        ) by {
            if j == s.len() && i < j {
                assert(key(s[i]) <= key(s.last()));
            }
        }
    } else {
        let d = s.drop_last();
        assert(sorted_by(d, key)) by {
            assert forall|i: int, j: int| 0 <= i <= j < d.len() implies key(#[trigger] d[i]) <= key(
                #[trigger] d[j],
            ) by {
                assert(d[i] == s[i] && d[j] == s[j]);
            }
        }
        lemma_insert_by_sorted(d, x, key);
        let u = insert_by(d, x, key);
        let t = u.push(s.last());
        assert(u.to_multiset() == d.to_multiset().insert(x));
        assert forall|q: int| 0 <= q < u.len() implies key(#[trigger] u[q]) <= key(s.last()) by {
            assert(u.to_multiset().count(u[q]) > 0);
            assert(d.to_multiset().insert(x).count(u[q]) > 0);
            if u[q] != x {
                assert(d.to_multiset().count(u[q]) > 0);
                assert(d.contains(u[q]));
                let w = choose|w: int| 0 <= w < d.len() && d[w] == u[q];
                assert(key(s[w]) <= key(s[s.len() - 1]));
            }
        }
        assert forall|i: int, j: int| 0 <= i <= j < t.len() implies key(#[trigger] t[i]) <= key(
            #[trigger] t[j],
        ) by {
            if j == u.len() {
                if i < j {
                    assert(t[i] == u[i]);
                }
            } else {
                assert(t[i] == u[i] && t[j] == u[j]);
            }
        }
        assert(s =~= d.push(s.last()));
    }
}

/// A stable sort by key puts the keys in order and keeps every element.
pub proof fn lemma_sort_by_sorted<A>(s: Seq<A>, key: spec_fn(A) -> int)
    ensures
        sorted_by(sort_by(s, key), key),
        sort_by(s, key).to_multiset() == s.to_multiset(),
    decreases s.len(),
{
    broadcast use vstd::seq_lib::group_to_multiset_ensures;

    if s.len() > 0 {
        lemma_sort_by_sorted(s.drop_last(), key);
        lemma_insert_by_sorted(sort_by(s.drop_last(), key), s.last(), key);
        assert(s =~= s.drop_last().push(s.last()));
    }
}

proof fn lemma_insert_by_map_multiset<A, B>(s: Seq<A>, x: A, key: spec_fn(A) -> int, f: spec_fn(A) -> B)
    ensures
        insert_by(s, x, key).map_values(f).to_multiset() == s.map_values(f).to_multiset().insert(f(x)),
    decreases s.len(),
{
    broadcast use vstd::seq_lib::group_to_multiset_ensures;

    if s.len() == 0 || key(s.last()) <= key(x) {
        assert(s.push(x).map_values(f) =~= s.map_values(f).push(f(x)));
    } else {
        let d = s.drop_last();
        lemma_insert_by_map_multiset(d, x, key, f);
        let u = insert_by(d, x, key);
        assert(u.push(s.last()).map_values(f) =~= u.map_values(f).push(f(s.last())));
        assert(s.map_values(f) =~= d.map_values(f).push(f(s.last())));
        assert(d.map_values(f).to_multiset().insert(f(x)).insert(f(s.last())) =~= d.map_values(f).to_multiset().insert(
            f(s.last()),
        ).insert(f(x)));
    }
}

/// Sorting keeps every element with its repeats, also seen through any
/// function of the elements.
pub proof fn lemma_sort_by_map_multiset<A, B>(s: Seq<A>, key: spec_fn(A) -> int, f: spec_fn(A) -> B)
    ensures
        sort_by(s, key).map_values(f).to_multiset() == s.map_values(f).to_multiset(),
    decreases s.len(),
{
    broadcast use vstd::seq_lib::group_to_multiset_ensures;

    if s.len() > 0 {
        let d = s.drop_last();
        lemma_sort_by_map_multiset(d, key, f);
        lemma_insert_by_map_multiset(sort_by(d, key), s.last(), key, f);
        assert(s.map_values(f) =~= d.map_values(f).push(f(s.last())));
    } else {
        assert(s.map_values(f) =~= Seq::<B>::empty());
        assert(sort_by(s, key).map_values(f) =~= Seq::<B>::empty());
    }
}

/// Sorting loses no element: what holds of every element of `s` holds of
/// every element of the sorted sequence, which is as long.
pub proof fn lemma_sort_by_keeps<A>(s: Seq<A>, key: spec_fn(A) -> int, p: spec_fn(A) -> bool)
    requires
        forall|i: int| 0 <= i < s.len() ==> p(#[trigger] s[i]),
    ensures
        sort_by(s, key).len() == s.len(),
        forall|i: int| 0 <= i < sort_by(s, key).len() ==> p(#[trigger] sort_by(s, key)[i]),
{
    broadcast use vstd::seq_lib::to_multiset_contains, vstd::seq_lib::group_to_multiset_ensures;

    let r = sort_by(s, key);
    lemma_sort_by_sorted(s, key);
    assert(r.to_multiset().len() == s.to_multiset().len());
    assert forall|i: int| 0 <= i < r.len() implies p(#[trigger] r[i]) by {
        let x = r[i];
        assert(r.contains(x));
        assert(r.to_multiset().count(x) > 0);
        assert(s.to_multiset().count(x) > 0);
        assert(s.contains(x));
        let q = choose|q: int| 0 <= q < s.len() && s[q] == x;
        assert(p(s[q]));
    }
}

} // verus!

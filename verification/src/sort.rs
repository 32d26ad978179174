//! A stable insertion sort on key/value pairs, ordered by a `u64` key. Every
//! ordering the library needs (blame entries by line, candidates by weight
//! and path id) is expressed by computing such a key, so the sorting proof
//! lives here once.
use vstd::prelude::*;
use vstd::seq_lib::lemma_multiset_commutative;

verus! {

/// Non-decreasing by key.
pub open spec fn sorted_pairs<T>(s: Seq<(u64, T)>) -> bool {
    forall|i: int, j: int| 0 <= i <= j < s.len() ==> #[trigger] s[i].0 <= #[trigger] s[j].0
}

/// Where `x` goes: the first index whose key is strictly greater than `x`'s,
/// so that equal keys keep their arrival order.
pub open spec fn first_gt<T>(s: Seq<(u64, T)>, x: (u64, T)) -> int
    decreases s.len(),
{
    if s.len() == 0 {
        0
    } else if s[0].0 > x.0 {
        0
    } else {
        1 + first_gt(s.drop_first(), x)
    }
}

/// Inserting `x` after all keys less than or equal to its own.
pub open spec fn sorted_insert<T>(s: Seq<(u64, T)>, x: (u64, T)) -> Seq<(u64, T)>
    decreases s.len(),
{
    if s.len() == 0 {
        seq![x]
    } else if s[0].0 <= x.0 {
        seq![s[0]] + sorted_insert(s.drop_first(), x)
    } else {
        seq![x] + s
    }
}

/// The stable sort: elements inserted left to right.
pub open spec fn insort<T>(s: Seq<(u64, T)>) -> Seq<(u64, T)>
    decreases s.len(),
{
    if s.len() == 0 {
        Seq::empty()
    } else {
        sorted_insert(insort(s.drop_last()), s.last())
    }
}

pub proof fn lemma_first_gt<T>(s: Seq<(u64, T)>, x: (u64, T))
    ensures
        0 <= first_gt(s, x) <= s.len(),
        forall|i: int| 0 <= i < first_gt(s, x) ==> #[trigger] s[i].0 <= x.0,
        first_gt(s, x) < s.len() ==> s[first_gt(s, x)].0 > x.0,
    decreases s.len(),
{
    if s.len() == 0 {
    } else if s[0].0 > x.0 {
    } else {
        lemma_first_gt(s.drop_first(), x);
        assert forall|i: int| 0 <= i < first_gt(s, x) implies #[trigger] s[i].0 <= x.0 by {
            if i >= 1 {
                assert(s.drop_first()[i - 1] == s[i]);
                assert(s.drop_first()[i - 1].0 <= x.0);
            }
        }
    }
}

/// `sorted_insert` is insertion at the position `first_gt` names.
pub proof fn lemma_sorted_insert_at<T>(s: Seq<(u64, T)>, x: (u64, T))
    ensures
        sorted_insert(s, x) == s.insert(first_gt(s, x), x),
    decreases s.len(),
{
    lemma_first_gt(s, x);
    if s.len() == 0 {
        assert(sorted_insert(s, x) =~= s.insert(0, x));
    } else if s[0].0 > x.0 {
        assert(seq![x] + s =~= s.insert(0, x));
    } else {
        lemma_sorted_insert_at(s.drop_first(), x);
        let p = first_gt(s.drop_first(), x);
        assert(seq![s[0]] + s.drop_first().insert(p, x) =~= s.insert(p + 1, x));
    }
}

pub proof fn lemma_sorted_insert_sorted<T>(s: Seq<(u64, T)>, x: (u64, T))
    requires
        sorted_pairs(s),
    ensures
        sorted_pairs(sorted_insert(s, x)),
{
    lemma_first_gt(s, x);
    lemma_sorted_insert_at(s, x);
    let p = first_gt(s, x);
    let r = s.insert(p, x);
    assert forall|i: int, j: int| 0 <= i <= j < r.len() implies #[trigger] r[i].0
        <= #[trigger] r[j].0 by {
        if i < p && j < p {
            assert(r[i] == s[i] && r[j] == s[j]);
        } else if i < p && j == p {
            assert(r[i] == s[i]);
        } else if i < p && j > p {
            assert(r[i] == s[i] && r[j] == s[j - 1]);
        } else if i == p && j == p {
        } else if i == p && j > p {
            assert(r[j] == s[j - 1]);
        } else {
            assert(r[i] == s[i - 1] && r[j] == s[j - 1]);
        }
    }
}

pub proof fn lemma_sorted_insert_multiset<T>(s: Seq<(u64, T)>, x: (u64, T))
    ensures
        sorted_insert(s, x).to_multiset() == s.to_multiset().insert(x),
    decreases s.len(),
{
    broadcast use vstd::seq_lib::group_to_multiset_ensures;

    if s.len() == 0 {
        assert(seq![x] =~= Seq::<(u64, T)>::empty().push(x));
        assert(sorted_insert(s, x).to_multiset() =~= s.to_multiset().insert(x));
    } else if s[0].0 <= x.0 {
        lemma_sorted_insert_multiset(s.drop_first(), x);
        lemma_multiset_commutative(seq![s[0]], sorted_insert(s.drop_first(), x));
        lemma_multiset_commutative(seq![s[0]], s.drop_first());
        assert(seq![s[0]] + s.drop_first() =~= s);
        assert(sorted_insert(s, x).to_multiset() =~= s.to_multiset().insert(x));
    } else {
        lemma_multiset_commutative(seq![x], s);
        assert(sorted_insert(s, x).to_multiset() =~= s.to_multiset().insert(x));
    }
}

/// The sort returns a permutation of its input.
pub proof fn lemma_insort_multiset<T>(s: Seq<(u64, T)>)
    ensures
        insort(s).to_multiset() == s.to_multiset(),
        insort(s).len() == s.len(),
    decreases s.len(),
{
    broadcast use vstd::seq_lib::group_to_multiset_ensures;

    if s.len() == 0 {
        assert(insort(s).to_multiset() =~= s.to_multiset());
    } else {
        lemma_insort_multiset(s.drop_last());
        lemma_sorted_insert_multiset(insort(s.drop_last()), s.last());
        assert(s.drop_last().push(s.last()) =~= s);
        assert(insort(s).to_multiset() =~= s.to_multiset());
    }
    assert(insort(s).to_multiset().len() == insort(s).len());
    assert(s.to_multiset().len() == s.len());
}

/// The sort's result is sorted.
pub proof fn lemma_insort_sorted<T>(s: Seq<(u64, T)>)
    ensures
        sorted_pairs(insort(s)),
    decreases s.len(),
{
    if s.len() == 0 {
    } else {
        lemma_insort_sorted(s.drop_last());
        lemma_sorted_insert_sorted(insort(s.drop_last()), s.last());
    }
}

/// A list that is already sorted comes back unchanged.
pub proof fn lemma_insort_of_sorted<T>(s: Seq<(u64, T)>)
    requires
        sorted_pairs(s),
    ensures
        insort(s) == s,
    decreases s.len(),
{
    if s.len() == 0 {
        assert(insort(s) =~= s);
    } else {
        let d = s.drop_last();
        assert(sorted_pairs(d)) by {
            assert(forall|i: int, j: int| 0 <= i <= j < d.len() ==> d[i] == s[i] && d[j] == s[j]);
        }
        lemma_insort_of_sorted(d);
        lemma_sorted_insert_at(d, s.last());
        lemma_first_gt(d, s.last());
        let p = first_gt(d, s.last());
        assert(p == d.len()) by {
            if p < d.len() {
                assert(s[p].0 <= s[s.len() - 1].0);
            }
        }
        assert(d.insert(d.len() as int, s.last()) =~= s);
    }
}

/// Maps the payload of a pair, keeping its key.
pub open spec fn keyed_map<T, U>(f: spec_fn(T) -> U) -> spec_fn((u64, T)) -> (u64, U) {
    |p: (u64, T)| (p.0, f(p.1))
}

/// Mapping payloads commutes with insertion: keys decide everything.
pub proof fn lemma_sorted_insert_map<T, U>(s: Seq<(u64, T)>, x: (u64, T), f: spec_fn(T) -> U)
    ensures
        sorted_insert(s, x).map_values(keyed_map(f)) == sorted_insert(
            s.map_values(keyed_map(f)),
            keyed_map(f)(x),
        ),
    decreases s.len(),
{
    let g = keyed_map(f);
    if s.len() == 0 {
        assert(sorted_insert(s, x).map_values(g) =~= sorted_insert(s.map_values(g), g(x)));
    } else if s[0].0 <= x.0 {
        lemma_sorted_insert_map(s.drop_first(), x, f);
        assert(s.map_values(g).drop_first() =~= s.drop_first().map_values(g));
        assert(sorted_insert(s, x).map_values(g) =~= seq![g(s[0])] + sorted_insert(
            s.drop_first(),
            x,
        ).map_values(g));
        assert(sorted_insert(s.map_values(g), g(x)) =~= seq![g(s[0])] + sorted_insert(
            s.drop_first().map_values(g),
            g(x),
        ));
    } else {
        assert(sorted_insert(s, x).map_values(g) =~= seq![g(x)] + s.map_values(g));
        assert(sorted_insert(s.map_values(g), g(x)) =~= seq![g(x)] + s.map_values(g));
    }
}

/// Mapping payloads commutes with the whole sort.
pub proof fn lemma_insort_map<T, U>(s: Seq<(u64, T)>, f: spec_fn(T) -> U)
    ensures
        insort(s).map_values(keyed_map(f)) == insort(s.map_values(keyed_map(f))),
    decreases s.len(),
{
    let g = keyed_map(f);
    if s.len() == 0 {
        assert(insort(s).map_values(g) =~= insort(s.map_values(g)));
    } else {
        lemma_insort_map(s.drop_last(), f);
        lemma_sorted_insert_map(insort(s.drop_last()), s.last(), f);
        assert(s.map_values(g).drop_last() =~= s.drop_last().map_values(g));
        assert(s.map_values(g).last() == g(s.last()));
    }
}

/// Two sequences holding the same elements keep holding the same elements
/// after both are mapped.
pub proof fn lemma_map_multiset<T, U>(a: Seq<T>, b: Seq<T>, f: spec_fn(T) -> U)
    requires
        a.to_multiset() == b.to_multiset(),
    ensures
        a.map_values(f).to_multiset() == b.map_values(f).to_multiset(),
    decreases a.len(),
{
    broadcast use vstd::seq_lib::group_to_multiset_ensures;
    broadcast use vstd::multiset::group_multiset_axioms;

    if a.len() == 0 {
        assert(a.to_multiset().len() == 0);
        assert(b.to_multiset().len() == b.len());
        assert(b.len() == 0);
        assert(a.map_values(f).to_multiset() =~= b.map_values(f).to_multiset());
    } else {
        let x = a[0];
        assert(a.contains(x));
        assert(a.to_multiset().count(x) > 0);
        assert(b.contains(x));
        let j = choose|j: int| 0 <= j < b.len() && b[j] == x;
        assert(a.remove(0) =~= a.drop_first());
        assert(a.drop_first().to_multiset() =~= a.to_multiset().remove(x));
        assert(b.remove(j).to_multiset() =~= b.to_multiset().remove(x));
        lemma_map_multiset(a.drop_first(), b.remove(j), f);
        assert(a.map_values(f).remove(0) =~= a.drop_first().map_values(f));
        assert(b.map_values(f).remove(j) =~= b.remove(j).map_values(f));
        let ma = a.map_values(f);
        let mb = b.map_values(f);
        assert(ma[0] == f(x));
        assert(mb[j] == f(x));
        assert(ma.remove(0).to_multiset() =~= ma.to_multiset().remove(f(x)));
        assert(mb.remove(j).to_multiset() =~= mb.to_multiset().remove(f(x)));
        let y = f(x);
        let na = ma.to_multiset();
        let nb = mb.to_multiset();
        assert(na.remove(y) =~= nb.remove(y));
        assert(ma.contains(y));
        assert(mb.contains(y));
        assert(na.count(y) > 0);
        assert(nb.count(y) > 0);
        assert forall|z: U| na.count(z) == nb.count(z) by {
            if z == y {
                assert(na.remove(y).count(y) == na.count(y) - 1);
                assert(nb.remove(y).count(y) == nb.count(y) - 1);
            } else {
                assert(na.remove(y).count(z) == na.count(z));
                assert(nb.remove(y).count(z) == nb.count(z));
            }
        }
        assert(na =~= nb);
    }
}

/// Sorts pairs by key, keeping the arrival order of equal keys.
pub fn sort_pairs<T>(v: Vec<(u64, T)>) -> (r: Vec<(u64, T)>)
    ensures
        r@ == insort(v@),
        sorted_pairs(r@),
{
    let ghost orig = v@;
    let mut v = v;
    let mut out: Vec<(u64, T)> = Vec::new();
    let ghost n: int = orig.len() as int;
    let mut i: usize = 0;
    assert(orig.take(0) =~= Seq::<(u64, T)>::empty());
    assert(orig.skip(0) =~= orig);
    let l0 = v.len();
    assert(orig.len() == l0 as int);
    while v.len() > 0
        invariant
            orig.len() <= usize::MAX as int,
            i <= orig.len(),
            v@ == orig.skip(i as int),
            out@ == insort(orig.take(i as int)),
            sorted_pairs(out@),
        decreases v@.len(),
    {
        proof {
            assert(orig.skip(i as int).len() > 0);
            assert(i < orig.len());
        }
        let x = v.remove(0);
        proof {
            assert(orig.skip(i as int).remove(0) =~= orig.skip(i as int + 1));
            assert(x == orig[i as int]);
        }
        let mut pos: usize = 0;
        while pos < out.len() && out[pos].0 <= x.0
            invariant
                pos <= out@.len(),
                forall|k: int| 0 <= k < pos ==> #[trigger] out@[k].0 <= x.0,
            decreases out@.len() - pos,
        {
            pos = pos + 1;
        }
        proof {
            lemma_first_gt(out@, x);
            assert(pos == first_gt(out@, x)) by {
                let p = first_gt(out@, x);
                if p < pos {
                    assert(out@[p].0 <= x.0);
                }
                if pos < p {
                    assert(out@[pos as int].0 <= x.0);
                }
            }
            lemma_sorted_insert_at(out@, x);
            lemma_sorted_insert_sorted(out@, x);
            assert(orig.take(i + 1).drop_last() =~= orig.take(i as int));
            assert(orig.take(i + 1).last() == orig[i as int]);
        }
        out.insert(pos, x);
        i = i + 1;
    }
    assert(orig.take(n) =~= orig);
    out
}

} // verus!

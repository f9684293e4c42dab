//! Sequence facts the graph builder is stated with: first-appearance
//! order, occurrence counts, and the consecutive pairs of a list of
//! sequences.

use vstd::prelude::*;

verus! {

/// The distinct elements of `s`, in order of first appearance.
pub open spec fn distinct_in_order<T>(s: Seq<T>) -> Seq<T>
    decreases s.len(),
{
    if s.len() == 0 {
        Seq::empty()
    } else {
        let d = distinct_in_order(s.drop_last());
        if d.contains(s.last()) {
            d
        } else {
            d.push(s.last())
        }
    }
}

/// The number of occurrences of `x` in `s`.
pub open spec fn count_of<T>(s: Seq<T>, x: T) -> nat
    decreases s.len(),
{
    if s.len() == 0 {
        0
    } else {
        count_of(s.drop_last(), x) + if s.last() == x {
            1nat
        } else {
            0nat
        }
    }
}

/// No element occurs twice.
pub open spec fn no_duplicates<T>(s: Seq<T>) -> bool {
    forall|i: int, j: int| 0 <= i < j < s.len() ==> s[i] != s[j]
}

/// The sequences of `seqs`, one after another.
pub open spec fn flatten<T>(seqs: Seq<Seq<T>>) -> Seq<T>
    decreases seqs.len(),
{
    if seqs.len() == 0 {
        Seq::empty()
    } else {
        flatten(seqs.drop_last()) + seqs.last()
    }
}

/// The consecutive pairs `(s[i], s[i + 1])` of `s`, in order.
pub open spec fn pairs_of<T>(s: Seq<T>) -> Seq<(T, T)> {
    if s.len() == 0 {
        Seq::empty()
    } else {
        Seq::new((s.len() - 1) as nat, |i: int| (s[i], s[i + 1]))
    }
}

/// The consecutive pairs of every sequence of `seqs`, one sequence after
/// another (no pair spans two sequences).
pub open spec fn all_pairs<T>(seqs: Seq<Seq<T>>) -> Seq<(T, T)>
    decreases seqs.len(),
{
    if seqs.len() == 0 {
        Seq::empty()
    } else {
        all_pairs(seqs.drop_last()) + pairs_of(seqs.last())
    }
}

pub proof fn lemma_distinct_push<T>(s: Seq<T>, x: T)
    ensures
        distinct_in_order(s.push(x)) == if distinct_in_order(s).contains(x) {
            distinct_in_order(s)
        } else {
            distinct_in_order(s).push(x)
        },
{
    assert(s.push(x).drop_last() =~= s);
}

pub proof fn lemma_count_push<T>(s: Seq<T>, x: T, y: T)
    ensures
        count_of(s.push(x), y) == count_of(s, y) + if x == y {
            1nat
        } else {
            0nat
        },
{
    assert(s.push(x).drop_last() =~= s);
}

/// The distinct elements are exactly the elements, each once.
pub proof fn lemma_distinct_props<T>(s: Seq<T>)
    ensures
        no_duplicates(distinct_in_order(s)),
        forall|x: T| distinct_in_order(s).contains(x) <==> s.contains(x),
        distinct_in_order(s).len() <= s.len(),
    decreases s.len(),
{
    if s.len() > 0 {
        let t = s.drop_last();
        lemma_distinct_props(t);
        assert(s =~= t.push(s.last()));
        let d = distinct_in_order(t);
        assert forall|x: T| distinct_in_order(s).contains(x) <==> s.contains(x) by {
            if s.contains(x) {
                let i = choose|i: int| 0 <= i < s.len() && s[i] == x;
                if i < t.len() {
                    assert(t[i] == x);
                    assert(t.contains(x));
                    assert(d.contains(x));
                    let q = choose|q: int| 0 <= q < d.len() && d[q] == x;
                    if !d.contains(s.last()) {
                        assert(d.push(s.last())[q] == x);
                    }
                } else {
                    assert(x == s.last());
                    if !d.contains(s.last()) {
                        assert(d.push(s.last())[d.len() as int] == x);
                    }
                }
            }
            if distinct_in_order(s).contains(x) {
                if d.contains(x) {
                    assert(t.contains(x));
                    let i = choose|i: int| 0 <= i < t.len() && t[i] == x;
                    assert(s[i] == x);
                } else {
                    let q = choose|q: int|
                        0 <= q < distinct_in_order(s).len() && distinct_in_order(s)[q] == x;
                    if q < d.len() {
                        assert(d[q] == x);
                    }
                    assert(x == s.last());
                    assert(s[s.len() - 1] == x);
                }
            }
        }
        if !d.contains(s.last()) {
            assert forall|i: int, j: int|
                0 <= i < j < d.push(s.last()).len() implies d.push(s.last())[i] != d.push(
                s.last(),
            )[j] by {
                if j == d.len() {
                    assert(d[i] == d.push(s.last())[i]);
                }
            }
        }
    }
}

/// An element occurs exactly when its count is positive.
pub proof fn lemma_count_contains<T>(s: Seq<T>, x: T)
    ensures
        count_of(s, x) > 0 <==> s.contains(x),
        count_of(s, x) <= s.len(),
    decreases s.len(),
{
    if s.len() > 0 {
        let t = s.drop_last();
        lemma_count_contains(t, x);
        assert(s =~= t.push(s.last()));
        if t.contains(x) {
            let i = choose|i: int| 0 <= i < t.len() && t[i] == x;
            assert(s[i] == x);
        }
        if s.contains(x) && s.last() != x {
            let i = choose|i: int| 0 <= i < s.len() && s[i] == x;
            assert(i < t.len());
            assert(t[i] == x);
        }
    }
}

/// The distinct elements of a prefix come first among those of the whole.
pub proof fn lemma_distinct_prefix<T>(s: Seq<T>, t: Seq<T>)
    ensures
        distinct_in_order(s).len() <= distinct_in_order(s + t).len(),
    decreases t.len(),
{
    if t.len() > 0 {
        lemma_distinct_prefix(s, t.drop_last());
        assert((s + t).drop_last() =~= s + t.drop_last());
    } else {
        assert(s + t =~= s);
    }
}

pub proof fn lemma_flatten_concat<T>(a: Seq<Seq<T>>, b: Seq<Seq<T>>)
    ensures
        flatten(a + b) == flatten(a) + flatten(b),
    decreases b.len(),
{
    if b.len() == 0 {
        assert(a + b =~= a);
        assert(flatten(a) + flatten(b) =~= flatten(a));
    } else {
        lemma_flatten_concat(a, b.drop_last());
        assert((a + b).drop_last() =~= a + b.drop_last());
        assert(flatten(a) + flatten(b.drop_last()) + b.last() =~= flatten(a) + (flatten(
            b.drop_last(),
        ) + b.last()));
    }
}

pub proof fn lemma_all_pairs_concat<T>(a: Seq<Seq<T>>, b: Seq<Seq<T>>)
    ensures
        all_pairs(a + b) == all_pairs(a) + all_pairs(b),
    decreases b.len(),
{
    if b.len() == 0 {
        assert(a + b =~= a);
        assert(all_pairs(a) + all_pairs(b) =~= all_pairs(a));
    } else {
        lemma_all_pairs_concat(a, b.drop_last());
        assert((a + b).drop_last() =~= a + b.drop_last());
        assert(all_pairs(a) + all_pairs(b.drop_last()) + pairs_of(b.last()) =~= all_pairs(a) + (
        all_pairs(b.drop_last()) + pairs_of(b.last())));
    }
}

/// There are no more pairs than elements.
pub proof fn lemma_pairs_len<T>(seqs: Seq<Seq<T>>)
    ensures
        all_pairs(seqs).len() <= flatten(seqs).len(),
    decreases seqs.len(),
{
    if seqs.len() > 0 {
        lemma_pairs_len(seqs.drop_last());
    }
}

/// The first `k` sequences and the first `j` elements of the next one make
/// a prefix of the whole.
pub proof fn lemma_flatten_split<T>(seqs: Seq<Seq<T>>, k: int, j: int)
    requires
        0 <= k < seqs.len(),
        0 <= j <= seqs[k].len(),
    ensures
        flatten(seqs) == flatten(seqs.subrange(0, k)) + seqs[k].subrange(0, j) + (seqs[k].subrange(
            j,
            seqs[k].len() as int,
        ) + flatten(seqs.subrange(k + 1, seqs.len() as int))),
        all_pairs(seqs) == all_pairs(seqs.subrange(0, k)) + pairs_of(seqs[k]) + all_pairs(
            seqs.subrange(k + 1, seqs.len() as int),
        ),
{
    let a = seqs.subrange(0, k);
    let b = seqs.subrange(k, seqs.len() as int);
    assert(seqs =~= a + b);
    lemma_flatten_concat(a, b);
    lemma_all_pairs_concat(a, b);
    let c = seqs.subrange(k + 1, seqs.len() as int);
    assert(b =~= seq![seqs[k]] + c);
    lemma_flatten_concat(seq![seqs[k]], c);
    lemma_all_pairs_concat(seq![seqs[k]], c);
    assert(seq![seqs[k]].drop_last() =~= Seq::<Seq<T>>::empty());
    assert(flatten(seq![seqs[k]]) == flatten(Seq::<Seq<T>>::empty()) + seqs[k]);
    assert(Seq::<T>::empty() + seqs[k] =~= seqs[k]);
    assert(all_pairs(seq![seqs[k]]) == all_pairs(Seq::<Seq<T>>::empty()) + pairs_of(seqs[k]));
    assert(Seq::<(T, T)>::empty() + pairs_of(seqs[k]) =~= pairs_of(seqs[k]));
    assert(seqs[k] =~= seqs[k].subrange(0, j) + seqs[k].subrange(j, seqs[k].len() as int));
    assert(flatten(a) + (seqs[k] + flatten(c)) =~= flatten(a) + seqs[k].subrange(0, j) + (
    seqs[k].subrange(j, seqs[k].len() as int) + flatten(c)));
    assert(all_pairs(a) + (pairs_of(seqs[k]) + all_pairs(c)) =~= all_pairs(a) + pairs_of(seqs[k])
        + all_pairs(c));
}

/// The first `k + 1` sequences: the first `k`, then the next one.
pub proof fn lemma_prefix_step<T>(seqs: Seq<Seq<T>>, k: int)
    requires
        0 <= k < seqs.len(),
    ensures
        flatten(seqs.subrange(0, k + 1)) == flatten(seqs.subrange(0, k)) + seqs[k],
        all_pairs(seqs.subrange(0, k + 1)) == all_pairs(seqs.subrange(0, k)) + pairs_of(seqs[k]),
{
    assert(seqs.subrange(0, k + 1).drop_last() =~= seqs.subrange(0, k));
}

/// The first `j` pairs of `s`, then the next.
pub proof fn lemma_pairs_step<T>(s: Seq<T>, j: int)
    requires
        0 <= j,
        j + 1 < s.len(),
    ensures
        pairs_of(s).subrange(0, j + 1) == pairs_of(s).subrange(0, j).push((s[j], s[j + 1])),
{
    assert(pairs_of(s).subrange(0, j + 1) =~= pairs_of(s).subrange(0, j).push((s[j], s[j + 1])));
}

} // verus!

//! Session similarity over dimension sets: the dimensions of a session are
//! its command ids, screen ids and outcomes, each prefixed by its kind
//! (`cmd:`, `scr:`, `out:`), and two sessions are compared by the
//! dimensions they share and the dimensions either has (the numerator and
//! denominator of their Jaccard similarity).

use vstd::prelude::*;

use crate::graph::dfg::texts;
use crate::graph::seqs::{distinct_in_order, lemma_distinct_props, lemma_distinct_push, no_duplicates};

verus! {

/// Each text of `s` behind `prefix`.
pub open spec fn prefixed(prefix: Seq<char>, s: Seq<Seq<char>>) -> Seq<Seq<char>> {
    s.map_values(|x: Seq<char>| prefix + x)
}

/// The dimensions of a session, command ids first, then screen ids, then
/// outcomes.
pub open spec fn dimensions(commands: Seq<Seq<char>>, screens: Seq<Seq<char>>, outcomes: Seq<Seq<char>>) -> Seq<Seq<char>> {
    prefixed("cmd:"@, commands) + prefixed("scr:"@, screens) + prefixed("out:"@, outcomes)
}

/// How many of the texts of `d` (up to position `n`) occur in `b`.
pub open spec fn count_in(d: Seq<Seq<char>>, b: Seq<Seq<char>>, n: nat) -> nat
    decreases n,
{
    if n == 0 || n > d.len() {
        0
    } else {
        count_in(d, b, (n - 1) as nat) + if b.contains(d[n - 1]) {
            1nat
        } else {
            0nat
        }
    }
}

/// The number of distinct dimensions the two sessions share.
pub open spec fn shared_count(a: Seq<Seq<char>>, b: Seq<Seq<char>>) -> nat {
    count_in(distinct_in_order(a), b, distinct_in_order(a).len())
}

/// The number of distinct dimensions either session has.
pub open spec fn union_count(a: Seq<Seq<char>>, b: Seq<Seq<char>>) -> nat {
    (distinct_in_order(a).len() + distinct_in_order(b).len() - shared_count(b, a)) as nat
}

fn push_prefixed(out: &mut Vec<String>, prefix: &str, ids: &[String])
    ensures
        texts(final(out)@) == texts(old(out)@) + prefixed(prefix@, texts(ids@)),
{
    let ghost base = texts(out@);
    let mut i: usize = 0;
    while i < ids.len()
        invariant
            i <= ids@.len(),
            texts(out@) == base + prefixed(prefix@, texts(ids@)).subrange(0, i as int),
        decreases ids@.len() - i,
    {
        let mut s = String::from_str(prefix);
        s.append(ids[i].as_str());
        let ghost prev = out@;
        out.push(s);
        proof {
            assert(texts(out@) =~= texts(prev).push(s@));
            assert(prefixed(prefix@, texts(ids@))[i as int] == prefix@ + ids@[i as int]@);
            assert(prefixed(prefix@, texts(ids@)).subrange(0, i + 1) =~= prefixed(prefix@, texts(ids@)).subrange(
                0,
                i as int,
            ).push(prefix@ + ids@[i as int]@));
        }
        i += 1;
    }
    assert(prefixed(prefix@, texts(ids@)).subrange(0, ids@.len() as int) =~= prefixed(prefix@, texts(ids@)));
}

/// The dimension strings of a session.
pub fn dimension_strings(commands: &[String], screens: &[String], outcomes: &[String]) -> (r: Vec<String>)
    ensures
        texts(r@) == dimensions(texts(commands@), texts(screens@), texts(outcomes@)),
{
    let mut out: Vec<String> = Vec::new();
    assert(texts(out@) =~= Seq::<Seq<char>>::empty());
    push_prefixed(&mut out, "cmd:", commands);
    push_prefixed(&mut out, "scr:", screens);
    push_prefixed(&mut out, "out:", outcomes);
    assert(texts(out@) =~= dimensions(texts(commands@), texts(screens@), texts(outcomes@)));
    out
}

/// Whether `x` is among the texts of `v`.
fn has_text(v: &Vec<String>, x: &String) -> (r: bool)
    ensures
        r == texts(v@).contains(x@),
{
    let mut i: usize = 0;
    while i < v.len()
        invariant
            i <= v@.len(),
            forall|j: int| 0 <= j < i ==> v@[j]@ != x@,
        decreases v@.len() - i,
    {
        if v[i] == *x {
            assert(texts(v@)[i as int] == x@);
            return true;
        }
        i += 1;
    }
    proof {
        if texts(v@).contains(x@) {
            let j = choose|j: int| 0 <= j < texts(v@).len() && texts(v@)[j] == x@;
            assert(v@[j]@ == x@);
        }
    }
    false
}

/// The distinct texts of `a`, in order of first appearance.
fn distinct_texts(a: &[String]) -> (r: Vec<String>)
    ensures
        texts(r@) == distinct_in_order(texts(a@)),
{
    let mut r: Vec<String> = Vec::new();
    let mut i: usize = 0;
    assert(texts(a@).subrange(0, 0) =~= Seq::<Seq<char>>::empty());
    assert(texts(r@) =~= Seq::<Seq<char>>::empty());
    while i < a.len()
        invariant
            i <= a@.len(),
            texts(r@) == distinct_in_order(texts(a@).subrange(0, i as int)),
        decreases a@.len() - i,
    {
        proof {
            lemma_distinct_push(texts(a@).subrange(0, i as int), a@[i as int]@);
            assert(texts(a@).subrange(0, i + 1) =~= texts(a@).subrange(0, i as int).push(a@[i as int]@));
        }
        let x = a[i].clone();
        if !has_text(&r, &x) {
            let ghost prev = r@;
            r.push(x);
            assert(texts(r@) =~= texts(prev).push(x@));
        }
        i += 1;
    }
    assert(texts(a@).subrange(0, a@.len() as int) =~= texts(a@));
    r
}

proof fn lemma_count_in_bound(d: Seq<Seq<char>>, b: Seq<Seq<char>>, n: nat)
    requires
        n <= d.len(),
    ensures
        count_in(d, b, n) <= n,
    decreases n,
{
    if n > 0 {
        lemma_count_in_bound(d, b, (n - 1) as nat);
    }
}

/// How many texts of `d` occur in `b`.
fn count_present(d: &Vec<String>, b: &Vec<String>) -> (r: usize)
    ensures
        r == count_in(texts(d@), texts(b@), d@.len()),
{
    let mut c: usize = 0;
    let mut i: usize = 0;
    while i < d.len()
        invariant
            i <= d@.len(),
            c == count_in(texts(d@), texts(b@), i as nat),
            c <= i,
        decreases d@.len() - i,
    {
        assert(texts(d@)[i as int] == d@[i as int]@);
        if has_text(b, &d[i]) {
            c += 1;
        }
        i += 1;
    }
    c
}

/// The number of distinct dimensions two sessions share, and the number
/// either has.
pub fn overlap_counts(a: &[String], b: &[String]) -> (r: (usize, usize))
    requires
        a@.len() + b@.len() <= usize::MAX,
    ensures
        r.0 == shared_count(texts(a@), texts(b@)),
        r.1 == union_count(texts(a@), texts(b@)),
{
    let da = distinct_texts(a);
    let db = distinct_texts(b);
    proof {
        lemma_distinct_props(texts(a@));
        lemma_distinct_props(texts(b@));
    }
    let shared = count_present(&da, &db);
    let shared_back = count_present(&db, &da);
    proof {
        assert(texts(da@).len() == da@.len());
        assert(texts(db@).len() == db@.len());
        lemma_count_in_bound(texts(db@), texts(da@), db@.len() as nat);
        lemma_count_in_ext(texts(da@), texts(db@), texts(b@), da@.len() as nat);
        lemma_count_in_ext(texts(db@), texts(da@), texts(a@), db@.len() as nat);
    }
    (shared, da.len() + db.len() - shared_back)
}

/// Counting against two sequences that hold the same texts gives the same
/// count.
proof fn lemma_count_in_ext(d: Seq<Seq<char>>, b1: Seq<Seq<char>>, b2: Seq<Seq<char>>, n: nat)
    requires
        n <= d.len(),
        forall|x: Seq<char>| #[trigger] b1.contains(x) <==> b2.contains(x),
    ensures
        count_in(d, b1, n) == count_in(d, b2, n),
    decreases n,
{
    if n > 0 {
        lemma_count_in_ext(d, b1, b2, (n - 1) as nat);
    }
}

/// The texts among the first `n` of `d` that occur in `b`, as a set.
pub open spec fn present_set(d: Seq<Seq<char>>, b: Seq<Seq<char>>, n: nat) -> Set<Seq<char>>
    decreases n,
{
    if n == 0 || n > d.len() {
        Set::empty()
    } else {
        let r = present_set(d, b, (n - 1) as nat);
        if b.contains(d[n - 1]) {
            r.insert(d[n - 1])
        } else {
            r
        }
    }
}

proof fn lemma_present_set(d: Seq<Seq<char>>, b: Seq<Seq<char>>, n: nat)
    requires
        n <= d.len(),
        no_duplicates(d),
    ensures
        present_set(d, b, n).finite(),
        present_set(d, b, n).len() == count_in(d, b, n),
        forall|x: Seq<char>|
            #[trigger] present_set(d, b, n).contains(x) <==> (b.contains(x) && exists|k: int| 0 <= k < n && d[k] == x),
    decreases n,
{
    if n > 0 {
        lemma_present_set(d, b, (n - 1) as nat);
        let x = d[n - 1];
        let r = present_set(d, b, (n - 1) as nat);
        assert(!r.contains(x)) by {
            if r.contains(x) {
                let k = choose|k: int| 0 <= k < n - 1 && d[k] == x;
                assert(d[k] != d[n - 1]);
            }
        }
        assert forall|y: Seq<char>|
            #[trigger] present_set(d, b, n).contains(y) <==> (b.contains(y) && exists|k: int| 0 <= k < n && d[k] == y) by {
            if b.contains(y) && exists|k: int| 0 <= k < n && d[k] == y {
                let k = choose|k: int| 0 <= k < n && d[k] == y;
                if k < n - 1 {
                    assert(r.contains(y));
                }
            }
        }
    }
}

/// The overlap of two sessions does not depend on which comes first:
/// they share as many dimensions either way, and have as many between
/// them.
pub proof fn overlap_is_symmetric(a: Seq<Seq<char>>, b: Seq<Seq<char>>)
    ensures
        shared_count(a, b) == shared_count(b, a),
        union_count(a, b) == union_count(b, a),
{
    let da = distinct_in_order(a);
    let db = distinct_in_order(b);
    lemma_distinct_props(a);
    lemma_distinct_props(b);
    lemma_present_set(da, b, da.len());
    lemma_present_set(db, a, db.len());
    let sa = present_set(da, b, da.len());
    let sb = present_set(db, a, db.len());
    assert forall|x: Seq<char>| #[trigger] sa.contains(x) <==> sb.contains(x) by {
        if sa.contains(x) {
            let k = choose|k: int| 0 <= k < da.len() && da[k] == x;
            assert(da.contains(x));
            assert(db.contains(x));
            let q = choose|q: int| 0 <= q < db.len() && db[q] == x;
            assert(a.contains(x));
        }
        if sb.contains(x) {
            let k = choose|k: int| 0 <= k < db.len() && db[k] == x;
            assert(db.contains(x));
            assert(da.contains(x));
            let q = choose|q: int| 0 <= q < da.len() && da[q] == x;
            assert(b.contains(x));
        }
    }
    assert(sa =~= sb);
}

} // verus!

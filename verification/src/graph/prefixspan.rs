//! `PrefixSpan` frequent-subsequence mining.
//!
//! A pattern `[a, b, c]` is contained in a sequence `s` when there are
//! positions `i1 < i2 < i3` with `s[i1] = a`, `s[i2] = b`, `s[i3] = c`
//! (matches need not be contiguous). The support of a pattern is the
//! number of input sequences that contain it.

use vstd::prelude::*;

use crate::normalizer::fold::{embeds, is_subsequence};
use crate::graph::action_graph::find_action;
use crate::graph::seqs::no_duplicates;
use crate::scenario::{actions_model, ActionModel, CanonicalAction};

verus! {

/// The number of sequences among the first `n` of `seqs` that contain `p`.
pub open spec fn support_upto(seqs: Seq<Seq<ActionModel>>, p: Seq<ActionModel>, n: nat) -> nat
    decreases n,
{
    if n == 0 || n > seqs.len() {
        0
    } else {
        support_upto(seqs, p, (n - 1) as nat) + if is_subsequence(p, seqs[n - 1]) {
            1nat
        } else {
            0nat
        }
    }
}

/// The number of sequences of `seqs` that contain `p`.
pub open spec fn support(seqs: Seq<Seq<ActionModel>>, p: Seq<ActionModel>) -> nat {
    support_upto(seqs, p, seqs.len())
}

/// The non-empty patterns extending `prefix` whose support is at least
/// `min`.
pub open spec fn frequent_extensions(
    seqs: Seq<Seq<ActionModel>>,
    prefix: Seq<ActionModel>,
    min: nat,
) -> Set<Seq<ActionModel>> {
    Set::new(
        |p: Seq<ActionModel>|
            p.len() > prefix.len() && p.subrange(0, prefix.len() as int) == prefix && support(seqs, p)
                >= min,
    )
}

/// The number of projected suffixes among the first `n` that contain `q`.
pub open spec fn db_support_upto(db: Seq<Option<Seq<ActionModel>>>, q: Seq<ActionModel>, n: nat) -> nat
    decreases n,
{
    if n == 0 || n > db.len() {
        0
    } else {
        db_support_upto(db, q, (n - 1) as nat) + match db[n - 1] {
            Some(s) => if is_subsequence(q, s) {
                1nat
            } else {
                0nat
            },
            None => 0nat,
        }
    }
}

/// The pattern `prefix` followed by `q`.
pub open spec fn extend(prefix: Seq<ActionModel>, q: Seq<ActionModel>) -> Seq<ActionModel> {
    prefix + q
}

/// `db` is the database projected on `prefix`: sequence `i` contains
/// `prefix` followed by a non-empty `q` exactly when it has a suffix in
/// `db` that contains `q`.
pub open spec fn projected_on(
    seqs: Seq<Seq<ActionModel>>,
    prefix: Seq<ActionModel>,
    db: Seq<Option<Seq<ActionModel>>>,
) -> bool {
    &&& db.len() == seqs.len()
    &&& forall|i: int, q: Seq<ActionModel>|
        0 <= i < seqs.len() && q.len() > 0 ==> (is_subsequence(#[trigger] extend(prefix, q), seqs[i]) <==> (
        #[trigger] db[i] matches Some(s) && is_subsequence(q, s)))
}

/// The index of the first occurrence of `x` in `s` (`s.len()` when absent).
pub open spec fn first_index(s: Seq<ActionModel>, x: ActionModel) -> int
    decreases s.len(),
{
    if s.len() == 0 {
        0
    } else if s[0] == x {
        0
    } else {
        1 + first_index(s.drop_first(), x)
    }
}

proof fn lemma_first_index(s: Seq<ActionModel>, x: ActionModel)
    ensures
        0 <= first_index(s, x) <= s.len(),
        s.contains(x) ==> first_index(s, x) < s.len() && s[first_index(s, x)] == x,
        forall|j: int| 0 <= j < first_index(s, x) ==> s[j] != x,
        !s.contains(x) ==> first_index(s, x) == s.len(),
    decreases s.len(),
{
    if s.len() > 0 && s[0] != x {
        let t = s.drop_first();
        lemma_first_index(t, x);
        assert forall|j: int| 0 <= j < first_index(s, x) implies s[j] != x by {
            if j > 0 {
                assert(s[j] == t[j - 1]);
            }
        }
        if s.contains(x) {
            let k = choose|k: int| 0 <= k < s.len() && s[k] == x;
            assert(t[k - 1] == x);
            assert(t.contains(x));
        }
        if !s.contains(x) {
            if t.contains(x) {
                let k = choose|k: int| 0 <= k < t.len() && t[k] == x;
                assert(s[k + 1] == x);
            }
        }
    } else if s.len() > 0 {
        assert(s.contains(x));
    }
}

/// A single element is contained exactly when it occurs.
proof fn lemma_single_subsequence(x: ActionModel, s: Seq<ActionModel>)
    ensures
        is_subsequence(seq![x], s) <==> s.contains(x),
{
    if s.contains(x) {
        let k = choose|k: int| 0 <= k < s.len() && s[k] == x;
        assert(embeds(seq![k], seq![x], s));
    }
    if is_subsequence(seq![x], s) {
        let f = choose|f: Seq<int>| embeds(f, seq![x], s);
        assert(s[f[0]] == x);
    }
}

/// Matching the head of a pattern at the first occurrence loses nothing.
proof fn lemma_greedy(x: ActionModel, q: Seq<ActionModel>, s: Seq<ActionModel>)
    ensures
        is_subsequence(seq![x] + q, s) <==> s.contains(x) && is_subsequence(
            q,
            s.subrange(first_index(s, x) + 1, s.len() as int),
        ),
{
    lemma_first_index(s, x);
    let p = first_index(s, x);
    let xq = seq![x] + q;
    if is_subsequence(xq, s) {
        let f = choose|f: Seq<int>| embeds(f, xq, s);
        assert(xq[0] == x);
        assert(s[f[0]] == x);
        assert(s.contains(x));
        assert(f[0] >= p);
        let t = s.subrange(p + 1, s.len() as int);
        let g = Seq::new(q.len(), |i: int| f[i + 1] - (p + 1));
        assert forall|i: int| 0 <= i < g.len() implies 0 <= #[trigger] g[i] < t.len() && q[i] == t[g[i]] by {
            assert(f[0] < f[i + 1]);
            assert(xq[i + 1] == q[i]);
        }
        assert forall|i: int, j: int| 0 <= i < j < g.len() implies g[i] < g[j] by {
            assert(f[i + 1] < f[j + 1]);
        }
        assert(embeds(g, q, t));
    }
    if s.contains(x) && is_subsequence(q, s.subrange(p + 1, s.len() as int)) {
        let t = s.subrange(p + 1, s.len() as int);
        let g = choose|g: Seq<int>| embeds(g, q, t);
        let f = Seq::new(xq.len(), |i: int| if i == 0 { p } else { g[i - 1] + p + 1 });
        assert forall|i: int| 0 <= i < f.len() implies 0 <= #[trigger] f[i] < s.len() && xq[i] == s[f[i]] by {
            if i > 0 {
                assert(xq[i] == q[i - 1]);
                assert(t[g[i - 1]] == s[g[i - 1] + p + 1]);
            }
        }
        assert forall|i: int, j: int| 0 <= i < j < f.len() implies f[i] < f[j] by {
            if i > 0 {
                assert(g[i - 1] < g[j - 1]);
            }
        }
        assert(embeds(f, xq, s));
    }
}

/// A sequence that contains a pattern contains its prefixes.
proof fn lemma_prefix_subsequence(a: Seq<ActionModel>, b: Seq<ActionModel>, s: Seq<ActionModel>)
    requires
        is_subsequence(a + b, s),
    ensures
        is_subsequence(a, s),
{
    let f = choose|f: Seq<int>| embeds(f, a + b, s);
    let g = f.subrange(0, a.len() as int);
    assert forall|i: int| 0 <= i < g.len() implies 0 <= #[trigger] g[i] < s.len() && a[i] == s[g[i]] by {
        assert((a + b)[i] == a[i]);
    }
    assert(embeds(g, a, s));
}

/// Support can only fall as a pattern grows.
proof fn lemma_support_antimonotone(seqs: Seq<Seq<ActionModel>>, a: Seq<ActionModel>, b: Seq<ActionModel>, n: nat)
    ensures
        support_upto(seqs, a + b, n) <= support_upto(seqs, a, n),
    decreases n,
{
    if n > 0 && n <= seqs.len() {
        lemma_support_antimonotone(seqs, a, b, (n - 1) as nat);
        if is_subsequence(a + b, seqs[n - 1]) {
            lemma_prefix_subsequence(a, b, seqs[n - 1]);
        }
    }
}

/// In a projected database, counting suffixes counts sequences.
proof fn lemma_db_support(
    seqs: Seq<Seq<ActionModel>>,
    prefix: Seq<ActionModel>,
    db: Seq<Option<Seq<ActionModel>>>,
    q: Seq<ActionModel>,
    n: nat,
)
    requires
        projected_on(seqs, prefix, db),
        q.len() > 0,
    ensures
        db_support_upto(db, q, n) == support_upto(seqs, prefix + q, n),
    decreases n,
{
    if n > 0 && n <= seqs.len() {
        lemma_db_support(seqs, prefix, db, q, (n - 1) as nat);
        assert(is_subsequence(extend(prefix, q), seqs[n - 1]) <==> (db[n - 1] matches Some(s)
            && is_subsequence(q, s)));
    }
}

/// The models of the projected suffixes.
pub open spec fn db_model(db: Seq<Option<Vec<CanonicalAction>>>) -> Seq<Option<Seq<ActionModel>>> {
    db.map_values(
        |e: Option<Vec<CanonicalAction>>|
            match e {
                Some(v) => Some(actions_model(v@)),
                None => None,
            },
    )
}

/// The suffix of `e` after the first occurrence of `x`, if `e` holds `x`.
pub open spec fn project_entry(e: Option<Seq<ActionModel>>, x: ActionModel) -> Option<Seq<ActionModel>> {
    match e {
        Some(s) => if s.contains(x) {
            Some(s.subrange(first_index(s, x) + 1, s.len() as int))
        } else {
            None
        },
        None => None,
    }
}

/// Empty suffixes dropped.
pub open spec fn drop_empty_entry(e: Option<Seq<ActionModel>>) -> Option<Seq<ActionModel>> {
    match e {
        Some(s) => if s.len() > 0 {
            Some(s)
        } else {
            None
        },
        None => None,
    }
}

/// The total length of the first `n` suffixes.
pub open spec fn db_size(db: Seq<Option<Seq<ActionModel>>>, n: nat) -> nat
    decreases n,
{
    if n == 0 || n > db.len() {
        0
    } else {
        db_size(db, (n - 1) as nat) + match db[n - 1] {
            Some(s) => s.len(),
            None => 0,
        }
    }
}

proof fn lemma_project(
    seqs: Seq<Seq<ActionModel>>,
    prefix: Seq<ActionModel>,
    db: Seq<Option<Seq<ActionModel>>>,
    x: ActionModel,
    db2: Seq<Option<Seq<ActionModel>>>,
)
    requires
        projected_on(seqs, prefix, db),
        db2.len() == db.len(),
        forall|i: int| 0 <= i < db.len() ==> #[trigger] db2[i] == project_entry(db[i], x),
    ensures
        projected_on(seqs, prefix.push(x), db2),
{
    assert forall|i: int, q: Seq<ActionModel>| 0 <= i < seqs.len() && q.len() > 0 implies (is_subsequence(
        #[trigger] extend(prefix.push(x), q),
        seqs[i],
    ) <==> (#[trigger] db2[i] matches Some(s) && is_subsequence(q, s))) by {
        let xq = seq![x] + q;
        assert(extend(prefix.push(x), q) =~= extend(prefix, xq));
        assert(is_subsequence(extend(prefix, xq), seqs[i]) <==> (db[i] matches Some(s) && is_subsequence(xq, s)));
        if db[i] is Some {
            lemma_greedy(x, q, db[i]->0);
        }
    }
}

proof fn lemma_drop_empty(
    seqs: Seq<Seq<ActionModel>>,
    prefix: Seq<ActionModel>,
    db: Seq<Option<Seq<ActionModel>>>,
    db2: Seq<Option<Seq<ActionModel>>>,
)
    requires
        projected_on(seqs, prefix, db),
        db2.len() == db.len(),
        forall|i: int| 0 <= i < db.len() ==> #[trigger] db2[i] == drop_empty_entry(db[i]),
    ensures
        projected_on(seqs, prefix, db2),
{
    assert forall|i: int, q: Seq<ActionModel>| 0 <= i < seqs.len() && q.len() > 0 implies (is_subsequence(
        #[trigger] extend(prefix, q),
        seqs[i],
    ) <==> (#[trigger] db2[i] matches Some(s) && is_subsequence(q, s))) by {
        assert(is_subsequence(extend(prefix, q), seqs[i]) <==> (db[i] matches Some(s) && is_subsequence(q, s)));
        if let Some(s) = db[i] {
            if s.len() == 0 && is_subsequence(q, s) {
                let f = choose|f: Seq<int>| embeds(f, q, s);
                assert(0 <= f[0] < s.len());
            }
        }
    }
}

/// With no suffix left, no extension of the prefix occurs.
proof fn lemma_no_suffix(
    seqs: Seq<Seq<ActionModel>>,
    prefix: Seq<ActionModel>,
    db: Seq<Option<Seq<ActionModel>>>,
    q: Seq<ActionModel>,
)
    requires
        projected_on(seqs, prefix, db),
        forall|i: int| 0 <= i < db.len() ==> #[trigger] db[i] is None,
        q.len() > 0,
    ensures
        support(seqs, prefix + q) == 0,
{
    lemma_db_support(seqs, prefix, db, q, seqs.len());
    lemma_db_none(db, q, db.len());
}

proof fn lemma_db_none(db: Seq<Option<Seq<ActionModel>>>, q: Seq<ActionModel>, n: nat)
    requires
        forall|i: int| 0 <= i < db.len() ==> #[trigger] db[i] is None,
    ensures
        db_support_upto(db, q, n) == 0,
    decreases n,
{
    if n > 0 && n <= db.len() {
        lemma_db_none(db, q, (n - 1) as nat);
        assert(db[n - 1] is None);
    }
}

/// Projecting on an element that occurs shrinks the database.
proof fn lemma_project_shrinks(
    db: Seq<Option<Seq<ActionModel>>>,
    x: ActionModel,
    db2: Seq<Option<Seq<ActionModel>>>,
    n: nat,
)
    requires
        n <= db.len(),
        db2.len() == db.len(),
        forall|i: int| 0 <= i < db.len() ==> #[trigger] db2[i] == drop_empty_entry(project_entry(db[i], x)),
    ensures
        db_size(db2, n) <= db_size(db, n),
        (exists|i: int| 0 <= i < n && (#[trigger] db[i] matches Some(s) && s.contains(x))) ==> db_size(db2, n)
            < db_size(db, n),
    decreases n,
{
    if n > 0 {
        lemma_project_shrinks(db, x, db2, (n - 1) as nat);
        let e = db[n - 1];
        if let Some(s) = e {
            if s.contains(x) {
                lemma_first_index(s, x);
            }
        }
        if exists|i: int| 0 <= i < n && (#[trigger] db[i] matches Some(s) && s.contains(x)) {
            let i = choose|i: int| 0 <= i < n && (#[trigger] db[i] matches Some(s) && s.contains(x));
            if i < n - 1 {
                assert(exists|i: int| 0 <= i < n - 1 && (#[trigger] db[i] matches Some(s) && s.contains(x)));
            }
        }
    }
}

/// The patterns of the entries from `start` on.
pub open spec fn patterns_from(results: Seq<FrequentPattern>, start: int) -> Set<Seq<ActionModel>> {
    Set::new(
        |p: Seq<ActionModel>|
            exists|j: int| start <= j < results.len() && actions_model((#[trigger] results[j]).sequence@) == p,
    )
}

/// A frequent pattern and its support.
#[derive(Debug, PartialEq)]
pub struct FrequentPattern {
    /// The pattern.
    pub sequence: Vec<CanonicalAction>,
    /// Number of input sequences that contain the pattern.
    pub support: usize,
}

/// `y` occurs in some suffix of `db`.
pub open spec fn occurs_in_db(db: Seq<Option<Seq<ActionModel>>>, y: ActionModel) -> bool {
    exists|i: int| 0 <= i < db.len() && (#[trigger] db[i] matches Some(s) && s.contains(y))
}

proof fn lemma_db_support_occurs(db: Seq<Option<Seq<ActionModel>>>, x: ActionModel, n: nat)
    requires
        n <= db.len(),
        db_support_upto(db, seq![x], n) > 0,
    ensures
        occurs_in_db(db, x),
    decreases n,
{
    if n > 0 {
        if db_support_upto(db, seq![x], (n - 1) as nat) > 0 {
            lemma_db_support_occurs(db, x, (n - 1) as nat);
        } else {
            if let Some(s) = db[n - 1] {
                lemma_single_subsequence(x, s);
                assert(db[n - 1] matches Some(s) && s.contains(x));
            }
        }
    }
}

/// The position of the first action of `s` with the model of `x`.
fn first_position(s: &Vec<CanonicalAction>, x: &CanonicalAction) -> (r: Option<usize>)
    ensures
        r matches Some(p) ==> p < s@.len() && actions_model(s@).contains(x.model()) && p == first_index(
            actions_model(s@),
            x.model(),
        ),
        r is None ==> !actions_model(s@).contains(x.model()),
{
    let ghost sm = actions_model(s@);
    proof {
        lemma_first_index(sm, x.model());
    }
    let mut i: usize = 0;
    while i < s.len()
        invariant
            sm == actions_model(s@),
            i <= s@.len(),
            forall|j: int| 0 <= j < i ==> sm[j] != x.model(),
            0 <= first_index(sm, x.model()) <= sm.len(),
            sm.contains(x.model()) ==> first_index(sm, x.model()) < sm.len() && sm[first_index(sm, x.model())]
                == x.model(),
            forall|j: int| 0 <= j < first_index(sm, x.model()) ==> sm[j] != x.model(),
        decreases s@.len() - i,
    {
        if s[i].same(x) {
            proof {
                assert(sm[i as int] == x.model());
                assert(sm.contains(x.model()));
            }
            return Some(i);
        }
        i += 1;
    }
    proof {
        if sm.contains(x.model()) {
            let k = first_index(sm, x.model());
            assert(sm[k] == x.model());
        }
    }
    None
}

/// Copies of the actions of `s` from position `start` on.
fn copy_from(s: &Vec<CanonicalAction>, start: usize) -> (r: Vec<CanonicalAction>)
    requires
        start <= s@.len(),
    ensures
        actions_model(r@) == actions_model(s@).subrange(start as int, s@.len() as int),
{
    let mut out: Vec<CanonicalAction> = Vec::new();
    let mut i: usize = start;
    while i < s.len()
        invariant
            start <= i <= s@.len(),
            out@.len() == i - start,
            actions_model(out@) == actions_model(s@).subrange(start as int, i as int),
        decreases s@.len() - i,
    {
        let ghost before = out@;
        out.push(s[i].duplicate());
        proof {
            assert(out@ == before.push(out@[out@.len() - 1]));
            assert(actions_model(out@) =~= actions_model(s@).subrange(start as int, i + 1));
        }
        i += 1;
    }
    out
}

/// The database projected on `x`: for each suffix holding `x`, what
/// follows its first occurrence; and how many suffixes hold `x`.
fn project(db: &Vec<Option<Vec<CanonicalAction>>>, x: &CanonicalAction) -> (r: (
    Vec<Option<Vec<CanonicalAction>>>,
    usize,
))
    ensures
        r.0@.len() == db@.len(),
        forall|i: int|
            0 <= i < db@.len() ==> #[trigger] db_model(r.0@)[i] == project_entry(db_model(db@)[i], x.model()),
        r.1 == db_support_upto(db_model(db@), seq![x.model()], db@.len()),
{
    let ghost dbm = db_model(db@);
    let mut out: Vec<Option<Vec<CanonicalAction>>> = Vec::new();
    let mut count: usize = 0;
    let mut i: usize = 0;
    while i < db.len()
        invariant
            dbm == db_model(db@),
            i <= db@.len(),
            out@.len() == i,
            count <= i,
            forall|j: int| 0 <= j < i ==> #[trigger] db_model(out@)[j] == project_entry(dbm[j], x.model()),
            count == db_support_upto(dbm, seq![x.model()], i as nat),
        decreases db@.len() - i,
    {
        let ghost before = out@;
        match &db[i] {
            Some(s) => {
                let sl = s.len();
                proof {
                    lemma_single_subsequence(x.model(), actions_model(s@));
                }
                match first_position(s, x) {
                    Some(p) => {
                        proof {
                            lemma_first_index(actions_model(s@), x.model());
                        }
                        let c = copy_from(s, p + 1);
                        out.push(Some(c));
                        count += 1;
                        assert(db_model(out@)[i as int] == Some(actions_model(c@)));
                        assert(dbm[i as int] == Some(actions_model(s@)));
                    },
                    None => {
                        out.push(None);
                        assert(dbm[i as int] == Some(actions_model(s@)));
                        assert(db_model(out@)[i as int] is None);
                    },
                }
            },
            None => {
                out.push(None);
                assert(db_model(out@)[i as int] is None);
            },
        }
        proof {
            assert forall|j: int| 0 <= j < i + 1 implies #[trigger] db_model(out@)[j] == project_entry(
                dbm[j],
                x.model(),
            ) by {
                if j < i {
                    assert(out@[j] == before[j]);
                    assert(db_model(out@)[j] == db_model(before)[j]);
                }
            }
        }
        i += 1;
    }
    (out, count)
}

/// The database without its empty suffixes, and whether any suffix is left.
fn drop_empty(db: &Vec<Option<Vec<CanonicalAction>>>) -> (r: (Vec<Option<Vec<CanonicalAction>>>, bool))
    ensures
        r.0@.len() == db@.len(),
        forall|i: int| 0 <= i < db@.len() ==> #[trigger] db_model(r.0@)[i] == drop_empty_entry(db_model(db@)[i]),
        r.1 == exists|i: int| 0 <= i < db@.len() && (#[trigger] db_model(r.0@)[i]) is Some,
{
    let ghost dbm = db_model(db@);
    let mut out: Vec<Option<Vec<CanonicalAction>>> = Vec::new();
    let mut any = false;
    let mut i: usize = 0;
    while i < db.len()
        invariant
            dbm == db_model(db@),
            i <= db@.len(),
            out@.len() == i,
            forall|j: int| 0 <= j < i ==> #[trigger] db_model(out@)[j] == drop_empty_entry(dbm[j]),
            any == exists|j: int| 0 <= j < i && (#[trigger] db_model(out@)[j]) is Some,
        decreases db@.len() - i,
    {
        let ghost before = out@;
        match &db[i] {
            Some(v) => {
                if v.len() > 0 {
                    let c = copy_from(v, 0);
                    assert(actions_model(v@).subrange(0, v@.len() as int) =~= actions_model(v@));
                    out.push(Some(c));
                    any = true;
                    assert(db_model(out@)[i as int] == Some(actions_model(c@)));
                    assert(dbm[i as int] == Some(actions_model(v@)));
                } else {
                    out.push(None);
                    assert(dbm[i as int] == Some(actions_model(v@)));
                    assert(db_model(out@)[i as int] is None);
                }
            },
            None => {
                out.push(None);
                assert(db_model(out@)[i as int] is None);
            },
        }
        proof {
            assert forall|j: int| 0 <= j < i + 1 implies #[trigger] db_model(out@)[j] == drop_empty_entry(
                dbm[j],
            ) by {
                if j < i {
                    assert(out@[j] == before[j]);
                    assert(db_model(out@)[j] == db_model(before)[j]);
                }
            }
            if any {
                if db_model(out@)[i as int] is Some {
                } else {
                    let j = choose|j: int| 0 <= j < i && (#[trigger] db_model(before)[j]) is Some;
                    assert(db_model(out@)[j] == db_model(before)[j]);
                }
            } else {
                assert forall|j: int| 0 <= j < i + 1 implies !(#[trigger] db_model(out@)[j] is Some) by {
                    if j < i {
                        assert(db_model(out@)[j] == db_model(before)[j]);
                    }
                }
            }
        }
        i += 1;
    }
    (out, any)
}

/// The distinct actions occurring in the suffixes of `db`.
fn distinct_items(db: &Vec<Option<Vec<CanonicalAction>>>) -> (r: Vec<CanonicalAction>)
    ensures
        no_duplicates(actions_model(r@)),
        forall|y: ActionModel| actions_model(r@).contains(y) <==> occurs_in_db(db_model(db@), y),
{
    let ghost dbm = db_model(db@);
    let mut items: Vec<CanonicalAction> = Vec::new();
    let mut i: usize = 0;
    while i < db.len()
        invariant
            dbm == db_model(db@),
            i <= db@.len(),
            no_duplicates(actions_model(items@)),
            forall|y: ActionModel| actions_model(items@).contains(y) <==> exists|j: int|
                0 <= j < i && (#[trigger] dbm[j] matches Some(s) && s.contains(y)),
        decreases db@.len() - i,
    {
        match &db[i] {
            Some(s) => {
                let ghost sm = actions_model(s@);
                let mut k: usize = 0;
                while k < s.len()
                    invariant
                        sm == actions_model(s@),
                        dbm[i as int] == Some(sm),
                        k <= s@.len(),
                        no_duplicates(actions_model(items@)),
                        forall|y: ActionModel| actions_model(items@).contains(y) <==> (exists|j: int|
                            0 <= j < i && (#[trigger] dbm[j] matches Some(s) && s.contains(y))) || exists|
                            t: int,
                        | 0 <= t < k && sm[t] == y,
                    decreases s@.len() - k,
                {
                    let ghost before = actions_model(items@);
                    match find_action(&items, &s[k]) {
                        Some(_) => {},
                        None => {
                            items.push(s[k].duplicate());
                            proof {
                                assert(actions_model(items@) =~= before.push(sm[k as int]));
                                assert forall|a: int, b: int|
                                    0 <= a < b < actions_model(items@).len() implies actions_model(
                                    items@,
                                )[a] != actions_model(items@)[b] by {
                                    if b == before.len() {
                                        assert(before[a] == actions_model(items@)[a]);
                                    }
                                }
                            }
                        },
                    }
                    proof {
                        let now = actions_model(items@);
                        assert forall|y: ActionModel| now.contains(y) <==> (exists|j: int|
                            0 <= j < i && (#[trigger] dbm[j] matches Some(s) && s.contains(y))) || exists|
                            t: int,
                        | 0 <= t < k + 1 && sm[t] == y by {
                            if now.contains(y) && !before.contains(y) {
                                let q = choose|q: int| 0 <= q < now.len() && now[q] == y;
                                if q < before.len() {
                                    assert(before[q] == y);
                                }
                                assert(sm[k as int] == y);
                            }
                            if sm[k as int] == y {
                                if before.contains(y) {
                                } else {
                                    assert(now[now.len() - 1] == y);
                                }
                            }
                            if before.contains(y) {
                                let q = choose|q: int| 0 <= q < before.len() && before[q] == y;
                                assert(now[q] == y);
                            }
                        }
                    }
                    k += 1;
                }
                proof {
                    let now = actions_model(items@);
                    assert forall|y: ActionModel| now.contains(y) <==> exists|j: int|
                        0 <= j < i + 1 && (#[trigger] dbm[j] matches Some(s) && s.contains(y)) by {
                        if exists|t: int| 0 <= t < sm.len() && sm[t] == y {
                            let t = choose|t: int| 0 <= t < sm.len() && sm[t] == y;
                            assert(sm.contains(y));
                        }
                        if sm.contains(y) {
                            let t = choose|t: int| 0 <= t < sm.len() && sm[t] == y;
                        }
                    }
                }
            },
            None => {},
        }
        i += 1;
    }
    items
}

/// The patterns of `f` whose element at position `k` is among `xs`.
pub open spec fn led_by(f: Set<Seq<ActionModel>>, k: int, xs: Seq<ActionModel>) -> Set<Seq<ActionModel>> {
    Set::new(|p: Seq<ActionModel>| f.contains(p) && xs.contains(p[k]))
}

/// The patterns of `f` whose element at position `k` is `x`.
pub open spec fn led_by_item(f: Set<Seq<ActionModel>>, k: int, x: ActionModel) -> Set<Seq<ActionModel>> {
    Set::new(|p: Seq<ActionModel>| f.contains(p) && p[k] == x)
}

/// Every entry from `start` on carries the support of its pattern.
pub open spec fn supports_correct(seqs: Seq<Seq<ActionModel>>, results: Seq<FrequentPattern>, start: int) -> bool {
    forall|j: int|
        start <= j < results.len() ==> (#[trigger] results[j]).support == support(
            seqs,
            actions_model(results[j].sequence@),
        )
}

proof fn lemma_led_by_push(f: Set<Seq<ActionModel>>, k: int, xs: Seq<ActionModel>, x: ActionModel)
    ensures
        led_by(f, k, xs.push(x)) == led_by(f, k, xs).union(led_by_item(f, k, x)),
{
    assert forall|p: Seq<ActionModel>| led_by(f, k, xs.push(x)).contains(p) <==> led_by(f, k, xs).union(
        led_by_item(f, k, x),
    ).contains(p) by {
        if xs.push(x).contains(p[k]) && p[k] != x {
            let i = choose|i: int| 0 <= i < xs.push(x).len() && xs.push(x)[i] == p[k];
            assert(xs[i] == p[k]);
        }
        if xs.contains(p[k]) {
            let i = choose|i: int| 0 <= i < xs.len() && xs[i] == p[k];
            assert(xs.push(x)[i] == p[k]);
        }
        if p[k] == x {
            assert(xs.push(x)[xs.len() as int] == x);
        }
    }
    assert(led_by(f, k, xs.push(x)) =~= led_by(f, k, xs).union(led_by_item(f, k, x)));
}

proof fn lemma_step_small(seqs: Seq<Seq<ActionModel>>, pm: Seq<ActionModel>, x: ActionModel, min: nat)
    requires
        support(seqs, pm.push(x)) < min,
    ensures
        led_by_item(frequent_extensions(seqs, pm, min), pm.len() as int, x) == Set::<Seq<ActionModel>>::empty(),
{
    let f = frequent_extensions(seqs, pm, min);
    assert forall|p: Seq<ActionModel>| !led_by_item(f, pm.len() as int, x).contains(p) by {
        if led_by_item(f, pm.len() as int, x).contains(p) {
            let rest = p.subrange(pm.len() as int + 1, p.len() as int);
            assert(p =~= pm.push(x) + rest) by {
                assert forall|i: int| 0 <= i < p.len() implies p[i] == (pm.push(x) + rest)[i] by {
                    if i < pm.len() {
                        assert(p.subrange(0, pm.len() as int)[i] == p[i]);
                    }
                }
            }
            lemma_support_antimonotone(seqs, pm.push(x), rest, seqs.len());
        }
    }
    assert(led_by_item(f, pm.len() as int, x) =~= Set::<Seq<ActionModel>>::empty());
}

proof fn lemma_step_grow(seqs: Seq<Seq<ActionModel>>, pm: Seq<ActionModel>, x: ActionModel, min: nat)
    requires
        support(seqs, pm.push(x)) >= min,
    ensures
        led_by_item(frequent_extensions(seqs, pm, min), pm.len() as int, x) == frequent_extensions(
            seqs,
            pm.push(x),
            min,
        ).insert(pm.push(x)),
{
    let f = frequent_extensions(seqs, pm, min);
    let p0 = pm.push(x);
    let g = frequent_extensions(seqs, p0, min);
    assert(p0.subrange(0, pm.len() as int) =~= pm);
    assert forall|p: Seq<ActionModel>| led_by_item(f, pm.len() as int, x).contains(p) <==> g.insert(p0).contains(
        p,
    ) by {
        if led_by_item(f, pm.len() as int, x).contains(p) {
            if p.len() == pm.len() + 1 {
                assert forall|i: int| 0 <= i < p.len() implies p[i] == p0[i] by {
                    if i < pm.len() {
                        assert(p.subrange(0, pm.len() as int)[i] == p[i]);
                    }
                }
                assert(p =~= p0);
            } else {
                assert forall|i: int| 0 <= i < p0.len() implies p.subrange(0, p0.len() as int)[i] == p0[i] by {
                    if i < pm.len() {
                        assert(p.subrange(0, pm.len() as int)[i] == p[i]);
                    }
                }
                assert(p.subrange(0, p0.len() as int) =~= p0);
            }
        }
        if g.contains(p) {
            assert forall|i: int| 0 <= i < pm.len() implies p.subrange(0, pm.len() as int)[i] == pm[i] by {
                assert(p.subrange(0, p0.len() as int)[i] == p0[i]);
            }
            assert(p.subrange(0, pm.len() as int) =~= pm);
            assert(p.subrange(0, p0.len() as int)[pm.len() as int] == x);
        }
    }
    assert(led_by_item(f, pm.len() as int, x) =~= g.insert(p0));
}

proof fn lemma_step_leaf(
    seqs: Seq<Seq<ActionModel>>,
    pm: Seq<ActionModel>,
    x: ActionModel,
    min: nat,
    db: Seq<Option<Seq<ActionModel>>>,
)
    requires
        min >= 1,
        projected_on(seqs, pm.push(x), db),
        forall|i: int| 0 <= i < db.len() ==> #[trigger] db[i] is None,
    ensures
        frequent_extensions(seqs, pm.push(x), min) == Set::<Seq<ActionModel>>::empty(),
{
    let p0 = pm.push(x);
    assert forall|p: Seq<ActionModel>| !frequent_extensions(seqs, p0, min).contains(p) by {
        if frequent_extensions(seqs, p0, min).contains(p) {
            let q = p.subrange(p0.len() as int, p.len() as int);
            assert(p =~= p0 + q) by {
                assert forall|i: int| 0 <= i < p.len() implies p[i] == (p0 + q)[i] by {
                    if i < p0.len() {
                        assert(p.subrange(0, p0.len() as int)[i] == p[i]);
                    }
                }
            }
            lemma_no_suffix(seqs, p0, db, q);
        }
    }
    assert(frequent_extensions(seqs, p0, min) =~= Set::<Seq<ActionModel>>::empty());
}

proof fn lemma_led_all(
    seqs: Seq<Seq<ActionModel>>,
    pm: Seq<ActionModel>,
    db: Seq<Option<Seq<ActionModel>>>,
    xs: Seq<ActionModel>,
    min: nat,
)
    requires
        min >= 1,
        projected_on(seqs, pm, db),
        forall|y: ActionModel| occurs_in_db(db, y) ==> xs.contains(y),
    ensures
        led_by(frequent_extensions(seqs, pm, min), pm.len() as int, xs) == frequent_extensions(seqs, pm, min),
{
    let f = frequent_extensions(seqs, pm, min);
    assert forall|p: Seq<ActionModel>| f.contains(p) implies xs.contains(p[pm.len() as int]) by {
        let x = p[pm.len() as int];
        let p0 = pm.push(x);
        let rest = p.subrange(pm.len() as int + 1, p.len() as int);
        assert(p =~= p0 + rest) by {
            assert forall|i: int| 0 <= i < p.len() implies p[i] == (p0 + rest)[i] by {
                if i < pm.len() {
                    assert(p.subrange(0, pm.len() as int)[i] == p[i]);
                }
            }
        }
        lemma_support_antimonotone(seqs, p0, rest, seqs.len());
        lemma_db_support(seqs, pm, db, seq![x], seqs.len());
        assert(pm + seq![x] =~= p0);
        lemma_db_support_occurs(db, x, db.len());
    }
    assert(led_by(f, pm.len() as int, xs) =~= f);
}

proof fn lemma_patterns_push(r: Seq<FrequentPattern>, e: FrequentPattern, start: int)
    requires
        0 <= start <= r.len(),
    ensures
        patterns_from(r.push(e), start) == patterns_from(r, start).insert(actions_model(e.sequence@)),
{
    let r2 = r.push(e);
    assert forall|p: Seq<ActionModel>| patterns_from(r2, start).contains(p) <==> patterns_from(r, start).insert(
        actions_model(e.sequence@),
    ).contains(p) by {
        if patterns_from(r2, start).contains(p) {
            let j = choose|j: int| start <= j < r2.len() && actions_model((#[trigger] r2[j]).sequence@) == p;
            if j < r.len() {
                assert(r2[j] == r[j]);
            }
        }
        if patterns_from(r, start).contains(p) {
            let j = choose|j: int| start <= j < r.len() && actions_model((#[trigger] r[j]).sequence@) == p;
            assert(r2[j] == r[j]);
        }
        if p == actions_model(e.sequence@) {
            assert(r2[r.len() as int] == e);
        }
    }
    assert(patterns_from(r2, start) =~= patterns_from(r, start).insert(actions_model(e.sequence@)));
}

proof fn lemma_patterns_split(r0: Seq<FrequentPattern>, r1: Seq<FrequentPattern>, start: int)
    requires
        0 <= start <= r0.len() <= r1.len(),
        r1.subrange(0, r0.len() as int) == r0,
    ensures
        patterns_from(r1, start) == patterns_from(r0, start).union(patterns_from(r1, r0.len() as int)),
{
    assert forall|p: Seq<ActionModel>| patterns_from(r1, start).contains(p) <==> patterns_from(r0, start).union(
        patterns_from(r1, r0.len() as int),
    ).contains(p) by {
        if patterns_from(r1, start).contains(p) {
            let j = choose|j: int| start <= j < r1.len() && actions_model((#[trigger] r1[j]).sequence@) == p;
            if j < r0.len() {
                assert(r1.subrange(0, r0.len() as int)[j] == r1[j]);
            }
        }
        if patterns_from(r0, start).contains(p) {
            let j = choose|j: int| start <= j < r0.len() && actions_model((#[trigger] r0[j]).sequence@) == p;
            assert(r1.subrange(0, r0.len() as int)[j] == r1[j]);
        }
    }
    assert(patterns_from(r1, start) =~= patterns_from(r0, start).union(patterns_from(r1, r0.len() as int)));
}

/// No pattern is listed twice among the entries from `start` on.
pub open spec fn unique_patterns(results: Seq<FrequentPattern>, start: int) -> bool {
    forall|i: int, j: int|
        start <= i < j < results.len() ==> actions_model((#[trigger] results[i]).sequence@) != actions_model(
            (#[trigger] results[j]).sequence@,
        )
}

proof fn lemma_unique_push(r: Seq<FrequentPattern>, e: FrequentPattern, start: int)
    requires
        0 <= start <= r.len(),
        unique_patterns(r, start),
        !patterns_from(r, start).contains(actions_model(e.sequence@)),
    ensures
        unique_patterns(r.push(e), start),
{
    let r2 = r.push(e);
    assert forall|i: int, j: int| start <= i < j < r2.len() implies actions_model((#[trigger] r2[i]).sequence@)
        != actions_model((#[trigger] r2[j]).sequence@) by {
        assert(r2[i] == r[i]);
        if j < r.len() {
            assert(r2[j] == r[j]);
        } else {
            assert(r2[j] == e);
            if actions_model(r[i].sequence@) == actions_model(e.sequence@) {
                assert(patterns_from(r, start).contains(actions_model(e.sequence@)));
            }
        }
    }
}

proof fn lemma_unique_split(r0: Seq<FrequentPattern>, r1: Seq<FrequentPattern>, start: int)
    requires
        0 <= start <= r0.len() <= r1.len(),
        r1.subrange(0, r0.len() as int) == r0,
        unique_patterns(r0, start),
        unique_patterns(r1, r0.len() as int),
        forall|p: Seq<ActionModel>| patterns_from(r0, start).contains(p) ==> !#[trigger] patterns_from(
            r1,
            r0.len() as int,
        ).contains(p),
    ensures
        unique_patterns(r1, start),
{
    assert forall|i: int, j: int| start <= i < j < r1.len() implies actions_model((#[trigger] r1[i]).sequence@)
        != actions_model((#[trigger] r1[j]).sequence@) by {
        if j < r0.len() {
            assert(r1.subrange(0, r0.len() as int)[i] == r1[i]);
            assert(r1.subrange(0, r0.len() as int)[j] == r1[j]);
            assert(r0[i] == r1[i] && r0[j] == r1[j]);
        } else if i < r0.len() {
            assert(r1.subrange(0, r0.len() as int)[i] == r1[i]);
            let p = actions_model(r1[i].sequence@);
            assert(r0[i] == r1[i]);
            assert(patterns_from(r0, start).contains(p));
            if actions_model(r1[j].sequence@) == p {
                assert(patterns_from(r1, r0.len() as int).contains(p));
            }
        }
    }
}

/// One step of the search: every frequent extension of `prefix`, found in
/// the database projected on it, is appended to `results` with its
/// support.
fn prefixspan_inner(
    prefix: &Vec<CanonicalAction>,
    db: &Vec<Option<Vec<CanonicalAction>>>,
    min_support: usize,
    results: &mut Vec<FrequentPattern>,
    Ghost(seqs): Ghost<Seq<Seq<ActionModel>>>,
)
    requires
        projected_on(seqs, actions_model(prefix@), db_model(db@)),
        min_support >= 1,
    ensures
        final(results)@.len() >= old(results)@.len(),
        final(results)@.subrange(0, old(results)@.len() as int) == old(results)@,
        patterns_from(final(results)@, old(results)@.len() as int) == frequent_extensions(
            seqs,
            actions_model(prefix@),
            min_support as nat,
        ),
        supports_correct(seqs, final(results)@, old(results)@.len() as int),
        unique_patterns(final(results)@, old(results)@.len() as int),
    decreases db_size(db_model(db@), db@.len()),
{
    let ghost pm = actions_model(prefix@);
    let ghost dbm = db_model(db@);
    let ghost start = old(results)@.len() as int;
    let ghost fset = frequent_extensions(seqs, pm, min_support as nat);
    let ghost k = pm.len() as int;
    let items = distinct_items(db);
    let ghost xs = actions_model(items@);
    assert(xs.subrange(0, 0) =~= Seq::<ActionModel>::empty());
    assert(led_by(fset, k, xs.subrange(0, 0)) =~= Set::<Seq<ActionModel>>::empty());
    assert(patterns_from(results@, start) =~= Set::<Seq<ActionModel>>::empty());
    assert(results@.subrange(0, start) =~= old(results)@);
    let mut j: usize = 0;
    while j < items.len()
        invariant
            pm == actions_model(prefix@),
            dbm == db_model(db@),
            projected_on(seqs, pm, dbm),
            min_support >= 1,
            start == old(results)@.len(),
            fset == frequent_extensions(seqs, pm, min_support as nat),
            k == pm.len(),
            xs == actions_model(items@),
            no_duplicates(xs),
            forall|y: ActionModel| xs.contains(y) <==> occurs_in_db(dbm, y),
            j <= items@.len(),
            results@.len() >= start,
            results@.subrange(0, start) == old(results)@,
            patterns_from(results@, start) == led_by(fset, k, xs.subrange(0, j as int)),
            supports_correct(seqs, results@, start),
            unique_patterns(results@, start),
        decreases items@.len() - j,
    {
        let x = &items[j];
        let ghost xm = x.model();
        let ghost p0 = pm.push(xm);
        proof {
            assert(xs[j as int] == xm);
            lemma_led_by_push(fset, k, xs.subrange(0, j as int), xm);
            assert(xs.subrange(0, j + 1) =~= xs.subrange(0, j as int).push(xm));
            lemma_db_support(seqs, pm, dbm, seq![xm], seqs.len());
            assert(pm + seq![xm] =~= p0);
        }
        let (projected, count) = project(db, x);
        if count >= min_support {
            let mut np = copy_from(prefix, 0);
            np.push(x.duplicate());
            proof {
                assert(actions_model(prefix@).subrange(0, prefix@.len() as int) =~= pm);
                assert(actions_model(np@) =~= p0);
            }
            let pattern = copy_from(&np, 0);
            proof {
                assert(actions_model(np@).subrange(0, np@.len() as int) =~= p0);
            }
            let ghost before_push = results@;
            proof {
                // The new pattern has item `xm` at position `k`, which no earlier
                // pattern of this step has.
                if led_by(fset, k, xs.subrange(0, j as int)).contains(p0) {
                    assert(xs.subrange(0, j as int).contains(p0[k]));
                    let q = choose|q: int| 0 <= q < j && xs.subrange(0, j as int)[q] == p0[k];
                    assert(xs[q] == xs[j as int]);
                }
                assert(actions_model(pattern@) == p0);
            }
            results.push(FrequentPattern { sequence: pattern, support: count });
            proof {
                lemma_unique_push(before_push, results@[results@.len() - 1], start);
                lemma_patterns_push(before_push, results@[results@.len() - 1], start);
                assert(results@.subrange(0, start) =~= before_push.subrange(0, start));
                lemma_step_grow(seqs, pm, xm, min_support as nat);
                lemma_project(seqs, pm, dbm, xm, db_model(projected@));
            }
            let (non_empty, any) = drop_empty(&projected);
            proof {
                lemma_drop_empty(seqs, p0, db_model(projected@), db_model(non_empty@));
            }
            if any {
                proof {
                    assert(xs.contains(xm)) by {
                        assert(xs[j as int] == xm);
                    }
                    assert(occurs_in_db(dbm, xm));
                    assert forall|i: int| 0 <= i < dbm.len() implies #[trigger] db_model(non_empty@)[i]
                        == drop_empty_entry(project_entry(dbm[i], xm)) by {
                        assert(db_model(projected@)[i] == project_entry(dbm[i], xm));
                    }
                    lemma_project_shrinks(dbm, xm, db_model(non_empty@), dbm.len());
                }
                let ghost mid = results@;
                prefixspan_inner(&np, &non_empty, min_support, results, Ghost(seqs));
                proof {
                    lemma_patterns_split(mid, results@, start);
                    assert forall|p: Seq<ActionModel>| patterns_from(mid, start).contains(p) implies !#[trigger] patterns_from(
                        results@,
                        mid.len() as int,
                    ).contains(p) by {
                        if patterns_from(results@, mid.len() as int).contains(p) {
                            let f2 = frequent_extensions(seqs, p0, min_support as nat);
                            assert(f2.contains(p));
                            assert(p.subrange(0, p0.len() as int) == p0);
                            assert(p[k] == p0[k]) by {
                                assert(p.subrange(0, p0.len() as int)[k] == p[k]);
                            }
                            if p == p0 {
                                assert(false);
                            } else {
                                assert(led_by(fset, k, xs.subrange(0, j as int)).contains(p));
                                assert(xs.subrange(0, j as int).contains(p[k]));
                                let q = choose|q: int| 0 <= q < j && xs.subrange(0, j as int)[q] == p[k];
                                assert(xs[q] == xs[j as int]);
                            }
                        }
                    }
                    lemma_unique_split(mid, results@, start);
                    assert(results@.subrange(0, start) =~= mid.subrange(0, start)) by {
                        assert forall|i: int| 0 <= i < start implies results@.subrange(0, start)[i]
                            == mid.subrange(0, start)[i] by {
                            assert(results@.subrange(0, mid.len() as int)[i] == results@[i]);
                        }
                    }
                    assert forall|q: int| start <= q < results@.len() implies (#[trigger] results@[q]).support
                        == support(seqs, actions_model(results@[q].sequence@)) by {
                        if q < mid.len() {
                            assert(results@.subrange(0, mid.len() as int)[q] == results@[q]);
                            assert(mid[q] == results@[q]);
                        }
                    }
                    assert(patterns_from(results@, start) =~= led_by(fset, k, xs.subrange(0, j + 1)));
                }
            } else {
                proof {
                    assert forall|i: int| 0 <= i < dbm.len() implies #[trigger] db_model(non_empty@)[i] is None by {
                        if db_model(non_empty@)[i] is Some {
                            assert(exists|q: int| 0 <= q < projected@.len() && (#[trigger] db_model(non_empty@)[q]) is Some);
                        }
                    }
                    lemma_step_leaf(seqs, pm, xm, min_support as nat, db_model(non_empty@));
                    assert(frequent_extensions(seqs, p0, min_support as nat).insert(p0) =~= Set::<
                        Seq<ActionModel>,
                    >::empty().insert(p0));
                    assert(patterns_from(results@, start) =~= led_by(fset, k, xs.subrange(0, j + 1)));
                }
            }
        } else {
            proof {
                lemma_step_small(seqs, pm, xm, min_support as nat);
                assert(patterns_from(results@, start) =~= led_by(fset, k, xs.subrange(0, j + 1)));
            }
        }
        j += 1;
    }
    proof {
        assert(xs.subrange(0, items@.len() as int) =~= xs);
        lemma_led_all(seqs, pm, dbm, xs, min_support as nat);
    }
}

/// The models of the input sequences.
pub open spec fn sequences_model(sequences: Seq<Vec<CanonicalAction>>) -> Seq<Seq<ActionModel>> {
    sequences.map_values(|v: Vec<CanonicalAction>| actions_model(v@))
}

/// Mine the frequent subsequences of `sequences`: every non-empty pattern
/// contained in at least `min_support` of them, each with its support.
/// With a `min_support` of 0 (which every pattern would meet) the result
/// is empty.
pub fn prefixspan(sequences: &[Vec<CanonicalAction>], min_support: usize) -> (r: Vec<FrequentPattern>)
    ensures
        min_support == 0 ==> r@.len() == 0,
        min_support > 0 ==> patterns_from(r@, 0) == frequent_extensions(
            sequences_model(sequences@),
            Seq::empty(),
            min_support as nat,
        ),
        supports_correct(sequences_model(sequences@), r@, 0),
        forall|i: int, j: int|
            0 <= i < j < r@.len() ==> actions_model((#[trigger] r@[i]).sequence@) != actions_model(
                (#[trigger] r@[j]).sequence@,
            ),
{
    let ghost seqs = sequences_model(sequences@);
    let mut results: Vec<FrequentPattern> = Vec::new();
    if min_support == 0 {
        return results;
    }
    if sequences.len() == 0 {
        proof {
            assert forall|p: Seq<ActionModel>| !frequent_extensions(seqs, Seq::empty(), min_support as nat).contains(p) by {}
            assert(frequent_extensions(seqs, Seq::empty(), min_support as nat) =~= Set::<Seq<ActionModel>>::empty());
            assert(patterns_from(results@, 0) =~= Set::<Seq<ActionModel>>::empty());
        }
        return results;
    }
    let mut db: Vec<Option<Vec<CanonicalAction>>> = Vec::new();
    let mut i: usize = 0;
    while i < sequences.len()
        invariant
            seqs == sequences_model(sequences@),
            i <= sequences@.len(),
            db@.len() == i,
            forall|j: int| 0 <= j < i ==> #[trigger] db_model(db@)[j] == Some(seqs[j]),
        decreases sequences@.len() - i,
    {
        let c = copy_from(&sequences[i], 0);
        proof {
            assert(actions_model(sequences@[i as int]@).subrange(0, sequences@[i as int]@.len() as int)
                =~= seqs[i as int]);
        }
        let ghost before = db@;
        db.push(Some(c));
        proof {
            assert forall|j: int| 0 <= j < i + 1 implies #[trigger] db_model(db@)[j] == Some(seqs[j]) by {
                if j < i {
                    assert(db@[j] == before[j]);
                    assert(db_model(db@)[j] == db_model(before)[j]);
                }
            }
        }
        i += 1;
    }
    let empty: Vec<CanonicalAction> = Vec::new();
    proof {
        let e = actions_model(empty@);
        assert(e =~= Seq::<ActionModel>::empty());
        assert forall|i: int, q: Seq<ActionModel>| 0 <= i < seqs.len() && q.len() > 0 implies (is_subsequence(
            #[trigger] extend(e, q),
            seqs[i],
        ) <==> (#[trigger] db_model(db@)[i] matches Some(s) && is_subsequence(q, s))) by {
            assert(extend(e, q) =~= q);
        }
    }
    prefixspan_inner(&empty, &db, min_support, &mut results, Ghost(seqs));
    proof {
        assert(actions_model(empty@) =~= Seq::<ActionModel>::empty());
    }
    results
}

proof fn lemma_take_head(x: ActionModel, rest: Seq<ActionModel>, s: Seq<ActionModel>)
    requires
        s.len() > 0,
        s[0] == x,
        is_subsequence(seq![x] + rest, s),
    ensures
        is_subsequence(rest, s.drop_first()),
{
    lemma_greedy(x, rest, s);
    assert(s.subrange(1, s.len() as int) =~= s.drop_first());
}

proof fn lemma_skip_head(x: ActionModel, rest: Seq<ActionModel>, s: Seq<ActionModel>)
    requires
        s.len() > 0,
        s[0] != x,
        is_subsequence(seq![x] + rest, s),
    ensures
        is_subsequence(seq![x] + rest, s.drop_first()),
{
    let t = s.drop_first();
    lemma_greedy(x, rest, s);
    lemma_greedy(x, rest, t);
    lemma_first_index(s, x);
    lemma_first_index(t, x);
    let k = first_index(s, x);
    assert(s[k] == x);
    assert(t[k - 1] == x);
    assert(t.contains(x));
    assert(first_index(s, x) == 1 + first_index(t, x));
    assert(s.subrange(k + 1, s.len() as int) =~= t.subrange(first_index(t, x) + 1, t.len() as int));
}

/// Whether `subseq` is a (not necessarily contiguous) subsequence of `seq`.
pub fn contains_as_subsequence(seq: &[CanonicalAction], subseq: &[CanonicalAction]) -> (r: bool)
    ensures
        r == is_subsequence(actions_model(subseq@), actions_model(seq@)),
{
    let ghost sm = actions_model(seq@);
    let ghost qm = actions_model(subseq@);
    if subseq.len() == 0 {
        proof {
            assert(embeds(Seq::<int>::empty(), qm, sm));
        }
        return true;
    }
    let mut j: usize = 0;
    let mut i: usize = 0;
    let ghost mut f: Seq<int> = Seq::empty();
    proof {
        assert(qm.subrange(0, qm.len() as int) =~= qm);
        assert(sm.subrange(0, sm.len() as int) =~= sm);
        assert(embeds(f, qm.subrange(0, 0), sm));
    }
    while i < seq.len()
        invariant
            sm == actions_model(seq@),
            qm == actions_model(subseq@),
            0 < qm.len(),
            qm.len() == subseq@.len(),
            i <= sm.len(),
            j < qm.len(),
            embeds(f, qm.subrange(0, j as int), sm),
            forall|t: int| 0 <= t < f.len() ==> f[t] < i,
            is_subsequence(qm, sm) ==> is_subsequence(
                qm.subrange(j as int, qm.len() as int),
                sm.subrange(i as int, sm.len() as int),
            ),
        decreases sm.len() - i,
    {
        let ghost qrest = qm.subrange(j as int, qm.len() as int);
        let ghost srest = sm.subrange(i as int, sm.len() as int);
        proof {
            assert(qrest =~= seq![qm[j as int]] + qm.subrange(j + 1, qm.len() as int));
            assert(srest.drop_first() =~= sm.subrange(i + 1, sm.len() as int));
            assert(srest[0] == sm[i as int]);
        }
        if seq[i].same(&subseq[j]) {
            proof {
                if is_subsequence(qm, sm) {
                    lemma_take_head(qm[j as int], qm.subrange(j + 1, qm.len() as int), srest);
                }
                let g = f.push(i as int);
                assert forall|t: int| 0 <= t < g.len() implies 0 <= #[trigger] g[t] < sm.len()
                    && qm.subrange(0, j + 1)[t] == sm[g[t]] by {
                    if t < f.len() {
                        assert(qm.subrange(0, j as int)[t] == qm.subrange(0, j + 1)[t]);
                    }
                }
                f = g;
            }
            j += 1;
            if j == subseq.len() {
                proof {
                    assert(qm.subrange(0, j as int) =~= qm);
                    assert(embeds(f, qm, sm));
                }
                return true;
            }
        } else {
            proof {
                if is_subsequence(qm, sm) {
                    lemma_skip_head(qm[j as int], qm.subrange(j + 1, qm.len() as int), srest);
                    assert(seq![qm[j as int]] + qm.subrange(j + 1, qm.len() as int) =~= qm.subrange(
                        j as int,
                        qm.len() as int,
                    ));
                }
            }
        }
        i += 1;
    }
    proof {
        if is_subsequence(qm, sm) {
            let qrest = qm.subrange(j as int, qm.len() as int);
            let tail = sm.subrange(i as int, sm.len() as int);
            assert(i == sm.len());
            assert(tail.len() == 0);
            assert(qrest.len() > 0);
            let g = choose|g: Seq<int>| embeds(g, qrest, tail);
            assert(0 <= g[0] < tail.len());
        }
    }
    false
}

} // verus!

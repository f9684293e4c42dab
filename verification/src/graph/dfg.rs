//! The directly-follows graph of an event log, restricted to a set of
//! activities: how often one activity directly follows another once the
//! other activities are left out, and which activities start and end the
//! traces.

use vstd::prelude::*;

use crate::graph::reach::{is_square, matrix_view};

verus! {

/// The texts of a list of strings.
pub open spec fn texts(v: Seq<String>) -> Seq<Seq<char>> {
    v.map_values(|s: String| s@)
}

/// The texts of each trace of a log.
pub open spec fn log_texts(log: Seq<Vec<String>>) -> Seq<Seq<Seq<char>>> {
    log.map_values(|t: Vec<String>| texts(t@))
}

/// The events of `t` that are among `acts`, in order.
pub open spec fn keep(t: Seq<Seq<char>>, acts: Seq<Seq<char>>) -> Seq<Seq<char>>
    decreases t.len(),
{
    if t.len() == 0 {
        Seq::empty()
    } else {
        let r = keep(t.drop_last(), acts);
        if acts.contains(t.last()) {
            r.push(t.last())
        } else {
            r
        }
    }
}

/// Each trace of `log` restricted to `acts`.
pub open spec fn kept_log(log: Seq<Seq<Seq<char>>>, acts: Seq<Seq<char>>) -> Seq<Seq<Seq<char>>> {
    log.map_values(|t: Seq<Seq<char>>| keep(t, acts))
}

/// How often `b` directly follows `a` in `s`.
pub open spec fn follows_count(s: Seq<Seq<char>>, a: Seq<char>, b: Seq<char>) -> nat
    decreases s.len(),
{
    if s.len() < 2 {
        0
    } else {
        follows_count(s.drop_last(), a, b) + if s[s.len() - 2] == a && s.last() == b {
            1nat
        } else {
            0nat
        }
    }
}

/// How often `b` directly follows `a` over all traces of `log`.
pub open spec fn log_follows(log: Seq<Seq<Seq<char>>>, a: Seq<char>, b: Seq<char>) -> nat
    decreases log.len(),
{
    if log.len() == 0 {
        0
    } else {
        log_follows(log.drop_last(), a, b) + follows_count(log.last(), a, b)
    }
}

/// The least count at which a directly-follows pair is an edge: the
/// configured minimum, and at least one.
pub open spec fn edge_threshold(min_count: u64) -> nat {
    if min_count == 0 {
        1
    } else {
        min_count as nat
    }
}

/// The directly-follows graph over the activities `acts` (by index) of
/// `log` restricted to them: an edge where the pair occurs at least
/// `edge_threshold(min_count)` times.
pub open spec fn dfg_of(log: Seq<Seq<Seq<char>>>, acts: Seq<Seq<char>>, min_count: u64) -> Seq<Seq<bool>> {
    Seq::new(
        acts.len(),
        |i: int|
            Seq::new(
                acts.len(),
                |j: int| log_follows(kept_log(log, acts), acts[i], acts[j]) >= edge_threshold(min_count),
            ),
    )
}

/// `a` is the first activity of some trace of `log` restricted to `acts`.
pub open spec fn is_start(log: Seq<Seq<Seq<char>>>, acts: Seq<Seq<char>>, a: Seq<char>) -> bool {
    exists|k: int| 0 <= k < log.len() && #[trigger] keep(log[k], acts).len() > 0 && keep(log[k], acts)[0] == a
}

/// `a` is the last activity of some trace of `log` restricted to `acts`.
pub open spec fn is_end(log: Seq<Seq<Seq<char>>>, acts: Seq<Seq<char>>, a: Seq<char>) -> bool {
    exists|k: int| 0 <= k < log.len() && #[trigger] keep(log[k], acts).len() > 0 && keep(log[k], acts).last() == a
}

proof fn lemma_texts_push(v: Seq<String>, s: String)
    ensures
        texts(v.push(s)) == texts(v).push(s@),
{
    assert(texts(v.push(s)) =~= texts(v).push(s@));
}

/// Whether `x` is among `acts`.
pub fn holds(acts: &Vec<String>, x: &String) -> (r: bool)
    ensures
        r == texts(acts@).contains(x@),
{
    let mut i: usize = 0;
    while i < acts.len()
        invariant
            i <= acts@.len(),
            forall|j: int| 0 <= j < i ==> acts@[j]@ != x@,
        decreases acts@.len() - i,
    {
        if acts[i] == *x {
            assert(texts(acts@)[i as int] == x@);
            return true;
        }
        i += 1;
    }
    proof {
        if texts(acts@).contains(x@) {
            let j = choose|j: int| 0 <= j < texts(acts@).len() && texts(acts@)[j] == x@;
            assert(acts@[j]@ == x@);
        }
    }
    false
}

/// The events of `t` that are among `acts`, in order.
pub fn keep_trace(t: &Vec<String>, acts: &Vec<String>) -> (r: Vec<String>)
    ensures
        texts(r@) == keep(texts(t@), texts(acts@)),
{
    let mut r: Vec<String> = Vec::new();
    let mut i: usize = 0;
    while i < t.len()
        invariant
            i <= t@.len(),
            texts(r@) == keep(texts(t@).subrange(0, i as int), texts(acts@)),
        decreases t@.len() - i,
    {
        let ghost pre = texts(t@).subrange(0, i as int);
        let ghost next = texts(t@).subrange(0, i + 1);
        assert(next.drop_last() =~= pre);
        assert(next.last() == t@[i as int]@);
        if holds(acts, &t[i]) {
            proof {
                lemma_texts_push(r@, t@[i as int]);
            }
            r.push(t[i].clone());
        }
        i += 1;
    }
    assert(texts(t@).subrange(0, t@.len() as int) =~= texts(t@));
    r
}

/// Each trace of `log` restricted to `acts`.
pub fn keep_log(log: &Vec<Vec<String>>, acts: &Vec<String>) -> (r: Vec<Vec<String>>)
    ensures
        log_texts(r@) == kept_log(log_texts(log@), texts(acts@)),
{
    let mut r: Vec<Vec<String>> = Vec::new();
    let mut i: usize = 0;
    while i < log.len()
        invariant
            i <= log@.len(),
            log_texts(r@) == kept_log(log_texts(log@).subrange(0, i as int), texts(acts@)),
        decreases log@.len() - i,
    {
        let k = keep_trace(&log[i], acts);
        let ghost prev = r@;
        r.push(k);
        proof {
            let lt = log_texts(log@);
            assert(lt[i as int] == texts(log@[i as int]@));
            assert(r@ == prev.push(k));
            assert(log_texts(r@) =~= log_texts(prev).push(texts(k@)));
            assert(lt.subrange(0, i + 1) =~= lt.subrange(0, i as int).push(lt[i as int]));
            assert(kept_log(lt.subrange(0, i + 1), texts(acts@)) =~= kept_log(
                lt.subrange(0, i as int),
                texts(acts@),
            ).push(keep(lt[i as int], texts(acts@))));
        }
        i += 1;
    }
    assert(log_texts(log@).subrange(0, log@.len() as int) =~= log_texts(log@));
    r
}

/// How often `b` directly follows `a` in `log`, saturated at `u64::MAX`.
fn count_follows(log: &Vec<Vec<String>>, a: &String, b: &String) -> (r: u64)
    ensures
        r == if log_follows(log_texts(log@), a@, b@) < u64::MAX {
            log_follows(log_texts(log@), a@, b@)
        } else {
            u64::MAX as nat
        },
{
    let mut total: u64 = 0;
    let mut i: usize = 0;
    while i < log.len()
        invariant
            i <= log@.len(),
            total == if log_follows(log_texts(log@).subrange(0, i as int), a@, b@) < u64::MAX {
                log_follows(log_texts(log@).subrange(0, i as int), a@, b@)
            } else {
                u64::MAX as nat
            },
        decreases log@.len() - i,
    {
        let t = &log[i];
        let ghost tt = texts(t@);
        let ghost base = log_follows(log_texts(log@).subrange(0, i as int), a@, b@);
        if t.len() > 0 {
            let mut j: usize = 1;
            assert(follows_count(tt.subrange(0, 1), a@, b@) == 0);
            while j < t.len()
                invariant
                    1 <= j <= t@.len(),
                    tt == texts(t@),
                    total == if base + follows_count(tt.subrange(0, j as int), a@, b@) < u64::MAX {
                        base + follows_count(tt.subrange(0, j as int), a@, b@)
                    } else {
                        u64::MAX as nat
                    },
                decreases t@.len() - j,
            {
                let ghost pre = tt.subrange(0, j as int);
                let ghost next = tt.subrange(0, j + 1);
                assert(next.drop_last() =~= pre);
                if t[j - 1] == *a && t[j] == *b {
                    if total < u64::MAX {
                        total = total + 1;
                    }
                }
                j += 1;
            }
            assert(tt.subrange(0, j as int) =~= tt);
        }
        proof {
            let next = log_texts(log@).subrange(0, i + 1);
            assert(next.drop_last() =~= log_texts(log@).subrange(0, i as int));
            assert(next.last() == tt);
        }
        i += 1;
    }
    assert(log_texts(log@).subrange(0, log@.len() as int) =~= log_texts(log@));
    total
}

/// The directly-follows graph of `log` over `acts`.
pub fn build_dfg(log: &Vec<Vec<String>>, acts: &Vec<String>, min_count: u64) -> (r: Vec<Vec<bool>>)
    ensures
        matrix_view(r@) == dfg_of(log_texts(log@), texts(acts@), min_count),
        is_square(matrix_view(r@)),
{
    let kept = keep_log(log, acts);
    let threshold: u64 = if min_count == 0 {
        1
    } else {
        min_count
    };
    let ghost g = dfg_of(log_texts(log@), texts(acts@), min_count);
    let n = acts.len();
    let mut r: Vec<Vec<bool>> = Vec::new();
    let mut i: usize = 0;
    while i < n
        invariant
            n == acts@.len(),
            i <= n,
            threshold == edge_threshold(min_count),
            log_texts(kept@) == kept_log(log_texts(log@), texts(acts@)),
            g == dfg_of(log_texts(log@), texts(acts@), min_count),
            r@.len() == i,
            forall|k: int| 0 <= k < i ==> #[trigger] r@[k]@ == g[k],
        decreases n - i,
    {
        let mut row: Vec<bool> = Vec::new();
        let mut j: usize = 0;
        while j < n
            invariant
                n == acts@.len(),
                i < n,
                j <= n,
                threshold == edge_threshold(min_count),
                log_texts(kept@) == kept_log(log_texts(log@), texts(acts@)),
                g == dfg_of(log_texts(log@), texts(acts@), min_count),
                row@ == g[i as int].subrange(0, j as int),
            decreases n - j,
        {
            let c = count_follows(&kept, &acts[i], &acts[j]);
            row.push(c >= threshold);
            j += 1;
            assert(row@ =~= g[i as int].subrange(0, j as int));
        }
        assert(row@ =~= g[i as int]);
        r.push(row);
        i += 1;
    }
    assert(matrix_view(r@) =~= g);
    r
}

/// For each activity (by index), whether it starts a trace of `log`
/// restricted to `acts` (`first`), or ends one (`!first`).
pub fn boundary_flags(log: &Vec<Vec<String>>, acts: &Vec<String>, first: bool) -> (r: Vec<bool>)
    ensures
        r@.len() == acts@.len(),
        forall|i: int|
            0 <= i < acts@.len() ==> r@[i] == if first {
                is_start(log_texts(log@), texts(acts@), acts@[i]@)
            } else {
                is_end(log_texts(log@), texts(acts@), acts@[i]@)
            },
{
    let kept = keep_log(log, acts);
    let ghost lt = log_texts(log@);
    let ghost at = texts(acts@);
    let n = acts.len();
    let mut r: Vec<bool> = Vec::new();
    let mut i: usize = 0;
    while i < n
        invariant
            n == acts@.len(),
            i <= n,
            lt == log_texts(log@),
            at == texts(acts@),
            log_texts(kept@) == kept_log(lt, at),
            r@.len() == i,
            forall|k: int|
                0 <= k < i ==> #[trigger] r@[k] == if first {
                    is_start(lt, at, acts@[k]@)
                } else {
                    is_end(lt, at, acts@[k]@)
                },
        decreases n - i,
    {
        let mut found = false;
        let mut k: usize = 0;
        assert(log_texts(kept@).len() == kept@.len());
        assert(kept_log(lt, at).len() == lt.len());
        while k < kept.len()
            invariant
                n == acts@.len(),
                i < n,
                k <= kept@.len(),
                kept@.len() == lt.len(),
                lt == log_texts(log@),
                at == texts(acts@),
                log_texts(kept@) == kept_log(lt, at),
                found == exists|q: int|
                    0 <= q < k && #[trigger] keep(lt[q], at).len() > 0 && (if first {
                        keep(lt[q], at)[0]
                    } else {
                        keep(lt[q], at).last()
                    }) == acts@[i as int]@,
            decreases kept@.len() - k,
        {
            let t = &kept[k];
            assert(texts(t@) == keep(lt[k as int], at)) by {
                assert(log_texts(kept@)[k as int] == kept_log(lt, at)[k as int]);
            }
            if t.len() > 0 {
                let e = if first {
                    &t[0]
                } else {
                    &t[t.len() - 1]
                };
                if *e == acts[i] {
                    found = true;
                }
            }
            proof {
                assert(texts(t@).len() == t@.len());
                if t@.len() > 0 {
                    assert(texts(t@)[0] == t@[0]@);
                    assert(texts(t@).last() == t@[t@.len() - 1]@);
                }
            }
            k += 1;
        }
        r.push(found);
        i += 1;
    }
    r
}

} // verus!

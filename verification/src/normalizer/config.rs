//! Normalization configuration and numeric bucket labels.

use vstd::prelude::*;

use crate::text::{int_text, is_digit, nat_text, push_int};

verus! {

/// Per-field bucket tables, looked up by field name (the first entry with
/// a given name is the one in force; `insert` keeps names unique).
#[derive(Debug)]
pub struct FieldBounds {
    entries: Vec<(String, Vec<i64>)>,
}

/// The table registered for `key` in `entries`, if any.
pub open spec fn bounds_lookup(entries: Seq<(Seq<char>, Seq<i64>)>, key: Seq<char>) -> Option<
    Seq<i64>,
>
    decreases entries.len(),
{
    if entries.len() == 0 {
        None
    } else if entries[0].0 == key {
        Some(entries[0].1)
    } else {
        bounds_lookup(entries.subrange(1, entries.len() as int), key)
    }
}

/// Model of a list of named tables.
pub open spec fn entries_model(s: Seq<(String, Vec<i64>)>) -> Seq<(Seq<char>, Seq<i64>)> {
    s.map_values(|e: (String, Vec<i64>)| (e.0@, e.1@))
}

impl View for FieldBounds {
    type V = Seq<(Seq<char>, Seq<i64>)>;

    closed spec fn view(&self) -> Seq<(Seq<char>, Seq<i64>)> {
        entries_model(self.entries@)
    }
}

proof fn lemma_lookup_suffix(entries: Seq<(Seq<char>, Seq<i64>)>, key: Seq<char>, i: int)
    requires
        0 <= i < entries.len(),
        forall|j: int| 0 <= j < i ==> entries[j].0 != key,
    ensures
        bounds_lookup(entries, key) == bounds_lookup(
            entries.subrange(i, entries.len() as int),
            key,
        ),
    decreases i,
{
    if i > 0 {
        let t = entries.subrange(1, entries.len() as int);
        assert forall|j: int| 0 <= j < i - 1 implies t[j].0 != key by {
            assert(t[j] == entries[j + 1]);
        }
        lemma_lookup_suffix(t, key, i - 1);
        assert(t.subrange(i - 1, t.len() as int) =~= entries.subrange(i, entries.len() as int));
    } else {
        assert(entries.subrange(0, entries.len() as int) =~= entries);
    }
}

proof fn lemma_lookup_absent(entries: Seq<(Seq<char>, Seq<i64>)>, key: Seq<char>)
    requires
        forall|j: int| 0 <= j < entries.len() ==> entries[j].0 != key,
    ensures
        bounds_lookup(entries, key) is None,
    decreases entries.len(),
{
    if entries.len() > 0 {
        let t = entries.subrange(1, entries.len() as int);
        assert forall|j: int| 0 <= j < t.len() implies t[j].0 != key by {
            assert(t[j] == entries[j + 1]);
        }
        lemma_lookup_absent(t, key);
    }
}

proof fn lemma_lookup_update(
    entries: Seq<(Seq<char>, Seq<i64>)>,
    i: int,
    key: Seq<char>,
    b: Seq<i64>,
    other: Seq<char>,
)
    requires
        0 <= i < entries.len(),
        entries[i].0 == key,
        forall|j: int| 0 <= j < i ==> entries[j].0 != key,
    ensures
        bounds_lookup(entries.update(i, (key, b)), other) == if other == key {
            Some(b)
        } else {
            bounds_lookup(entries, other)
        },
    decreases i,
{
    let u = entries.update(i, (key, b));
    if i > 0 {
        let t = entries.subrange(1, entries.len() as int);
        assert forall|j: int| 0 <= j < i - 1 implies t[j].0 != key by {
            assert(t[j] == entries[j + 1]);
        }
        lemma_lookup_update(t, i - 1, key, b, other);
        assert(u.subrange(1, u.len() as int) =~= t.update(i - 1, (key, b)));
        assert(u[0] == entries[0]);
    } else {
        assert(u.subrange(1, u.len() as int) =~= entries.subrange(1, entries.len() as int));
    }
}

proof fn lemma_lookup_push(
    entries: Seq<(Seq<char>, Seq<i64>)>,
    key: Seq<char>,
    b: Seq<i64>,
    other: Seq<char>,
)
    requires
        forall|j: int| 0 <= j < entries.len() ==> entries[j].0 != key,
    ensures
        bounds_lookup(entries.push((key, b)), other) == if other == key {
            Some(b)
        } else {
            bounds_lookup(entries, other)
        },
    decreases entries.len(),
{
    let u = entries.push((key, b));
    if entries.len() > 0 {
        let t = entries.subrange(1, entries.len() as int);
        assert forall|j: int| 0 <= j < t.len() implies t[j].0 != key by {
            assert(t[j] == entries[j + 1]);
        }
        lemma_lookup_push(t, key, b, other);
        assert(u.subrange(1, u.len() as int) =~= t.push((key, b)));
        assert(u[0] == entries[0]);
    } else {
        assert(u.subrange(1, u.len() as int) =~= entries);
    }
}

impl FieldBounds {
    /// No per-field tables.
    pub fn new() -> (r: Self)
        ensures
            r@ == Seq::<(Seq<char>, Seq<i64>)>::empty(),
    {
        let r = FieldBounds { entries: Vec::new() };
        assert(r@ =~= Seq::<(Seq<char>, Seq<i64>)>::empty());
        r
    }

    /// The table registered for `key`, if any.
    pub fn get(&self, key: &str) -> (r: Option<&Vec<i64>>)
        ensures
            match bounds_lookup(self@, key@) {
                Some(b) => r is Some && r->0@ == b,
                None => r is None,
            },
    {
        let k = key.to_owned();
        let mut i: usize = 0;
        while i < self.entries.len()
            invariant
                i <= self.entries@.len(),
                k@ == key@,
                forall|j: int| 0 <= j < i ==> self@[j].0 != key@,
            decreases self.entries@.len() - i,
        {
            if self.entries[i].0 == k {
                proof {
                    lemma_lookup_suffix(self@, key@, i as int);
                }
                return Some(&self.entries[i].1);
            }
            i += 1;
        }
        proof {
            lemma_lookup_absent(self@, key@);
        }
        None
    }

    /// Register `bounds` for `key`, replacing (and returning) any table
    /// already registered for it.
    #[verifier::loop_isolation(false)]
    pub fn insert(&mut self, key: String, bounds: Vec<i64>) -> (r: Option<Vec<i64>>)
        ensures
            forall|k: Seq<char>|
                bounds_lookup(final(self)@, k) == if k == key@ {
                    Some(bounds@)
                } else {
                    bounds_lookup(old(self)@, k)
                },
            match r {
                Some(prev) => bounds_lookup(old(self)@, key@) == Some(prev@),
                None => bounds_lookup(old(self)@, key@) is None,
            },
    {
        let ghost old_m = self@;
        let mut i: usize = 0;
        while i < self.entries.len()
            invariant
                i <= self.entries@.len(),
                self@ == old_m,
                forall|j: int| 0 <= j < i ==> old_m[j].0 != key@,
            decreases self.entries@.len() - i,
        {
            if self.entries[i].0 == key {
                proof {
                    lemma_lookup_suffix(old_m, key@, i as int);
                }
                let ghost kv = key@;
                let ghost bv = bounds@;
                let prev = self.entries.remove(i);
                self.entries.insert(i, (key, bounds));
                proof {
                    assert(self@ =~= old_m.update(i as int, (kv, bv)));
                    assert forall|k: Seq<char>|
                        bounds_lookup(self@, k) == if k == kv {
                            Some(bv)
                        } else {
                            bounds_lookup(old_m, k)
                        } by {
                        lemma_lookup_update(old_m, i as int, kv, bv, k);
                    }
                }
                return Some(prev.1);
            }
            i += 1;
        }
        proof {
            lemma_lookup_absent(old_m, key@);
            assert forall|k: Seq<char>|
                bounds_lookup(old_m.push((key@, bounds@)), k) == if k == key@ {
                    Some(bounds@)
                } else {
                    bounds_lookup(old_m, k)
                } by {
                lemma_lookup_push(old_m, key@, bounds@, k);
            }
        }
        self.entries.push((key, bounds));
        assert(self@ =~= old_m.push((key@, bounds@)));
        None
    }
}

/// Knobs controlling value and temporal abstraction.
///
/// The default matches the glossary's policy tables: numeric buckets
/// `0 / 1 / 2-10 / 11-100 / 101-1000 / 1001+`, a 50 ms burst gap, a 5 s
/// idle gap, and no per-field overrides.
#[derive(Debug)]
pub struct NormCfg {
    /// Inclusive upper bounds of the numeric buckets. A value falls in
    /// the first bucket whose bound it does not exceed; a value above
    /// every bound falls in the open-ended `(last+1)+` bucket.
    pub numeric_bucket_bounds: Vec<i64>,
    /// Per-field bucket tables: a key with a table switches the bounds
    /// for that key's whole subtree, until a deeper key has its own.
    pub per_field_bucket_bounds: FieldBounds,
    /// Consecutive identical canonical actions less than this many
    /// milliseconds apart collapse into one.
    pub burst_gap_ms: i64,
    /// A gap of more than this many milliseconds between two events is
    /// counted as a session pause.
    pub idle_gap_ms: i64,
}

impl NormCfg {
    /// The per-field tables as a model.
    pub open spec fn overrides(&self) -> Seq<(Seq<char>, Seq<i64>)> {
        self.per_field_bucket_bounds@
    }
}

impl Default for NormCfg {
    fn default() -> (r: Self)
        ensures
            r.numeric_bucket_bounds@ == seq![0i64, 1, 10, 100, 1000],
            r.overrides() == Seq::<(Seq<char>, Seq<i64>)>::empty(),
            r.burst_gap_ms == 50,
            r.idle_gap_ms == 5000,
    {
        let mut b: Vec<i64> = Vec::new();
        b.push(0);
        b.push(1);
        b.push(10);
        b.push(100);
        b.push(1000);
        assert(b@ =~= seq![0i64, 1, 10, 100, 1000]);
        NormCfg {
            numeric_bucket_bounds: b,
            per_field_bucket_bounds: FieldBounds::new(),
            burst_gap_ms: 50,
            idle_gap_ms: 5000,
        }
    }
}

/// `b + 1`, saturating at `i64::MAX`.
pub open spec fn sat_inc(b: int) -> int {
    if b >= i64::MAX {
        i64::MAX as int
    } else {
        b + 1
    }
}

/// `-v`, saturating (`i64::MIN` maps to `i64::MAX`).
pub open spec fn sat_neg(v: int) -> int {
    if v <= i64::MIN {
        i64::MAX as int
    } else {
        -v
    }
}

/// The last bound of a table (`0` for an empty table).
pub open spec fn last_bound(bounds: Seq<i64>) -> int {
    if bounds.len() == 0 {
        0
    } else {
        bounds[bounds.len() - 1] as int
    }
}

/// Label of a non-negative `value` scanning `bounds` from index `i`, where
/// `lower` is the smallest value the bucket at `i` can hold.
pub open spec fn scan_label(bounds: Seq<i64>, i: int, value: int, lower: int) -> Seq<char>
    decreases bounds.len() - i,
{
    if i < 0 || i >= bounds.len() {
        int_text(sat_inc(last_bound(bounds))).push('+')
    } else if value <= bounds[i] {
        if lower == bounds[i] {
            int_text(bounds[i] as int)
        } else {
            int_text(lower) + seq!['-'] + int_text(bounds[i] as int)
        }
    } else {
        scan_label(bounds, i + 1, value, sat_inc(bounds[i] as int))
    }
}

/// Label of the numeric bucket `value` falls in under `bounds`. Negative
/// values take the label of their (saturated) negation, prefixed by `-`.
pub open spec fn bucket_text(bounds: Seq<i64>, value: int) -> Seq<char> {
    if value < 0 {
        seq!['-'] + scan_label(bounds, 0, sat_neg(value), 0)
    } else {
        scan_label(bounds, 0, value, 0)
    }
}

/// A bucket label: non-empty, made only of digits, `-` and `+`.
pub open spec fn is_bucket_label(s: Seq<char>) -> bool {
    s.len() > 0 && forall|i: int| 0 <= i < s.len() ==> (is_digit(#[trigger] s[i]) || s[i] == '-' || s[i] == '+')
}

proof fn lemma_int_text_label(n: int)
    ensures
        is_bucket_label(int_text(n)),
{
    if n < 0 {
        crate::text::lemma_nat_text_digits((-n) as nat);
        let t = nat_text((-n) as nat);
        let s = seq!['-'] + t;
        assert forall|i: int| 0 <= i < s.len() implies (is_digit(#[trigger] s[i]) || s[i] == '-'
            || s[i] == '+') by {
            if i > 0 {
                assert(s[i] == t[i - 1]);
            }
        }
    } else {
        crate::text::lemma_nat_text_digits(n as nat);
    }
}

proof fn lemma_concat_label(a: Seq<char>, b: Seq<char>)
    requires
        is_bucket_label(a),
        is_bucket_label(b),
    ensures
        is_bucket_label(a + b),
{
    let s = a + b;
    assert forall|i: int| 0 <= i < s.len() implies (is_digit(#[trigger] s[i]) || s[i] == '-'
        || s[i] == '+') by {
        if i < a.len() {
            assert(s[i] == a[i]);
        } else {
            assert(s[i] == b[i - a.len()]);
        }
    }
}

proof fn lemma_scan_label(bounds: Seq<i64>, i: int, value: int, lower: int)
    ensures
        is_bucket_label(scan_label(bounds, i, value, lower)),
    decreases bounds.len() - i,
{
    if i < 0 || i >= bounds.len() {
        lemma_int_text_label(sat_inc(last_bound(bounds)));
        lemma_concat_label(int_text(sat_inc(last_bound(bounds))), seq!['+']);
        assert(int_text(sat_inc(last_bound(bounds))).push('+') =~= int_text(
            sat_inc(last_bound(bounds)),
        ) + seq!['+']);
    } else if value <= bounds[i] {
        lemma_int_text_label(bounds[i] as int);
        lemma_int_text_label(lower);
        lemma_concat_label(int_text(lower), seq!['-']);
        lemma_concat_label(int_text(lower) + seq!['-'], int_text(bounds[i] as int));
    } else {
        lemma_scan_label(bounds, i + 1, value, sat_inc(bounds[i] as int));
    }
}

/// Every bucket text is a bucket label, whatever the table and value.
pub proof fn lemma_bucket_text_is_label(bounds: Seq<i64>, value: int)
    ensures
        is_bucket_label(bucket_text(bounds, value)),
{
    lemma_scan_label(bounds, 0, sat_neg(value), 0);
    lemma_scan_label(bounds, 0, value, 0);
    if value < 0 {
        lemma_concat_label(seq!['-'], scan_label(bounds, 0, sat_neg(value), 0));
    }
}

/// Negative numbers are labelled like their magnitude, with a `-` in
/// front.
pub proof fn negative_labels_mirror_positive(bounds: Seq<i64>, value: int)
    requires
        0 < value <= i64::MAX,
    ensures
        bucket_text(bounds, -value) == seq!['-'] + bucket_text(bounds, value),
{
}

impl NormCfg {
    /// Label the numeric bucket `value` falls into under the global
    /// table. Negative numbers map symmetrically with a `-` prefix.
    pub fn bucket_label(&self, value: i64) -> (r: String)
        ensures
            r@ == bucket_text(self.numeric_bucket_bounds@, value as int),
    {
        NormCfg::label_in(self.numeric_bucket_bounds.as_slice(), value)
    }

    /// Label `value` against an explicit bounds table.
    pub fn label_in(bounds: &[i64], value: i64) -> (r: String)
        ensures
            r@ == bucket_text(bounds@, value as int),
    {
        let mut out = String::new();
        let v: i64 = if value < 0 {
            out.append("-");
            proof { reveal_strlit("-"); }
            if value == i64::MIN { i64::MAX } else { -value }
        } else {
            value
        };
        label_nonneg(bounds, v, &mut out);
        assert(out@ =~= bucket_text(bounds@, value as int));
        out
    }
}

fn label_nonneg(bounds: &[i64], value: i64, out: &mut String)
    requires
        value >= 0,
    ensures
        final(out)@ == old(out)@ + scan_label(bounds@, 0, value as int, 0),
{
    let mut lower: i64 = 0;
    let mut i: usize = 0;
    while i < bounds.len()
        invariant
            i <= bounds@.len(),
            value >= 0,
            *out == *old(out),
            scan_label(bounds@, 0, value as int, 0) == scan_label(bounds@, i as int, value as int, lower as int),
        decreases bounds@.len() - i,
    {
        let bound = bounds[i];
        if value <= bound {
            if lower == bound {
                push_int(out, bound);
            } else {
                push_int(out, lower);
                out.append("-");
                proof { reveal_strlit("-"); }
                push_int(out, bound);
            }
            assert(final(out)@ =~= old(out)@ + scan_label(bounds@, 0, value as int, 0));
            return;
        }
        lower = if bound == i64::MAX { i64::MAX } else { bound + 1 };
        i += 1;
    }
    let last: i64 = if bounds.len() == 0 {
        0
    } else {
        bounds[bounds.len() - 1]
    };
    push_int(out, if last == i64::MAX { i64::MAX } else { last + 1 });
    out.append("+");
    proof { reveal_strlit("+"); }
    assert(final(out)@ =~= old(out)@ + scan_label(bounds@, 0, value as int, 0));
}

} // verus!

//! Privacy-aware wrapper around a recorded value: strings are masked,
//! numerics bucketed, identifiers hashed unless a field opts in to raw.

use vstd::prelude::*;

use crate::json::JsonValue;

verus! {

/// Privacy-aware wrapper around a recorded value.
#[derive(Debug)]
#[non_exhaustive]
pub enum ValuePolicy {
    /// The raw value, recorded only on an explicit per-field opt-in.
    Raw {
        /// The raw JSON value the adapter captured.
        value: JsonValue,
    },
    /// The default for free-text strings (e.g. `"***"`).
    Masked {
        /// The displayed mask.
        display: String,
    },
    /// The default for numerics and dates: a categorical bucket.
    Bucketed {
        /// The bucket label.
        bucket: String,
    },
    /// A keyed hash for identifiers.
    Hashed {
        /// Hex-encoded digest.
        hash: String,
        /// Hash algorithm name (e.g. `"blake3"`).
        algo: String,
    },
    /// The adapter dropped the field entirely.
    Removed,
}

/// Two wrapped values with the same variant, texts and value.
pub open spec fn policy_same(a: ValuePolicy, b: ValuePolicy) -> bool {
    match (a, b) {
        (ValuePolicy::Raw { value: x }, ValuePolicy::Raw { value: y }) => x.model() == y.model(),
        (ValuePolicy::Masked { display: x }, ValuePolicy::Masked { display: y }) => x@ == y@,
        (ValuePolicy::Bucketed { bucket: x }, ValuePolicy::Bucketed { bucket: y }) => x@ == y@,
        (ValuePolicy::Hashed { hash: x, algo: p }, ValuePolicy::Hashed { hash: y, algo: q }) => x@
            == y@ && p@ == q@,
        (ValuePolicy::Removed, ValuePolicy::Removed) => true,
        _ => false,
    }
}

impl ValuePolicy {
    /// True iff the wrapped variant exposes the original value.
    pub fn is_raw(&self) -> (r: bool)
        ensures
            r == (*self is Raw),
    {
        matches!(self, ValuePolicy::Raw { .. })
    }

    /// The canonical default masked string: `Masked { display: "***" }`.
    pub fn default_masked() -> (r: Self)
        ensures
            r matches ValuePolicy::Masked { display } && display@ == seq!['*', '*', '*'],
    {
        proof { reveal_strlit("***"); }
        let d = "***".to_owned();
        assert(d@ =~= seq!['*', '*', '*']);
        ValuePolicy::Masked { display: d }
    }

    /// A copy: strings and values carried over unchanged.
    pub fn duplicate(&self) -> (r: Self)
        ensures
            policy_same(*self, r),
    {
        match self {
            ValuePolicy::Raw { value } => ValuePolicy::Raw { value: value.duplicate() },
            ValuePolicy::Masked { display } => ValuePolicy::Masked { display: display.clone() },
            ValuePolicy::Bucketed { bucket } => ValuePolicy::Bucketed { bucket: bucket.clone() },
            ValuePolicy::Hashed { hash, algo } => ValuePolicy::Hashed {
                hash: hash.clone(),
                algo: algo.clone(),
            },
            ValuePolicy::Removed => ValuePolicy::Removed,
        }
    }
}

} // verus!

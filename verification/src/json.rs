//! A JSON document model: what the normalizer reads of argument payloads.
//!
//! Objects keep their entries in the order given (a serializer that sorts
//! keys hands them over sorted); numbers keep the three shapes of a JSON
//! number: non-negative integer, negative integer, and float. A float is
//! carried by its IEEE-754 bits together with its value truncated toward
//! zero and saturated to `i64` (what the numeric abstraction reads).

use vstd::prelude::*;

verus! {

/// A JSON number.
#[derive(Clone, Copy, Debug, PartialEq, Eq, Structural)]
pub enum JsonNumber {
    /// A non-negative integer.
    PosInt(u64),
    /// A negative integer.
    NegInt(i64),
    /// A float: its bits, and its value truncated toward zero, saturated
    /// to the `i64` range (NaN reads as `0`).
    Float { bits: u64, truncated: i64 },
}

/// A JSON value.
#[derive(Debug)]
pub enum JsonValue {
    Null,
    Bool(bool),
    Number(JsonNumber),
    String(String),
    Array(Vec<JsonValue>),
    Object(Vec<(String, JsonValue)>),
}

/// The mathematical model of a [`JsonValue`]: strings as character
/// sequences, arrays and objects as sequences.
pub enum JsonModel {
    Null,
    Bool(bool),
    Number(JsonNumber),
    String(Seq<char>),
    Array(Seq<JsonModel>),
    Object(Seq<(Seq<char>, JsonModel)>),
}

impl JsonValue {
    /// The model of this value.
    pub open spec fn model(self) -> JsonModel
        decreases self,
    {
        match self {
            JsonValue::Null => JsonModel::Null,
            JsonValue::Bool(b) => JsonModel::Bool(b),
            JsonValue::Number(n) => JsonModel::Number(n),
            JsonValue::String(s) => JsonModel::String(s@),
            JsonValue::Array(v) => JsonModel::Array(JsonValue::models(v@)),
            JsonValue::Object(v) => JsonModel::Object(JsonValue::entry_models(v@)),
        }
    }

    /// Element-wise model of a sequence of values.
    pub open spec fn models(s: Seq<JsonValue>) -> Seq<JsonModel>
        decreases s,
    {
        if s.len() == 0 {
            Seq::empty()
        } else {
            seq![s[0].model()] + JsonValue::models(s.subrange(1, s.len() as int))
        }
    }

    /// Entry-wise model of a sequence of object entries.
    pub open spec fn entry_models(s: Seq<(String, JsonValue)>) -> Seq<(Seq<char>, JsonModel)>
        decreases s,
    {
        if s.len() == 0 {
            Seq::empty()
        } else {
            seq![(s[0].0@, s[0].1.model())] + JsonValue::entry_models(s.subrange(1, s.len() as int))
        }
    }
}

/// `models` is element-wise.
pub proof fn lemma_models(s: Seq<JsonValue>)
    ensures
        JsonValue::models(s).len() == s.len(),
        forall|i: int| 0 <= i < s.len() ==> #[trigger] JsonValue::models(s)[i] == s[i].model(),
    decreases s.len(),
{
    if s.len() > 0 {
        let t = s.subrange(1, s.len() as int);
        lemma_models(t);
        assert forall|i: int| 0 <= i < s.len() implies #[trigger] JsonValue::models(s)[i]
            == s[i].model() by {
            if i > 0 {
                assert(t[i - 1] == s[i]);
            }
        }
    }
}

/// `entry_models` is entry-wise.
pub proof fn lemma_entry_models(s: Seq<(String, JsonValue)>)
    ensures
        JsonValue::entry_models(s).len() == s.len(),
        forall|i: int|
            0 <= i < s.len() ==> #[trigger] JsonValue::entry_models(s)[i] == (s[i].0@, s[i].1.model()),
    decreases s.len(),
{
    if s.len() > 0 {
        let t = s.subrange(1, s.len() as int);
        lemma_entry_models(t);
        assert forall|i: int| 0 <= i < s.len() implies #[trigger] JsonValue::entry_models(s)[i]
            == (s[i].0@, s[i].1.model()) by {
            if i > 0 {
                assert(t[i - 1] == s[i]);
            }
        }
    }
}

/// Two sequences of values with pointwise-equal models have equal models.
pub proof fn lemma_models_ext(a: Seq<JsonValue>, b: Seq<JsonValue>)
    requires
        a.len() == b.len(),
        forall|i: int| 0 <= i < a.len() ==> a[i].model() == b[i].model(),
    ensures
        JsonValue::models(a) == JsonValue::models(b),
{
    lemma_models(a);
    lemma_models(b);
    assert(JsonValue::models(a) =~= JsonValue::models(b));
}

/// The value of `key` in model entries: the first entry with that key.
pub open spec fn model_get(entries: Seq<(Seq<char>, JsonModel)>, key: Seq<char>) -> Option<JsonModel>
    decreases entries.len(),
{
    if entries.len() == 0 {
        None
    } else if entries[0].0 == key {
        Some(entries[0].1)
    } else {
        model_get(entries.subrange(1, entries.len() as int), key)
    }
}

/// The integer a number reads as: integers as themselves (saturated to
/// `i64`), floats truncated toward zero.
pub open spec fn number_int(n: JsonNumber) -> int {
    match n {
        JsonNumber::PosInt(u) => if u <= i64::MAX { u as int } else { i64::MAX as int },
        JsonNumber::NegInt(i) => i as int,
        JsonNumber::Float { bits, truncated } => truncated as int,
    }
}

impl JsonNumber {
    /// The integer this number reads as (see [`number_int`]).
    pub fn as_int(&self) -> (r: i64)
        ensures
            r == number_int(*self),
    {
        match self {
            JsonNumber::PosInt(u) => if *u <= 9223372036854775807u64 {
                *u as i64
            } else {
                i64::MAX
            },
            JsonNumber::NegInt(i) => *i,
            JsonNumber::Float { bits: _, truncated } => *truncated,
        }
    }
}

impl JsonValue {
    /// A copy with the same model.
    #[verifier::loop_isolation(false)]
    pub fn duplicate(&self) -> (r: JsonValue)
        ensures
            r.model() == self.model(),
        decreases self,
    {
        match self {
            JsonValue::Null => JsonValue::Null,
            JsonValue::Bool(b) => JsonValue::Bool(*b),
            JsonValue::Number(n) => JsonValue::Number(*n),
            JsonValue::String(s) => JsonValue::String(s.clone()),
            JsonValue::Array(items) => {
                let mut out: Vec<JsonValue> = Vec::new();
                let mut i: usize = 0;
                while i < items.len()
                    invariant
                        i <= items@.len(),
                        out@.len() == i,
                        forall|j: int| 0 <= j < i ==> #[trigger] out@[j].model() == items@[j].model(),
                    decreases items@.len() - i,
                {
                    proof {
                        assert(decreases_to!(*self => items@[i as int]));
                    }
                    let c = items[i].duplicate();
                    out.push(c);
                    i += 1;
                }
                proof {
                    lemma_models_ext(out@, items@);
                }
                JsonValue::Array(out)
            },
            JsonValue::Object(entries) => {
                let mut out: Vec<(String, JsonValue)> = Vec::new();
                let mut i: usize = 0;
                while i < entries.len()
                    invariant
                        i <= entries@.len(),
                        out@.len() == i,
                        forall|j: int|
                            0 <= j < i ==> (#[trigger] out@[j]).0@ == entries@[j].0@
                                && out@[j].1.model() == entries@[j].1.model(),
                    decreases entries@.len() - i,
                {
                    let k = entries[i].0.clone();
                    proof {
                        assert(decreases_to!(*self => entries@[i as int].1));
                    }
                    let c = entries[i].1.duplicate();
                    out.push((k, c));
                    i += 1;
                }
                proof {
                    lemma_entry_models(out@);
                    lemma_entry_models(entries@);
                    assert(JsonValue::entry_models(out@) =~= JsonValue::entry_models(entries@));
                }
                JsonValue::Object(out)
            },
        }
    }

    /// Structural equality of models.
    #[verifier::loop_isolation(false)]
    pub fn equals(&self, other: &JsonValue) -> (r: bool)
        ensures
            r == (self.model() == other.model()),
        decreases self,
    {
        match (self, other) {
            (JsonValue::Null, JsonValue::Null) => true,
            (JsonValue::Bool(a), JsonValue::Bool(b)) => *a == *b,
            (JsonValue::Number(a), JsonValue::Number(b)) => *a == *b,
            (JsonValue::String(a), JsonValue::String(b)) => *a == *b,
            (JsonValue::Array(a), JsonValue::Array(b)) => {
                proof {
                    lemma_models(a@);
                    lemma_models(b@);
                }
                if a.len() != b.len() {
                    return false;
                }
                let mut i: usize = 0;
                while i < a.len()
                    invariant
                        a@.len() == b@.len(),
                        i <= a@.len(),
                        forall|j: int| 0 <= j < i ==> a@[j].model() == b@[j].model(),
                    decreases a@.len() - i,
                {
                    proof {
                        assert(decreases_to!(*self => a@[i as int]));
                    }
                    if !a[i].equals(&b[i]) {
                        assert(JsonValue::models(a@)[i as int] != JsonValue::models(b@)[i as int]);
                        return false;
                    }
                    i += 1;
                }
                proof {
                    lemma_models_ext(a@, b@);
                }
                true
            },
            (JsonValue::Object(a), JsonValue::Object(b)) => {
                proof {
                    lemma_entry_models(a@);
                    lemma_entry_models(b@);
                }
                if a.len() != b.len() {
                    return false;
                }
                let mut i: usize = 0;
                while i < a.len()
                    invariant
                        a@.len() == b@.len(),
                        i <= a@.len(),
                        forall|j: int|
                            0 <= j < i ==> a@[j].0@ == b@[j].0@ && a@[j].1.model() == b@[j].1.model(),
                    decreases a@.len() - i,
                {
                    if a[i].0 != b[i].0 {
                        assert(JsonValue::entry_models(a@)[i as int] != JsonValue::entry_models(
                            b@,
                        )[i as int]);
                        return false;
                    }
                    proof {
                        assert(decreases_to!(*self => a@[i as int].1));
                    }
                    if !a[i].1.equals(&b[i].1) {
                        assert(JsonValue::entry_models(a@)[i as int] != JsonValue::entry_models(
                            b@,
                        )[i as int]);
                        return false;
                    }
                    i += 1;
                }
                assert(JsonValue::entry_models(a@) =~= JsonValue::entry_models(b@));
                true
            },
            _ => false,
        }
    }

    /// The value of `key` when this is an object holding it (first entry
    /// with that key), `None` otherwise.
    pub fn get(&self, key: &str) -> (r: Option<&JsonValue>)
        ensures
            match self.model() {
                JsonModel::Object(entries) => match model_get(entries, key@) {
                    Some(m) => r is Some && r->0.model() == m,
                    None => r is None,
                },
                _ => r is None,
            },
    {
        match self {
            JsonValue::Object(entries) => entries_get(entries, key),
            _ => None,
        }
    }

    /// The text of this value when it is a string.
    pub fn as_str(&self) -> (r: Option<&str>)
        ensures
            match self.model() {
                JsonModel::String(s) => r is Some && r->0@ == s,
                _ => r is None,
            },
    {
        match self {
            JsonValue::String(s) => Some(s.as_str()),
            _ => None,
        }
    }
}

/// The value of `key` among object entries: the first entry with that key.
#[verifier::loop_isolation(false)]
pub fn entries_get<'a>(entries: &'a Vec<(String, JsonValue)>, key: &str) -> (r: Option<&'a JsonValue>)
    ensures
        match model_get(JsonValue::entry_models(entries@), key@) {
            Some(m) => r is Some && r->0.model() == m,
            None => r is None,
        },
{
    proof {
        lemma_entry_models(entries@);
    }
    let k = key.to_owned();
    assert(JsonValue::entry_models(entries@).subrange(0, entries@.len() as int)
        =~= JsonValue::entry_models(entries@));
    let mut i: usize = 0;
    while i < entries.len()
        invariant
            i <= entries@.len(),
            k@ == key@,
            model_get(JsonValue::entry_models(entries@), key@) == model_get(
                JsonValue::entry_models(entries@).subrange(i as int, entries@.len() as int),
                key@,
            ),
        decreases entries@.len() - i,
    {
        let ghost rest = JsonValue::entry_models(entries@).subrange(i as int, entries@.len() as int);
        assert(rest.subrange(1, rest.len() as int) =~= JsonValue::entry_models(entries@).subrange(
            i + 1,
            entries@.len() as int,
        ));
        if entries[i].0 == k {
            return Some(&entries[i].1);
        }
        i += 1;
    }
    None
}

impl Clone for JsonValue {
    fn clone(&self) -> (r: Self)
        ensures
            r.model() == self.model(),
    {
        self.duplicate()
    }
}

impl PartialEq for JsonValue {
    fn eq(&self, other: &Self) -> (r: bool) {
        self.equals(other)
    }
}

impl vstd::std_specs::cmp::PartialEqSpecImpl for JsonValue {
    open spec fn obeys_eq_spec() -> bool {
        true
    }

    open spec fn eq_spec(&self, other: &JsonValue) -> bool {
        self.model() == other.model()
    }
}

} // verus!

//! Value abstraction: concrete values become stable, idempotent buckets
//! and format classes.
//!
//! Abstracted values are tagged JSON objects carrying the [`TAG`] key, and
//! re-abstracting an already-abstracted value changes nothing: the
//! abstraction is a fixed point ([`abstraction_is_idempotent`]).

use vstd::prelude::*;

use crate::json::{
    entries_get, lemma_entry_models, lemma_models, model_get, number_int, JsonModel, JsonNumber,
    JsonValue,
};
use crate::normalizer::config::{
    bounds_lookup, bucket_text, is_bucket_label, lemma_bucket_text_is_label, NormCfg,
};
use crate::text::{all_digits, has_char, is_digit, is_hex_digit};

verus! {

/// Marker key present on every abstracted JSON object.
pub const TAG: &'static str = "_abstract";

/// The text of [`TAG`].
pub open spec fn tag_key() -> Seq<char> {
    seq!['_', 'a', 'b', 's', 't', 'r', 'a', 'c', 't']
}

pub open spec fn numeric_text() -> Seq<char> {
    seq!['n', 'u', 'm', 'e', 'r', 'i', 'c']
}

pub open spec fn string_text() -> Seq<char> {
    seq!['s', 't', 'r', 'i', 'n', 'g']
}

pub open spec fn bucket_key() -> Seq<char> {
    seq!['b', 'u', 'c', 'k', 'e', 't']
}

pub open spec fn class_key() -> Seq<char> {
    seq!['c', 'l', 'a', 's', 's']
}

pub open spec fn len_key() -> Seq<char> {
    seq!['l', 'e', 'n']
}

pub open spec fn email_text() -> Seq<char> {
    seq!['e', 'm', 'a', 'i', 'l']
}

pub open spec fn guid_text() -> Seq<char> {
    seq!['g', 'u', 'i', 'd']
}

pub open spec fn free_text() -> Seq<char> {
    seq!['f', 'r', 'e', 'e']
}

/// A string class of the fixed vocabulary.
pub open spec fn is_known_class(s: Seq<char>) -> bool {
    s == email_text() || s == guid_text() || s == numeric_text() || s == free_text()
}

/// Label of a string's UTF-8 byte length.
pub open spec fn len_text(n: nat) -> Seq<char> {
    if n == 0 {
        seq!['0']
    } else if n <= 8 {
        seq!['1', '-', '8']
    } else if n <= 32 {
        seq!['9', '-', '3', '2']
    } else if n <= 128 {
        seq!['3', '3', '-', '1', '2', '8']
    } else {
        seq!['1', '2', '8', '+']
    }
}

/// A length label of the fixed vocabulary.
pub open spec fn is_known_len(s: Seq<char>) -> bool {
    s == len_text(0) || s == len_text(1) || s == len_text(9) || s == len_text(33) || s == len_text(
        129,
    )
}

/// Whether `entries` is an object this abstractor produced: the exact key
/// set of a numeric or string tag, with label-shaped values.
pub open spec fn is_abstracted_tag(entries: Seq<(Seq<char>, JsonModel)>) -> bool {
    match model_get(entries, tag_key()) {
        Some(JsonModel::String(kind)) => if kind == numeric_text() {
            entries.len() == 2 && match model_get(entries, bucket_key()) {
                Some(JsonModel::String(b)) => is_bucket_label(b),
                _ => false,
            }
        } else if kind == string_text() {
            entries.len() == 3 && match model_get(entries, class_key()) {
                Some(JsonModel::String(c)) => is_known_class(c),
                _ => false,
            } && match model_get(entries, len_key()) {
                Some(JsonModel::String(l)) => is_known_len(l),
                _ => false,
            }
        } else {
            false
        },
        _ => false,
    }
}

/// The tag a number abstracts to.
pub open spec fn numeric_tag(label: Seq<char>) -> JsonModel {
    JsonModel::Object(
        seq![(tag_key(), JsonModel::String(numeric_text())), (bucket_key(), JsonModel::String(label))],
    )
}

/// The tag a string abstracts to.
pub open spec fn string_tag(class: Seq<char>, len: Seq<char>) -> JsonModel {
    JsonModel::Object(
        seq![
            (tag_key(), JsonModel::String(string_text())),
            (class_key(), JsonModel::String(class)),
            (len_key(), JsonModel::String(len)),
        ],
    )
}

/// Index of the first `c` in `s`, or `-1`.
pub open spec fn first_index(s: Seq<char>, c: char) -> int
    decreases s.len(),
{
    if s.len() == 0 {
        -1
    } else if s[0] == c {
        0
    } else {
        let r = first_index(s.subrange(1, s.len() as int), c);
        if r < 0 {
            -1
        } else {
            r + 1
        }
    }
}

/// `local@domain` with a non-empty local part and a domain that contains
/// a `.` but does not start with one (split at the first `@`).
pub open spec fn is_email_text(s: Seq<char>) -> bool {
    let p = first_index(s, '@');
    p > 0 && {
        let domain = s.subrange(p + 1, s.len() as int);
        has_char(domain, '.') && !(domain.len() > 0 && domain[0] == '.')
    }
}

/// Hex groups of 8, 4, 4, 4 and 12 digits joined by `-`.
pub open spec fn is_guid_text(s: Seq<char>) -> bool {
    s.len() == 36 && forall|i: int|
        0 <= i < 36 ==> if i == 8 || i == 13 || i == 18 || i == 23 {
            #[trigger] s[i] == '-'
        } else {
            is_hex_digit(s[i])
        }
}

/// The UTF-8 byte length of a string, as the machine word holding it.
pub open spec fn utf8_len(s: Seq<char>) -> nat {
    (vstd::utf8::encode_utf8(s).len() as usize) as nat
}

/// The format class of a string.
pub open spec fn class_text(s: Seq<char>) -> Seq<char> {
    if is_email_text(s) {
        email_text()
    } else if is_guid_text(s) {
        guid_text()
    } else if s.len() > 0 && all_digits(s) {
        numeric_text()
    } else {
        free_text()
    }
}

/// The bucket table in force under `key`: its own table when it has one,
/// the enclosing table otherwise.
pub open spec fn table_for(key: Seq<char>, inherited: Seq<i64>, overrides: Seq<(Seq<char>, Seq<i64>)>) -> Seq<
    i64,
> {
    match bounds_lookup(overrides, key) {
        Some(b) => b,
        None => inherited,
    }
}

/// The abstraction of a JSON value under bucket table `bounds` and
/// per-field tables `overrides`: numbers become bucket tags, strings
/// become class/length tags, containers recurse, an already-abstracted
/// tag passes through, booleans and null are kept.
pub open spec fn abstract_model(v: JsonModel, bounds: Seq<i64>, overrides: Seq<(Seq<char>, Seq<i64>)>) -> JsonModel
    decreases v,
{
    match v {
        JsonModel::Null => v,
        JsonModel::Bool(_) => v,
        JsonModel::Number(n) => numeric_tag(bucket_text(bounds, number_int(n))),
        JsonModel::String(s) => string_tag(class_text(s), len_text(utf8_len(s))),
        JsonModel::Array(items) => JsonModel::Array(abstract_items(items, bounds, overrides)),
        JsonModel::Object(entries) => if is_abstracted_tag(entries) {
            v
        } else {
            JsonModel::Object(abstract_entries(entries, bounds, overrides))
        },
    }
}

/// Element-wise abstraction of array items.
pub open spec fn abstract_items(items: Seq<JsonModel>, bounds: Seq<i64>, overrides: Seq<(Seq<char>, Seq<i64>)>) -> Seq<
    JsonModel,
>
    decreases items,
{
    if items.len() == 0 {
        Seq::empty()
    } else {
        seq![abstract_model(items[0], bounds, overrides)] + abstract_items(
            items.subrange(1, items.len() as int),
            bounds,
            overrides,
        )
    }
}

/// Entry-wise abstraction of object entries: keys kept, each value
/// abstracted under the table in force for its key.
pub open spec fn abstract_entries(
    entries: Seq<(Seq<char>, JsonModel)>,
    bounds: Seq<i64>,
    overrides: Seq<(Seq<char>, Seq<i64>)>,
) -> Seq<(Seq<char>, JsonModel)>
    decreases entries,
{
    if entries.len() == 0 {
        Seq::empty()
    } else {
        seq![
            (
                entries[0].0,
                abstract_model(entries[0].1, table_for(entries[0].0, bounds, overrides), overrides),
            ),
        ] + abstract_entries(entries.subrange(1, entries.len() as int), bounds, overrides)
    }
}

/// `abstract_items` is element-wise.
pub proof fn lemma_abstract_items(items: Seq<JsonModel>, bounds: Seq<i64>, overrides: Seq<(Seq<char>, Seq<i64>)>)
    ensures
        abstract_items(items, bounds, overrides).len() == items.len(),
        forall|i: int|
            0 <= i < items.len() ==> #[trigger] abstract_items(items, bounds, overrides)[i]
                == abstract_model(items[i], bounds, overrides),
    decreases items.len(),
{
    if items.len() > 0 {
        let t = items.subrange(1, items.len() as int);
        lemma_abstract_items(t, bounds, overrides);
        assert forall|i: int| 0 <= i < items.len() implies #[trigger] abstract_items(
            items,
            bounds,
            overrides,
        )[i] == abstract_model(items[i], bounds, overrides) by {
            if i > 0 {
                assert(t[i - 1] == items[i]);
            }
        }
    }
}

/// `abstract_entries` is entry-wise.
pub proof fn lemma_abstract_entries(
    entries: Seq<(Seq<char>, JsonModel)>,
    bounds: Seq<i64>,
    overrides: Seq<(Seq<char>, Seq<i64>)>,
)
    ensures
        abstract_entries(entries, bounds, overrides).len() == entries.len(),
        forall|i: int|
            0 <= i < entries.len() ==> #[trigger] abstract_entries(entries, bounds, overrides)[i] == (
                entries[i].0,
                abstract_model(entries[i].1, table_for(entries[i].0, bounds, overrides), overrides),
            ),
    decreases entries.len(),
{
    if entries.len() > 0 {
        let t = entries.subrange(1, entries.len() as int);
        lemma_abstract_entries(t, bounds, overrides);
        assert forall|i: int| 0 <= i < entries.len() implies #[trigger] abstract_entries(
            entries,
            bounds,
            overrides,
        )[i] == (
            entries[i].0,
            abstract_model(entries[i].1, table_for(entries[i].0, bounds, overrides), overrides),
        ) by {
            if i > 0 {
                assert(t[i - 1] == entries[i]);
            }
        }
    }
}

/// An abstracted value is never a bare string.
pub proof fn lemma_abstract_not_string(v: JsonModel, bounds: Seq<i64>, overrides: Seq<(Seq<char>, Seq<i64>)>)
    ensures
        !(abstract_model(v, bounds, overrides) is String),
{
}

/// Looking a key up in abstracted entries finds the abstraction of what
/// the key held.
proof fn lemma_get_abstract_entries(
    entries: Seq<(Seq<char>, JsonModel)>,
    bounds: Seq<i64>,
    overrides: Seq<(Seq<char>, Seq<i64>)>,
    key: Seq<char>,
)
    ensures
        model_get(abstract_entries(entries, bounds, overrides), key) == match model_get(entries, key) {
            Some(x) => Some(abstract_model(x, table_for(key, bounds, overrides), overrides)),
            None => None,
        },
    decreases entries.len(),
{
    if entries.len() > 0 {
        let t = entries.subrange(1, entries.len() as int);
        let a = abstract_entries(entries, bounds, overrides);
        lemma_get_abstract_entries(t, bounds, overrides, key);
        assert(a.subrange(1, a.len() as int) =~= abstract_entries(t, bounds, overrides));
    }
}

proof fn lemma_numeric_tag_recognized(label: Seq<char>)
    requires
        is_bucket_label(label),
    ensures
        numeric_tag(label) matches JsonModel::Object(e) && is_abstracted_tag(e),
{
    let e = seq![(tag_key(), JsonModel::String(numeric_text())), (bucket_key(), JsonModel::String(label))];
    assert(e[0].0 != bucket_key());
    assert(e.subrange(1, 2) =~= seq![(bucket_key(), JsonModel::String(label))]);
    assert(model_get(e, tag_key()) == Some(JsonModel::String(numeric_text())));
    assert(model_get(e.subrange(1, 2), bucket_key()) == Some(JsonModel::String(label)));
    assert(model_get(e, bucket_key()) == Some(JsonModel::String(label)));
    assert(numeric_text() != string_text());
}

proof fn lemma_string_tag_recognized(class: Seq<char>, len: Seq<char>)
    requires
        is_known_class(class),
        is_known_len(len),
    ensures
        string_tag(class, len) matches JsonModel::Object(e) && is_abstracted_tag(e),
{
    let e = seq![
        (tag_key(), JsonModel::String(string_text())),
        (class_key(), JsonModel::String(class)),
        (len_key(), JsonModel::String(len)),
    ];
    let e1 = e.subrange(1, 3);
    let e2 = e1.subrange(1, 2);
    assert(e1 =~= seq![(class_key(), JsonModel::String(class)), (len_key(), JsonModel::String(len))]);
    assert(e2 =~= seq![(len_key(), JsonModel::String(len))]);
    assert(e[0].0 != class_key());
    assert(e[0].0 != len_key());
    assert(e1[0].0 != len_key());
    assert(model_get(e, tag_key()) == Some(JsonModel::String(string_text())));
    assert(model_get(e1, class_key()) == Some(JsonModel::String(class)));
    assert(model_get(e, class_key()) == Some(JsonModel::String(class)));
    assert(model_get(e2, len_key()) == Some(JsonModel::String(len)));
    assert(model_get(e1, len_key()) == Some(JsonModel::String(len)));
    assert(model_get(e, len_key()) == Some(JsonModel::String(len)));
    assert(string_text() != numeric_text());
}

proof fn lemma_class_and_len_known(s: Seq<char>)
    ensures
        is_known_class(class_text(s)),
        is_known_len(len_text(utf8_len(s))),
{
}

proof fn lemma_fixed_point(
    v: JsonModel,
    b1: Seq<i64>,
    o1: Seq<(Seq<char>, Seq<i64>)>,
    b2: Seq<i64>,
    o2: Seq<(Seq<char>, Seq<i64>)>,
)
    ensures
        abstract_model(abstract_model(v, b1, o1), b2, o2) == abstract_model(v, b1, o1),
    decreases v,
{
    match v {
        JsonModel::Null => {},
        JsonModel::Bool(_) => {},
        JsonModel::Number(n) => {
            lemma_bucket_text_is_label(b1, number_int(n));
            lemma_numeric_tag_recognized(bucket_text(b1, number_int(n)));
        },
        JsonModel::String(s) => {
            lemma_class_and_len_known(s);
            lemma_string_tag_recognized(class_text(s), len_text(utf8_len(s)));
        },
        JsonModel::Array(items) => {
            let a = abstract_items(items, b1, o1);
            lemma_abstract_items(items, b1, o1);
            lemma_abstract_items(a, b2, o2);
            assert forall|i: int| 0 <= i < items.len() implies #[trigger] abstract_items(a, b2, o2)[i]
                == a[i] by {
                assert(decreases_to!(v => items[i]));
                lemma_fixed_point(items[i], b1, o1, b2, o2);
            }
            assert(abstract_items(a, b2, o2) =~= a);
        },
        JsonModel::Object(entries) => {
            if !is_abstracted_tag(entries) {
                let a = abstract_entries(entries, b1, o1);
                lemma_abstract_entries(entries, b1, o1);
                lemma_abstract_entries(a, b2, o2);
                lemma_get_abstract_entries(entries, b1, o1, tag_key());
                match model_get(entries, tag_key()) {
                    Some(x) => {
                        lemma_abstract_not_string(x, table_for(tag_key(), b1, o1), o1);
                    },
                    None => {},
                }
                assert(!is_abstracted_tag(a));
                assert forall|i: int| 0 <= i < entries.len() implies #[trigger] abstract_entries(
                    a,
                    b2,
                    o2,
                )[i] == a[i] by {
                    assert(decreases_to!(v => entries[i].1));
                    lemma_fixed_point(
                        entries[i].1,
                        table_for(entries[i].0, b1, o1),
                        o1,
                        table_for(entries[i].0, b2, o2),
                        o2,
                    );
                }
                assert(abstract_entries(a, b2, o2) =~= a);
            }
        },
    }
}

/// Value abstraction is a fixed point: abstracting an abstracted value
/// changes nothing, whatever tables are in force the second time.
pub proof fn abstraction_is_idempotent(
    v: JsonModel,
    bounds: Seq<i64>,
    overrides: Seq<(Seq<char>, Seq<i64>)>,
    second_bounds: Seq<i64>,
    second_overrides: Seq<(Seq<char>, Seq<i64>)>,
)
    ensures
        abstract_model(abstract_model(v, bounds, overrides), second_bounds, second_overrides)
            == abstract_model(v, bounds, overrides),
{
    lemma_fixed_point(v, bounds, overrides, second_bounds, second_overrides);
}

proof fn lemma_first_index_hits(s: Seq<char>, c: char)
    ensures
        first_index(s, c) >= 0 ==> first_index(s, c) < s.len() && s[first_index(s, c)] == c,
    decreases s.len(),
{
    if s.len() > 0 && s[0] != c {
        let t = s.subrange(1, s.len() as int);
        lemma_first_index_hits(t, c);
        if first_index(t, c) >= 0 {
            assert(t[first_index(t, c)] == s[first_index(t, c) + 1]);
        }
    }
}

/// A string is abstracted by its format class and its length bucket: an
/// email address is `email`; a GUID is `guid`; a non-empty run of ASCII
/// digits is `numeric`; any other string is `free`. The raw text never
/// survives abstraction.
pub proof fn strings_abstract_to_their_class(
    s: Seq<char>,
    bounds: Seq<i64>,
    overrides: Seq<(Seq<char>, Seq<i64>)>,
)
    ensures
        is_email_text(s) ==> abstract_model(JsonModel::String(s), bounds, overrides) == string_tag(
            email_text(),
            len_text(utf8_len(s)),
        ),
        is_guid_text(s) ==> abstract_model(JsonModel::String(s), bounds, overrides) == string_tag(
            guid_text(),
            len_text(utf8_len(s)),
        ),
        s.len() > 0 && all_digits(s) ==> abstract_model(JsonModel::String(s), bounds, overrides)
            == string_tag(numeric_text(), len_text(utf8_len(s))),
        !is_email_text(s) && !is_guid_text(s) && !(s.len() > 0 && all_digits(s)) ==> abstract_model(
            JsonModel::String(s),
            bounds,
            overrides,
        ) == string_tag(free_text(), len_text(utf8_len(s))),
{
    lemma_first_index_hits(s, '@');
    if is_guid_text(s) && is_email_text(s) {
        let p = first_index(s, '@');
        if p == 8 || p == 13 || p == 18 || p == 23 {
            assert(s[p] == '-');
        } else {
            assert(is_hex_digit(s[p]));
        }
    }
    if s.len() > 0 && all_digits(s) {
        if is_email_text(s) {
            assert(is_digit(s[first_index(s, '@')]));
        }
        if is_guid_text(s) {
            assert(s[8] == '-');
            assert(is_digit(s[8]));
        }
    }
}

/// Whether `b` is `a` with leaves changed only within their abstraction
/// class: the same shape and keys, booleans and null kept, each string of
/// the same format class and length bucket, each number in the same bucket
/// of the table in force for it. An object that is an abstracted tag on
/// either side passes through abstraction untouched, so there the two must
/// be equal.
pub open spec fn same_class_leaves(
    a: JsonModel,
    b: JsonModel,
    bounds: Seq<i64>,
    overrides: Seq<(Seq<char>, Seq<i64>)>,
) -> bool
    decreases a,
{
    match a {
        JsonModel::Null => b == a,
        JsonModel::Bool(_) => b == a,
        JsonModel::Number(m) => match b {
            JsonModel::Number(n) => bucket_text(bounds, number_int(m)) == bucket_text(bounds, number_int(n)),
            _ => false,
        },
        JsonModel::String(s) => match b {
            JsonModel::String(t) => class_text(s) == class_text(t) && len_text(utf8_len(s)) == len_text(
                utf8_len(t),
            ),
            _ => false,
        },
        JsonModel::Array(xs) => match b {
            JsonModel::Array(ys) => same_class_items(xs, ys, bounds, overrides),
            _ => false,
        },
        JsonModel::Object(es) => match b {
            JsonModel::Object(fs) => if is_abstracted_tag(es) || is_abstracted_tag(fs) {
                b == a
            } else {
                same_class_entries(es, fs, bounds, overrides)
            },
            _ => false,
        },
    }
}

/// Item-wise [`same_class_leaves`].
pub open spec fn same_class_items(
    xs: Seq<JsonModel>,
    ys: Seq<JsonModel>,
    bounds: Seq<i64>,
    overrides: Seq<(Seq<char>, Seq<i64>)>,
) -> bool
    decreases xs,
{
    if xs.len() == 0 {
        ys.len() == 0
    } else {
        ys.len() > 0 && same_class_leaves(xs[0], ys[0], bounds, overrides) && same_class_items(
            xs.subrange(1, xs.len() as int),
            ys.subrange(1, ys.len() as int),
            bounds,
            overrides,
        )
    }
}

/// Entry-wise [`same_class_leaves`]: the same keys in the same order, each
/// value under the table in force for its key.
pub open spec fn same_class_entries(
    es: Seq<(Seq<char>, JsonModel)>,
    fs: Seq<(Seq<char>, JsonModel)>,
    bounds: Seq<i64>,
    overrides: Seq<(Seq<char>, Seq<i64>)>,
) -> bool
    decreases es,
{
    if es.len() == 0 {
        fs.len() == 0
    } else {
        fs.len() > 0 && es[0].0 == fs[0].0 && same_class_leaves(
            es[0].1,
            fs[0].1,
            table_for(es[0].0, bounds, overrides),
            overrides,
        ) && same_class_entries(
            es.subrange(1, es.len() as int),
            fs.subrange(1, fs.len() as int),
            bounds,
            overrides,
        )
    }
}

/// Changing leaves within their abstraction class leaves the abstraction
/// unchanged.
pub proof fn same_class_leaves_abstract_alike(
    a: JsonModel,
    b: JsonModel,
    bounds: Seq<i64>,
    overrides: Seq<(Seq<char>, Seq<i64>)>,
)
    requires
        same_class_leaves(a, b, bounds, overrides),
    ensures
        abstract_model(a, bounds, overrides) == abstract_model(b, bounds, overrides),
    decreases a,
{
    match a {
        JsonModel::Array(xs) => {
            if let JsonModel::Array(ys) = b {
                lemma_same_class_items(xs, ys, bounds, overrides);
            }
        },
        JsonModel::Object(es) => {
            if let JsonModel::Object(fs) = b {
                if !is_abstracted_tag(es) && !is_abstracted_tag(fs) {
                    lemma_same_class_entries(es, fs, bounds, overrides);
                }
            }
        },
        _ => {},
    }
}

proof fn lemma_same_class_items(
    xs: Seq<JsonModel>,
    ys: Seq<JsonModel>,
    bounds: Seq<i64>,
    overrides: Seq<(Seq<char>, Seq<i64>)>,
)
    requires
        same_class_items(xs, ys, bounds, overrides),
    ensures
        abstract_items(xs, bounds, overrides) == abstract_items(ys, bounds, overrides),
    decreases xs,
{
    if xs.len() > 0 {
        same_class_leaves_abstract_alike(xs[0], ys[0], bounds, overrides);
        lemma_same_class_items(xs.subrange(1, xs.len() as int), ys.subrange(1, ys.len() as int), bounds, overrides);
    }
}

proof fn lemma_same_class_entries(
    es: Seq<(Seq<char>, JsonModel)>,
    fs: Seq<(Seq<char>, JsonModel)>,
    bounds: Seq<i64>,
    overrides: Seq<(Seq<char>, Seq<i64>)>,
)
    requires
        same_class_entries(es, fs, bounds, overrides),
    ensures
        abstract_entries(es, bounds, overrides) == abstract_entries(fs, bounds, overrides),
    decreases es,
{
    if es.len() > 0 {
        same_class_leaves_abstract_alike(es[0].1, fs[0].1, table_for(es[0].0, bounds, overrides), overrides);
        lemma_same_class_entries(es.subrange(1, es.len() as int), fs.subrange(1, fs.len() as int), bounds, overrides);
    }
}

/// `k` is the key of an object entry somewhere within `v`.
pub open spec fn has_key(v: JsonModel, k: Seq<char>) -> bool
    decreases v,
{
    match v {
        JsonModel::Array(items) => items_have_key(items, k),
        JsonModel::Object(entries) => entries_have_key(entries, k),
        _ => false,
    }
}

/// `k` is a key within one of `items`.
pub open spec fn items_have_key(items: Seq<JsonModel>, k: Seq<char>) -> bool
    decreases items,
{
    if items.len() == 0 {
        false
    } else {
        has_key(items[0], k) || items_have_key(items.subrange(1, items.len() as int), k)
    }
}

/// `k` is one of the keys of `entries`, or a key within their values.
pub open spec fn entries_have_key(entries: Seq<(Seq<char>, JsonModel)>, k: Seq<char>) -> bool
    decreases entries,
{
    if entries.len() == 0 {
        false
    } else {
        entries[0].0 == k || has_key(entries[0].1, k) || entries_have_key(
            entries.subrange(1, entries.len() as int),
            k,
        )
    }
}

/// Two override tables that agree on every key occurring in `v` abstract
/// `v` alike.
proof fn lemma_overrides_agree(
    v: JsonModel,
    bounds: Seq<i64>,
    ov1: Seq<(Seq<char>, Seq<i64>)>,
    ov2: Seq<(Seq<char>, Seq<i64>)>,
)
    requires
        forall|k: Seq<char>| has_key(v, k) ==> bounds_lookup(ov1, k) == bounds_lookup(ov2, k),
    ensures
        abstract_model(v, bounds, ov1) == abstract_model(v, bounds, ov2),
    decreases v,
{
    match v {
        JsonModel::Array(items) => {
            lemma_items_agree(items, bounds, ov1, ov2);
        },
        JsonModel::Object(entries) => {
            lemma_entries_agree(entries, bounds, ov1, ov2);
        },
        _ => {},
    }
}

proof fn lemma_items_agree(
    items: Seq<JsonModel>,
    bounds: Seq<i64>,
    ov1: Seq<(Seq<char>, Seq<i64>)>,
    ov2: Seq<(Seq<char>, Seq<i64>)>,
)
    requires
        forall|k: Seq<char>| items_have_key(items, k) ==> bounds_lookup(ov1, k) == bounds_lookup(ov2, k),
    ensures
        abstract_items(items, bounds, ov1) == abstract_items(items, bounds, ov2),
    decreases items,
{
    if items.len() > 0 {
        let t = items.subrange(1, items.len() as int);
        assert(decreases_to!(items => items[0]));
        lemma_overrides_agree(items[0], bounds, ov1, ov2);
        lemma_items_agree(t, bounds, ov1, ov2);
    }
}

proof fn lemma_entries_agree(
    entries: Seq<(Seq<char>, JsonModel)>,
    bounds: Seq<i64>,
    ov1: Seq<(Seq<char>, Seq<i64>)>,
    ov2: Seq<(Seq<char>, Seq<i64>)>,
)
    requires
        forall|k: Seq<char>| entries_have_key(entries, k) ==> bounds_lookup(ov1, k) == bounds_lookup(ov2, k),
    ensures
        abstract_entries(entries, bounds, ov1) == abstract_entries(entries, bounds, ov2),
    decreases entries,
{
    if entries.len() > 0 {
        let t = entries.subrange(1, entries.len() as int);
        assert(decreases_to!(entries => entries[0]));
        assert(decreases_to!(entries[0] => entries[0].1));
        assert(entries_have_key(entries, entries[0].0));
        let tb = table_for(entries[0].0, bounds, ov1);
        assert(tb == table_for(entries[0].0, bounds, ov2));
        lemma_overrides_agree(entries[0].1, tb, ov1, ov2);
        lemma_entries_agree(t, bounds, ov1, ov2);
    }
}

/// A per-field override for a key that occurs nowhere in the value
/// changes nothing: `overridden` differs from `overrides` only at `key`.
pub proof fn override_for_absent_key_is_no_op(
    v: JsonModel,
    bounds: Seq<i64>,
    overrides: Seq<(Seq<char>, Seq<i64>)>,
    overridden: Seq<(Seq<char>, Seq<i64>)>,
    key: Seq<char>,
)
    requires
        forall|k: Seq<char>| k != key ==> bounds_lookup(overridden, k) == bounds_lookup(overrides, k),
        !has_key(v, key),
    ensures
        abstract_model(v, bounds, overridden) == abstract_model(v, bounds, overrides),
{
    lemma_overrides_agree(v, bounds, overridden, overrides);
}

/// Overriding field `key` leaves every other field of an object alike
/// when that field's value does not itself hold `key`: the entry for a
/// sibling `other` abstracts identically under both tables.
pub proof fn override_touches_only_the_named_field(
    entries: Seq<(Seq<char>, JsonModel)>,
    bounds: Seq<i64>,
    overrides: Seq<(Seq<char>, Seq<i64>)>,
    overridden: Seq<(Seq<char>, Seq<i64>)>,
    key: Seq<char>,
    i: int,
)
    requires
        forall|k: Seq<char>| k != key ==> bounds_lookup(overridden, k) == bounds_lookup(overrides, k),
        0 <= i < entries.len(),
        entries[i].0 != key,
        !has_key(entries[i].1, key),
    ensures
        abstract_entries(entries, bounds, overridden)[i] == abstract_entries(entries, bounds, overrides)[i],
{
    lemma_abstract_entries(entries, bounds, overridden);
    lemma_abstract_entries(entries, bounds, overrides);
    lemma_overrides_agree(entries[i].1, table_for(entries[i].0, bounds, overrides), overridden, overrides);
}

fn text_of(s: &str) -> (r: String)
    ensures
        r@ == s@,
{
    s.to_owned()
}

fn tag_key_string() -> (r: String)
    ensures
        r@ == tag_key(),
{
    proof { reveal_strlit("_abstract"); }
    let r = text_of(TAG);
    assert(r@ =~= tag_key());
    r
}

fn numeric_string() -> (r: String)
    ensures
        r@ == numeric_text(),
{
    proof { reveal_strlit("numeric"); }
    let r = text_of("numeric");
    assert(r@ =~= numeric_text());
    r
}

fn string_string() -> (r: String)
    ensures
        r@ == string_text(),
{
    proof { reveal_strlit("string"); }
    let r = text_of("string");
    assert(r@ =~= string_text());
    r
}

fn bucket_key_string() -> (r: String)
    ensures
        r@ == bucket_key(),
{
    proof { reveal_strlit("bucket"); }
    let r = text_of("bucket");
    assert(r@ =~= bucket_key());
    r
}

fn class_key_string() -> (r: String)
    ensures
        r@ == class_key(),
{
    proof { reveal_strlit("class"); }
    let r = text_of("class");
    assert(r@ =~= class_key());
    r
}

fn len_key_string() -> (r: String)
    ensures
        r@ == len_key(),
{
    proof { reveal_strlit("len"); }
    let r = text_of("len");
    assert(r@ =~= len_key());
    r
}

fn email_string() -> (r: String)
    ensures
        r@ == email_text(),
{
    proof { reveal_strlit("email"); }
    let r = text_of("email");
    assert(r@ =~= email_text());
    r
}

fn guid_string() -> (r: String)
    ensures
        r@ == guid_text(),
{
    proof { reveal_strlit("guid"); }
    let r = text_of("guid");
    assert(r@ =~= guid_text());
    r
}

fn free_string() -> (r: String)
    ensures
        r@ == free_text(),
{
    proof { reveal_strlit("free"); }
    let r = text_of("free");
    assert(r@ =~= free_text());
    r
}

/// The label of a string's UTF-8 byte length.
pub fn len_bucket(len: usize) -> (r: String)
    ensures
        r@ == len_text(len as nat),
{
    if len == 0 {
        proof { reveal_strlit("0"); }
        let r = text_of("0");
        assert(r@ =~= len_text(len as nat));
        r
    } else if len <= 8 {
        proof { reveal_strlit("1-8"); }
        let r = text_of("1-8");
        assert(r@ =~= len_text(len as nat));
        r
    } else if len <= 32 {
        proof { reveal_strlit("9-32"); }
        let r = text_of("9-32");
        assert(r@ =~= len_text(len as nat));
        r
    } else if len <= 128 {
        proof { reveal_strlit("33-128"); }
        let r = text_of("33-128");
        assert(r@ =~= len_text(len as nat));
        r
    } else {
        proof { reveal_strlit("128+"); }
        let r = text_of("128+");
        assert(r@ =~= len_text(len as nat));
        r
    }
}

fn is_bucket_label_exec(s: &String) -> (r: bool)
    ensures
        r == is_bucket_label(s@),
{
    let c = crate::text::chars_of(s.as_str());
    if c.len() == 0 {
        return false;
    }
    let mut i: usize = 0;
    while i < c.len()
        invariant
            c@ == s@,
            i <= c@.len(),
            forall|j: int| 0 <= j < i ==> (is_digit(#[trigger] c@[j]) || c@[j] == '-' || c@[j] == '+'),
        decreases c@.len() - i,
    {
        let ch = c[i];
        if !(('0' <= ch && ch <= '9') || ch == '-' || ch == '+') {
            return false;
        }
        i += 1;
    }
    true
}

fn is_known_class_exec(s: &String) -> (r: bool)
    ensures
        r == is_known_class(s@),
{
    *s == email_string() || *s == guid_string() || *s == numeric_string() || *s == free_string()
}

fn is_known_len_exec(s: &String) -> (r: bool)
    ensures
        r == is_known_len(s@),
{
    *s == len_bucket(0) || *s == len_bucket(1) || *s == len_bucket(9) || *s == len_bucket(33)
        || *s == len_bucket(129)
}

/// Whether `entries` is exactly a tag this abstractor produces.
pub fn is_abstracted_tag_exec(entries: &Vec<(String, JsonValue)>) -> (r: bool)
    ensures
        r == is_abstracted_tag(JsonValue::entry_models(entries@)),
{
    proof {
        lemma_entry_models(entries@);
        reveal_strlit("_abstract");
        reveal_strlit("bucket");
        reveal_strlit("class");
        reveal_strlit("len");
        assert(TAG@ =~= tag_key());
        assert("bucket"@ =~= bucket_key());
        assert("class"@ =~= class_key());
        assert("len"@ =~= len_key());
    }
    match entries_get(entries, TAG) {
        Some(JsonValue::String(kind)) => {
            if *kind == numeric_string() {
                if entries.len() != 2 {
                    return false;
                }
                match entries_get(entries, "bucket") {
                    Some(JsonValue::String(b)) => is_bucket_label_exec(b),
                    _ => false,
                }
            } else if *kind == string_string() {
                if entries.len() != 3 {
                    return false;
                }
                let class_ok = match entries_get(entries, "class") {
                    Some(JsonValue::String(c)) => is_known_class_exec(c),
                    _ => false,
                };
                let len_ok = match entries_get(entries, "len") {
                    Some(JsonValue::String(l)) => is_known_len_exec(l),
                    _ => false,
                };
                class_ok && len_ok
            } else {
                false
            }
        },
        _ => false,
    }
}

proof fn lemma_first_index_found(s: Seq<char>, c: char, i: int)
    requires
        0 <= i < s.len(),
        s[i] == c,
        forall|j: int| 0 <= j < i ==> s[j] != c,
    ensures
        first_index(s, c) == i,
    decreases i,
{
    if i > 0 {
        let t = s.subrange(1, s.len() as int);
        assert forall|j: int| 0 <= j < i - 1 implies t[j] != c by {
            assert(t[j] == s[j + 1]);
        }
        lemma_first_index_found(t, c, i - 1);
    }
}

proof fn lemma_first_index_absent(s: Seq<char>, c: char)
    requires
        forall|j: int| 0 <= j < s.len() ==> s[j] != c,
    ensures
        first_index(s, c) == -1,
    decreases s.len(),
{
    if s.len() > 0 {
        let t = s.subrange(1, s.len() as int);
        assert forall|j: int| 0 <= j < t.len() implies t[j] != c by {
            assert(t[j] == s[j + 1]);
        }
        lemma_first_index_absent(t, c);
    }
}

fn is_email_exec(c: &Vec<char>) -> (r: bool)
    ensures
        r == is_email_text(c@),
{
    let n = c.len();
    let mut p: usize = 0;
    while p < n && c[p] != '@'
        invariant
            n == c@.len(),
            p <= n,
            forall|j: int| 0 <= j < p ==> c@[j] != '@',
        decreases n - p,
    {
        p += 1;
    }
    if p == n {
        proof {
            lemma_first_index_absent(c@, '@');
        }
        return false;
    }
    proof {
        lemma_first_index_found(c@, '@', p as int);
    }
    if p == 0 {
        return false;
    }
    let ghost domain = c@.subrange(p + 1, n as int);
    let mut has_dot = false;
    let mut k: usize = p + 1;
    while k < n
        invariant
            n == c@.len(),
            p < n,
            p + 1 <= k <= n,
            domain == c@.subrange(p + 1, n as int),
            has_dot == exists|j: int| p + 1 <= j < k && c@[j] == '.',
        decreases n - k,
    {
        if c[k] == '.' {
            has_dot = true;
        }
        k += 1;
    }
    proof {
        if has_dot {
            let j = choose|j: int| p + 1 <= j < n && c@[j] == '.';
            assert(domain[j - p - 1] == '.');
        }
        if has_char(domain, '.') {
            let j = choose|j: int| 0 <= j < domain.len() && domain[j] == '.';
            assert(c@[j + p + 1] == '.');
        }
    }
    let starts_dot = p + 1 < n && c[p + 1] == '.';
    has_dot && !starts_dot
}

fn is_guid_exec(c: &Vec<char>) -> (r: bool)
    ensures
        r == is_guid_text(c@),
{
    if c.len() != 36 {
        return false;
    }
    let mut i: usize = 0;
    while i < 36
        invariant
            c@.len() == 36,
            i <= 36,
            forall|j: int|
                0 <= j < i ==> if j == 8 || j == 13 || j == 18 || j == 23 {
                    #[trigger] c@[j] == '-'
                } else {
                    is_hex_digit(c@[j])
                },
        decreases 36 - i,
    {
        let ch = c[i];
        if i == 8 || i == 13 || i == 18 || i == 23 {
            if ch != '-' {
                return false;
            }
        } else if !(('0' <= ch && ch <= '9') || ('a' <= ch && ch <= 'f') || ('A' <= ch && ch <= 'F')) {
            return false;
        }
        i += 1;
    }
    true
}

fn all_digits_exec(c: &Vec<char>) -> (r: bool)
    ensures
        r == all_digits(c@),
{
    let mut i: usize = 0;
    while i < c.len()
        invariant
            i <= c@.len(),
            forall|j: int| 0 <= j < i ==> is_digit(#[trigger] c@[j]),
        decreases c@.len() - i,
    {
        if !('0' <= c[i] && c[i] <= '9') {
            return false;
        }
        i += 1;
    }
    true
}

fn class_of(s: &String) -> (r: String)
    ensures
        r@ == class_text(s@),
{
    let c = crate::text::chars_of(s.as_str());
    if is_email_exec(&c) {
        email_string()
    } else if is_guid_exec(&c) {
        guid_string()
    } else if c.len() > 0 && all_digits_exec(&c) {
        numeric_string()
    } else {
        free_string()
    }
}

fn string_class(s: &String) -> (r: JsonValue)
    ensures
        r.model() == string_tag(class_text(s@), len_text(utf8_len(s@))),
{
    let class = class_of(s);
    let len = len_bucket(s.as_str().len());
    let mut entries: Vec<(String, JsonValue)> = Vec::new();
    entries.push((tag_key_string(), JsonValue::String(string_string())));
    entries.push((class_key_string(), JsonValue::String(class)));
    entries.push((len_key_string(), JsonValue::String(len)));
    proof {
        lemma_entry_models(entries@);
    }
    let r = JsonValue::Object(entries);
    assert(JsonValue::entry_models(entries@) =~= seq![
        (tag_key(), JsonModel::String(string_text())),
        (class_key(), JsonModel::String(class_text(s@))),
        (len_key(), JsonModel::String(len_text(utf8_len(s@)))),
    ]);
    r
}

fn numeric(n: &JsonNumber, bounds: &[i64]) -> (r: JsonValue)
    ensures
        r.model() == numeric_tag(bucket_text(bounds@, number_int(*n))),
{
    let label = NormCfg::label_in(bounds, n.as_int());
    let mut entries: Vec<(String, JsonValue)> = Vec::new();
    entries.push((tag_key_string(), JsonValue::String(numeric_string())));
    entries.push((bucket_key_string(), JsonValue::String(label)));
    proof {
        lemma_entry_models(entries@);
    }
    assert(JsonValue::entry_models(entries@) =~= seq![
        (tag_key(), JsonModel::String(numeric_text())),
        (bucket_key(), JsonModel::String(bucket_text(bounds@, number_int(*n)))),
    ]);
    JsonValue::Object(entries)
}

/// Abstract a JSON value: numbers become bucket labels, strings become
/// `{class, len}` descriptors, containers recurse, booleans and null pass
/// through, and an already-abstracted tag is kept as it is.
pub fn abstract_value(value: &JsonValue, cfg: &NormCfg) -> (r: JsonValue)
    ensures
        r.model() == abstract_model(value.model(), cfg.numeric_bucket_bounds@, cfg.overrides()),
{
    abstract_in(value, cfg.numeric_bucket_bounds.as_slice(), cfg)
}

#[verifier::loop_isolation(false)]
fn abstract_in(value: &JsonValue, bounds: &[i64], cfg: &NormCfg) -> (r: JsonValue)
    ensures
        r.model() == abstract_model(value.model(), bounds@, cfg.overrides()),
    decreases value,
{
    match value {
        JsonValue::Null => JsonValue::Null,
        JsonValue::Bool(b) => JsonValue::Bool(*b),
        JsonValue::Number(n) => numeric(n, bounds),
        JsonValue::String(s) => string_class(s),
        JsonValue::Array(items) => {
            proof {
                lemma_models(items@);
                lemma_abstract_items(JsonValue::models(items@), bounds@, cfg.overrides());
            }
            let mut out: Vec<JsonValue> = Vec::new();
            let mut i: usize = 0;
            while i < items.len()
                invariant
                    i <= items@.len(),
                    out@.len() == i,
                    forall|j: int|
                        0 <= j < i ==> #[trigger] out@[j].model() == abstract_model(
                            items@[j].model(),
                            bounds@,
                            cfg.overrides(),
                        ),
                decreases items@.len() - i,
            {
                proof {
                    assert(decreases_to!(*value => items@[i as int]));
                }
                let a = abstract_in(&items[i], bounds, cfg);
                out.push(a);
                i += 1;
            }
            proof {
                lemma_models(out@);
                assert(JsonValue::models(out@) =~= abstract_items(
                    JsonValue::models(items@),
                    bounds@,
                    cfg.overrides(),
                ));
            }
            JsonValue::Array(out)
        },
        JsonValue::Object(entries) => {
            if is_abstracted_tag_exec(entries) {
                return value.duplicate();
            }
            proof {
                lemma_entry_models(entries@);
                lemma_abstract_entries(JsonValue::entry_models(entries@), bounds@, cfg.overrides());
            }
            let mut out: Vec<(String, JsonValue)> = Vec::new();
            let mut i: usize = 0;
            while i < entries.len()
                invariant
                    i <= entries@.len(),
                    out@.len() == i,
                    forall|j: int|
                        0 <= j < i ==> (#[trigger] out@[j]).0@ == entries@[j].0@ && out@[j].1.model()
                            == abstract_model(
                            entries@[j].1.model(),
                            table_for(entries@[j].0@, bounds@, cfg.overrides()),
                            cfg.overrides(),
                        ),
                decreases entries@.len() - i,
            {
                let key = &entries[i].0;
                let child: &[i64] = match cfg.per_field_bucket_bounds.get(key.as_str()) {
                    Some(b) => b.as_slice(),
                    None => bounds,
                };
                proof {
                    assert(decreases_to!(*value => entries@[i as int].1));
                }
                let a = abstract_in(&entries[i].1, child, cfg);
                out.push((key.clone(), a));
                i += 1;
            }
            proof {
                lemma_entry_models(out@);
                assert(JsonValue::entry_models(out@) =~= abstract_entries(
                    JsonValue::entry_models(entries@),
                    bounds@,
                    cfg.overrides(),
                ));
            }
            JsonValue::Object(out)
        },
    }
}

} // verus!

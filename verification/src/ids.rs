//! Identifier newtypes: every identifier is its own type so that a
//! command name cannot be mistaken for a screen name.

use vstd::prelude::*;

use crate::text::nat_text;

verus! {

/// Lower-case hexadecimal digit character for `d` (`0 <= d < 16`).
pub open spec fn hex_char(d: int) -> char {
    if d < 10 {
        crate::text::digit_char(d)
    } else if d == 10 {
        'a'
    } else if d == 11 {
        'b'
    } else if d == 12 {
        'c'
    } else if d == 13 {
        'd'
    } else if d == 14 {
        'e'
    } else {
        'f'
    }
}

/// The `count` lower-case hexadecimal digits of `value`, most significant
/// first, zero-padded (`value < 16^count`).
pub open spec fn hex_digits(value: nat, count: nat) -> Seq<char>
    decreases count,
{
    if count == 0 {
        Seq::empty()
    } else {
        hex_digits(value / 16, (count - 1) as nat).push(hex_char((value % 16) as int))
    }
}

/// Canonical hyphenated text of a 128-bit UUID: lower-case hexadecimal
/// groups of 8, 4, 4, 4 and 12 digits (most significant first), joined by `-`.
pub open spec fn uuid_text(bits: u128) -> Seq<char> {
    let b = bits as nat;
    hex_digits(b / 0x1_0000_0000_0000_0000_0000_0000, 8) + seq!['-']
        + hex_digits((b / 0x1_0000_0000_0000_0000_0000) % 0x1_0000, 4) + seq!['-']
        + hex_digits((b / 0x1_0000_0000_0000_0000) % 0x1_0000, 4) + seq!['-']
        + hex_digits((b / 0x1_0000_0000_0000) % 0x1_0000, 4) + seq!['-']
        + hex_digits(b % 0x1_0000_0000_0000, 12)
}

fn hex_str(d: u128) -> (r: &'static str)
    requires
        d < 16,
    ensures
        r@ == seq![hex_char(d as int)],
{
    if d < 10 {
        crate::text::digit_str(d as u64)
    } else if d == 10 {
        proof { reveal_strlit("a"); }
        "a"
    } else if d == 11 {
        proof { reveal_strlit("b"); }
        "b"
    } else if d == 12 {
        proof { reveal_strlit("c"); }
        "c"
    } else if d == 13 {
        proof { reveal_strlit("d"); }
        "d"
    } else if d == 14 {
        proof { reveal_strlit("e"); }
        "e"
    } else {
        proof { reveal_strlit("f"); }
        "f"
    }
}

/// Append the `count` zero-padded hexadecimal digits of `value`.
fn push_hex(s: &mut String, value: u128, count: u32)
    ensures
        final(s)@ == old(s)@ + hex_digits(value as nat, count as nat),
    decreases count,
{
    if count > 0 {
        push_hex(s, value / 16, count - 1);
        s.append(hex_str(value % 16));
        assert(final(s)@ =~= old(s)@ + hex_digits(value as nat, count as nat));
    } else {
        assert(final(s)@ =~= old(s)@ + hex_digits(value as nat, count as nat));
    }
}

/// Canonical hyphenated text of a 128-bit UUID.
pub fn uuid_to_string(bits: u128) -> (r: String)
    ensures
        r@ == uuid_text(bits),
{
    let mut s = String::new();
    proof { reveal_strlit("-"); }
    push_hex(&mut s, bits / 0x1_0000_0000_0000_0000_0000_0000, 8);
    s.append("-");
    push_hex(&mut s, (bits / 0x1_0000_0000_0000_0000_0000) % 0x1_0000, 4);
    s.append("-");
    push_hex(&mut s, (bits / 0x1_0000_0000_0000_0000) % 0x1_0000, 4);
    s.append("-");
    push_hex(&mut s, (bits / 0x1_0000_0000_0000) % 0x1_0000, 4);
    s.append("-");
    push_hex(&mut s, bits % 0x1_0000_0000_0000, 12);
    assert(s@ =~= uuid_text(bits));
    s
}

/// Returns the 128 bits of `uuid::Uuid::new_v4()`: a random version-4 UUID.
/// The crate's source sets the version nibble to 4 and the variant bits to
/// `10`; those two facts are stated, the rest of the value is chance.
#[verifier::external_body]
fn random_v4_bits() -> (r: u128)
    ensures
        (r / 0x1_0000_0000_0000_0000_000) % 16 == 4,
        (r / 0x4000_0000_0000_0000) % 4 == 2,
{
    uuid::Uuid::new_v4().as_u128()
}

/// A recorded session's identifier (a UUID, held as its 128 bits).
#[derive(Clone, Copy, Debug, PartialEq, Eq, Hash, Structural)]
pub struct SessionId(pub u128);

impl SessionId {
    /// Construct from the 128 bits of a UUID.
    pub fn new(id: u128) -> (r: Self)
        ensures
            r.0 == id,
    {
        SessionId(id)
    }

    /// A fresh random (version 4) session id.
    pub fn random() -> (r: Self)
        ensures
            (r.0 / 0x1_0000_0000_0000_0000_000) % 16 == 4,
            (r.0 / 0x4000_0000_0000_0000) % 4 == 2,
    {
        SessionId(random_v4_bits())
    }

    /// The underlying 128 bits.
    pub fn as_u128(&self) -> (r: u128)
        ensures
            r == self.0,
    {
        self.0
    }

    /// Canonical hyphenated UUID text.
    pub fn to_string(&self) -> (r: String)
        ensures
            r@ == uuid_text(self.0),
    {
        uuid_to_string(self.0)
    }
}

/// Monotonic per-session event counter.
#[derive(Clone, Copy, Debug, PartialEq, Eq, PartialOrd, Ord, Hash, Structural)]
pub struct EventSeq(pub u64);

impl EventSeq {
    /// Construct from a `u64`.
    pub fn new(seq: u64) -> (r: Self)
        ensures
            r.0 == seq,
    {
        EventSeq(seq)
    }

    /// The first event in a session has seq `0`.
    pub fn zero() -> (r: Self)
        ensures
            r.0 == 0,
    {
        EventSeq(0)
    }

    /// Numeric value.
    pub fn get(self) -> (r: u64)
        ensures
            r == self.0,
    {
        self.0
    }

    /// Next sequence number; saturating at `u64::MAX`.
    pub fn next(self) -> (r: Self)
        ensures
            r.0 == if self.0 == u64::MAX { u64::MAX as int } else { self.0 + 1 },
    {
        EventSeq(self.0.saturating_add(1))
    }

    /// Decimal text of the sequence number.
    pub fn to_string(&self) -> (r: String)
        ensures
            r@ == nat_text(self.0 as nat),
    {
        crate::text::nat_to_string(self.0)
    }
}

/// Semantic name of a command, e.g. `Graph47.Recalculate`.
#[derive(Clone, Debug, PartialEq, Eq, Hash, PartialOrd, Ord)]
pub struct CommandId(pub String);

impl View for CommandId {
    type V = Seq<char>;

    open spec fn view(&self) -> Seq<char> {
        self.0@
    }
}

impl CommandId {
    /// Wrap a string.
    pub fn new(id: &str) -> (r: Self)
        ensures
            r@ == id@,
    {
        CommandId(id.to_owned())
    }

    /// Borrow the inner string.
    pub fn as_str(&self) -> (r: &str)
        ensures
            r@ == self@,
    {
        self.0.as_str()
    }

    /// A copy with the same text.
    pub fn duplicate(&self) -> (r: Self)
        ensures
            r@ == self@,
    {
        CommandId(self.0.clone())
    }

    /// Text equality.
    pub fn same(&self, other: &Self) -> (r: bool)
        ensures
            r == (self@ == other@),
    {
        self.0 == other.0
    }
}

/// Semantic name of a screen, e.g. `DeclarationEditor`.
#[derive(Clone, Debug, PartialEq, Eq, Hash, PartialOrd, Ord)]
pub struct ScreenId(pub String);

impl View for ScreenId {
    type V = Seq<char>;

    open spec fn view(&self) -> Seq<char> {
        self.0@
    }
}

impl ScreenId {
    /// Wrap a string.
    pub fn new(id: &str) -> (r: Self)
        ensures
            r@ == id@,
    {
        ScreenId(id.to_owned())
    }

    /// Borrow the inner string.
    pub fn as_str(&self) -> (r: &str)
        ensures
            r@ == self@,
    {
        self.0.as_str()
    }

    /// A copy with the same text.
    pub fn duplicate(&self) -> (r: Self)
        ensures
            r@ == self@,
    {
        ScreenId(self.0.clone())
    }

    /// Text equality.
    pub fn same(&self, other: &Self) -> (r: bool)
        ensures
            r == (self@ == other@),
    {
        self.0 == other.0
    }
}

/// Semantic name of a field, e.g. `Customer.Iin`.
#[derive(Clone, Debug, PartialEq, Eq, Hash, PartialOrd, Ord)]
pub struct FieldId(pub String);

impl View for FieldId {
    type V = Seq<char>;

    open spec fn view(&self) -> Seq<char> {
        self.0@
    }
}

impl FieldId {
    /// Wrap a string.
    pub fn new(id: &str) -> (r: Self)
        ensures
            r@ == id@,
    {
        FieldId(id.to_owned())
    }

    /// Borrow the inner string.
    pub fn as_str(&self) -> (r: &str)
        ensures
            r@ == self@,
    {
        self.0.as_str()
    }
}

/// Optional identifier linking related events (a UUID, held as its bits).
#[derive(Clone, Copy, Debug, PartialEq, Eq, Hash, Structural)]
pub struct CorrelationId(pub u128);

impl CorrelationId {
    /// Construct from the 128 bits of a UUID.
    pub fn new(id: u128) -> (r: Self)
        ensures
            r.0 == id,
    {
        CorrelationId(id)
    }

    /// A fresh random (version 4) correlation id.
    pub fn random() -> (r: Self)
        ensures
            (r.0 / 0x1_0000_0000_0000_0000_000) % 16 == 4,
            (r.0 / 0x4000_0000_0000_0000) % 4 == 2,
    {
        CorrelationId(random_v4_bits())
    }

    /// Canonical hyphenated UUID text.
    pub fn to_string(&self) -> (r: String)
        ensures
            r@ == uuid_text(self.0),
    {
        uuid_to_string(self.0)
    }
}

/// Semantic identifier of the primary domain entity an event applies to,
/// e.g. `Declaration:doc-123`.
#[derive(Clone, Debug, PartialEq, Eq, Hash, PartialOrd, Ord)]
pub struct DomainEntityId(pub String);

impl View for DomainEntityId {
    type V = Seq<char>;

    open spec fn view(&self) -> Seq<char> {
        self.0@
    }
}

impl DomainEntityId {
    /// Wrap a string.
    pub fn new(id: &str) -> (r: Self)
        ensures
            r@ == id@,
    {
        DomainEntityId(id.to_owned())
    }

    /// Borrow the inner string.
    pub fn as_str(&self) -> (r: &str)
        ensures
            r@ == self@,
    {
        self.0.as_str()
    }
}

} // verus!

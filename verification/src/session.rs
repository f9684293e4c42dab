//! [`Session`]: an ordered, non-empty sequence of events with a single
//! session id.

use vstd::prelude::*;

use crate::ids::SessionId;

verus! {

/// Errors when constructing a [`Session`].
#[derive(Clone, Copy, Debug, PartialEq, Eq, Structural)]
#[non_exhaustive]
pub enum SessionError {
    /// A session must contain at least one event.
    Empty,
}

impl SessionError {
    /// Human-readable description.
    pub fn to_string(&self) -> (r: String)
        ensures
            r@ == "a session must contain at least one event"@,
    {
        "a session must contain at least one event".to_owned()
    }
}

/// A recorded session: an ordered, non-empty sequence of events with a
/// single [`SessionId`].
#[derive(Debug, PartialEq)]
pub struct Session<E> {
    id: SessionId,
    events: Vec<E>,
}

impl<E> Session<E> {
    #[verifier::type_invariant]
    spec fn non_empty(self) -> bool {
        self.events.len() > 0
    }

    /// The session identifier.
    pub closed spec fn spec_id(&self) -> SessionId {
        self.id
    }

    /// The recorded events, in order.
    pub closed spec fn spec_events(&self) -> Seq<E> {
        self.events@
    }

    /// Build a session; refused (with [`SessionError::Empty`]) exactly
    /// when `events` is empty.
    pub fn new(id: SessionId, events: Vec<E>) -> (r: Result<Self, SessionError>)
        ensures
            events@.len() == 0 <==> r is Err,
            r matches Err(e) ==> e == SessionError::Empty,
            r matches Ok(s) ==> s.spec_id() == id && s.spec_events() == events@,
    {
        if events.len() == 0 {
            return Err(SessionError::Empty);
        }
        Ok(Session { id, events })
    }

    /// The session identifier.
    pub fn id(&self) -> (r: &SessionId)
        ensures
            *r == self.spec_id(),
    {
        &self.id
    }

    /// The recorded events, in order.
    pub fn events(&self) -> (r: &[E])
        ensures
            r@ == self.spec_events(),
            r@.len() > 0,
    {
        proof {
            use_type_invariant(self);
        }
        self.events.as_slice()
    }

    /// Number of recorded events; always at least 1.
    pub fn len(&self) -> (r: usize)
        ensures
            r == self.spec_events().len(),
            r >= 1,
    {
        proof {
            use_type_invariant(self);
        }
        self.events.len()
    }

    /// Always `false`: a session is non-empty by construction.
    pub fn is_empty(&self) -> (r: bool)
        ensures
            r == (self.spec_events().len() == 0),
            !r,
    {
        proof {
            use_type_invariant(self);
        }
        false
    }

    /// Decompose into `(id, events)`.
    pub fn into_parts(self) -> (r: (SessionId, Vec<E>))
        ensures
            r.0 == self.spec_id(),
            r.1@ == self.spec_events(),
            r.1@.len() > 0,
    {
        proof {
            use_type_invariant(&self);
        }
        (self.id, self.events)
    }
}

} // verus!

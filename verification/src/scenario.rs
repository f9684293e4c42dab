//! [`Scenario`] and the canonical action it is made of.

use vstd::prelude::*;

use crate::ids::{CommandId, ScreenId};
use crate::json::{JsonModel, JsonValue};

verus! {

/// Canonical (screen, command, abstract arguments) triple.
#[derive(Clone, Debug, PartialEq)]
pub struct CanonicalAction {
    /// Screen the action happened on.
    pub screen_id: ScreenId,
    /// Semantic command id.
    pub command_id: CommandId,
    /// Abstracted arguments.
    pub abstract_args: JsonValue,
}

/// Model of a canonical action.
pub struct ActionModel {
    pub screen: Seq<char>,
    pub command: Seq<char>,
    pub args: JsonModel,
}

impl CanonicalAction {
    /// The model of this action.
    pub open spec fn model(self) -> ActionModel {
        ActionModel { screen: self.screen_id@, command: self.command_id@, args: self.abstract_args.model() }
    }

    /// A copy with the same model.
    pub fn duplicate(&self) -> (r: Self)
        ensures
            r.model() == self.model(),
    {
        CanonicalAction {
            screen_id: self.screen_id.duplicate(),
            command_id: self.command_id.duplicate(),
            abstract_args: self.abstract_args.duplicate(),
        }
    }

    /// Equality of models.
    pub fn same(&self, other: &CanonicalAction) -> (r: bool)
        ensures
            r == (self.model() == other.model()),
    {
        self.screen_id.same(&other.screen_id) && self.command_id.same(&other.command_id)
            && self.abstract_args.equals(&other.abstract_args)
    }
}

/// Element-wise model of a sequence of actions.
pub open spec fn actions_model(s: Seq<CanonicalAction>) -> Seq<ActionModel> {
    s.map_values(|a: CanonicalAction| a.model())
}

/// A normalized scenario: an ordered list of canonical actions.
#[derive(Debug, PartialEq)]
pub struct Scenario {
    /// The canonical action sequence, in order.
    pub actions: Vec<CanonicalAction>,
}

impl Scenario {
    /// The model: the sequence of action models.
    pub open spec fn model(self) -> Seq<ActionModel> {
        actions_model(self.actions@)
    }

    /// Build a scenario from canonical actions.
    pub fn new(actions: Vec<CanonicalAction>) -> (r: Self)
        ensures
            r.actions@ == actions@,
    {
        Scenario { actions }
    }

    /// Number of actions.
    pub fn len(&self) -> (r: usize)
        ensures
            r == self.actions@.len(),
    {
        self.actions.len()
    }

    /// True iff the scenario has no actions.
    pub fn is_empty(&self) -> (r: bool)
        ensures
            r == (self.actions@.len() == 0),
    {
        self.actions.len() == 0
    }

    /// A copy with the same model.
    pub fn duplicate(&self) -> (r: Self)
        ensures
            r.model() == self.model(),
    {
        let mut out: Vec<CanonicalAction> = Vec::new();
        let mut i: usize = 0;
        while i < self.actions.len()
            invariant
                i <= self.actions@.len(),
                out@.len() == i,
                forall|j: int| 0 <= j < i ==> #[trigger] out@[j].model() == self.actions@[j].model(),
            decreases self.actions@.len() - i,
        {
            out.push(self.actions[i].duplicate());
            i += 1;
        }
        let r = Scenario { actions: out };
        assert(r.model() =~= self.model());
        r
    }

    /// Equality of models.
    pub fn same(&self, other: &Scenario) -> (r: bool)
        ensures
            r == (self.model() == other.model()),
    {
        if self.actions.len() != other.actions.len() {
            assert(self.model().len() != other.model().len());
            return false;
        }
        let mut i: usize = 0;
        while i < self.actions.len()
            invariant
                self.actions@.len() == other.actions@.len(),
                i <= self.actions@.len(),
                forall|j: int| 0 <= j < i ==> self.actions@[j].model() == other.actions@[j].model(),
            decreases self.actions@.len() - i,
        {
            if !self.actions[i].same(&other.actions[i]) {
                assert(self.model()[i as int] != other.model()[i as int]);
                return false;
            }
            i += 1;
        }
        assert(self.model() =~= other.model());
        true
    }
}

} // verus!

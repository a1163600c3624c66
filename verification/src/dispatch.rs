//! Firing a slot: which command comes next and what it does.
//!
//! The library decides; the caller acts. A caller asks a slot for its first
//! step, does what the step says, reports how it went and asks for the next
//! step, until there is none. How an action went never changes what comes
//! next: a failure is the caller's to report and the rest of the slot still
//! fires.

use crate::item::{Action, Item, ItemView};
use vstd::prelude::*;

verus! {

/// How an action went.
#[derive(Debug, PartialEq, Eq, Structural, Clone, Copy)]
pub enum Outcome {
    Succeeded,
    Failed,
}

/// One command of a slot to fire: its index in the slot and what to do.
#[derive(Debug, PartialEq, Eq, Structural, Clone, Copy)]
pub struct Step {
    pub index: usize,
    pub action: Action,
}

/// The step for the command at `index` of a slot, if it has one there.
pub open spec fn step_at(slot: ItemView, index: int) -> Option<Step> {
    if 0 <= index < slot.commands.len() && index <= usize::MAX {
        Some(Step { index: index as usize, action: slot.commands[index].action() })
    } else {
        None
    }
}

impl Item {
    /// The step for the first command of the slot.
    pub fn first_step(&self) -> (step: Option<Step>)
        ensures
            step == step_at(self@, 0),
    {
        self.step(0)
    }

    /// The step after `done`, whatever `outcome` it had: the step for the
    /// command that follows in the slot, or `None` after the last.
    pub fn next_step(&self, done: Step, outcome: Outcome) -> (step: Option<Step>)
        ensures
            step == step_at(self@, done.index + 1),
    {
        if done.index < self.commands.len() {
            self.step(done.index + 1)
        } else {
            None
        }
    }

    fn step(&self, index: usize) -> (step: Option<Step>)
        ensures
            step == step_at(self@, index as int),
    {
        if index < self.commands.len() {
            Some(Step { index, action: self.commands[index].action() })
        } else {
            None
        }
    }
}

/// Firing a slot step by step fires every command once, in the order of the
/// slot, and stops after the last: the first step is at index 0, and the
/// step after the one at `index` is at `index + 1` as long as the slot has a
/// command there.
pub proof fn lemma_steps_cover_slot(slot: ItemView, index: int)
    requires
        0 <= index < slot.commands.len(),
        slot.commands.len() <= usize::MAX,
    ensures
        step_at(slot, index) matches Some(step) && step.index == index && step.action
            == slot.commands[index].action(),
        step_at(slot, slot.commands.len() as int) is None,
{
}

} // verus!

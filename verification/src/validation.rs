//! What a schedule read from a configuration has to meet.

use crate::item::{Item, ItemView};
use crate::timeline::item_views;
use vstd::prelude::*;

verus! {

/// Why a schedule read from a configuration is refused.
#[derive(Debug, PartialEq, Eq, Structural, Clone, Copy)]
pub enum ConfigError {
    /// The schedule has no slot.
    Empty,
    /// The time of the slot at index `slot` is not on the clock face.
    InvalidTime { slot: usize },
    /// `notify` of the command at index `command` of the slot at index `slot`
    /// is below `-1`.
    InvalidNotify { slot: usize, command: usize },
}

impl ConfigError {
    /// The error in words.
    pub fn message(&self) -> (words: &'static str)
        ensures
            words@ == match self {
                ConfigError::Empty => "the schedule has no slot"@,
                ConfigError::InvalidTime { .. } => "a slot has a time that is not on the clock face"@,
                ConfigError::InvalidNotify { .. } => "a command has a notify value below -1"@,
            },
    {
        match self {
            ConfigError::Empty => "the schedule has no slot",
            ConfigError::InvalidTime { .. } => "a slot has a time that is not on the clock face",
            ConfigError::InvalidNotify { .. } => "a command has a notify value below -1",
        }
    }
}

/// The first `n` commands of a slot have a `notify` that a configuration may
/// hold.
pub open spec fn commands_acceptable(slot: ItemView, n: int) -> bool {
    forall|j: int| 0 <= j < n ==> (#[trigger] slot.commands[j]).notify >= -1
}

/// A slot that a configuration may hold: its time is on the clock face, and
/// `notify` of each of its commands is `-1` or above.
pub open spec fn slot_acceptable(slot: ItemView) -> bool {
    slot.time.valid() && commands_acceptable(slot, slot.commands.len() as int)
}

/// A schedule that a configuration may hold: it has a slot, and all of its
/// slots are acceptable.
pub open spec fn acceptable(s: Seq<ItemView>) -> bool {
    s.len() > 0 && forall|i: int| 0 <= i < s.len() ==> slot_acceptable(#[trigger] s[i])
}

/// `e` names the first fault of `s`, going through the slots in order, in
/// each slot first to its time and then through its commands.
pub open spec fn first_fault(s: Seq<ItemView>, e: ConfigError) -> bool {
    match e {
        ConfigError::Empty => s.len() == 0,
        ConfigError::InvalidTime { slot } => {
            &&& slot < s.len()
            &&& forall|i: int| 0 <= i < slot ==> slot_acceptable(#[trigger] s[i])
            &&& !s[slot as int].time.valid()
        },
        ConfigError::InvalidNotify { slot, command } => {
            &&& slot < s.len()
            &&& forall|i: int| 0 <= i < slot ==> slot_acceptable(#[trigger] s[i])
            &&& s[slot as int].time.valid()
            &&& command < s[slot as int].commands.len()
            &&& commands_acceptable(s[slot as int], command as int)
            &&& s[slot as int].commands[command as int].notify < -1
        },
    }
}

/// Checks a schedule read from a configuration, and names its first fault.
pub fn validate(items: &Vec<Item>) -> (r: Result<(), ConfigError>)
    ensures
        match r {
            Ok(()) => acceptable(item_views(items@)),
            Err(e) => first_fault(item_views(items@), e),
        },
{
    let ghost s = item_views(items@);
    if items.len() == 0 {
        return Err(ConfigError::Empty);
    }
    let mut i: usize = 0;
    while i < items.len()
        invariant
            i <= items.len(),
            s == item_views(items@),
            forall|k: int| 0 <= k < i ==> slot_acceptable(#[trigger] s[k]),
        decreases items.len() - i,
    {
        let item = &items[i];
        assert(s[i as int] == item@);
        if !item.time.is_valid() {
            return Err(ConfigError::InvalidTime { slot: i });
        }
        let mut j: usize = 0;
        while j < item.commands.len()
            invariant
                j <= item.commands.len(),
                i < items.len(),
                s == item_views(items@),
                s[i as int] == item@,
                item.time.valid(),
                forall|k: int| 0 <= k < i ==> slot_acceptable(#[trigger] s[k]),
                commands_acceptable(item@, j as int),
            decreases item.commands.len() - j,
        {
            assert(item@.commands[j as int] == item.commands@[j as int]@);
            if item.commands[j].notify < -1 {
                return Err(ConfigError::InvalidNotify { slot: i, command: j });
            }
            j += 1;
        }
        i += 1;
    }
    Ok(())
}

/// A schedule is acceptable or has a first fault, never both, and its first
/// fault is one alone: what `validate` returns is decided by the schedule.
pub proof fn lemma_first_fault_is_one(s: Seq<ItemView>, a: ConfigError, b: ConfigError)
    requires
        first_fault(s, a),
    ensures
        !acceptable(s),
        first_fault(s, b) ==> a == b,
{
    match a {
        ConfigError::Empty => {},
        ConfigError::InvalidTime { slot } => {
            assert(!slot_acceptable(s[slot as int]));
            if first_fault(s, b) {
                lemma_fault_slot(s, a, b);
            }
        },
        ConfigError::InvalidNotify { slot, command } => {
            assert(!slot_acceptable(s[slot as int]));
            if first_fault(s, b) {
                lemma_fault_slot(s, a, b);
            }
        },
    }
}

/// The slot that a first fault names, if it names one.
pub open spec fn fault_slot(e: ConfigError) -> Option<usize> {
    match e {
        ConfigError::Empty => None,
        ConfigError::InvalidTime { slot } => Some(slot),
        ConfigError::InvalidNotify { slot, .. } => Some(slot),
    }
}

proof fn lemma_fault_slot(s: Seq<ItemView>, a: ConfigError, b: ConfigError)
    requires
        first_fault(s, a),
        first_fault(s, b),
        a != ConfigError::Empty,
    ensures
        a == b,
{
    let i = fault_slot(a).unwrap();
    assert(!slot_acceptable(s[i as int]));
    match b {
        ConfigError::Empty => {},
        _ => {
            let k = fault_slot(b).unwrap();
            assert(!slot_acceptable(s[k as int]));
            assert(i == k);
        },
    }
}

} // verus!

//! Adding a command to a schedule at its time.

use crate::item::{Command, Item, ItemView};
use crate::time::Time;
use crate::item::command_views;
use crate::timeline::{
    add_forward, add_reverse, first_at_or_after, item_views, last_at_or_before,
    opens_slot_forward, opens_slot_reverse, with_command, with_slot,
};
use std::ops::Range;
use vstd::prelude::*;

verus! {

/// A schedule that takes commands at their times.
///
/// A command whose time has a slot joins that slot; otherwise it gets a slot
/// of its own. Each method says whether it made a new slot.
pub trait AddCommand {
    /// The slots of the schedule.
    spec fn slots(&self) -> Seq<ItemView>;

    /// Adds `command` at `time`, searching `range` from the front.
    fn _add_command(&mut self, time: Time, command: Command, range: Range<usize>) -> (added: bool)
        requires
            range.start >= range.end || range.end <= old(self).slots().len(),
        ensures
            final(self).slots() == add_forward(
                old(self).slots(),
                time,
                command@,
                range.start as int,
                range.end as int,
            ),
            added == opens_slot_forward(
                old(self).slots(),
                time,
                range.start as int,
                range.end as int,
            ),
    ;

    /// Adds `command` at `time`, searching from slot `index` to the end.
    fn add_command_with_index(&mut self, time: Time, command: Command, index: usize) -> (added:
        bool)
        ensures
            final(self).slots() == add_forward(
                old(self).slots(),
                time,
                command@,
                index as int,
                old(self).slots().len() as int,
            ),
            added == opens_slot_forward(
                old(self).slots(),
                time,
                index as int,
                old(self).slots().len() as int,
            ),
    ;

    /// Adds `command` at `time`, searching the whole schedule from the front.
    fn add_command(&mut self, time: Time, command: Command) -> (added: bool)
        ensures
            final(self).slots() == add_forward(
                old(self).slots(),
                time,
                command@,
                0,
                old(self).slots().len() as int,
            ),
            added == opens_slot_forward(old(self).slots(), time, 0, old(self).slots().len() as int),
    {
        self.add_command_with_index(time, command, 0)
    }

    /// Adds `command` at `time`, searching `range` from the back.
    fn _add_command_reverse(&mut self, time: Time, command: Command, range: Range<usize>) -> (added:
        bool)
        requires
            range.start >= range.end || range.end <= old(self).slots().len(),
        ensures
            final(self).slots() == add_reverse(
                old(self).slots(),
                time,
                command@,
                range.start as int,
                range.end as int,
            ),
            added == opens_slot_reverse(
                old(self).slots(),
                time,
                range.start as int,
                range.end as int,
            ),
    ;

    /// Adds `command` at `time`, searching the slots before `index` from the
    /// back.
    fn add_command_reverse_with_index(
        &mut self,
        time: Time,
        command: Command,
        index: usize,
    ) -> (added: bool)
        requires
            index <= old(self).slots().len(),
        ensures
            final(self).slots() == add_reverse(old(self).slots(), time, command@, 0, index as int),
            added == opens_slot_reverse(old(self).slots(), time, 0, index as int),
    {
        self._add_command_reverse(time, command, 0..index)
    }

    /// Adds `command` at `time`, searching the whole schedule from the back.
    fn add_command_reverse(&mut self, time: Time, command: Command) -> (added: bool)
        ensures
            final(self).slots() == add_reverse(
                old(self).slots(),
                time,
                command@,
                0,
                old(self).slots().len() as int,
            ),
            added == opens_slot_reverse(old(self).slots(), time, 0, old(self).slots().len() as int),
    ;
}

impl AddCommand for Vec<Item> {
    open spec fn slots(&self) -> Seq<ItemView> {
        item_views(self@)
    }

    fn _add_command(&mut self, time: Time, command: Command, range: Range<usize>) -> (added: bool) {
        let ghost before = self.slots();
        let mut i: usize = range.start;
        while i < range.end
            invariant
                range.start <= i,
                i < range.end ==> range.end <= self.len(),
                *self == *old(self),
                before == item_views(self@),
                first_at_or_after(before, time, range.start as int, range.end as int)
                    == first_at_or_after(before, time, i as int, range.end as int),
            decreases range.end - i,
        {
            assert(before[i as int].time == self@[i as int].time);
            if time.is_before(&self[i].time) {
                let slot = single(time, command);
                self.insert(i, slot);
                assert(self.slots() =~= with_slot(before, i as int, time, command@));
                return true;
            } else if self[i].time == time {
                let ghost commands = self@[i as int].commands@;
                self[i].commands.push(command);
                assert(command_views(commands.push(command)) =~= command_views(commands).push(
                    command@,
                ));
                assert(self.slots() =~= with_command(before, i as int, command@));
                return false;
            }
            i += 1;
        }
        let slot = single(time, command);
        self.push(slot);
        assert(self.slots() =~= with_slot(before, before.len() as int, time, command@));
        true
    }

    fn add_command_with_index(&mut self, time: Time, command: Command, index: usize) -> (added:
        bool) {
        let end = self.len();
        self._add_command(time, command, index..end)
    }

    fn _add_command_reverse(&mut self, time: Time, command: Command, range: Range<usize>) -> (added:
        bool) {
        let ghost before = self.slots();
        let mut i: usize = range.end;
        while i > range.start
            invariant
                i <= range.end,
                i > range.start ==> range.end <= self.len(),
                *self == *old(self),
                before == item_views(self@),
                last_at_or_before(before, time, range.start as int, range.end as int)
                    == last_at_or_before(before, time, range.start as int, i as int),
            decreases i,
        {
            i -= 1;
            assert(before[i as int].time == self@[i as int].time);
            if self[i].time.is_before(&time) {
                let slot = single(time, command);
                self.insert(i + 1, slot);
                assert(self.slots() =~= with_slot(before, i + 1, time, command@));
                return true;
            } else if self[i].time == time {
                let ghost commands = self@[i as int].commands@;
                self[i].commands.push(command);
                assert(command_views(commands.push(command)) =~= command_views(commands).push(
                    command@,
                ));
                assert(self.slots() =~= with_command(before, i as int, command@));
                return false;
            }
        }
        let slot = single(time, command);
        self.insert(0, slot);
        assert(self.slots() =~= with_slot(before, 0, time, command@));
        true
    }

    fn add_command_reverse(&mut self, time: Time, command: Command) -> (added: bool) {
        let end = self.len();
        self.add_command_reverse_with_index(time, command, end)
    }
}

/// A slot at `time` that holds `command` alone.
fn single(time: Time, command: Command) -> (slot: Item)
    ensures
        slot@ == (ItemView { time, commands: seq![command@] }),
{
    let slot = Item { time, commands: vec![command] };
    assert(slot@.commands =~= seq![command@]);
    slot
}

} // verus!

//! The schedule and the cursor that walks it.

use crate::add_command::AddCommand;
use crate::clock::{duration_of_millis, Timestamp};
use crate::expansion::{
    commands_held, gathers, has_slot_at, lemma_expanded_holds, lemma_expanded_in_order,
    lemma_gathered, lemma_gathers_holds, reminders_held, slots_kept,
};
use crate::item::{command_views, Item, ItemView};
use crate::time::Time;
use crate::timeline::{
    distinct_times, expanded, first_after, gathered, gathered_prefix, item_views,
    last_at_or_before, lemma_gathered_not_empty, lemma_place_of, lemma_reminded_len, next_after,
    opens_slot_reverse, place_of, reminded, strictly_increasing, with_item, with_reminders,
};
use crate::validation::{acceptable, first_fault, validate, ConfigError};
use std::time::Duration;
use vstd::prelude::*;

verus! {

/// A schedule and its cursor: the index of the slot that fires next.
///
/// The schedule is well formed, [`wf`](Config::wf), when the cursor points at
/// one of its slots. A schedule without slots is never well formed.
///
/// The library reads no clock: whoever calls hands in the time that the
/// clock shows.
#[derive(Debug)]
pub struct Config {
    pub items: Vec<Item>,
    next_index: usize,
}

impl Config {
    /// The slots of the schedule.
    pub closed spec fn entries(&self) -> Seq<Item> {
        self.items@
    }

    /// The slots of the schedule as plain values.
    pub open spec fn slots(&self) -> Seq<ItemView> {
        item_views(self.entries())
    }

    /// The index of the slot that fires next.
    pub closed spec fn cursor(&self) -> int {
        self.next_index as int
    }

    /// The cursor points at a slot.
    pub open spec fn wf(&self) -> bool {
        0 <= self.cursor() < self.entries().len()
    }

    /// A schedule of `items` gathered by time, with the cursor at the slot
    /// that fires next when the clock shows `now`.
    ///
    /// The slots come to stand in the order of their times. Slots that share
    /// a time become one slot, which holds their commands in the order in
    /// which the slots came. Nothing else is added. A schedule has at least
    /// one slot.
    pub fn new(items: Vec<Item>, now: Time) -> (config: Config)
        requires
            items.len() > 0,
        ensures
            config.slots() == gathered(item_views(items@)),
            strictly_increasing(config.slots()),
            gathers(item_views(items@), items.len() as int, config.slots()),
            commands_held(item_views(items@), config.slots()),
            distinct_times(item_views(items@)) ==> config.entries().to_multiset()
                == items@.to_multiset(),
            config.cursor() == next_after(config.slots(), now),
            config.wf(),
    {
        proof {
            lemma_gathered_not_empty(item_views(items@), items.len() as int);
        }
        let items = gather(items);
        let next_index = update_next(&items, now);
        Config { items, next_index }
    }

    /// A schedule read from a configuration, or the first fault for which it
    /// is refused: a schedule without slots, a time off the clock face or a
    /// `notify` below `-1`. The schedule is gathered by time as [`Config::new`]
    /// gathers it, and the cursor is at the slot that fires next when the
    /// clock shows `now`.
    pub fn try_new(items: Vec<Item>, now: Time) -> (r: Result<Config, ConfigError>)
        ensures
            match r {
                Ok(config) => {
                    &&& acceptable(item_views(items@))
                    &&& config.slots() == gathered(item_views(items@))
                    &&& strictly_increasing(config.slots())
                    &&& gathers(item_views(items@), items.len() as int, config.slots())
                    &&& commands_held(item_views(items@), config.slots())
                    &&& distinct_times(item_views(items@)) ==> config.entries().to_multiset()
                        == items@.to_multiset()
                    &&& config.cursor() == next_after(config.slots(), now)
                    &&& config.wf()
                },
                Err(e) => first_fault(item_views(items@), e),
            },
    {
        match validate(&items) {
            Ok(()) => Ok(Config::new(items, now)),
            Err(e) => Err(e),
        }
    }

    /// The slots of the schedule.
    pub fn items(&self) -> (items: &Vec<Item>)
        ensures
            items@ == self.entries(),
    {
        &self.items
    }

    /// The index of the slot that fires next.
    pub fn next_index(&self) -> (index: usize)
        ensures
            index == self.cursor(),
    {
        self.next_index
    }

    /// Whether the slot at the cursor fires when the clock shows `now`:
    /// whether it shows exactly its time. A slot whose second passed unseen
    /// waits for the next day.
    pub fn due(&self, now: Time) -> (due: bool)
        requires
            self.wf(),
        ensures
            due == (self.slots()[self.cursor()].time == now),
    {
        assert(self.slots()[self.cursor()].time == self.items@[self.cursor()].time);
        self.items[self.next_index].time == now
    }

    /// Moves the cursor to the slot after it, and from the last slot to the
    /// first.
    pub fn advance(&mut self)
        requires
            old(self).wf(),
        ensures
            final(self).entries() == old(self).entries(),
            final(self).cursor() == (old(self).cursor() + 1) % (old(self).entries().len() as int),
            final(self).wf(),
    {
        assert(self.next_index < self.items.len());
        self.next_index = (self.next_index + 1) % self.items.len();
    }

    /// The slot to fire when the clock shows `now`: the slot at the cursor if
    /// it is due, and the cursor then moves on to the slot after it. While no
    /// slot is due nothing fires and the cursor stays.
    pub fn poll(&mut self, now: Time) -> (fired: Option<&Item>)
        requires
            old(self).wf(),
        ensures
            final(self).entries() == old(self).entries(),
            final(self).wf(),
            match fired {
                Some(item) => {
                    &&& old(self).slots()[old(self).cursor()].time == now
                    &&& *item == old(self).entries()[old(self).cursor()]
                    &&& final(self).cursor() == (old(self).cursor() + 1) % (
                    old(self).entries().len() as int)
                },
                None => {
                    &&& old(self).slots()[old(self).cursor()].time != now
                    &&& final(self).cursor() == old(self).cursor()
                },
            },
    {
        assert(self.next_index < self.items.len());
        assert(self.slots()[self.cursor()].time == self.items@[self.cursor()].time);
        if self.items[self.next_index].time == now {
            let item = &self.items[self.next_index];
            self.next_index = (self.next_index + 1) % self.items.len();
            Some(item)
        } else {
            None
        }
    }

    /// The slot at the cursor and the time from `now` until it fires; the
    /// cursor moves on to the slot after it.
    pub fn next(&mut self, now: Timestamp) -> (next: (&Item, Duration))
        requires
            old(self).wf(),
        ensures
            final(self).entries() == old(self).entries(),
            final(self).cursor() == (old(self).cursor() + 1) % (old(self).entries().len() as int),
            final(self).wf(),
            *next.0 == old(self).entries()[old(self).cursor()],
            next.1 == duration_of_millis(next.0.time.millis_after(now) as u64),
    {
        assert(self.next_index < self.items.len());
        let item = &self.items[self.next_index];
        let duration = item.time.duration_from(now);
        self.next_index = (self.next_index + 1) % self.items.len();
        (item, duration)
    }

    /// Puts the cursor at the slot that fires next when the clock shows
    /// `now`.
    pub fn update_next_index(&mut self, now: Time)
        ensures
            final(self).entries() == old(self).entries(),
            final(self).cursor() == next_after(old(self).slots(), now),
            final(self).wf() <==> old(self).entries().len() > 0,
    {
        self.next_index = update_next(&self.items, now);
    }

    /// The schedule with the cursor at the slot that fires next when the
    /// clock shows `now`.
    pub fn updated_next_index(self, now: Time) -> (config: Config)
        ensures
            config.entries() == self.entries(),
            config.cursor() == next_after(self.slots(), now),
            config.wf() <==> self.entries().len() > 0,
    {
        let mut config = self;
        config.update_next_index(now);
        config
    }

    /// Adds the reminders to the schedule, as [`parse_config`] does, and puts
    /// the cursor at the slot that fires next when the clock shows `now`.
    pub fn parse_notification(&mut self, now: Time)
        ensures
            final(self).slots() == expanded(old(self).slots()),
            strictly_increasing(final(self).slots()),
            slots_kept(gathered(old(self).slots()), final(self).slots()),
            commands_held(old(self).slots(), final(self).slots()),
            distinct_times(old(self).slots()) ==> slots_kept(old(self).slots(), final(self).slots()),
            reminders_held(old(self).slots(), final(self).slots()),
            final(self).cursor() == next_after(final(self).slots(), now),
            final(self).wf() <==> old(self).entries().len() > 0,
    {
        proof {
            let s = self.slots();
            if s.len() > 0 {
                lemma_gathered_not_empty(s, s.len() as int);
                lemma_reminded_len(gathered(s), s, s.len() as int);
            }
        }
        parse_config(&mut self.items);
        self.update_next_index(now);
    }
}

/// The index of the slot that fires next when the clock shows `time`: the
/// first slot after `time`, or the first slot of all when none is left today.
pub fn update_next(config: &Vec<Item>, time: Time) -> (next: usize)
    ensures
        next == next_after(item_views(config@), time),
        config.len() > 0 ==> next < config.len(),
{
    let ghost s = item_views(config@);
    let mut i: usize = 0;
    while i < config.len()
        invariant
            i <= config.len(),
            s == item_views(config@),
            first_after(s, time, 0, s.len() as int) == first_after(s, time, i as int, s.len() as int),
        decreases config.len() - i,
    {
        assert(s[i as int].time == config@[i as int].time);
        if time.is_before(&config[i].time) {
            return i;
        }
        i += 1;
    }
    0
}

/// Adds the reminders to a schedule.
///
/// The slots are gathered by time first: they come to stand in the order of
/// their times, and slots that share a time become one slot, which holds
/// their commands in the order in which the slots came. Then each command
/// that asks for a reminder (`notify` at or above 0) gets one, slot by slot
/// and command by command: a copy of the command marked as a reminder,
/// `notify` seconds ahead of the slot on the clock face. The reminder joins
/// the slot at that time, behind the commands it holds, or gets a slot of its
/// own at its place by time. Reminders ask for no reminder themselves.
pub fn parse_config(config: &mut Vec<Item>)
    ensures
        item_views(final(config)@) == expanded(item_views(old(config)@)),
        strictly_increasing(item_views(final(config)@)),
        slots_kept(gathered(item_views(old(config)@)), item_views(final(config)@)),
        commands_held(item_views(old(config)@), item_views(final(config)@)),
        distinct_times(item_views(old(config)@)) ==> slots_kept(
            item_views(old(config)@),
            item_views(final(config)@),
        ),
        reminders_held(item_views(old(config)@), item_views(final(config)@)),
{
    let ghost s = item_views(config@);
    proof {
        lemma_expanded_in_order(s);
        lemma_expanded_holds(s);
    }
    let copy = config.clone();
    assert(item_views(copy@) =~= s);
    let mut result = gather(copy);
    let mut i: usize = 0;
    while i < config.len()
        invariant
            i <= config.len(),
            s == item_views(config@),
            item_views(result@) == reminded(gathered(s), s, i as int),
        decreases config.len() - i,
    {
        let item = &config[i];
        let ghost started = item_views(result@);
        let mut j: usize = 0;
        while j < item.commands.len()
            invariant
                j <= item.commands.len(),
                item@ == s[i as int],
                item_views(result@) == with_reminders(started, s[i as int], j as int),
            decreases item.commands.len() - j,
        {
            let command = &item.commands[j];
            assert(s[i as int].commands[j as int] == command@);
            match command.fire_time(item.time) {
                Some(time) => {
                    let reminder = command.reminder();
                    result.add_command_reverse(time, reminder);
                },
                None => {},
            }
            j += 1;
        }
        i += 1;
    }
    *config = result;
}

/// Gathers slots by time: each in turn is taken in at its time.
fn gather(items: Vec<Item>) -> (result: Vec<Item>)
    ensures
        item_views(result@) == gathered(item_views(items@)),
        strictly_increasing(item_views(result@)),
        gathers(item_views(items@), items.len() as int, item_views(result@)),
        commands_held(item_views(items@), item_views(result@)),
        distinct_times(item_views(items@)) ==> result@.to_multiset() == items@.to_multiset(),
{
    let ghost given = items@;
    let ghost s = item_views(given);
    let mut rest = items;
    let mut result: Vec<Item> = Vec::new();
    let ghost mut taken: int = 0;
    assert(given.take(0).to_multiset() =~= result@.to_multiset()) by {
        broadcast use vstd::seq_lib::group_to_multiset_ensures;

        assert(given.take(0) =~= result@);
    }
    while rest.len() > 0
        invariant
            0 <= taken <= given.len(),
            s == item_views(given),
            rest@ == given.skip(taken),
            item_views(result@) == gathered_prefix(s, taken),
            distinct_times(s) ==> result@.to_multiset() == given.take(taken).to_multiset(),
        decreases rest.len(),
    {
        let item = rest.remove(0);
        proof {
            broadcast use vstd::seq_lib::group_to_multiset_ensures;

            assert(item == given[taken]);
            assert(item@ == s[taken]);
            assert(rest@ =~= given.skip(taken + 1));
            assert(given.take(taken + 1) =~= given.take(taken).push(item));
            lemma_gathered(s, taken);
            lemma_place_of(gathered_prefix(s, taken), item.time);
            if distinct_times(s) {
                let before = gathered_prefix(s, taken);
                assert(opens_slot_reverse(before, item.time, 0, before.len() as int)) by {
                    if !opens_slot_reverse(before, item.time, 0, before.len() as int) {
                        let k = place_of(before, item.time);
                        assert(has_slot_at(s.take(taken), before[k].time));
                        let m = choose|m: int|
                            0 <= m < taken && (#[trigger] s.take(taken)[m]).time == item.time;
                        assert(s[m].time == s[taken].time);
                    }
                }
            }
        }
        let ghost before = result@;
        take_in(&mut result, item);
        proof {
            broadcast use vstd::seq_lib::group_to_multiset_ensures;

            taken = taken + 1;
            if distinct_times(s) {
                let k = place_of(item_views(before), item.time);
                assert(result@.remove(k) =~= before);
                assert(result@.to_multiset().remove(item) == before.to_multiset());
                assert(result@.to_multiset() == before.to_multiset().insert(item));
            }
        }
    }
    proof {
        assert(given.take(taken) =~= given);
        lemma_gathered(s, s.len() as int);
        lemma_gathers_holds(s, item_views(result@));
    }
    result
}

/// Takes a slot into a schedule at its time, found by a search from the back:
/// it joins the slot at its time, with its commands behind those that the
/// slot holds, or comes in behind the last slot before its time.
fn take_in(items: &mut Vec<Item>, item: Item)
    ensures
        item_views(final(items)@) == with_item(item_views(old(items)@), item@),
        opens_slot_reverse(
            item_views(old(items)@),
            item.time,
            0,
            old(items).len() as int,
        ) ==> final(items)@ == old(items)@.insert(
            place_of(item_views(old(items)@), item.time),
            item,
        ),
{
    let ghost before = item_views(items@);
    let ghost slot = item@;
    let time = item.time;
    let mut i: usize = items.len();
    while i > 0
        invariant
            i <= items.len(),
            *items == *old(items),
            before == item_views(items@),
            slot == item@,
            time == item.time,
            last_at_or_before(before, time, 0, before.len() as int) == last_at_or_before(
                before,
                time,
                0,
                i as int,
            ),
        decreases i,
    {
        i -= 1;
        assert(before[i as int].time == items@[i as int].time);
        if items[i].time.is_before(&time) {
            items.insert(i + 1, item);
            assert(item_views(items@) =~= before.insert(i + 1, slot));
            return ;
        } else if items[i].time == time {
            let held = items.remove(i);
            let mut commands = held.commands;
            let mut rest = item.commands;
            let ghost front = commands@;
            let ghost back = rest@;
            commands.append(&mut rest);
            assert(command_views(front + back) =~= command_views(front) + command_views(back));
            items.insert(i, Item { time, commands });
            assert(item_views(items@) =~= before.update(
                i as int,
                ItemView { time, commands: before[i as int].commands + slot.commands },
            ));
            return ;
        }
    }
    items.insert(0, item);
    assert(item_views(items@) =~= before.insert(0, slot));
}

} // verus!

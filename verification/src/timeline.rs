//! The schedule as a sequence of slots, and what adding a command does to it.

use crate::item::{CommandView, Item, ItemView};
use crate::time::Time;
use vstd::prelude::*;

verus! {

/// The slots of a schedule as plain values.
pub open spec fn item_views(items: Seq<Item>) -> Seq<ItemView> {
    Seq::new(items.len(), |i: int| items[i]@)
}

/// Every slot comes after the slots before it: the schedule is in order and no
/// two slots share a time.
pub open spec fn strictly_increasing(s: Seq<ItemView>) -> bool {
    forall|i: int, j: int| 0 <= i < j < s.len() ==> s[i].time.before(s[j].time)
}

/// No two slots share a time.
pub open spec fn distinct_times(s: Seq<ItemView>) -> bool {
    forall|i: int, j: int| 0 <= i < j < s.len() ==> s[i].time != s[j].time
}

/// The greatest index in `lo..hi` whose slot is at or before `t`.
pub open spec fn last_at_or_before(s: Seq<ItemView>, t: Time, lo: int, hi: int) -> Option<int>
    decreases hi - lo,
{
    if hi <= lo {
        None
    } else if s[hi - 1].time.at_or_before(t) {
        Some(hi - 1)
    } else {
        last_at_or_before(s, t, lo, hi - 1)
    }
}

/// The least index in `lo..hi` whose slot is at or after `t`.
pub open spec fn first_at_or_after(s: Seq<ItemView>, t: Time, lo: int, hi: int) -> Option<int>
    decreases hi - lo,
{
    if hi <= lo {
        None
    } else if t.at_or_before(s[lo].time) {
        Some(lo)
    } else {
        first_at_or_after(s, t, lo + 1, hi)
    }
}

/// The schedule with `c` added at the end of slot `k`.
pub open spec fn with_command(s: Seq<ItemView>, k: int, c: CommandView) -> Seq<ItemView> {
    s.update(k, ItemView { time: s[k].time, commands: s[k].commands.push(c) })
}

/// The schedule with a new slot at index `k`, which holds `c` alone at `t`.
pub open spec fn with_slot(s: Seq<ItemView>, k: int, t: Time, c: CommandView) -> Seq<ItemView> {
    s.insert(k, ItemView { time: t, commands: seq![c] })
}

/// Whether a search from the back of `lo..hi` finds no slot at `t`, so that
/// adding a command at `t` makes a new slot.
pub open spec fn opens_slot_reverse(s: Seq<ItemView>, t: Time, lo: int, hi: int) -> bool {
    match last_at_or_before(s, t, lo, hi) {
        Some(k) => s[k].time != t,
        None => true,
    }
}

/// The schedule after `c` is added at `t` by a search from the back of
/// `lo..hi`. The search stops at the last slot of the range that is at or
/// before `t`. If that slot is at `t`, it takes `c` as its last command;
/// otherwise a new slot follows it. If all slots of the range are after `t`,
/// the new slot comes first in the schedule.
pub open spec fn add_reverse(
    s: Seq<ItemView>,
    t: Time,
    c: CommandView,
    lo: int,
    hi: int,
) -> Seq<ItemView> {
    match last_at_or_before(s, t, lo, hi) {
        Some(k) => if s[k].time == t {
            with_command(s, k, c)
        } else {
            with_slot(s, k + 1, t, c)
        },
        None => with_slot(s, 0, t, c),
    }
}

/// Whether a search from the front of `lo..hi` finds no slot at `t`, so that
/// adding a command at `t` makes a new slot.
pub open spec fn opens_slot_forward(s: Seq<ItemView>, t: Time, lo: int, hi: int) -> bool {
    match first_at_or_after(s, t, lo, hi) {
        Some(k) => s[k].time != t,
        None => true,
    }
}

/// The schedule after `c` is added at `t` by a search from the front of
/// `lo..hi`. The search stops at the first slot of the range that is at or
/// after `t`. If that slot is at `t`, it takes `c` as its last command;
/// otherwise a new slot goes before it. If all slots of the range are before
/// `t`, the new slot comes last in the schedule.
pub open spec fn add_forward(
    s: Seq<ItemView>,
    t: Time,
    c: CommandView,
    lo: int,
    hi: int,
) -> Seq<ItemView> {
    match first_at_or_after(s, t, lo, hi) {
        Some(k) => if s[k].time == t {
            with_command(s, k, c)
        } else {
            with_slot(s, k, t, c)
        },
        None => with_slot(s, s.len() as int, t, c),
    }
}

/// Where a slot at `t` stands or comes to stand in a schedule, as a search
/// from the back finds it: the index of the last slot at or before `t` if
/// that slot is at `t`, and the index behind it otherwise.
pub open spec fn place_of(s: Seq<ItemView>, t: Time) -> int {
    match last_at_or_before(s, t, 0, s.len() as int) {
        Some(k) => if s[k].time == t {
            k
        } else {
            k + 1
        },
        None => 0,
    }
}

/// The schedule with `slot` taken in at its time. Where the search from the
/// back finds a slot at that time, the two become one, and the commands of
/// `slot` come behind those that the slot held. Otherwise `slot` comes in as
/// it stands, behind the last slot at or before its time.
pub open spec fn with_item(s: Seq<ItemView>, slot: ItemView) -> Seq<ItemView> {
    let k = place_of(s, slot.time);
    if opens_slot_reverse(s, slot.time, 0, s.len() as int) {
        s.insert(k, slot)
    } else {
        s.update(k, ItemView { time: slot.time, commands: s[k].commands + slot.commands })
    }
}

/// The first `n` slots of `s` gathered by time: each in turn is taken in at
/// its time.
pub open spec fn gathered_prefix(s: Seq<ItemView>, n: int) -> Seq<ItemView>
    decreases n,
{
    if n <= 0 {
        Seq::empty()
    } else {
        with_item(gathered_prefix(s, n - 1), s[n - 1])
    }
}

/// The slots of `s` gathered by time: in the order of their times, with one
/// slot for the slots that share a time, which holds their commands in the
/// order in which the slots came.
pub open spec fn gathered(s: Seq<ItemView>) -> Seq<ItemView> {
    gathered_prefix(s, s.len() as int)
}

/// The commands of those of the first `n` slots of `s` that are at `t`, in
/// the order of the slots.
pub open spec fn commands_at(s: Seq<ItemView>, t: Time, n: int) -> Seq<CommandView>
    decreases n,
{
    if n <= 0 {
        Seq::empty()
    } else if s[n - 1].time == t {
        commands_at(s, t, n - 1) + s[n - 1].commands
    } else {
        commands_at(s, t, n - 1)
    }
}

/// The schedule after the first `n` commands of `slot` had their reminders
/// added, in order. A command that asks for a reminder gets one at its fire
/// time, found by a search of the whole schedule from the back.
pub open spec fn with_reminders(s: Seq<ItemView>, slot: ItemView, n: int) -> Seq<ItemView>
    decreases n,
{
    if n <= 0 {
        s
    } else {
        let before = with_reminders(s, slot, n - 1);
        let c = slot.commands[n - 1];
        if c.wants_reminder() {
            add_reverse(before, c.fire_time(slot.time), c.reminder(), 0, before.len() as int)
        } else {
            before
        }
    }
}

/// The schedule `r` after the commands of the first `n` slots of `s` had
/// their reminders added, slot by slot and command by command.
pub open spec fn reminded(r: Seq<ItemView>, s: Seq<ItemView>, n: int) -> Seq<ItemView>
    decreases n,
{
    if n <= 0 {
        r
    } else {
        with_reminders(reminded(r, s, n - 1), s[n - 1], s[n - 1].commands.len() as int)
    }
}

/// The schedule with the reminders of all its commands added: its slots are
/// gathered by time, and then each command that asks for a reminder gets
/// one, behind the commands of the slot at its fire time or in a slot of its
/// own.
pub open spec fn expanded(s: Seq<ItemView>) -> Seq<ItemView> {
    reminded(gathered(s), s, s.len() as int)
}

/// The least index in `lo..hi` whose slot is after `now`.
pub open spec fn first_after(s: Seq<ItemView>, now: Time, lo: int, hi: int) -> Option<int>
    decreases hi - lo,
{
    if hi <= lo {
        None
    } else if now.before(s[lo].time) {
        Some(lo)
    } else {
        first_after(s, now, lo + 1, hi)
    }
}

/// The slot that fires next when the clock shows `now`: the first slot after
/// `now`, or the first slot of the schedule when the day has none left.
pub open spec fn next_after(s: Seq<ItemView>, now: Time) -> int {
    match first_after(s, now, 0, s.len() as int) {
        Some(k) => k,
        None => 0,
    }
}

/// What the search from the back finds: the last slot of the range that is
/// at or before `t`, with only later slots behind it in the range; or nothing,
/// where the whole range is after `t`.
pub proof fn lemma_last_at_or_before(s: Seq<ItemView>, t: Time, lo: int, hi: int)
    ensures
        match last_at_or_before(s, t, lo, hi) {
            Some(k) => {
                &&& lo <= k < hi
                &&& s[k].time.at_or_before(t)
                &&& forall|j: int| k < j < hi ==> !(#[trigger] s[j]).time.at_or_before(t)
            },
            None => forall|j: int| lo <= j < hi ==> !(#[trigger] s[j]).time.at_or_before(t),
        },
    decreases hi - lo,
{
    if hi > lo && !s[hi - 1].time.at_or_before(t) {
        lemma_last_at_or_before(s, t, lo, hi - 1);
    }
}

/// What the search from the front finds: the first slot of the range that
/// is at or after `t`, with only earlier slots before it in the range; or
/// nothing, where the whole range is before `t`.
pub proof fn lemma_first_at_or_after(s: Seq<ItemView>, t: Time, lo: int, hi: int)
    ensures
        match first_at_or_after(s, t, lo, hi) {
            Some(k) => {
                &&& lo <= k < hi
                &&& t.at_or_before(s[k].time)
                &&& forall|j: int| lo <= j < k ==> !t.at_or_before((#[trigger] s[j]).time)
            },
            None => forall|j: int| lo <= j < hi ==> !t.at_or_before((#[trigger] s[j]).time),
        },
    decreases hi - lo,
{
    if hi > lo && !t.at_or_before(s[lo].time) {
        lemma_first_at_or_after(s, t, lo + 1, hi);
    }
}

/// What the cursor is set to: the first slot after `now`, with no slot
/// after `now` before it; or the first slot of all, where no slot is after
/// `now`.
pub proof fn lemma_next_after(s: Seq<ItemView>, now: Time)
    ensures
        s.len() > 0 ==> 0 <= next_after(s, now) < s.len(),
        forall|j: int| 0 <= j < next_after(s, now) ==> !now.before((#[trigger] s[j]).time),
        (exists|j: int| 0 <= j < s.len() && now.before((#[trigger] s[j]).time)) ==> now.before(
            s[next_after(s, now)].time,
        ),
        (forall|j: int| 0 <= j < s.len() ==> !now.before((#[trigger] s[j]).time)) ==> next_after(
            s,
            now,
        ) == 0,
{
    lemma_first_after(s, now, 0, s.len() as int);
}

/// What the search for the next slot finds.
pub proof fn lemma_first_after(s: Seq<ItemView>, now: Time, lo: int, hi: int)
    ensures
        match first_after(s, now, lo, hi) {
            Some(k) => {
                &&& lo <= k < hi
                &&& now.before(s[k].time)
                &&& forall|j: int| lo <= j < k ==> !now.before((#[trigger] s[j]).time)
            },
            None => forall|j: int| lo <= j < hi ==> !now.before((#[trigger] s[j]).time),
        },
    decreases hi - lo,
{
    if hi > lo && !now.before(s[lo].time) {
        lemma_first_after(s, now, lo + 1, hi);
    }
}

/// Adding a command keeps every slot and makes at most one.
pub proof fn lemma_add_reverse_len(s: Seq<ItemView>, t: Time, c: CommandView, lo: int, hi: int)
    requires
        0 <= lo,
        hi <= s.len(),
    ensures
        add_reverse(s, t, c, lo, hi).len() == s.len() + if opens_slot_reverse(s, t, lo, hi) {
            1int
        } else {
            0int
        },
{
    lemma_last_at_or_before(s, t, lo, hi);
}

/// Adding reminders keeps every slot.
pub proof fn lemma_with_reminders_len(s: Seq<ItemView>, slot: ItemView, n: int)
    ensures
        with_reminders(s, slot, n).len() >= s.len(),
    decreases n,
{
    if n > 0 {
        lemma_with_reminders_len(s, slot, n - 1);
        let before = with_reminders(s, slot, n - 1);
        let c = slot.commands[n - 1];
        lemma_add_reverse_len(before, c.fire_time(slot.time), c.reminder(), 0, before.len() as int);
    }
}

/// What the search from the back says of the place of `t`, and what taking
/// in a command there comes to.
pub proof fn lemma_place_of(s: Seq<ItemView>, t: Time)
    ensures
        0 <= place_of(s, t) <= s.len(),
        !opens_slot_reverse(s, t, 0, s.len() as int) ==> place_of(s, t) < s.len() && s[place_of(
            s,
            t,
        )].time == t,
        strictly_increasing(s) ==> forall|m: int|
            0 <= m < place_of(s, t) ==> (#[trigger] s[m]).time.before(t),
        strictly_increasing(s) ==> forall|m: int|
            place_of(s, t) <= m < s.len() && (opens_slot_reverse(s, t, 0, s.len() as int) || m
                > place_of(s, t)) ==> t.before((#[trigger] s[m]).time),
        forall|c: CommandView|
            #[trigger] add_reverse(s, t, c, 0, s.len() as int) == if opens_slot_reverse(
                s,
                t,
                0,
                s.len() as int,
            ) {
                with_slot(s, place_of(s, t), t, c)
            } else {
                with_command(s, place_of(s, t), c)
            },
{
    let n = s.len() as int;
    lemma_last_at_or_before(s, t, 0, n);
    if strictly_increasing(s) {
        match last_at_or_before(s, t, 0, n) {
            Some(k) => {
                assert forall|m: int| 0 <= m < place_of(s, t) implies (#[trigger] s[m]).time.before(
                    t,
                ) by {
                    if m < k {
                        assert(s[m].time.before(s[k].time));
                    }
                }
                assert forall|m: int|
                    place_of(s, t) <= m < s.len() && (opens_slot_reverse(s, t, 0, n) || m
                        > place_of(s, t)) implies t.before((#[trigger] s[m]).time) by {
                    assert(!s[m].time.at_or_before(t));
                }
            },
            None => {
                assert forall|m: int| 0 <= m < s.len() implies t.before((#[trigger] s[m]).time) by {
                    assert(!s[m].time.at_or_before(t));
                }
            },
        }
    }
}

/// Taking in a slot makes a schedule no shorter, and leaves none empty.
pub proof fn lemma_with_item_len(s: Seq<ItemView>, slot: ItemView)
    ensures
        with_item(s, slot).len() == s.len() + if opens_slot_reverse(
            s,
            slot.time,
            0,
            s.len() as int,
        ) {
            1int
        } else {
            0int
        },
        with_item(s, slot).len() > 0,
{
    lemma_place_of(s, slot.time);
}

/// Gathering the slots of a schedule with a slot leaves a slot.
pub proof fn lemma_gathered_not_empty(s: Seq<ItemView>, n: int)
    requires
        0 < n,
    ensures
        gathered_prefix(s, n).len() > 0,
{
    lemma_with_item_len(gathered_prefix(s, n - 1), s[n - 1]);
}

/// Adding reminders keeps every slot.
pub proof fn lemma_reminded_len(r: Seq<ItemView>, s: Seq<ItemView>, n: int)
    ensures
        reminded(r, s, n).len() >= r.len(),
    decreases n,
{
    if n > 0 {
        lemma_reminded_len(r, s, n - 1);
        lemma_with_reminders_len(
            reminded(r, s, n - 1),
            s[n - 1],
            s[n - 1].commands.len() as int,
        );
    }
}

/// Adding a command from the back keeps a schedule in strict order: no slot
/// gets out of place and no time comes to stand twice.
pub proof fn lemma_add_reverse_keeps_order(s: Seq<ItemView>, t: Time, c: CommandView)
    requires
        strictly_increasing(s),
    ensures
        strictly_increasing(add_reverse(s, t, c, 0, s.len() as int)),
{
    lemma_last_at_or_before(s, t, 0, s.len() as int);
    let r = add_reverse(s, t, c, 0, s.len() as int);
    match last_at_or_before(s, t, 0, s.len() as int) {
        Some(k) => {
            if s[k].time == t {
                assert forall|i: int, j: int| 0 <= i < j < r.len() implies r[i].time.before(
                    r[j].time,
                ) by {
                    assert(r[i].time == s[i].time && r[j].time == s[j].time);
                }
            } else {
                assert forall|m: int| 0 <= m < k + 1 implies (#[trigger] s[m]).time.before(t) by {
                    assert(s[k].time.before(t));
                    if m < k {
                        assert(s[m].time.before(s[k].time));
                    }
                }
                assert forall|i: int, j: int| 0 <= i < j < r.len() implies r[i].time.before(
                    r[j].time,
                ) by {
                    lemma_order_after_new_slot(
                        s,
                        k + 1,
                        ItemView { time: t, commands: seq![c] },
                        i,
                        j,
                    );
                }
            }
        },
        None => {
            assert forall|i: int, j: int| 0 <= i < j < r.len() implies r[i].time.before(
                r[j].time,
            ) by {
                lemma_order_after_new_slot(s, 0, ItemView { time: t, commands: seq![c] }, i, j);
            }
        },
    }
}

/// Two slots of a schedule with a new slot at `k` stand in order, if the
/// schedule was in order with all slots before `k` before the new one and the
/// others after it.
proof fn lemma_order_after_new_slot(s: Seq<ItemView>, k: int, slot: ItemView, i: int, j: int)
    requires
        strictly_increasing(s),
        0 <= k <= s.len(),
        forall|m: int| 0 <= m < k ==> (#[trigger] s[m]).time.before(slot.time),
        forall|m: int| k <= m < s.len() ==> slot.time.before((#[trigger] s[m]).time),
        0 <= i < j < s.len() + 1,
    ensures
        s.insert(k, slot)[i].time.before(s.insert(k, slot)[j].time),
{
    let r = s.insert(k, slot);
    if j < k {
        assert(r[i] == s[i] && r[j] == s[j]);
    } else if j == k {
        assert(r[i] == s[i]);
    } else if i < k {
        assert(r[i] == s[i] && r[j] == s[j - 1]);
        if i < j - 1 {
        } else {
            assert(s[i].time.before(slot.time) && slot.time.before(s[j - 1].time));
        }
    } else if i == k {
        assert(r[j] == s[j - 1]);
    } else {
        assert(r[i] == s[i - 1] && r[j] == s[j - 1]);
    }
}

/// Taking in a slot keeps a schedule in strict order: the slot comes to
/// stand at its place by time, and no time comes to stand twice.
pub proof fn lemma_with_item_keeps_order(s: Seq<ItemView>, slot: ItemView)
    requires
        strictly_increasing(s),
    ensures
        strictly_increasing(with_item(s, slot)),
{
    lemma_place_of(s, slot.time);
    let r = with_item(s, slot);
    let k = place_of(s, slot.time);
    if opens_slot_reverse(s, slot.time, 0, s.len() as int) {
        assert forall|i: int, j: int| 0 <= i < j < r.len() implies r[i].time.before(r[j].time) by {
            lemma_order_after_new_slot(s, k, slot, i, j);
        }
    } else {
        assert forall|i: int, j: int| 0 <= i < j < r.len() implies r[i].time.before(r[j].time) by {
            assert(r[i].time == s[i].time && r[j].time == s[j].time);
        }
    }
}

/// On a schedule in strict order the direction of the search makes no
/// difference: from the front and from the back a command comes to stand at
/// the same place, and both make a new slot or neither does.
pub proof fn lemma_add_forward_is_add_reverse(s: Seq<ItemView>, t: Time, c: CommandView)
    requires
        strictly_increasing(s),
    ensures
        add_forward(s, t, c, 0, s.len() as int) == add_reverse(s, t, c, 0, s.len() as int),
        opens_slot_forward(s, t, 0, s.len() as int) == opens_slot_reverse(
            s,
            t,
            0,
            s.len() as int,
        ),
{
    let n = s.len() as int;
    lemma_last_at_or_before(s, t, 0, n);
    lemma_first_at_or_after(s, t, 0, n);
    match (first_at_or_after(s, t, 0, n), last_at_or_before(s, t, 0, n)) {
        (Some(f), Some(b)) => {
            // s[b] <= t <= s[f]: they are one slot at `t`, or neighbours around it.
            if s[f].time == t {
                assert(f == b) by {
                    if b < f {
                        assert(s[b].time.before(s[f].time));
                    }
                    if f < b {
                        assert(s[f].time.before(s[b].time));
                    }
                }
            } else {
                assert(s[b].time != t) by {
                    if s[b].time == t {
                        if b < f {
                            assert(!t.at_or_before(s[b].time));
                        }
                        if f < b {
                            assert(s[f].time.before(s[b].time));
                        }
                    }
                }
                assert(f == b + 1) by {
                    if f <= b {
                        if f < b {
                            assert(s[f].time.before(s[b].time));
                        }
                    }
                    if f > b + 1 {
                        assert(!t.at_or_before(s[b + 1].time));
                        assert(!s[b + 1].time.at_or_before(t));
                    }
                }
            }
        },
        (Some(f), None) => {
            assert(f == 0) by {
                if f > 0 {
                    assert(!t.at_or_before(s[0].time));
                    assert(!s[0].time.at_or_before(t));
                }
            }
        },
        (None, Some(b)) => {
            assert(b == n - 1) by {
                if b < n - 1 {
                    assert(!t.at_or_before(s[n - 1].time));
                    assert(!s[n - 1].time.at_or_before(t));
                }
            }
            assert(s[b].time != t);
        },
        (None, None) => {
            assert(n == 0) by {
                if n > 0 {
                    assert(!t.at_or_before(s[0].time));
                    assert(!s[0].time.at_or_before(t));
                }
            }
        },
    }
}

/// On a schedule in strict order, the slot found after the time of slot
/// `k` is the one that follows it, and the first where `k` is the last:
/// stepping the cursor and searching anew agree once a slot has fired.
pub proof fn lemma_next_after_slot(s: Seq<ItemView>, k: int)
    requires
        strictly_increasing(s),
        0 <= k < s.len(),
    ensures
        next_after(s, s[k].time) == (k + 1) % (s.len() as int),
{
    let n = s.len() as int;
    let now = s[k].time;
    lemma_first_after(s, now, 0, n);
    match first_after(s, now, 0, n) {
        Some(f) => {
            assert(f == k + 1) by {
                if f <= k {
                    if f < k {
                        assert(s[f].time.before(s[k].time));
                    }
                }
                if f > k + 1 {
                    assert(s[k].time.before(s[k + 1].time));
                }
            }
            vstd::arithmetic::div_mod::lemma_small_mod((k + 1) as nat, n as nat);
        },
        None => {
            assert(k == n - 1) by {
                if k < n - 1 {
                    assert(s[k].time.before(s[k + 1].time));
                }
            }
            vstd::arithmetic::div_mod::lemma_mod_self_0(n);
        },
    }
}

} // verus!

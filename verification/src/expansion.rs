//! What holds of a schedule after its slots were gathered by time and its
//! reminders were added.

use crate::item::{CommandView, ItemView};
use crate::time::Time;
use crate::timeline::{
    add_reverse, commands_at, distinct_times, expanded, gathered, gathered_prefix,
    last_at_or_before, lemma_add_reverse_keeps_order, lemma_last_at_or_before, lemma_place_of,
    lemma_with_item_keeps_order, opens_slot_reverse, place_of, reminded, strictly_increasing,
    with_item, with_reminders, with_slot,
};
use vstd::prelude::*;

verus! {

/// The fire time of a reminder is on the clock face, as many seconds before
/// the slot as `notify` says, through any number of midnights.
pub proof fn lemma_fire_time(slot: Time, c: CommandView)
    requires
        slot.valid(),
        c.wants_reminder(),
    ensures
        c.fire_time(slot).valid(),
        c.fire_time(slot).seconds() == (slot.seconds() - c.notify) % 86400,
{
    let lead = Time::of_seconds(c.notify);
    Time::lemma_of_seconds_valid(c.notify);
    Time::lemma_of_seconds_valid(slot.seconds() - lead.seconds());
    let short = c.notify % 86400;
    assert((slot.seconds() - short) % 86400 == (slot.seconds() - c.notify) % 86400) by {
        assert(slot.seconds() - short == 86400 * (c.notify / 86400) + (slot.seconds() - c.notify));
        vstd::arithmetic::div_mod::lemma_mod_multiples_vanish(
            c.notify / 86400,
            slot.seconds() - c.notify,
            86400,
        );
    }
}

/// Every command of `s` that asks for a reminder meets `p`, together with
/// the time of its slot.
pub open spec fn each_wanting(s: Seq<ItemView>, p: spec_fn(Time, CommandView) -> bool) -> bool {
    forall|i: int, j: int|
        0 <= i < s.len() && 0 <= j < s[i].commands.len() && (
        #[trigger] s[i].commands[j]).wants_reminder() ==> p(s[i].time, s[i].commands[j])
}

/// `s` has a slot at `t`.
pub open spec fn has_slot_at(s: Seq<ItemView>, t: Time) -> bool {
    exists|k: int| 0 <= k < s.len() && (#[trigger] s[k]).time == t
}

/// `s` has a slot at `t` that holds `c`.
pub open spec fn holds_command(s: Seq<ItemView>, t: Time, c: CommandView) -> bool {
    exists|k: int, m: int|
        0 <= k < s.len() && s[k].time == t && 0 <= m < s[k].commands.len() && (
        #[trigger] s[k].commands[m]) == c
}

/// Every reminder that a command of `s` asks for has a slot in `s` at its
/// fire time.
pub open spec fn reminders_have_slots(s: Seq<ItemView>) -> bool {
    each_wanting(s, |t: Time, c: CommandView| has_slot_at(s, c.fire_time(t)))
}

/// `r` has a slot at the time of `slot` whose first commands are those of
/// `slot`, in their order.
pub open spec fn keeps_slot(r: Seq<ItemView>, slot: ItemView) -> bool {
    exists|k: int|
        0 <= k < r.len() && (#[trigger] r[k]).time == slot.time && slot.commands.is_prefix_of(
            r[k].commands,
        )
}

/// Every slot of `s` stands in `r` at its time, with its own commands in
/// front and in their order.
pub open spec fn slots_kept(s: Seq<ItemView>, r: Seq<ItemView>) -> bool {
    forall|i: int| 0 <= i < s.len() ==> keeps_slot(r, #[trigger] s[i])
}

/// The reminder of every command of `s` that asks for one stands in `r` in
/// the slot at its fire time.
pub open spec fn reminders_held(s: Seq<ItemView>, r: Seq<ItemView>) -> bool {
    forall|i: int, j: int|
        0 <= i < s.len() && 0 <= j < s[i].commands.len() && (
        #[trigger] s[i].commands[j]).wants_reminder() ==> holds_command(
            r,
            s[i].commands[j].fire_time(s[i].time),
            s[i].commands[j].reminder(),
        )
}

/// Every command of `s` stands in `r` in the slot at the time of its slot.
pub open spec fn commands_held(s: Seq<ItemView>, r: Seq<ItemView>) -> bool {
    forall|i: int, j: int|
        0 <= i < s.len() && 0 <= j < s[i].commands.len() ==> holds_command(
            r,
            s[i].time,
            #[trigger] s[i].commands[j],
        )
}

/// Every slot of `a` is at a time at which `b` has a slot.
pub open spec fn times_within(a: Seq<ItemView>, b: Seq<ItemView>) -> bool {
    forall|k: int| 0 <= k < a.len() ==> has_slot_at(b, (#[trigger] a[k]).time)
}

/// Two schedules have slots at the same times, in the same order.
pub open spec fn same_times(a: Seq<ItemView>, b: Seq<ItemView>) -> bool {
    a.len() == b.len() && forall|i: int| 0 <= i < a.len() ==> (#[trigger] a[i]).time == b[i].time
}

/// `r` holds the first `n` slots of `s` gathered by time: it is in strict
/// order, it has a slot at the time of each of them and at no other time,
/// and each of its slots holds the commands of the slots at its time, in the
/// order in which they came, and nothing else.
pub open spec fn gathers(s: Seq<ItemView>, n: int, r: Seq<ItemView>) -> bool {
    &&& strictly_increasing(r)
    &&& times_within(r, s.take(n))
    &&& times_within(s.take(n), r)
    &&& forall|k: int|
        0 <= k < r.len() ==> (#[trigger] r[k]).commands == commands_at(s, r[k].time, n)
}

/// `c` is a command of a slot of `s` at `t`.
pub open spec fn from_slot(s: Seq<ItemView>, t: Time, c: CommandView) -> bool {
    exists|i: int, j: int|
        0 <= i < s.len() && s[i].time == t && 0 <= j < s[i].commands.len() && (
        #[trigger] s[i].commands[j]) == c
}

/// `r` is `s` after something was taken in at `t`, as far as the times of
/// the slots go: a slot came in at the place of `t`, or the slots are at the
/// times at which they were.
spec fn taken_in_at(s: Seq<ItemView>, t: Time, r: Seq<ItemView>) -> bool {
    let k = place_of(s, t);
    if opens_slot_reverse(s, t, 0, s.len() as int) {
        &&& r.len() == s.len() + 1
        &&& r[k].time == t
        &&& forall|m: int| 0 <= m < k ==> (#[trigger] r[m]).time == s[m].time
        &&& forall|m: int| k < m < r.len() ==> (#[trigger] r[m]).time == s[m - 1].time
    } else {
        &&& r.len() == s.len()
        &&& forall|m: int| 0 <= m < r.len() ==> (#[trigger] r[m]).time == s[m].time
    }
}

/// Taking something in at `t` keeps every slot's time and leaves a slot at
/// `t`; no slot comes to stand at another time.
proof fn lemma_times_taken_in(s: Seq<ItemView>, t: Time, r: Seq<ItemView>)
    requires
        taken_in_at(s, t, r),
    ensures
        has_slot_at(r, t),
        forall|x: Time| has_slot_at(s, x) ==> has_slot_at(r, x),
        forall|x: Time| has_slot_at(r, x) ==> x == t || has_slot_at(s, x),
        forall|e: Seq<ItemView>|
            times_within(s, e) && has_slot_at(e, t) ==> #[trigger] times_within(r, e),
{
    lemma_place_of(s, t);
    let at = place_of(s, t);
    let opened = opens_slot_reverse(s, t, 0, s.len() as int);
    assert(r[at].time == t);
    assert forall|x: Time| has_slot_at(s, x) implies has_slot_at(r, x) by {
        let k = choose|k: int| 0 <= k < s.len() && (#[trigger] s[k]).time == x;
        if opened && k >= at {
            assert(r[k + 1].time == x);
        } else {
            assert(r[k].time == x);
        }
    }
    assert forall|x: Time| has_slot_at(r, x) implies x == t || has_slot_at(s, x) by {
        let k = choose|k: int| 0 <= k < r.len() && (#[trigger] r[k]).time == x;
        if opened {
            if k < at {
                assert(s[k].time == x);
            } else if k > at {
                assert(s[k - 1].time == x);
            }
        } else {
            assert(s[k].time == x);
        }
    }
    assert forall|e: Seq<ItemView>| times_within(s, e) && has_slot_at(e, t) implies times_within(
        r,
        e,
    ) by {
        assert forall|k: int| 0 <= k < r.len() implies has_slot_at(e, (#[trigger] r[k]).time) by {
            if opened {
                if k < at {
                    assert(r[k].time == s[k].time);
                } else if k > at {
                    assert(r[k].time == s[k - 1].time);
                }
            } else {
                assert(r[k].time == s[k].time);
            }
        }
    }
}

/// Adding a command is taking something in at its time.
proof fn lemma_add_reverse_taken_in(s: Seq<ItemView>, t: Time, c: CommandView)
    ensures
        taken_in_at(s, t, add_reverse(s, t, c, 0, s.len() as int)),
{
    lemma_place_of(s, t);
}

/// Taking in a slot is taking something in at its time.
proof fn lemma_with_item_taken_in(s: Seq<ItemView>, slot: ItemView)
    ensures
        taken_in_at(s, slot.time, with_item(s, slot)),
{
    lemma_place_of(s, slot.time);
}

/// Adding a command that asks for no reminder leaves every command that asks
/// for one as it was, in a slot at the same time.
proof fn lemma_add_reverse_each_wanting(
    s: Seq<ItemView>,
    t: Time,
    c: CommandView,
    p: spec_fn(Time, CommandView) -> bool,
)
    requires
        each_wanting(s, p),
        !c.wants_reminder(),
    ensures
        each_wanting(add_reverse(s, t, c, 0, s.len() as int), p),
{
    let n = s.len() as int;
    lemma_last_at_or_before(s, t, 0, n);
    let r = add_reverse(s, t, c, 0, n);
    assert forall|i: int, j: int|
        0 <= i < r.len() && 0 <= j < r[i].commands.len() && (
        #[trigger] r[i].commands[j]).wants_reminder() implies p(r[i].time, r[i].commands[j]) by {
        match last_at_or_before(s, t, 0, n) {
            Some(k) => {
                if s[k].time == t {
                    if i == k {
                        assert(j < s[k].commands.len());
                        assert(r[i].commands[j] == s[i].commands[j]);
                    } else {
                        assert(r[i] == s[i]);
                        assert(r[i].commands[j] == s[i].commands[j]);
                    }
                } else {
                    lemma_wanting_after_new_slot(s, k + 1, t, c, p, i, j);
                }
            },
            None => {
                lemma_wanting_after_new_slot(s, 0, t, c, p, i, j);
            },
        }
    }
}

proof fn lemma_wanting_after_new_slot(
    s: Seq<ItemView>,
    k: int,
    t: Time,
    c: CommandView,
    p: spec_fn(Time, CommandView) -> bool,
    i: int,
    j: int,
)
    requires
        each_wanting(s, p),
        !c.wants_reminder(),
        0 <= k <= s.len(),
        0 <= i < s.len() + 1,
        0 <= j < with_slot(s, k, t, c)[i].commands.len(),
        with_slot(s, k, t, c)[i].commands[j].wants_reminder(),
    ensures
        p(with_slot(s, k, t, c)[i].time, with_slot(s, k, t, c)[i].commands[j]),
{
    let r = with_slot(s, k, t, c);
    if i < k {
        assert(r[i] == s[i]);
        assert(r[i].commands[j] == s[i].commands[j]);
    } else if i == k {
        assert(r[i].commands[j] == c);
    } else {
        assert(r[i] == s[i - 1]);
        assert(r[i].commands[j] == s[i - 1].commands[j]);
    }
}

/// Adding a command puts it into a slot at its time, and every command
/// stays in a slot at the time of its slot.
proof fn lemma_add_reverse_holds(s: Seq<ItemView>, t: Time, c: CommandView, x: Time, d: CommandView)
    ensures
        holds_command(add_reverse(s, t, c, 0, s.len() as int), t, c),
        holds_command(s, x, d) ==> holds_command(add_reverse(s, t, c, 0, s.len() as int), x, d),
{
    lemma_place_of(s, t);
    let r = add_reverse(s, t, c, 0, s.len() as int);
    let at = place_of(s, t);
    let opened = opens_slot_reverse(s, t, 0, s.len() as int);
    if opened {
        assert(r[at].time == t && r[at].commands[0] == c);
    } else {
        assert(r[at].time == t && r[at].commands[s[at].commands.len() as int] == c);
    }
    if holds_command(s, x, d) {
        let (k, m) = choose|k: int, m: int|
            0 <= k < s.len() && s[k].time == x && 0 <= m < s[k].commands.len() && (
            #[trigger] s[k].commands[m]) == d;
        if opened && k >= at {
            assert(r[k + 1] == s[k]);
            assert(r[k + 1].time == x && r[k + 1].commands[m] == d);
        } else {
            assert(r[k].time == x && r[k].commands[m] == d);
        }
    }
}

/// Adding a command keeps every slot: at its time, with its commands in
/// front and in their order.
proof fn lemma_add_reverse_keeps_slot(s: Seq<ItemView>, t: Time, c: CommandView, slot: ItemView)
    requires
        keeps_slot(s, slot),
    ensures
        keeps_slot(add_reverse(s, t, c, 0, s.len() as int), slot),
{
    let n = s.len() as int;
    lemma_last_at_or_before(s, t, 0, n);
    let r = add_reverse(s, t, c, 0, n);
    let k = choose|k: int|
        0 <= k < s.len() && (#[trigger] s[k]).time == slot.time && slot.commands.is_prefix_of(
            s[k].commands,
        );
    match last_at_or_before(s, t, 0, n) {
        Some(b) => {
            if s[b].time == t {
                assert(r[k].time == slot.time);
                assert(slot.commands.is_prefix_of(r[k].commands)) by {
                    if k == b {
                        assert(r[k].commands == s[k].commands.push(c));
                    } else {
                        assert(r[k] == s[k]);
                    }
                }
            } else if k <= b {
                assert(r[k] == s[k]);
            } else {
                assert(r[k + 1] == s[k]);
            }
        },
        None => {
            assert(r[k + 1] == s[k]);
        },
    }
}

proof fn lemma_with_reminders_keep_slot(s: Seq<ItemView>, of: ItemView, n: int, slot: ItemView)
    requires
        keeps_slot(s, slot),
    ensures
        keeps_slot(with_reminders(s, of, n), slot),
    decreases n,
{
    if n > 0 {
        lemma_with_reminders_keep_slot(s, of, n - 1, slot);
        let before = with_reminders(s, of, n - 1);
        let c = of.commands[n - 1];
        if c.wants_reminder() {
            lemma_add_reverse_keeps_slot(before, c.fire_time(of.time), c.reminder(), slot);
        }
    }
}

/// Adding the reminders of a slot's commands keeps a schedule in strict
/// order.
pub proof fn lemma_with_reminders_keeps_order(s: Seq<ItemView>, slot: ItemView, n: int)
    requires
        strictly_increasing(s),
    ensures
        strictly_increasing(with_reminders(s, slot, n)),
    decreases n,
{
    if n > 0 {
        lemma_with_reminders_keeps_order(s, slot, n - 1);
        let before = with_reminders(s, slot, n - 1);
        let c = slot.commands[n - 1];
        if c.wants_reminder() {
            lemma_add_reverse_keeps_order(before, c.fire_time(slot.time), c.reminder());
        }
    }
}

/// The reminders of a slot's first `n` commands stand in slots at their fire
/// times, and every command stays in a slot at the time of its slot.
proof fn lemma_with_reminders_hold(
    s: Seq<ItemView>,
    slot: ItemView,
    n: int,
    x: Time,
    d: CommandView,
)
    requires
        0 <= n <= slot.commands.len(),
    ensures
        holds_command(s, x, d) ==> holds_command(with_reminders(s, slot, n), x, d),
        forall|j: int|
            0 <= j < n && (#[trigger] slot.commands[j]).wants_reminder() ==> holds_command(
                with_reminders(s, slot, n),
                slot.commands[j].fire_time(slot.time),
                slot.commands[j].reminder(),
            ),
    decreases n,
{
    if n > 0 {
        lemma_with_reminders_hold(s, slot, n - 1, x, d);
        let before = with_reminders(s, slot, n - 1);
        let after = with_reminders(s, slot, n);
        let c = slot.commands[n - 1];
        if c.wants_reminder() {
            lemma_add_reverse_holds(before, c.fire_time(slot.time), c.reminder(), x, d);
        }
        assert forall|j: int|
            0 <= j < n && (#[trigger] slot.commands[j]).wants_reminder() implies holds_command(
            after,
            slot.commands[j].fire_time(slot.time),
            slot.commands[j].reminder(),
        ) by {
            let e = slot.commands[j];
            if j < n - 1 {
                lemma_with_reminders_hold(s, slot, n - 1, e.fire_time(slot.time), e.reminder());
                if c.wants_reminder() {
                    lemma_add_reverse_holds(
                        before,
                        c.fire_time(slot.time),
                        c.reminder(),
                        e.fire_time(slot.time),
                        e.reminder(),
                    );
                }
            }
        }
    }
}

/// Adding the reminders of a slot's commands keeps every slot's time, and
/// makes slots only at times at which `e` has one, if `e` has a slot at the
/// fire time of each.
proof fn lemma_with_reminders_times(s: Seq<ItemView>, slot: ItemView, n: int, e: Seq<ItemView>)
    requires
        0 <= n <= slot.commands.len(),
        times_within(s, e),
        forall|j: int|
            0 <= j < n && (#[trigger] slot.commands[j]).wants_reminder() ==> has_slot_at(
                e,
                slot.commands[j].fire_time(slot.time),
            ),
    ensures
        times_within(with_reminders(s, slot, n), e),
        forall|x: Time| has_slot_at(s, x) ==> has_slot_at(with_reminders(s, slot, n), x),
    decreases n,
{
    if n > 0 {
        lemma_with_reminders_times(s, slot, n - 1, e);
        let before = with_reminders(s, slot, n - 1);
        let c = slot.commands[n - 1];
        if c.wants_reminder() {
            lemma_add_reverse_taken_in(before, c.fire_time(slot.time), c.reminder());
            lemma_times_taken_in(
                before,
                c.fire_time(slot.time),
                add_reverse(before, c.fire_time(slot.time), c.reminder(), 0, before.len() as int),
            );
        }
    }
}

/// The commands at `t` among the first `n` slots are commands of slots at
/// `t`, and there are none where no slot is at `t`.
proof fn lemma_commands_at(s: Seq<ItemView>, t: Time, n: int)
    requires
        0 <= n <= s.len(),
    ensures
        !has_slot_at(s.take(n), t) ==> commands_at(s, t, n).len() == 0,
        forall|m: int|
            0 <= m < commands_at(s, t, n).len() ==> from_slot(
                s,
                t,
                #[trigger] commands_at(s, t, n)[m],
            ),
    decreases n,
{
    if n > 0 {
        lemma_commands_at(s, t, n - 1);
        let before = commands_at(s, t, n - 1);
        if !has_slot_at(s.take(n), t) {
            assert(s.take(n)[n - 1].time != t);
            if has_slot_at(s.take(n - 1), t) {
                let k = choose|k: int| 0 <= k < n - 1 && (#[trigger] s.take(n - 1)[k]).time == t;
                assert(s.take(n)[k].time == t);
            }
        }
        assert forall|m: int| 0 <= m < commands_at(s, t, n).len() implies from_slot(
            s,
            t,
            #[trigger] commands_at(s, t, n)[m],
        ) by {
            if m < before.len() {
                assert(commands_at(s, t, n)[m] == before[m]);
            } else {
                assert(commands_at(s, t, n)[m] == s[n - 1].commands[m - before.len()]);
            }
        }
    }
}

/// What gathering comes to: the slots in strict order, one at the time of
/// each slot that came in and none elsewhere, each with the commands of the
/// slots at its time in the order in which they came.
pub proof fn lemma_gathered(s: Seq<ItemView>, n: int)
    requires
        0 <= n <= s.len(),
    ensures
        gathers(s, n, gathered_prefix(s, n)),
    decreases n,
{
    if n > 0 {
        lemma_gathered(s, n - 1);
        let before = gathered_prefix(s, n - 1);
        let slot = s[n - 1];
        let t = slot.time;
        let r = gathered_prefix(s, n);
        let at = place_of(before, t);
        let opened = opens_slot_reverse(before, t, 0, before.len() as int);
        lemma_with_item_keeps_order(before, slot);
        lemma_with_item_taken_in(before, slot);
        lemma_times_taken_in(before, t, r);
        lemma_place_of(before, t);
        lemma_commands_at(s, t, n - 1);
        assert(has_slot_at(s.take(n), t)) by {
            assert(s.take(n)[n - 1].time == t);
        }
        assert forall|k: int| 0 <= k < r.len() implies has_slot_at(
            s.take(n),
            (#[trigger] r[k]).time,
        ) by {
            let x = r[k].time;
            if x != t {
                assert(has_slot_at(before, x));
                let b = choose|b: int| 0 <= b < before.len() && (#[trigger] before[b]).time == x;
                let m = choose|m: int| 0 <= m < n - 1 && (#[trigger] s.take(n - 1)[m]).time == x;
                assert(s.take(n)[m].time == x);
            }
        }
        assert forall|k: int| 0 <= k < n implies has_slot_at(r, (#[trigger] s.take(n)[k]).time) by {
            if k < n - 1 {
                assert(has_slot_at(before, s.take(n - 1)[k].time));
            }
        }
        assert forall|k: int| 0 <= k < r.len() implies (#[trigger] r[k]).commands == commands_at(
            s,
            r[k].time,
            n,
        ) by {
            if opened {
                if k < at {
                    assert(r[k] == before[k]);
                } else if k > at {
                    assert(r[k] == before[k - 1]);
                } else {
                    assert(!has_slot_at(before, t)) by {
                        if has_slot_at(before, t) {
                            let b = choose|b: int|
                                0 <= b < before.len() && (#[trigger] before[b]).time == t;
                            if b < at {
                                assert(before[b].time.before(t));
                            } else {
                                assert(t.before(before[b].time));
                            }
                        }
                    }
                    assert(!has_slot_at(s.take(n - 1), t)) by {
                        if has_slot_at(s.take(n - 1), t) {
                            let m = choose|m: int|
                                0 <= m < n - 1 && (#[trigger] s.take(n - 1)[m]).time == t;
                            assert(has_slot_at(before, s.take(n - 1)[m].time));
                        }
                    }
                    assert(r[k].commands =~= commands_at(s, t, n));
                }
            } else if k == at {
                assert(before[k].commands == commands_at(s, t, n - 1));
            } else {
                assert(r[k] == before[k]);
                assert(r[k].time != t) by {
                    if k < at {
                        assert(before[k].time.before(before[at].time));
                    } else {
                        assert(before[at].time.before(before[k].time));
                    }
                }
            }
        }
    }
}

/// Where a command of one of the first `n` slots stands among the commands
/// at the time of its slot.
proof fn lemma_commands_at_holds(s: Seq<ItemView>, i: int, j: int, n: int) -> (m: int)
    requires
        0 <= i < n <= s.len(),
        0 <= j < s[i].commands.len(),
    ensures
        0 <= m < commands_at(s, s[i].time, n).len(),
        commands_at(s, s[i].time, n)[m] == s[i].commands[j],
    decreases n,
{
    let before = commands_at(s, s[i].time, n - 1);
    if i == n - 1 {
        before.len() + j
    } else {
        lemma_commands_at_holds(s, i, j, n - 1)
    }
}

/// A schedule that holds the slots of `s` gathered by time holds every
/// command of `s` in the slot at the time of its slot.
pub proof fn lemma_gathers_holds(s: Seq<ItemView>, r: Seq<ItemView>)
    requires
        gathers(s, s.len() as int, r),
    ensures
        commands_held(s, r),
{
    let n = s.len() as int;
    assert forall|i: int, j: int|
        0 <= i < s.len() && 0 <= j < s[i].commands.len() implies holds_command(
        r,
        s[i].time,
        #[trigger] s[i].commands[j],
    ) by {
        let m = lemma_commands_at_holds(s, i, j, n);
        assert(has_slot_at(r, s.take(n)[i].time));
        let k = choose|k: int| 0 <= k < r.len() && (#[trigger] r[k]).time == s[i].time;
        assert(r[k].commands[m] == s[i].commands[j]);
    }
}

/// Gathering has one result: two schedules that hold the slots of `s`
/// gathered by time are the same.
pub proof fn lemma_gathers_is_one(s: Seq<ItemView>, a: Seq<ItemView>, b: Seq<ItemView>)
    requires
        gathers(s, s.len() as int, a),
        gathers(s, s.len() as int, b),
    ensures
        a == b,
{
    let n = s.len() as int;
    assert forall|k: int| 0 <= k < a.len() implies has_slot_at(b, (#[trigger] a[k]).time) by {
        let x = a[k].time;
        assert(has_slot_at(s.take(n), x));
        let m = choose|m: int| 0 <= m < n && (#[trigger] s.take(n)[m]).time == x;
        assert(has_slot_at(b, s.take(n)[m].time));
    }
    assert forall|k: int| 0 <= k < b.len() implies has_slot_at(a, (#[trigger] b[k]).time) by {
        let x = b[k].time;
        assert(has_slot_at(s.take(n), x));
        let m = choose|m: int| 0 <= m < n && (#[trigger] s.take(n)[m]).time == x;
        assert(has_slot_at(a, s.take(n)[m].time));
    }
    lemma_same_times(a, b);
    assert forall|k: int| 0 <= k < a.len() implies a[k] == b[k] by {
        assert(a[k].time == b[k].time);
        assert(a[k].commands == b[k].commands);
    }
    assert(a =~= b);
}

/// Gathering leaves a schedule in strict order as it is.
pub proof fn lemma_gathered_of_ordered(s: Seq<ItemView>, n: int)
    requires
        strictly_increasing(s),
        0 <= n <= s.len(),
    ensures
        gathered_prefix(s, n) == s.take(n),
    decreases n,
{
    if n > 0 {
        lemma_gathered_of_ordered(s, n - 1);
        let before = s.take(n - 1);
        let slot = s[n - 1];
        lemma_last_at_or_before(before, slot.time, 0, n - 1);
        match last_at_or_before(before, slot.time, 0, n - 1) {
            Some(k) => {
                assert(before[k].time.before(slot.time)) by {
                    assert(s[k].time.before(s[n - 1].time));
                }
                if k < n - 2 {
                    assert(s[k + 1].time.before(s[n - 1].time));
                    assert(!before[k + 1].time.at_or_before(slot.time));
                }
            },
            None => {
                if n > 1 {
                    assert(s[0].time.before(s[n - 1].time));
                    assert(!before[0].time.at_or_before(slot.time));
                }
            },
        }
        assert(with_item(before, slot) =~= s.take(n));
    } else {
        assert(gathered_prefix(s, n) =~= s.take(n));
    }
}

/// Adding the reminders of a schedule's commands keeps a schedule in strict
/// order.
proof fn lemma_reminded_in_order(r: Seq<ItemView>, s: Seq<ItemView>, n: int)
    requires
        strictly_increasing(r),
    ensures
        strictly_increasing(reminded(r, s, n)),
    decreases n,
{
    if n > 0 {
        lemma_reminded_in_order(r, s, n - 1);
        lemma_with_reminders_keeps_order(
            reminded(r, s, n - 1),
            s[n - 1],
            s[n - 1].commands.len() as int,
        );
    }
}

/// Adding the reminders of a schedule's commands keeps every slot: at its
/// time, with its commands in front and in their order.
proof fn lemma_reminded_keeps_slot(r: Seq<ItemView>, s: Seq<ItemView>, n: int, slot: ItemView)
    requires
        keeps_slot(r, slot),
    ensures
        keeps_slot(reminded(r, s, n), slot),
    decreases n,
{
    if n > 0 {
        lemma_reminded_keeps_slot(r, s, n - 1, slot);
        lemma_with_reminders_keep_slot(
            reminded(r, s, n - 1),
            s[n - 1],
            s[n - 1].commands.len() as int,
            slot,
        );
    }
}

/// After the reminders of the first `n` slots were added, the reminder of
/// each of their commands that asks for one stands in the slot at its fire
/// time.
proof fn lemma_reminded_holds(r: Seq<ItemView>, s: Seq<ItemView>, n: int, i: int, j: int)
    requires
        0 <= i < n <= s.len(),
        0 <= j < s[i].commands.len(),
        s[i].commands[j].wants_reminder(),
    ensures
        holds_command(
            reminded(r, s, n),
            s[i].commands[j].fire_time(s[i].time),
            s[i].commands[j].reminder(),
        ),
    decreases n,
{
    let slot = s[n - 1];
    let c = s[i].commands[j];
    if i < n - 1 {
        lemma_reminded_holds(r, s, n - 1, i, j);
    }
    lemma_with_reminders_hold(
        reminded(r, s, n - 1),
        slot,
        slot.commands.len() as int,
        c.fire_time(s[i].time),
        c.reminder(),
    );
}

/// Adding reminders leaves every command that asks for one as it was, in a
/// slot at the same time.
proof fn lemma_reminded_each_wanting(
    r: Seq<ItemView>,
    s: Seq<ItemView>,
    n: int,
    p: spec_fn(Time, CommandView) -> bool,
)
    requires
        each_wanting(r, p),
    ensures
        each_wanting(reminded(r, s, n), p),
    decreases n,
{
    if n > 0 {
        lemma_reminded_each_wanting(r, s, n - 1, p);
        lemma_with_reminders_each_wanting(
            reminded(r, s, n - 1),
            s[n - 1],
            s[n - 1].commands.len() as int,
            p,
        );
    }
}

proof fn lemma_with_reminders_each_wanting(
    r: Seq<ItemView>,
    slot: ItemView,
    n: int,
    p: spec_fn(Time, CommandView) -> bool,
)
    requires
        each_wanting(r, p),
    ensures
        each_wanting(with_reminders(r, slot, n), p),
    decreases n,
{
    if n > 0 {
        lemma_with_reminders_each_wanting(r, slot, n - 1, p);
        let c = slot.commands[n - 1];
        if c.wants_reminder() {
            lemma_add_reverse_each_wanting(
                with_reminders(r, slot, n - 1),
                c.fire_time(slot.time),
                c.reminder(),
                p,
            );
        }
    }
}

/// Adding the reminders of the first `n` slots of `s` keeps every slot's
/// time, and makes slots only at times at which `e` has one, if `e` has a
/// slot at the fire time of each.
proof fn lemma_reminded_times(r: Seq<ItemView>, s: Seq<ItemView>, n: int, e: Seq<ItemView>)
    requires
        0 <= n <= s.len(),
        times_within(r, e),
        reminders_have_slots_in(s, e),
    ensures
        times_within(reminded(r, s, n), e),
        forall|x: Time| has_slot_at(r, x) ==> has_slot_at(reminded(r, s, n), x),
    decreases n,
{
    if n > 0 {
        lemma_reminded_times(r, s, n - 1, e);
        let slot = s[n - 1];
        assert forall|j: int|
            0 <= j < slot.commands.len() && (
            #[trigger] slot.commands[j]).wants_reminder() implies has_slot_at(
            e,
            slot.commands[j].fire_time(slot.time),
        ) by {
            assert(s[n - 1].commands[j].wants_reminder());
        }
        lemma_with_reminders_times(reminded(r, s, n - 1), slot, slot.commands.len() as int, e);
    }
}

/// Every reminder that a command of `s` asks for has a slot in `e` at its
/// fire time.
pub open spec fn reminders_have_slots_in(s: Seq<ItemView>, e: Seq<ItemView>) -> bool {
    each_wanting(s, |t: Time, c: CommandView| has_slot_at(e, c.fire_time(t)))
}

/// The expansion of any schedule is in strict order: every slot comes after
/// the one before it, and no two slots share a time. A reminder that fires
/// before the midnight that precedes its command stands late in the day, at
/// its place by time.
pub proof fn lemma_expanded_in_order(s: Seq<ItemView>)
    ensures
        strictly_increasing(expanded(s)),
{
    lemma_gathered(s, s.len() as int);
    lemma_reminded_in_order(gathered(s), s, s.len() as int);
}

/// Where the slots and the reminders stand after the expansion: every
/// gathered slot at its time with its own commands in front, and every
/// reminder behind them in the slot at its fire time. Where no two slots of
/// the schedule share a time, the gathered slots are its own.
pub proof fn lemma_expanded_holds(s: Seq<ItemView>)
    ensures
        slots_kept(gathered(s), expanded(s)),
        commands_held(s, expanded(s)),
        reminders_held(s, expanded(s)),
        distinct_times(s) ==> slots_kept(s, expanded(s)),
{
    let n = s.len() as int;
    let g = gathered(s);
    lemma_gathered(s, n);
    lemma_gathers_holds(s, g);
    assert forall|i: int, j: int|
        0 <= i < s.len() && 0 <= j < s[i].commands.len() implies holds_command(
        expanded(s),
        s[i].time,
        #[trigger] s[i].commands[j],
    ) by {
        let (k, m) = choose|k: int, m: int|
            0 <= k < g.len() && g[k].time == s[i].time && 0 <= m < g[k].commands.len() && (
            #[trigger] g[k].commands[m]) == s[i].commands[j];
        assert(g[k].commands.is_prefix_of(g[k].commands));
        lemma_reminded_keeps_slot(g, s, n, g[k]);
        let e = expanded(s);
        let q = choose|q: int|
            0 <= q < e.len() && (#[trigger] e[q]).time == g[k].time && g[k].commands.is_prefix_of(
                e[q].commands,
            );
        assert(e[q].commands[m] == g[k].commands[m]);
    }
    assert forall|k: int| 0 <= k < g.len() implies keeps_slot(expanded(s), #[trigger] g[k]) by {
        assert(g[k].commands.is_prefix_of(g[k].commands));
        lemma_reminded_keeps_slot(g, s, n, g[k]);
    }
    assert forall|i: int, j: int|
        0 <= i < s.len() && 0 <= j < s[i].commands.len() && (
        #[trigger] s[i].commands[j]).wants_reminder() implies holds_command(
        expanded(s),
        s[i].commands[j].fire_time(s[i].time),
        s[i].commands[j].reminder(),
    ) by {
        lemma_reminded_holds(g, s, n, i, j);
    }
    if distinct_times(s) {
        lemma_gathered(s, n);
        assert forall|i: int| 0 <= i < s.len() implies keeps_slot(expanded(s), #[trigger] s[i]) by {
            lemma_commands_alone(s, i, n);
            assert(has_slot_at(g, s.take(n)[i].time));
            let k = choose|k: int| 0 <= k < g.len() && (#[trigger] g[k]).time == s[i].time;
            assert(g[k].commands == s[i].commands);
            assert(g[k] == s[i]);
            assert(keeps_slot(expanded(s), g[k]));
        }
    }
}

/// Where no two slots share a time, the commands at the time of a slot are
/// its own.
proof fn lemma_commands_alone(s: Seq<ItemView>, i: int, n: int)
    requires
        distinct_times(s),
        0 <= i < s.len(),
        0 <= n <= s.len(),
    ensures
        commands_at(s, s[i].time, n) == if i < n {
            s[i].commands
        } else {
            Seq::empty()
        },
    decreases n,
{
    if n > 0 {
        lemma_commands_alone(s, i, n - 1);
        if i == n - 1 {
            assert(commands_at(s, s[i].time, n) =~= s[i].commands);
        } else if i < n - 1 {
            assert(s[i].time != s[n - 1].time);
        } else {
            assert(s[n - 1].time != s[i].time);
        }
    }
}

/// After the expansion every reminder that a command asks for has a slot
/// at its fire time.
proof fn lemma_expanded_have_slots(s: Seq<ItemView>)
    ensures
        reminders_have_slots(expanded(s)),
{
    let n = s.len() as int;
    let g = gathered(s);
    let e = expanded(s);
    let came = |t: Time, c: CommandView| from_slot(s, t, c);
    lemma_gathered(s, n);
    assert(each_wanting(g, came)) by {
        assert forall|k: int, m: int|
            0 <= k < g.len() && 0 <= m < g[k].commands.len() && (
            #[trigger] g[k].commands[m]).wants_reminder() implies from_slot(
            s,
            g[k].time,
            g[k].commands[m],
        ) by {
            lemma_commands_at(s, g[k].time, n);
            assert(g[k].commands == commands_at(s, g[k].time, n));
        }
    }
    lemma_reminded_each_wanting(g, s, n, came);
    lemma_expanded_holds(s);
    assert forall|k: int, m: int|
        0 <= k < e.len() && 0 <= m < e[k].commands.len() && (
        #[trigger] e[k].commands[m]).wants_reminder() implies has_slot_at(
        e,
        e[k].commands[m].fire_time(e[k].time),
    ) by {
        let t = e[k].time;
        let c = e[k].commands[m];
        assert(came(t, c));
        let (i, j) = choose|i: int, j: int|
            0 <= i < s.len() && s[i].time == t && 0 <= j < s[i].commands.len() && (
            #[trigger] s[i].commands[j]) == c;
        assert(s[i].commands[j].wants_reminder());
        assert(holds_command(e, c.fire_time(t), c.reminder()));
        let (a, b) = choose|a: int, b: int|
            0 <= a < e.len() && e[a].time == c.fire_time(t) && 0 <= b < e[a].commands.len() && (
            #[trigger] e[a].commands[b]) == c.reminder();
        assert(e[a].time == c.fire_time(t));
    }
}

/// Two schedules in strict order with slots at the same times have them in
/// the same places.
pub proof fn lemma_same_times(a: Seq<ItemView>, b: Seq<ItemView>)
    requires
        strictly_increasing(a),
        strictly_increasing(b),
        times_within(a, b),
        times_within(b, a),
    ensures
        same_times(a, b),
    decreases a.len(),
{
    if a.len() == 0 {
        if b.len() > 0 {
            assert(has_slot_at(a, b[0].time));
        }
    } else {
        assert(has_slot_at(b, a[0].time));
        let la = a.len() - 1;
        let lb = b.len() - 1;
        let k = choose|k: int| 0 <= k < b.len() && (#[trigger] b[k]).time == a[la].time;
        let m = choose|m: int| 0 <= m < a.len() && (#[trigger] a[m]).time == b[lb].time;
        assert(a[la].time == b[lb].time) by {
            if k < lb {
                assert(b[k].time.before(b[lb].time));
            }
            if m < la {
                assert(a[m].time.before(a[la].time));
            }
        }
        let a0 = a.drop_last();
        let b0 = b.drop_last();
        assert forall|i: int| 0 <= i < a0.len() implies has_slot_at(b0, (#[trigger] a0[i]).time) by {
            assert(a[i].time.before(a[la].time));
            let q = choose|q: int| 0 <= q < b.len() && (#[trigger] b[q]).time == a[i].time;
            assert(b0[q].time == a[i].time);
        }
        assert forall|i: int| 0 <= i < b0.len() implies has_slot_at(a0, (#[trigger] b0[i]).time) by {
            assert(b[i].time.before(b[lb].time));
            let q = choose|q: int| 0 <= q < a.len() && (#[trigger] a[q]).time == b[i].time;
            assert(a0[q].time == b[i].time);
        }
        assert forall|i: int, j: int| 0 <= i < j < a0.len() implies a0[i].time.before(
            a0[j].time,
        ) by {
            assert(a[i].time.before(a[j].time));
        }
        assert forall|i: int, j: int| 0 <= i < j < b0.len() implies b0[i].time.before(
            b0[j].time,
        ) by {
            assert(b[i].time.before(b[j].time));
        }
        lemma_same_times(a0, b0);
        assert forall|i: int| 0 <= i < a.len() implies (#[trigger] a[i]).time == b[i].time by {
            if i < la {
                assert(a0[i].time == b0[i].time);
            }
        }
    }
}

/// Expanding an expanded schedule makes no slot: the second pass finds a
/// slot in place at the time of every slot and of every reminder.
pub proof fn lemma_expanding_twice_makes_no_slot(s: Seq<ItemView>)
    ensures
        same_times(expanded(expanded(s)), expanded(s)),
{
    let once = expanded(s);
    let n = once.len() as int;
    lemma_expanded_in_order(s);
    lemma_expanded_in_order(once);
    lemma_expanded_have_slots(s);
    lemma_gathered_of_ordered(once, n);
    assert(once.take(n) == once);
    assert(times_within(once, once)) by {
        assert forall|k: int| 0 <= k < once.len() implies has_slot_at(
            once,
            (#[trigger] once[k]).time,
        ) by {}
    }
    lemma_reminded_times(once, once, n, once);
    let twice = expanded(once);
    assert(times_within(once, twice)) by {
        assert forall|k: int| 0 <= k < once.len() implies has_slot_at(
            twice,
            (#[trigger] once[k]).time,
        ) by {
            assert(has_slot_at(once, once[k].time));
        }
    }
    lemma_same_times(twice, once);
}

/// The expansion leaves a schedule in strict order as it is, if none of its
/// commands asks for a reminder.
pub proof fn lemma_expanded_without_reminders(s: Seq<ItemView>)
    requires
        strictly_increasing(s),
        each_wanting(s, |t: Time, c: CommandView| false),
    ensures
        expanded(s) == s,
{
    let n = s.len() as int;
    lemma_gathered_of_ordered(s, n);
    assert(s.take(n) == s);
    lemma_reminded_without(s, s, n);
}

proof fn lemma_reminded_without(r: Seq<ItemView>, s: Seq<ItemView>, n: int)
    requires
        0 <= n <= s.len(),
        each_wanting(s, |t: Time, c: CommandView| false),
    ensures
        reminded(r, s, n) == r,
    decreases n,
{
    if n > 0 {
        lemma_reminded_without(r, s, n - 1);
        lemma_with_reminders_without(r, s, n - 1, s[n - 1].commands.len() as int);
    }
}

proof fn lemma_with_reminders_without(r: Seq<ItemView>, s: Seq<ItemView>, i: int, n: int)
    requires
        0 <= i < s.len(),
        0 <= n <= s[i].commands.len(),
        each_wanting(s, |t: Time, c: CommandView| false),
    ensures
        with_reminders(r, s[i], n) == r,
    decreases n,
{
    if n > 0 {
        lemma_with_reminders_without(r, s, i, n - 1);
        assert(!s[i].commands[n - 1].wants_reminder());
    }
}

} // verus!

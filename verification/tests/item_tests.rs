use task_scheduler::item::{Action, Command, Item, Lead, REMINDER};
use task_scheduler::time::Time;

fn t(hour: u8, minute: u8, second: u8) -> Time {
    Time { hour, minute, second }
}

fn command(name: &str, notify: isize) -> Command {
    Command { command: name.to_string(), parameters: String::new(), audio: false, notify }
}

#[test]
fn default_command_asks_for_no_reminder() {
    let c = Command::default();
    assert_eq!(c.command, "");
    assert_eq!(c.parameters, "");
    assert!(!c.audio);
    assert_eq!(c.notify, -1);
}

#[test]
fn default_item_is_empty_at_midnight() {
    let item = Item::default();
    assert_eq!(item.time, t(0, 0, 0));
    assert!(item.commands.is_empty());
}

#[test]
fn clone_copies_every_field() {
    let c = Command {
        command: "backup.exe".to_string(),
        parameters: "--all".to_string(),
        audio: true,
        notify: 90,
    };
    let d = c.clone();
    assert_eq!(d.command, "backup.exe");
    assert_eq!(d.parameters, "--all");
    assert!(d.audio);
    assert_eq!(d.notify, 90);

    let item = Item { time: t(9, 0, 0), commands: vec![c, command("second", -1)] };
    let copy = item.clone();
    assert_eq!(copy.time, t(9, 0, 0));
    assert_eq!(copy.commands.len(), 2);
    assert_eq!(copy.commands[0].command, "backup.exe");
    assert_eq!(copy.commands[0].notify, 90);
    assert_eq!(copy.commands[1].command, "second");
    assert_eq!(copy.commands[1].notify, -1);
}

#[test]
fn lead_reads_notify() {
    assert_eq!(command("a", -1).lead(), Lead::Disabled);
    assert_eq!(command("a", -3).lead(), Lead::Disabled);
    assert_eq!(command("a", isize::MIN).lead(), Lead::Disabled);
    assert_eq!(command("a", 0).lead(), Lead::AtStart);
    assert_eq!(command("a", 1).lead(), Lead::Seconds(1));
    assert_eq!(command("a", 30).lead(), Lead::Seconds(30));
    assert_eq!(command("a", -2).lead(), Lead::Synthesized);
    assert_eq!(REMINDER, -2);
}

#[test]
fn a_reminder_goes_before_a_sound_and_a_sound_before_a_program() {
    let mut c = command("chime.wav", -1);
    assert_eq!(c.action(), Action::Launch);
    c.audio = true;
    assert_eq!(c.action(), Action::PlayAudio);
    c.notify = 30;
    assert_eq!(c.action(), Action::PlayAudio);
    c.notify = -2;
    assert_eq!(c.action(), Action::Remind);
    c.audio = false;
    assert_eq!(c.action(), Action::Remind);
    c.notify = 0;
    assert_eq!(c.action(), Action::Launch);
}

#[test]
fn reminder_is_the_command_marked() {
    let c = Command {
        command: "backup.exe".to_string(),
        parameters: "--all".to_string(),
        audio: true,
        notify: 30,
    };
    let r = c.reminder();
    assert_eq!(r.command, "backup.exe");
    assert_eq!(r.parameters, "--all");
    assert!(r.audio);
    assert_eq!(r.notify, -2);
    assert_eq!(c.notify, 30);
}

#[test]
fn fire_time_is_the_lead_before_the_slot() {
    assert_eq!(command("a", 30).fire_time(t(9, 0, 0)), Some(t(8, 59, 30)));
    assert_eq!(command("a", 0).fire_time(t(9, 0, 0)), Some(t(9, 0, 0)));
    assert_eq!(command("a", 3_600).fire_time(t(9, 0, 0)), Some(t(8, 0, 0)));
    assert_eq!(command("a", 86_400).fire_time(t(9, 0, 0)), Some(t(9, 0, 0)));
}

#[test]
fn fire_time_wraps_to_before_midnight() {
    assert_eq!(command("a", 30).fire_time(t(0, 0, 10)), Some(t(23, 59, 40)));
    assert_eq!(command("a", 1).fire_time(t(0, 0, 0)), Some(t(23, 59, 59)));
}

#[test]
fn no_fire_time_without_a_reminder() {
    assert_eq!(command("a", -1).fire_time(t(9, 0, 0)), None);
    assert_eq!(command("a", -2).fire_time(t(9, 0, 0)), None);
    assert_eq!(command("a", -30).fire_time(t(9, 0, 0)), None);
}

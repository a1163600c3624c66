use task_scheduler::dispatch::{Outcome, Step};
use task_scheduler::item::{Action, Command, Item};
use task_scheduler::time::Time;

fn command(name: &str, audio: bool, notify: isize) -> Command {
    Command { command: name.to_string(), parameters: String::new(), audio, notify }
}

fn slot(commands: Vec<Command>) -> Item {
    Item { time: Time { hour: 9, minute: 0, second: 0 }, commands }
}

#[test]
fn a_failure_does_not_stop_the_slot() {
    let item = slot(vec![command("fails", false, -1), command("succeeds", false, -1)]);
    let first = item.first_step().unwrap();
    assert_eq!(first, Step { index: 0, action: Action::Launch });
    let second = item.next_step(first, Outcome::Failed).unwrap();
    assert_eq!(second, Step { index: 1, action: Action::Launch });
    assert_eq!(item.commands[second.index].command, "succeeds");
    assert_eq!(item.next_step(second, Outcome::Succeeded), None);
}

#[test]
fn the_outcome_makes_no_difference_to_what_comes_next() {
    let item = slot(vec![
        command("a", false, -1),
        command("b", true, -1),
        command("c", false, -2),
    ]);
    let mut step = item.first_step();
    while let Some(done) = step {
        assert_eq!(
            item.next_step(done, Outcome::Failed),
            item.next_step(done, Outcome::Succeeded)
        );
        step = item.next_step(done, Outcome::Failed);
    }
}

#[test]
fn every_command_fires_once_in_order() {
    let item = slot(vec![
        command("program", false, -1),
        command("sound", true, 30),
        command("reminder", true, -2),
        command("other", false, 0),
    ]);
    let mut fired = Vec::new();
    let mut step = item.first_step();
    while let Some(done) = step {
        fired.push((done.index, done.action));
        step = item.next_step(done, Outcome::Succeeded);
    }
    assert_eq!(
        fired,
        vec![
            (0, Action::Launch),
            (1, Action::PlayAudio),
            (2, Action::Remind),
            (3, Action::Launch),
        ]
    );
}

#[test]
fn a_slot_without_commands_has_no_step() {
    assert_eq!(slot(Vec::new()).first_step(), None);
}

#[test]
fn no_step_after_one_that_is_not_of_the_slot() {
    let item = slot(vec![command("a", false, -1)]);
    let stray = Step { index: 5, action: Action::Launch };
    assert_eq!(item.next_step(stray, Outcome::Succeeded), None);
    let last = Step { index: usize::MAX, action: Action::Launch };
    assert_eq!(item.next_step(last, Outcome::Failed), None);
}

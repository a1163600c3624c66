use task_scheduler::config::Config;
use task_scheduler::item::{Command, Item};
use task_scheduler::time::Time;
use task_scheduler::validation::{validate, ConfigError};

fn t(hour: u8, minute: u8, second: u8) -> Time {
    Time { hour, minute, second }
}

fn slot(time: Time, notify: &[isize]) -> Item {
    Item {
        time,
        commands: notify
            .iter()
            .map(|n| Command {
                command: "run".to_string(),
                parameters: String::new(),
                audio: false,
                notify: *n,
            })
            .collect(),
    }
}

#[test]
fn a_schedule_from_a_configuration_is_accepted() {
    let items = vec![slot(t(0, 0, 0), &[-1, 0, 1]), slot(t(23, 59, 59), &[86_400])];
    assert_eq!(validate(&items), Ok(()));
}

#[test]
fn a_slot_without_commands_is_accepted() {
    assert_eq!(validate(&vec![slot(t(9, 0, 0), &[])]), Ok(()));
}

#[test]
fn an_empty_schedule_is_refused() {
    assert_eq!(validate(&Vec::new()), Err(ConfigError::Empty));
}

#[test]
fn a_time_off_the_clock_face_is_refused() {
    assert_eq!(
        validate(&vec![slot(t(24, 0, 0), &[-1])]),
        Err(ConfigError::InvalidTime { slot: 0 })
    );
    assert_eq!(
        validate(&vec![slot(t(9, 0, 0), &[-1]), slot(t(9, 60, 0), &[-1])]),
        Err(ConfigError::InvalidTime { slot: 1 })
    );
    assert_eq!(
        validate(&vec![slot(t(9, 0, 0), &[-1]), slot(t(9, 0, 60), &[-1])]),
        Err(ConfigError::InvalidTime { slot: 1 })
    );
}

#[test]
fn a_notify_below_minus_one_is_refused() {
    assert_eq!(
        validate(&vec![slot(t(9, 0, 0), &[-1, 5, -2])]),
        Err(ConfigError::InvalidNotify { slot: 0, command: 2 })
    );
    assert_eq!(
        validate(&vec![slot(t(9, 0, 0), &[0]), slot(t(10, 0, 0), &[-3, -2])]),
        Err(ConfigError::InvalidNotify { slot: 1, command: 0 })
    );
}

#[test]
fn the_first_fault_is_named() {
    let items = vec![slot(t(9, 0, 0), &[-1]), slot(t(10, 0, 0), &[3, -5]), slot(t(30, 0, 0), &[])];
    assert_eq!(validate(&items), Err(ConfigError::InvalidNotify { slot: 1, command: 1 }));
    let items = vec![slot(t(9, 0, 0), &[-1]), slot(t(10, 99, 0), &[-5]), slot(t(11, 0, 0), &[-9])];
    assert_eq!(validate(&items), Err(ConfigError::InvalidTime { slot: 1 }));
}

#[test]
fn every_error_has_its_words() {
    let errors = [
        ConfigError::Empty,
        ConfigError::InvalidTime { slot: 0 },
        ConfigError::InvalidNotify { slot: 0, command: 0 },
    ];
    for (i, a) in errors.iter().enumerate() {
        assert!(!a.message().is_empty());
        for b in &errors[i + 1..] {
            assert_ne!(a.message(), b.message());
        }
    }
}

#[test]
fn try_new_refuses_what_validate_refuses() {
    let now = t(12, 0, 0);
    assert_eq!(Config::try_new(Vec::new(), now).err(), Some(ConfigError::Empty));
    assert_eq!(
        Config::try_new(vec![slot(t(9, 0, 0), &[-1]), slot(t(24, 0, 0), &[])], now).err(),
        Some(ConfigError::InvalidTime { slot: 1 })
    );
    assert_eq!(
        Config::try_new(vec![slot(t(9, 0, 0), &[0, -2])], now).err(),
        Some(ConfigError::InvalidNotify { slot: 0, command: 1 })
    );
}

#[test]
fn try_new_sorts_and_sets_the_cursor() {
    let items = vec![slot(t(14, 0, 0), &[30]), slot(t(10, 0, 0), &[-1])];
    let config = Config::try_new(items, t(12, 0, 0)).unwrap();
    assert_eq!(config.items[0].time, t(10, 0, 0));
    assert_eq!(config.items[1].time, t(14, 0, 0));
    assert_eq!(config.items[1].commands[0].notify, 30);
    assert_eq!(config.next_index(), 1);
}

use task_scheduler::add_command::AddCommand;
use task_scheduler::item::{Command, Item};
use task_scheduler::time::Time;

fn t(hour: u8, minute: u8, second: u8) -> Time {
    Time { hour, minute, second }
}

fn command(name: &str) -> Command {
    Command { command: name.to_string(), parameters: String::new(), audio: false, notify: -1 }
}

fn slot(time: Time, names: &[&str]) -> Item {
    Item { time, commands: names.iter().map(|name| command(name)).collect() }
}

fn shape(items: &Vec<Item>) -> Vec<(Time, Vec<String>)> {
    items
        .iter()
        .map(|item| (item.time, item.commands.iter().map(|c| c.command.clone()).collect()))
        .collect()
}

fn row(time: Time, names: &[&str]) -> (Time, Vec<String>) {
    (time, names.iter().map(|name| name.to_string()).collect())
}

fn morning() -> Vec<Item> {
    vec![slot(t(8, 0, 0), &["a"]), slot(t(9, 0, 0), &["b"]), slot(t(10, 0, 0), &["c"])]
}

#[test]
fn add_command_to_an_empty_schedule() {
    let mut items: Vec<Item> = Vec::new();
    assert!(items.add_command(t(9, 0, 0), command("x")));
    assert_eq!(shape(&items), vec![row(t(9, 0, 0), &["x"])]);
}

#[test]
fn add_command_reverse_to_an_empty_schedule() {
    let mut items: Vec<Item> = Vec::new();
    assert!(items.add_command_reverse(t(9, 0, 0), command("x")));
    assert_eq!(shape(&items), vec![row(t(9, 0, 0), &["x"])]);
}

#[test]
fn add_command_between_two_slots() {
    let mut items = morning();
    assert!(items.add_command(t(8, 30, 0), command("x")));
    assert_eq!(
        shape(&items),
        vec![
            row(t(8, 0, 0), &["a"]),
            row(t(8, 30, 0), &["x"]),
            row(t(9, 0, 0), &["b"]),
            row(t(10, 0, 0), &["c"]),
        ]
    );
}

#[test]
fn add_command_reverse_between_two_slots() {
    let mut items = morning();
    assert!(items.add_command_reverse(t(9, 30, 0), command("x")));
    assert_eq!(
        shape(&items),
        vec![
            row(t(8, 0, 0), &["a"]),
            row(t(9, 0, 0), &["b"]),
            row(t(9, 30, 0), &["x"]),
            row(t(10, 0, 0), &["c"]),
        ]
    );
}

#[test]
fn add_command_before_the_first_and_after_the_last() {
    let mut items = morning();
    assert!(items.add_command(t(7, 0, 0), command("x")));
    assert!(items.add_command(t(11, 0, 0), command("y")));
    assert!(items.add_command_reverse(t(6, 0, 0), command("z")));
    assert!(items.add_command_reverse(t(12, 0, 0), command("w")));
    assert_eq!(
        shape(&items),
        vec![
            row(t(6, 0, 0), &["z"]),
            row(t(7, 0, 0), &["x"]),
            row(t(8, 0, 0), &["a"]),
            row(t(9, 0, 0), &["b"]),
            row(t(10, 0, 0), &["c"]),
            row(t(11, 0, 0), &["y"]),
            row(t(12, 0, 0), &["w"]),
        ]
    );
}

#[test]
fn add_command_joins_the_slot_at_its_time() {
    let mut items = morning();
    assert!(!items.add_command(t(9, 0, 0), command("x")));
    assert!(!items.add_command_reverse(t(9, 0, 0), command("y")));
    assert!(!items.add_command_reverse(t(8, 0, 0), command("z")));
    assert!(!items.add_command(t(10, 0, 0), command("w")));
    assert_eq!(
        shape(&items),
        vec![
            row(t(8, 0, 0), &["a", "z"]),
            row(t(9, 0, 0), &["b", "x", "y"]),
            row(t(10, 0, 0), &["c", "w"]),
        ]
    );
}

#[test]
fn both_directions_agree_on_a_schedule_in_order() {
    let times = [
        t(7, 0, 0),
        t(8, 0, 0),
        t(8, 30, 0),
        t(9, 0, 0),
        t(9, 30, 0),
        t(10, 0, 0),
        t(11, 0, 0),
    ];
    for time in times {
        let mut forward = morning();
        let mut reverse = morning();
        let made_forward = forward.add_command(time, command("x"));
        let made_reverse = reverse.add_command_reverse(time, command("x"));
        assert_eq!(made_forward, made_reverse);
        assert_eq!(shape(&forward), shape(&reverse));
    }
}

#[test]
fn with_a_time_twice_forward_joins_the_first_and_reverse_the_last() {
    let twice = || vec![slot(t(9, 0, 0), &["a"]), slot(t(9, 0, 0), &["b"])];

    let mut forward = twice();
    assert!(!forward.add_command(t(9, 0, 0), command("x")));
    assert_eq!(shape(&forward), vec![row(t(9, 0, 0), &["a", "x"]), row(t(9, 0, 0), &["b"])]);

    let mut reverse = twice();
    assert!(!reverse.add_command_reverse(t(9, 0, 0), command("x")));
    assert_eq!(shape(&reverse), vec![row(t(9, 0, 0), &["a"]), row(t(9, 0, 0), &["b", "x"])]);
}

#[test]
fn out_of_order_forward_stops_at_the_first_later_slot() {
    let mut items = vec![slot(t(10, 0, 0), &["a"]), slot(t(8, 0, 0), &["b"])];
    assert!(items.add_command(t(9, 0, 0), command("x")));
    assert_eq!(
        shape(&items),
        vec![row(t(9, 0, 0), &["x"]), row(t(10, 0, 0), &["a"]), row(t(8, 0, 0), &["b"])]
    );
}

#[test]
fn out_of_order_reverse_stops_at_the_last_earlier_slot() {
    let mut items = vec![slot(t(10, 0, 0), &["a"]), slot(t(8, 0, 0), &["b"])];
    assert!(items.add_command_reverse(t(9, 0, 0), command("x")));
    assert_eq!(
        shape(&items),
        vec![row(t(10, 0, 0), &["a"]), row(t(8, 0, 0), &["b"]), row(t(9, 0, 0), &["x"])]
    );
}

#[test]
fn add_command_with_index_skips_the_slots_before_it() {
    let mut items = morning();
    assert!(items.add_command_with_index(t(7, 0, 0), command("x"), 1));
    assert_eq!(
        shape(&items),
        vec![
            row(t(8, 0, 0), &["a"]),
            row(t(7, 0, 0), &["x"]),
            row(t(9, 0, 0), &["b"]),
            row(t(10, 0, 0), &["c"]),
        ]
    );

    let mut items = morning();
    assert!(items.add_command_with_index(t(8, 0, 0), command("x"), 1));
    assert_eq!(shape(&items)[1], row(t(8, 0, 0), &["x"]));
    assert_eq!(items.len(), 4);
}

#[test]
fn add_command_with_index_past_the_end_appends() {
    let mut items = morning();
    assert!(items.add_command_with_index(t(7, 0, 0), command("x"), 3));
    assert!(items.add_command_with_index(t(6, 0, 0), command("y"), 9));
    assert_eq!(shape(&items)[3], row(t(7, 0, 0), &["x"]));
    assert_eq!(shape(&items)[4], row(t(6, 0, 0), &["y"]));
}

#[test]
fn add_command_reverse_with_index_searches_the_slots_before_it() {
    let mut items = morning();
    assert!(items.add_command_reverse_with_index(t(11, 0, 0), command("x"), 2));
    assert_eq!(
        shape(&items),
        vec![
            row(t(8, 0, 0), &["a"]),
            row(t(9, 0, 0), &["b"]),
            row(t(11, 0, 0), &["x"]),
            row(t(10, 0, 0), &["c"]),
        ]
    );

    let mut items = morning();
    assert!(items.add_command_reverse_with_index(t(10, 0, 0), command("x"), 2));
    assert_eq!(items.len(), 4);
    assert_eq!(shape(&items)[2], row(t(10, 0, 0), &["x"]));
}

#[test]
fn add_command_reverse_with_index_zero_puts_the_slot_first() {
    let mut items = morning();
    assert!(items.add_command_reverse_with_index(t(9, 0, 0), command("x"), 0));
    assert_eq!(shape(&items)[0], row(t(9, 0, 0), &["x"]));
    assert_eq!(items.len(), 4);
}

#[test]
fn ranges_bound_the_search() {
    let mut items = morning();
    assert!(items._add_command(t(8, 0, 0), command("x"), 1..2));
    assert_eq!(
        shape(&items),
        vec![
            row(t(8, 0, 0), &["a"]),
            row(t(8, 0, 0), &["x"]),
            row(t(9, 0, 0), &["b"]),
            row(t(10, 0, 0), &["c"]),
        ]
    );

    let mut items = morning();
    assert!(items._add_command(t(9, 30, 0), command("x"), 0..2));
    assert_eq!(shape(&items)[3], row(t(9, 30, 0), &["x"]));

    let mut items = morning();
    assert!(items._add_command_reverse(t(8, 30, 0), command("x"), 1..3));
    assert_eq!(shape(&items)[0], row(t(8, 30, 0), &["x"]));

    let mut items = morning();
    assert!(!items._add_command_reverse(t(9, 0, 0), command("x"), 1..2));
    assert_eq!(shape(&items)[1], row(t(9, 0, 0), &["b", "x"]));
}

#[test]
fn an_empty_range_finds_nothing() {
    let mut items = morning();
    assert!(items._add_command(t(9, 0, 0), command("x"), 2..2));
    assert_eq!(shape(&items)[3], row(t(9, 0, 0), &["x"]));

    let mut items = morning();
    assert!(items._add_command_reverse(t(9, 0, 0), command("x"), 2..2));
    assert_eq!(shape(&items)[0], row(t(9, 0, 0), &["x"]));
}

//! Commands and the slots of the schedule that hold them.

use crate::time::Time;
use vstd::prelude::*;

verus! {

/// The value of `notify` that marks a command as a reminder which the
/// expansion made for another command. It is never read from a configuration.
pub const REMINDER: isize = -2;

/// What a command's `notify` asks for.
#[derive(Debug, PartialEq, Eq, Structural, Clone, Copy)]
pub enum Lead {
    /// No reminder.
    Disabled,
    /// A reminder at the command's own time.
    AtStart,
    /// A reminder this many seconds ahead of the command.
    Seconds(usize),
    /// The command is itself a reminder, made by the expansion.
    Synthesized,
}

/// What firing a command does.
#[derive(Debug, PartialEq, Eq, Structural, Clone, Copy)]
pub enum Action {
    /// Show a reminder that names the command.
    Remind,
    /// Play the file at `command` as a sound.
    PlayAudio,
    /// Start the program at `command` with `parameters`.
    Launch,
}

/// One thing to do at a time of day.
#[derive(Debug)]
pub struct Command {
    /// The program to start, or the audio file to play.
    pub command: String,
    /// The arguments handed to the program.
    pub parameters: String,
    /// Whether `command` is a sound to play rather than a program to start.
    pub audio: bool,
    /// `-1`: no reminder; `0`: a reminder at the command's own time; above
    /// `0`: a reminder that many seconds ahead; `-2`: the command is itself a
    /// reminder.
    pub notify: isize,
}

/// A command as a plain value.
pub struct CommandView {
    pub command: Seq<char>,
    pub parameters: Seq<char>,
    pub audio: bool,
    pub notify: int,
}

impl CommandView {
    /// The command asks for a reminder of its own.
    pub open spec fn wants_reminder(self) -> bool {
        self.notify >= 0
    }

    /// The reminder made for this command: the same command, marked as a
    /// reminder.
    pub open spec fn reminder(self) -> CommandView {
        CommandView { notify: -2, ..self }
    }

    /// When the reminder of this command fires, if the command stands in a
    /// slot at `slot`: `notify` seconds earlier on the clock face, which may
    /// lie before midnight and so later in the day.
    pub open spec fn fire_time(self, slot: Time) -> Time {
        slot.minus(Time::of_seconds(self.notify))
    }

    pub open spec fn lead(self) -> Lead {
        if self.notify == -2 {
            Lead::Synthesized
        } else if self.notify < 0 {
            Lead::Disabled
        } else if self.notify == 0 {
            Lead::AtStart
        } else {
            Lead::Seconds(self.notify as usize)
        }
    }

    /// A reminder goes before a sound, a sound before a program.
    pub open spec fn action(self) -> Action {
        if self.notify == -2 {
            Action::Remind
        } else if self.audio {
            Action::PlayAudio
        } else {
            Action::Launch
        }
    }
}

impl View for Command {
    type V = CommandView;

    open spec fn view(&self) -> CommandView {
        CommandView {
            command: self.command@,
            parameters: self.parameters@,
            audio: self.audio,
            notify: self.notify as int,
        }
    }
}

impl Clone for Command {
    fn clone(&self) -> (r: Self)
        ensures
            r == *self,
    {
        Command {
            command: self.command.clone(),
            parameters: self.parameters.clone(),
            audio: self.audio,
            notify: self.notify,
        }
    }
}

impl Default for Command {
    /// An empty command that asks for no reminder.
    fn default() -> (r: Self)
        ensures
            r@ == (CommandView {
                command: Seq::empty(),
                parameters: Seq::empty(),
                audio: false,
                notify: -1,
            }),
    {
        Command { command: String::new(), parameters: String::new(), audio: false, notify: -1 }
    }
}

impl Command {
    /// What `notify` asks for.
    pub fn lead(&self) -> (r: Lead)
        ensures
            r == self@.lead(),
    {
        if self.notify == REMINDER {
            Lead::Synthesized
        } else if self.notify < 0 {
            Lead::Disabled
        } else if self.notify == 0 {
            Lead::AtStart
        } else {
            Lead::Seconds(self.notify as usize)
        }
    }

    /// What firing the command does.
    pub fn action(&self) -> (r: Action)
        ensures
            r == self@.action(),
    {
        if self.notify == REMINDER {
            Action::Remind
        } else if self.audio {
            Action::PlayAudio
        } else {
            Action::Launch
        }
    }

    /// The reminder for this command: a copy marked as a reminder.
    pub fn reminder(&self) -> (r: Command)
        ensures
            r@ == self@.reminder(),
    {
        Command {
            command: self.command.clone(),
            parameters: self.parameters.clone(),
            audio: self.audio,
            notify: REMINDER,
        }
    }

    /// When the reminder of this command fires, if the command stands in a
    /// slot at `slot`; `None` if it asks for no reminder.
    pub fn fire_time(&self, slot: Time) -> (r: Option<Time>)
        ensures
            r == if self@.wants_reminder() {
                Some(self@.fire_time(slot))
            } else {
                None
            },
            r matches Some(t) ==> t.valid(),
    {
        if self.notify >= 0 {
            Some(slot - Time::second(self.notify as usize))
        } else {
            None
        }
    }
}

/// A slot of the schedule: a time of day and the commands that fire then, in
/// the order in which they fire.
#[derive(Debug)]
pub struct Item {
    pub time: Time,
    pub commands: Vec<Command>,
}

/// A slot as a plain value.
pub struct ItemView {
    pub time: Time,
    pub commands: Seq<CommandView>,
}

/// The commands of a slot as plain values.
pub open spec fn command_views(commands: Seq<Command>) -> Seq<CommandView> {
    Seq::new(commands.len(), |i: int| commands[i]@)
}

impl View for Item {
    type V = ItemView;

    open spec fn view(&self) -> ItemView {
        ItemView { time: self.time, commands: command_views(self.commands@) }
    }
}

impl Clone for Item {
    fn clone(&self) -> (r: Self)
        ensures
            r.time == self.time,
            r.commands@ == self.commands@,
            r@ == self@,
    {
        Item { time: self.time, commands: self.commands.clone() }
    }
}

impl Default for Item {
    /// Midnight, with nothing to do.
    fn default() -> (r: Self)
        ensures
            r.time == (Time { hour: 0, minute: 0, second: 0 }),
            r.commands@.len() == 0,
    {
        Item { time: Time { hour: 0, minute: 0, second: 0 }, commands: Vec::new() }
    }
}

} // verus!

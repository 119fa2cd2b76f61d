//! Commands and cues: what the console, OSC and cue lists ask the engine to do.
//!
//! Numbers are kept as the decimal literals they were written as; a `Number` stands for the
//! binary32 value `literal`, divided by `divisor` when there is one, times 2.55 when
//! `percent` is set (the operations done in that order in binary32 arithmetic).
use vstd::prelude::*;
use crate::target::{Target, SpecTarget};
use crate::effects::{Effect, SpecEffect};

verus! {

/// A number written as a floating-point literal.
#[derive(Debug, Clone, PartialEq, Eq)]
pub struct Number {
    pub literal: String,
    pub divisor: Option<String>,
    pub percent: bool,
}

pub struct SpecNumber {
    pub literal: Seq<char>,
    pub divisor: Option<Seq<char>>,
    pub percent: bool,
}

pub open spec fn opt_string_view(o: Option<String>) -> Option<Seq<char>> {
    match o {
        Some(s) => Some(s@),
        None => None,
    }
}

impl View for Number {
    type V = SpecNumber;

    open spec fn view(&self) -> SpecNumber {
        SpecNumber { literal: self.literal@, divisor: opt_string_view(self.divisor), percent: self.percent }
    }
}

impl Number {
    /// A copy of this number.
    pub fn copy(&self) -> (r: Number)
        ensures
            r@ == self@,
    {
        Number {
            literal: self.literal.clone(),
            divisor: match &self.divisor {
                Some(d) => Some(d.clone()),
                None => None,
            },
            percent: self.percent,
        }
    }
}

/// A length of time, in seconds or in beats.
#[derive(Debug, Clone, PartialEq, Eq)]
pub enum Duration {
    Time(Number),
    Tempo(Number),
}

pub enum SpecDuration {
    Time(SpecNumber),
    Tempo(SpecNumber),
}

impl View for Duration {
    type V = SpecDuration;

    open spec fn view(&self) -> SpecDuration {
        match self {
            Duration::Time(n) => SpecDuration::Time(n@),
            Duration::Tempo(n) => SpecDuration::Tempo(n@),
        }
    }
}

impl Duration {
    /// A copy of this duration.
    pub fn copy(&self) -> (r: Duration)
        ensures
            r@ == self@,
    {
        match self {
            Duration::Time(n) => Duration::Time(n.copy()),
            Duration::Tempo(n) => Duration::Tempo(n.copy()),
        }
    }
}

/// A level, colour or position: a number or a name.
#[derive(Debug, Clone, PartialEq, Eq)]
pub enum Value {
    Numeric(Number),
    Semantic(String),
}

pub enum SpecValue {
    Numeric(SpecNumber),
    Semantic(Seq<char>),
}

impl View for Value {
    type V = SpecValue;

    open spec fn view(&self) -> SpecValue {
        match self {
            Value::Numeric(n) => SpecValue::Numeric(n@),
            Value::Semantic(s) => SpecValue::Semantic(s@),
        }
    }
}

impl Value {
    /// A copy of this value.
    pub fn copy(&self) -> (r: Value)
        ensures
            r@ == self@,
    {
        match self {
            Value::Numeric(n) => Value::Numeric(n.copy()),
            Value::Semantic(s) => Value::Semantic(s.clone()),
        }
    }
}

/// One instruction for the engine.
#[derive(Debug, PartialEq, Eq)]
pub enum Command {
    SetLevel { target: Target, value: Value },
    SetColor { target: Target, color: Value },
    SetPosition { target: Target, pos: Value },
    SetStrobe { target: Target, strobe: Value },
    SetTempo { bpm: Number },
    StartEffect { target: Target, effect: Effect },
    StopEffect { target: Target },
    StartCueList { list: String },
    StopCueList { list: String },
}

pub enum SpecCommand {
    SetLevel { target: SpecTarget, value: SpecValue },
    SetColor { target: SpecTarget, color: SpecValue },
    SetPosition { target: SpecTarget, pos: SpecValue },
    SetStrobe { target: SpecTarget, strobe: SpecValue },
    SetTempo { bpm: SpecNumber },
    StartEffect { target: SpecTarget, effect: SpecEffect },
    StopEffect { target: SpecTarget },
    StartCueList { list: Seq<char> },
    StopCueList { list: Seq<char> },
}

impl View for Command {
    type V = SpecCommand;

    open spec fn view(&self) -> SpecCommand {
        match self {
            Command::SetLevel { target, value } => SpecCommand::SetLevel {
                target: target@,
                value: value@,
            },
            Command::SetColor { target, color } => SpecCommand::SetColor {
                target: target@,
                color: color@,
            },
            Command::SetPosition { target, pos } => SpecCommand::SetPosition {
                target: target@,
                pos: pos@,
            },
            Command::SetStrobe { target, strobe } => SpecCommand::SetStrobe {
                target: target@,
                strobe: strobe@,
            },
            Command::SetTempo { bpm } => SpecCommand::SetTempo { bpm: bpm@ },
            Command::StartEffect { target, effect } => SpecCommand::StartEffect {
                target: target@,
                effect: effect@,
            },
            Command::StopEffect { target } => SpecCommand::StopEffect { target: target@ },
            Command::StartCueList { list } => SpecCommand::StartCueList { list: list@ },
            Command::StopCueList { list } => SpecCommand::StopCueList { list: list@ },
        }
    }
}

impl Command {
    /// A copy of this command.
    pub fn copy(&self) -> (r: Command)
        ensures
            r@ == self@,
    {
        match self {
            Command::SetLevel { target, value } => Command::SetLevel { target: target.copy(), value: value.copy() },
            Command::SetColor { target, color } => Command::SetColor { target: target.copy(), color: color.copy() },
            Command::SetPosition { target, pos } => Command::SetPosition { target: target.copy(), pos: pos.copy() },
            Command::SetStrobe { target, strobe } => Command::SetStrobe { target: target.copy(), strobe: strobe.copy() },
            Command::SetTempo { bpm } => Command::SetTempo { bpm: bpm.copy() },
            Command::StartEffect { target, effect } => Command::StartEffect { target: target.copy(), effect: effect.copy() },
            Command::StopEffect { target } => Command::StopEffect { target: target.copy() },
            Command::StartCueList { list } => Command::StartCueList { list: list.clone() },
            Command::StopCueList { list } => Command::StopCueList { list: list.clone() },
        }
    }
}

/// The values of a list of commands.
pub open spec fn commands_view(v: Seq<Command>) -> Seq<SpecCommand> {
    v.map_values(|c: Command| c@)
}

/// A named list of commands, with the console lines they were read from.
#[derive(Debug, PartialEq, Eq)]
pub struct Cue {
    pub name: String,
    pub raw_commands: Vec<String>,
    pub commands: Vec<Command>,
}

pub struct SpecCue {
    pub name: Seq<char>,
    pub raw_commands: Seq<Seq<char>>,
    pub commands: Seq<SpecCommand>,
}

impl View for Cue {
    type V = SpecCue;

    open spec fn view(&self) -> SpecCue {
        SpecCue {
            name: self.name@,
            raw_commands: crate::target::strings_view(self.raw_commands@),
            commands: commands_view(self.commands@),
        }
    }
}

impl Cue {
    /// A cue with the given name and commands and no console lines.
    pub fn new(name: &str, commands: Vec<Command>) -> (r: Cue)
        ensures
            r.name@ == name@,
            r.raw_commands@.len() == 0,
            r.commands@ == commands@,
    {
        Cue { name: name.to_owned(), raw_commands: Vec::new(), commands }
    }

    /// A copy of this cue.
    pub fn copy(&self) -> (r: Cue)
        ensures
            r@ == self@,
    {
        let raw_commands = crate::target::copy_strings(&self.raw_commands);
        let mut commands: Vec<Command> = Vec::new();
        let mut i: usize = 0;
        while i < self.commands.len()
            invariant
                i <= self.commands.len(),
                commands_view(commands@) == commands_view(self.commands@.take(i as int)),
            decreases self.commands.len() - i,
        {
            let c = self.commands[i].copy();
            let ghost before = commands@;
            commands.push(c);
            assert(commands_view(commands@) =~= commands_view(before).push(c@));
            assert(self.commands@.take(i + 1) =~= self.commands@.take(i as int).push(self.commands@[i as int]));
            assert(commands_view(self.commands@.take(i + 1)) =~= commands_view(self.commands@.take(i as int)).push(self.commands@[i as int]@));
            i = i + 1;
        }
        assert(self.commands@.take(i as int) =~= self.commands@);
        Cue { name: self.name.clone(), raw_commands, commands }
    }
}

} // verus!

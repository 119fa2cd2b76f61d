//! The show's stored data: groups, layouts, cues, cue lists and saved effects.
//!
//! Cues and effects may be stored as console lines only; `CueStore::fill_commands` and
//! `EffectStore::fill_params` read those lines into commands and effects.
use vstd::prelude::*;
use crate::named::{NameMap, lookup, map_entries, lemma_update_map_entries};
use crate::command::{Cue, SpecCue, Command, SpecCommand, Duration, commands_view};
use crate::effects::{Effect, SpecEffect};
use crate::parser::{
    ParserState, SpecParserState, parse_command_spec, command_zero_step, parse_command,
    parse_command_chars, command_has_zero_step_chars, saved_insert,
};
use crate::target::strings_view;
use crate::text::chars_of;

verus! {

/// A named set of fixtures.
#[derive(Debug, Clone, PartialEq, Eq)]
pub struct Group {
    pub name: String,
    pub heads: Vec<String>,
}

/// Groups by id.
pub struct GroupStore {
    pub groups: NameMap<Group>,
}

/// A plan of the fixtures, row by row.
#[derive(Debug, Clone, PartialEq, Eq)]
pub struct Layout {
    pub heads: Vec<Vec<String>>,
}

/// Layouts by name.
pub struct LayoutStore {
    pub layouts: NameMap<Layout>,
}

impl LayoutStore {
    /// The layout called `plan1`; when there is none, the first layout; `None` when there are
    /// no layouts.
    pub fn get_default_layout(&self) -> (r: Option<&Layout>)
        ensures
            match lookup(self.layouts@, "plan1"@) {
                Some(l) => r == Some(&l),
                None => if self.layouts@.len() > 0 {
                    r == Some(&self.layouts@[0].1)
                } else {
                    r is None
                },
            },
    {
        match self.layouts.get("plan1") {
            Some(l) => Some(l),
            None => {
                if self.layouts.len() > 0 {
                    let (_, l) = self.layouts.entry(0);
                    Some(l)
                } else {
                    None
                }
            },
        }
    }
}

/// One step of a cue list with its timing.
#[derive(Debug, Clone, PartialEq, Eq)]
pub struct CueListStep {
    pub fade_in: Option<Duration>,
    pub hold: Option<Duration>,
    pub fade_out: Option<Duration>,
    pub cue: String,
}

/// A step of a cue list: a cue id alone, or a step with its timing.
#[derive(Debug, Clone, PartialEq, Eq)]
pub enum CueListStepConfig {
    Simple(String),
    Detailed(CueListStep),
}

/// A named sequence of cues.
#[derive(Debug, Clone, PartialEq, Eq)]
pub struct CueList {
    pub name: String,
    pub cues: Vec<CueListStepConfig>,
}

/// Cue lists by name.
pub struct CueListStore {
    pub lists: NameMap<CueList>,
}

/// The parser state a stored line is read against: no last target, nothing held back, no
/// saved effects.
pub open spec fn fresh_state() -> SpecParserState {
    SpecParserState {
        last_target: None,
        pending_commands: Seq::empty(),
        saved_effects: Seq::empty(),
    }
}

/// The commands read from `lines` in order, each line against the state the previous one
/// left; a line that gives no command adds none.
pub open spec fn parse_lines(lines: Seq<Seq<char>>, st: SpecParserState) -> Seq<SpecCommand>
    decreases lines.len(),
{
    if lines.len() == 0 {
        Seq::empty()
    } else {
        let (res, st2) = parse_command_spec(lines[0], st);
        let first = match res {
            Some(c) => c,
            None => Seq::empty(),
        };
        first + parse_lines(lines.drop_first(), st2)
    }
}

/// A cue stored as console lines only.
pub open spec fn needs_commands(c: SpecCue) -> bool {
    c.commands.len() == 0 && c.raw_commands.len() > 0
}

/// The cue with its console lines read into commands when it needs them.
pub open spec fn filled_cue(c: SpecCue) -> SpecCue {
    if needs_commands(c) {
        SpecCue { commands: parse_lines(c.raw_commands, fresh_state()), ..c }
    } else {
        c
    }
}

/// No line that would be read holds a channel range with step 0.
pub open spec fn cues_readable(cues: Seq<(Seq<char>, SpecCue)>) -> bool {
    forall|i: int, j: int|
        0 <= i < cues.len() && needs_commands(cues[i].1) && 0 <= j < cues[i].1.raw_commands.len()
            ==> !command_zero_step(#[trigger] cues[i].1.raw_commands[j])
}

/// Cues by id.
pub struct CueStore {
    pub cues: NameMap<Cue>,
}

impl View for CueStore {
    type V = Seq<(Seq<char>, SpecCue)>;

    open spec fn view(&self) -> Seq<(Seq<char>, SpecCue)> {
        map_entries(self.cues@, |c: Cue| c@)
    }
}

/// Reads `lines` one after the other against a fresh parser state.
fn parse_lines_exec(lines: &Vec<String>) -> (r: Vec<Command>)
    requires
        forall|j: int| 0 <= j < lines@.len() ==> !command_zero_step(#[trigger] lines@[j]@),
    ensures
        commands_view(r@) == parse_lines(strings_view(lines@), fresh_state()),
{
    let mut state = ParserState::new();
    assert(state@ == fresh_state()) by {
        assert(state@.pending_commands =~= Seq::<SpecCommand>::empty());
        assert(state@.saved_effects =~= fresh_state().saved_effects);
    }
    let mut out: Vec<Command> = Vec::new();
    let ghost all = strings_view(lines@);
    assert(all.skip(0) =~= all);
    assert(commands_view(out@) + parse_lines(all, state@) =~= parse_lines(all, state@));
    let mut i: usize = 0;
    while i < lines.len()
        invariant
            i <= lines.len(),
            all == strings_view(lines@),
            forall|j: int| 0 <= j < lines@.len() ==> !command_zero_step(#[trigger] lines@[j]@),
            commands_view(out@) + parse_lines(all.skip(i as int), state@) == parse_lines(all, fresh_state()),
        decreases lines.len() - i,
    {
        let ghost before = state@;
        let ghost rest = all.skip(i as int);
        assert(rest[0] == lines@[i as int]@);
        assert(rest.drop_first() =~= all.skip(i + 1));
        let res = parse_command(lines[i].as_str(), &mut state);
        let ghost old_out = out@;
        if let Some(mut cmds) = res {
            out.append(&mut cmds);
        }
        assert(commands_view(out@) =~= commands_view(old_out) + match parse_command_spec(rest[0], before).0 {
            Some(c) => c,
            None => Seq::<SpecCommand>::empty(),
        });
        assert(commands_view(out@) + parse_lines(all.skip(i + 1), state@) =~= commands_view(old_out)
            + parse_lines(rest, before));
        i = i + 1;
    }
    assert(all.skip(i as int) =~= Seq::<Seq<char>>::empty());
    assert(commands_view(out@) + Seq::<SpecCommand>::empty() =~= commands_view(out@));
    out
}

impl CueStore {
    /// No cues.
    pub fn new() -> (r: CueStore)
        ensures
            r@.len() == 0,
    {
        CueStore { cues: NameMap::new() }
    }

    /// Whether every line `fill_commands` would read is free of channel ranges with step 0.
    pub fn readable(&self) -> (r: bool)
        ensures
            r == cues_readable(self@),
    {
        let mut i: usize = 0;
        while i < self.cues.len()
            invariant
                i <= self.cues@.len(),
                self@.len() == self.cues@.len(),
                forall|k: int, j: int|
                    0 <= k < i && needs_commands(self@[k].1) && 0 <= j < self@[k].1.raw_commands.len()
                        ==> !command_zero_step(#[trigger] self@[k].1.raw_commands[j]),
            decreases self.cues@.len() - i,
        {
            assert(self@[i as int] == (self.cues@[i as int].0, self.cues@[i as int].1@));
            let (_, cue) = self.cues.entry(i);
            if cue.commands.len() == 0 && cue.raw_commands.len() > 0 {
                let mut j: usize = 0;
                while j < cue.raw_commands.len()
                    invariant
                        j <= cue.raw_commands@.len(),
                        i < self@.len(),
                        self@[i as int].1 == cue@,
                        needs_commands(cue@),
                        forall|q: int| 0 <= q < j ==> !command_zero_step(#[trigger] cue@.raw_commands[q]),
                    decreases cue.raw_commands@.len() - j,
                {
                    assert(cue@.raw_commands[j as int] == cue.raw_commands@[j as int]@);
                    if command_has_zero_step_chars(&chars_of(cue.raw_commands[j].as_str())) {
                        assert(command_zero_step(self@[i as int].1.raw_commands[j as int]));
                        return false;
                    }
                    j = j + 1;
                }
            }
            i = i + 1;
        }
        true
    }

    /// Reads the console lines as `fill_commands` does, unless one holds a channel range with
    /// step 0 (`None`, the store left as it was).
    pub fn try_fill_commands(&mut self) -> (r: Option<bool>)
        ensures
            match r {
                None => !cues_readable(old(self)@) && final(self)@ == old(self)@,
                Some(modified) => {
                    &&& cues_readable(old(self)@)
                    &&& final(self)@ == old(self)@.map_values(|p: (Seq<char>, SpecCue)| (p.0, filled_cue(p.1)))
                    &&& modified == exists|i: int| 0 <= i < old(self)@.len() && needs_commands(#[trigger] old(self)@[i].1)
                },
            },
    {
        if self.readable() {
            Some(self.fill_commands())
        } else {
            None
        }
    }

    /// What loading makes of the cues a file held (`None` where it could not be read or
    /// parsed): no cues, and nothing to write back; else those cues with the console lines of
    /// every cue that had no commands read (see `filled_cue`), to be written back exactly
    /// when there was such a cue.
    pub fn loaded(parsed: Option<CueStore>) -> (r: (CueStore, bool))
        requires
            parsed matches Some(c) ==> cues_readable(c@),
        ensures
            match parsed {
                None => r.0@.len() == 0 && !r.1,
                Some(c) => {
                    &&& r.0@ == c@.map_values(|p: (Seq<char>, SpecCue)| (p.0, filled_cue(p.1)))
                    &&& r.1 == exists|i: int| 0 <= i < c@.len() && needs_commands(#[trigger] c@[i].1)
                },
            },
    {
        match parsed {
            None => (CueStore::new(), false),
            Some(mut c) => {
                let modified = c.fill_commands();
                (c, modified)
            },
        }
    }

    /// Reads the console lines of every cue that has no commands yet (see `filled_cue`);
    /// returns whether there was such a cue.
    pub fn fill_commands(&mut self) -> (modified: bool)
        requires
            cues_readable(old(self)@),
        ensures
            final(self)@ == old(self)@.map_values(|p: (Seq<char>, SpecCue)| (p.0, filled_cue(p.1))),
            modified == exists|i: int| 0 <= i < old(self)@.len() && needs_commands(#[trigger] old(self)@[i].1),
    {
        let ghost start = self@;
        let mut modified = false;
        let mut i: usize = 0;
        while i < self.cues.len()
            invariant
                i <= self.cues@.len(),
                self.cues@.len() == start.len(),
                self@.len() == start.len(),
                cues_readable(start),
                forall|k: int| 0 <= k < i ==> #[trigger] self@[k] == (start[k].0, filled_cue(start[k].1)),
                forall|k: int| i <= k < start.len() ==> #[trigger] self@[k] == start[k],
                modified == exists|k: int| 0 <= k < i && needs_commands(#[trigger] start[k].1),
            decreases start.len() - i,
        {
            assert(self@[i as int] == (self.cues@[i as int].0, self.cues@[i as int].1@));
            let (_, cue) = self.cues.entry(i);
            let needs = cue.commands.len() == 0 && cue.raw_commands.len() > 0;
            if needs {
                assert(cue.raw_commands@.len() == cue@.raw_commands.len());
                assert forall|j: int| 0 <= j < cue.raw_commands@.len() implies !command_zero_step(#[trigger] cue.raw_commands@[j]@) by {
                    assert(start[i as int].1.raw_commands[j] == cue.raw_commands@[j]@);
                }
                let cmds = parse_lines_exec(&cue.raw_commands);
                let placeholder = Cue { name: String::new(), raw_commands: Vec::new(), commands: Vec::new() };
                let ghost before = self.cues@;
                let mut c = self.cues.replace_value(i, placeholder);
                c.commands = cmds;
                let ghost cv = c;
                self.cues.replace_value(i, c);
                proof {
                    assert(self.cues@ =~= before.update(i as int, (before[i as int].0, cv)));
                    lemma_update_map_entries(before, |q: Cue| q@, i as int, cv);
                    assert(cv@ == filled_cue(start[i as int].1)) by {
                        assert(cv@.commands == parse_lines(start[i as int].1.raw_commands, fresh_state()));
                    }
                }
                modified = true;
            }
            proof {
                if !needs {
                    assert(filled_cue(start[i as int].1) == start[i as int].1);
                }
                if needs {
                    assert(needs_commands(start[i as int].1));
                }
            }
            i = i + 1;
        }
        assert(self@ =~= start.map_values(|p: (Seq<char>, SpecCue)| (p.0, filled_cue(p.1))));
        modified
    }
}


/// An effect saved under a name: the console action it was written as, and the effect it
/// reads as.
#[derive(Debug, Clone, PartialEq, Eq)]
pub struct SavedEffect {
    pub name: String,
    pub raw: String,
    pub params: Option<Effect>,
}

pub struct SpecSavedEffect {
    pub name: Seq<char>,
    pub raw: Seq<char>,
    pub params: Option<SpecEffect>,
}

pub open spec fn opt_effect_view(e: Option<Effect>) -> Option<SpecEffect> {
    match e {
        Some(x) => Some(x@),
        None => None,
    }
}

impl View for SavedEffect {
    type V = SpecSavedEffect;

    open spec fn view(&self) -> SpecSavedEffect {
        SpecSavedEffect { name: self.name@, raw: self.raw@, params: opt_effect_view(self.params) }
    }
}

/// The effect of the last effect command among `cmds`.
pub open spec fn last_effect(cmds: Seq<SpecCommand>) -> Option<SpecEffect>
    decreases cmds.len(),
{
    if cmds.len() == 0 {
        None
    } else {
        match cmds.last() {
            SpecCommand::StartEffect { effect, .. } => Some(effect),
            _ => last_effect(cmds.drop_last()),
        }
    }
}

/// The console command that reads an effect action: the action given to channel 1.
pub open spec fn effect_line(raw: Seq<char>) -> Seq<char> {
    seq!['1', '@'] + raw
}

/// The effect an action reads as, when it reads as one.
pub open spec fn effect_of_action(raw: Seq<char>) -> Option<SpecEffect> {
    let line = effect_line(raw);
    if command_zero_step(line) {
        None
    } else {
        match parse_command_spec(line, fresh_state()).0 {
            Some(cmds) => last_effect(cmds),
            None => None,
        }
    }
}

/// A saved effect stored as its action only.
pub open spec fn needs_params(e: SpecSavedEffect) -> bool {
    e.params is None && e.raw.len() > 0
}

/// The saved effect with its action read when it needs it.
pub open spec fn filled_effect(e: SpecSavedEffect) -> SpecSavedEffect {
    if needs_params(e) {
        SpecSavedEffect { params: effect_of_action(e.raw), ..e }
    } else {
        e
    }
}

/// The saved effects after registering the read effects of `effects` in order.
pub open spec fn register_all(
    saved: Seq<(Seq<char>, SpecEffect)>,
    effects: Seq<(Seq<char>, SpecSavedEffect)>,
) -> Seq<(Seq<char>, SpecEffect)>
    decreases effects.len(),
{
    if effects.len() == 0 {
        saved
    } else {
        let last = effects.last();
        let before = register_all(saved, effects.drop_last());
        match last.1.params {
            Some(e) => saved_insert(before, last.0, e),
            None => before,
        }
    }
}

/// Saved effects by id.
pub struct EffectStore {
    pub effects: NameMap<SavedEffect>,
}

impl View for EffectStore {
    type V = Seq<(Seq<char>, SpecSavedEffect)>;

    open spec fn view(&self) -> Seq<(Seq<char>, SpecSavedEffect)> {
        map_entries(self.effects@, |e: SavedEffect| e@)
    }
}

/// Reads an effect action (see `effect_of_action`).
fn read_effect_action(raw: &String) -> (r: Option<Effect>)
    ensures
        opt_effect_view(r) == effect_of_action(raw@),
{
    let mut line: Vec<char> = Vec::new();
    line.push('1');
    line.push('@');
    let mut rest = chars_of(raw.as_str());
    line.append(&mut rest);
    assert(line@ =~= effect_line(raw@));
    if command_has_zero_step_chars(&line) {
        return None;
    }
    let mut state = ParserState::new();
    assert(state@ == fresh_state()) by {
        assert(state@.pending_commands =~= Seq::<SpecCommand>::empty());
        assert(state@.saved_effects =~= fresh_state().saved_effects);
    }
    match parse_command_chars(&line, &mut state) {
        Some(cmds) => {
            let mut found: Option<Effect> = None;
            let mut i: usize = 0;
            while i < cmds.len()
                invariant
                    i <= cmds.len(),
                    opt_effect_view(found) == last_effect(commands_view(cmds@).take(i as int)),
                decreases cmds.len() - i,
            {
                let ghost t = commands_view(cmds@).take(i + 1);
                assert(t.drop_last() =~= commands_view(cmds@).take(i as int));
                assert(t.last() == cmds@[i as int]@);
                if let Command::StartEffect { effect, .. } = &cmds[i] {
                    found = Some(effect.copy());
                }
                i = i + 1;
            }
            assert(commands_view(cmds@).take(i as int) =~= commands_view(cmds@));
            found
        },
        None => None,
    }
}

impl EffectStore {
    /// What loading makes of the saved effects a file held (`None` where it could not be read
    /// or parsed): no effects, nothing to write back, and `state` as it was; else those
    /// effects with the action of every effect that had none read (see `filled_effect`), to
    /// be written back exactly when there was such an effect, and every read effect saved in
    /// `state` under its id (see `register_all`).
    pub fn loaded(parsed: Option<EffectStore>, state: &mut ParserState) -> (r: (EffectStore, bool))
        ensures
            final(state)@.last_target == old(state)@.last_target,
            final(state)@.pending_commands == old(state)@.pending_commands,
            match parsed {
                None => r.0@.len() == 0 && !r.1 && final(state)@ == old(state)@,
                Some(e) => {
                    &&& r.0@ == e@.map_values(|p: (Seq<char>, SpecSavedEffect)| (p.0, filled_effect(p.1)))
                    &&& r.1 == exists|i: int| 0 <= i < e@.len() && needs_params(#[trigger] e@[i].1)
                    &&& final(state)@.saved_effects == register_all(old(state)@.saved_effects, r.0@)
                },
            },
    {
        match parsed {
            None => {
                let r = EffectStore { effects: NameMap::new() };
                assert(r@ =~= Seq::<(Seq<char>, SpecSavedEffect)>::empty());
                (r, false)
            },
            Some(mut e) => {
                let modified = e.fill_params();
                e.register(state);
                (e, modified)
            },
        }
    }

    /// Reads the action of every saved effect that has no effect yet (see `filled_effect`);
    /// returns whether there was such an effect.
    pub fn fill_params(&mut self) -> (modified: bool)
        ensures
            final(self)@ == old(self)@.map_values(|p: (Seq<char>, SpecSavedEffect)| (p.0, filled_effect(p.1))),
            modified == exists|i: int| 0 <= i < old(self)@.len() && needs_params(#[trigger] old(self)@[i].1),
    {
        let ghost start = self@;
        let mut modified = false;
        let mut i: usize = 0;
        while i < self.effects.len()
            invariant
                i <= self.effects@.len(),
                self.effects@.len() == start.len(),
                self@.len() == start.len(),
                forall|k: int| 0 <= k < i ==> #[trigger] self@[k] == (start[k].0, filled_effect(start[k].1)),
                forall|k: int| i <= k < start.len() ==> #[trigger] self@[k] == start[k],
                modified == exists|k: int| 0 <= k < i && needs_params(#[trigger] start[k].1),
            decreases start.len() - i,
        {
            assert(self@[i as int] == (self.effects@[i as int].0, self.effects@[i as int].1@));
            let (_, fx) = self.effects.entry(i);
            if fx.params.is_none() && chars_of(fx.raw.as_str()).len() > 0 {
                let params = read_effect_action(&fx.raw);
                let placeholder = SavedEffect { name: String::new(), raw: String::new(), params: None };
                let ghost before = self.effects@;
                let mut e = self.effects.replace_value(i, placeholder);
                e.params = params;
                let ghost ev = e;
                self.effects.replace_value(i, e);
                proof {
                    assert(self.effects@ =~= before.update(i as int, (before[i as int].0, ev)));
                    lemma_update_map_entries(before, |q: SavedEffect| q@, i as int, ev);
                    assert(ev@ == filled_effect(start[i as int].1));
                    assert(needs_params(start[i as int].1));
                }
                modified = true;
            } else {
                proof {
                    assert(!needs_params(start[i as int].1));
                    assert(filled_effect(start[i as int].1) == start[i as int].1);
                }
            }
            i = i + 1;
        }
        assert(self@ =~= start.map_values(|p: (Seq<char>, SpecSavedEffect)| (p.0, filled_effect(p.1))));
        modified
    }

    /// Saves every read effect in `state` under its id, in order (see `register_all`).
    pub fn register(&self, state: &mut ParserState)
        ensures
            final(state)@.saved_effects == register_all(old(state)@.saved_effects, self@),
            final(state)@.last_target == old(state)@.last_target,
            final(state)@.pending_commands == old(state)@.pending_commands,
    {
        let mut i: usize = 0;
        while i < self.effects.len()
            invariant
                i <= self.effects@.len(),
                self@.len() == self.effects@.len(),
                state@.saved_effects == register_all(old(state)@.saved_effects, self@.take(i as int)),
                state@.last_target == old(state)@.last_target,
                state@.pending_commands == old(state)@.pending_commands,
            decreases self.effects@.len() - i,
        {
            let (id, fx) = self.effects.entry(i);
            let ghost t = self@.take(i + 1);
            assert(t.drop_last() =~= self@.take(i as int));
            assert(t.last() == (id@, fx@));
            if let Some(e) = &fx.params {
                state.save_effect(id.clone(), e.copy());
            }
            i = i + 1;
        }
        assert(self@.take(i as int) =~= self@);
    }
}

} // verus!

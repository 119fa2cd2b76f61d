//! Running cue lists, and playback faders.
//!
//! A running cue list holds one step at a time; when the step's hold time has passed the list
//! moves to the next step, back to the first after the last. Starting a step sends its cue.
use vstd::prelude::*;
use crate::named::{NameMap, lookup, insert_entry, remove_entry, map_entries, lemma_key_index_map_entries, lemma_insert_map_entries};
use crate::command::{Cue, SpecCue, Duration, SpecDuration, Number, SpecNumber};
use crate::stores::{CueList, CueListStore, CueListStepConfig, CueStore};
use crate::param::{FloatParam, Params, BITS_255, bits_as_u8, bits_to_u8};
use crate::text::{chars_of, eq_chars};

verus! {

/// A cue list that is running.
pub struct ActiveCueList {
    pub list_name: String,
    pub step_index: usize,
    /// When the step started, in microseconds since the Unix epoch.
    pub start_time: u64,
    /// The beat (binary32 bits) at which the step started.
    pub start_beat: u32,
    pub hold_duration: Option<Duration>,
}

pub struct SpecActiveCueList {
    pub list_name: Seq<char>,
    pub step_index: usize,
    pub start_time: u64,
    pub start_beat: u32,
    pub hold_duration: Option<SpecDuration>,
}

pub open spec fn opt_duration_view(d: Option<Duration>) -> Option<SpecDuration> {
    match d {
        Some(x) => Some(x@),
        None => None,
    }
}

impl View for ActiveCueList {
    type V = SpecActiveCueList;

    open spec fn view(&self) -> SpecActiveCueList {
        SpecActiveCueList {
            list_name: self.list_name@,
            step_index: self.step_index,
            start_time: self.start_time,
            start_beat: self.start_beat,
            hold_duration: opt_duration_view(self.hold_duration),
        }
    }
}

/// One beat.
pub open spec fn one_beat() -> SpecDuration {
    SpecDuration::Tempo(SpecNumber { literal: "1.0"@, divisor: None, percent: false })
}

/// The cue a step sends.
pub open spec fn step_cue(c: CueListStepConfig) -> Seq<char> {
    match c {
        CueListStepConfig::Simple(id) => id@,
        CueListStepConfig::Detailed(d) => d.cue@,
    }
}

/// How long a step holds: a step given by its cue alone holds one beat.
pub open spec fn step_hold(c: CueListStepConfig) -> Option<SpecDuration> {
    match c {
        CueListStepConfig::Simple(_) => Some(one_beat()),
        CueListStepConfig::Detailed(d) => opt_duration_view(d.hold),
    }
}

/// The running state of list `name` when its step `idx` starts.
pub open spec fn started_step(list: CueList, name: Seq<char>, idx: int, beat: u32, now: u64) -> SpecActiveCueList {
    SpecActiveCueList {
        list_name: name,
        step_index: idx as usize,
        start_time: now,
        start_beat: beat,
        hold_duration: step_hold(list.cues@[idx]),
    }
}

/// The cue that step `idx` of `list` sends, when the cue store has it.
pub open spec fn step_sends(list: CueList, idx: int, cues: Seq<(Seq<char>, SpecCue)>) -> Option<SpecCue> {
    lookup(cues, step_cue(list.cues@[idx]))
}

pub open spec fn opt_cue_view(c: Option<Cue>) -> Option<SpecCue> {
    match c {
        Some(x) => Some(x@),
        None => None,
    }
}

/// The step a list moves on to from `next`: the first step when `next` is past the end.
pub open spec fn wrapped(next: int, len: int) -> int {
    if next >= len {
        0
    } else {
        next
    }
}

/// The lists that move on: for each running list whose hold has passed (`done`), its name and
/// the step after its current one; in the order the lists run.
pub open spec fn advancing(active: Seq<(Seq<char>, SpecActiveCueList)>, done: Seq<bool>) -> Seq<(Seq<char>, int)>
    decreases active.len(),
{
    if active.len() == 0 {
        Seq::empty()
    } else {
        let prev = advancing(active.drop_last(), done);
        let (name, a) = active.last();
        if done[active.len() - 1] && a.hold_duration is Some {
            prev.push((name, a.step_index + 1))
        } else {
            prev
        }
    }
}

/// The running lists after moving lists on in order; a list no longer stored stays as it is.
pub open spec fn advanced(
    active: Seq<(Seq<char>, SpecActiveCueList)>,
    moves: Seq<(Seq<char>, int)>,
    lists: Seq<(Seq<char>, CueList)>,
    beat: u32,
    now: u64,
) -> Seq<(Seq<char>, SpecActiveCueList)>
    decreases moves.len(),
{
    if moves.len() == 0 {
        active
    } else {
        let prev = advanced(active, moves.drop_last(), lists, beat, now);
        let (name, next) = moves.last();
        match lookup(lists, name) {
            Some(list) => insert_entry(prev, name, started_step(list, name, wrapped(next, list.cues.len() as int), beat, now)),
            None => prev,
        }
    }
}

/// The cues sent while moving lists on in order.
pub open spec fn advance_sends(
    moves: Seq<(Seq<char>, int)>,
    lists: Seq<(Seq<char>, CueList)>,
    cues: Seq<(Seq<char>, SpecCue)>,
) -> Seq<SpecCue>
    decreases moves.len(),
{
    if moves.len() == 0 {
        Seq::empty()
    } else {
        let prev = advance_sends(moves.drop_last(), lists, cues);
        let (name, next) = moves.last();
        match lookup(lists, name) {
            Some(list) => match step_sends(list, wrapped(next, list.cues.len() as int), cues) {
                Some(c) => prev.push(c),
                None => prev,
            },
            None => prev,
        }
    }
}

/// Every list that moves on and is still stored has a step to move to.
pub open spec fn moves_possible(moves: Seq<(Seq<char>, int)>, lists: Seq<(Seq<char>, CueList)>) -> bool {
    forall|k: int|
        0 <= k < moves.len() && (#[trigger] lookup(lists, moves[k].0)) is Some
            ==> lookup(lists, moves[k].0).unwrap().cues.len() > 0
}

/// The running cue lists, by name.
pub struct PlaybackManager {
    active_lists: NameMap<ActiveCueList>,
}

impl View for PlaybackManager {
    type V = Seq<(Seq<char>, SpecActiveCueList)>;

    closed spec fn view(&self) -> Seq<(Seq<char>, SpecActiveCueList)> {
        map_entries(self.active_lists@, |a: ActiveCueList| a@)
    }
}

impl PlaybackManager {
    /// Each list runs once, and steps of running lists are below `usize::MAX`, so the step
    /// after one is a `usize`.
    pub open spec fn wf(&self) -> bool {
        &&& crate::named::distinct_keys(self@)
        &&& forall|k: int| 0 <= k < self@.len() ==> (#[trigger] self@[k]).1.step_index < usize::MAX
    }

    /// No list running.
    pub fn new() -> (r: PlaybackManager)
        ensures
            r@.len() == 0,
            r.wf(),
    {
        let r = PlaybackManager { active_lists: NameMap::new() };
        assert(r@ =~= Seq::<(Seq<char>, SpecActiveCueList)>::empty());
        r
    }

    /// Starts step `idx` of list `name`: the list runs from that step, now; returns the cue
    /// the step sends.
    fn trigger_step(&mut self, name: &str, idx: usize, beat: u32, now: u64, lists: &CueListStore, cues: &CueStore) -> (r: Option<Cue>)
        requires
            lookup(lists.lists@, name@) is Some,
            idx < lookup(lists.lists@, name@).unwrap().cues.len(),
            old(self).wf(),
        ensures
            final(self)@ == insert_entry(old(self)@, name@, started_step(lookup(lists.lists@, name@).unwrap(), name@, idx as int, beat, now)),
            opt_cue_view(r) == step_sends(lookup(lists.lists@, name@).unwrap(), idx as int, cues@),
            final(self).wf(),
    {
        let list = lists.lists.get(name).unwrap();
        let step = &list.cues[idx];
        let (cue_id, hold) = match step {
            CueListStepConfig::Simple(c) => {
                let one = Number { literal: "1.0".to_owned(), divisor: None, percent: false };
                proof {
                    reveal_strlit("1.0");
                }
                (c.clone(), Some(Duration::Tempo(one)))
            },
            CueListStepConfig::Detailed(d) => (
                d.cue.clone(),
                match &d.hold {
                    Some(h) => Some(h.copy()),
                    None => None,
                },
            ),
        };
        proof {
            lemma_key_index_map_entries(cues.cues@, |c: Cue| c@, cue_id@);
        }
        let sent = match cues.cues.get(cue_id.as_str()) {
            Some(c) => Some(c.copy()),
            None => None,
        };
        let entry = ActiveCueList { list_name: name.to_owned(), step_index: idx, start_time: now, start_beat: beat, hold_duration: hold };
        let ghost ev = entry;
        let ghost before = self.active_lists@;
        self.active_lists.insert(name.to_owned(), entry);
        proof {
            lemma_insert_map_entries(before, |a: ActiveCueList| a@, name@, ev);
            assert(ev@ == started_step(lookup(lists.lists@, name@).unwrap(), name@, idx as int, beat, now));
            crate::named::law_lookup_after_insert(old(self)@, name@, ev@, name@);
            crate::named::lemma_key_index(old(self)@, name@);
            assert forall|k: int| 0 <= k < self@.len() implies (#[trigger] self@[k]).1.step_index < usize::MAX by {
                if k < old(self)@.len() && self@[k] != old(self)@[k] {
                    assert(self@[k].1 == ev@);
                }
            }
        }
        sent
    }

    /// Starts list `name` at its first step, when the list is stored and has steps; returns
    /// the cue the step sends.
    pub fn start_list(&mut self, name: &str, beat: u32, now: u64, lists: &CueListStore, cues: &CueStore) -> (r: Option<Cue>)
        requires
            old(self).wf(),
        ensures
            final(self).wf(),
            match lookup(lists.lists@, name@) {
                Some(list) if list.cues.len() > 0 => {
                    &&& final(self)@ == insert_entry(old(self)@, name@, started_step(list, name@, 0, beat, now))
                    &&& opt_cue_view(r) == step_sends(list, 0, cues@)
                },
                _ => final(self)@ == old(self)@ && r is None,
            },
    {
        let has_cues = match lists.lists.get(name) {
            Some(l) => l.cues.len() > 0,
            None => false,
        };
        if has_cues {
            self.trigger_step(name, 0, beat, now, lists, cues)
        } else {
            None
        }
    }

    /// Stops list `name`; `all` stops every list.
    pub fn stop_list(&mut self, name: &str)
        requires
            old(self).wf(),
        ensures
            final(self).wf(),
            final(self)@ == if name@ == "all"@ {
                Seq::empty()
            } else {
                remove_entry(old(self)@, name@)
            },
    {
        proof {
            reveal_strlit("all");
        }
        if eq_chars(&chars_of(name), &chars_of("all")) {
            self.active_lists.clear();
            assert(self@ =~= Seq::<(Seq<char>, SpecActiveCueList)>::empty());
        } else {
            let ghost before = self.active_lists@;
            self.active_lists.remove(name);
            proof {
                lemma_key_index_map_entries(before, |a: ActiveCueList| a@, name@);
                crate::named::lemma_key_index(before, name@);
                let i = crate::named::key_index(before, name@);
                if i < before.len() {
                    assert(self@ =~= old(self)@.remove(i));
                } else {
                    assert(self@ =~= old(self)@);
                }
                crate::named::law_lookup_after_remove(old(self)@, name@);
            }
        }
    }

    /// Moves on every running list whose hold has passed (`done[k]` for the `k`-th running
    /// list, see `advancing`, `advanced`); returns the cues sent, in order.
    pub fn tick(&mut self, done: &Vec<bool>, beat: u32, now: u64, lists: &CueListStore, cues: &CueStore) -> (r: Vec<Cue>)
        requires
            old(self).wf(),
            done@.len() == old(self)@.len(),
            moves_possible(advancing(old(self)@, done@), lists.lists@),
        ensures
            final(self).wf(),
            final(self)@ == advanced(old(self)@, advancing(old(self)@, done@), lists.lists@, beat, now),
            r@.map_values(|c: Cue| c@) == advance_sends(advancing(old(self)@, done@), lists.lists@, cues@),
    {
        let ghost start = self@;
        let mut names: Vec<String> = Vec::new();
        let mut nexts: Vec<usize> = Vec::new();
        let mut k: usize = 0;
        while k < self.active_lists.len()
            invariant
                k <= self@.len(),
                self@ == start,
                start.len() == done@.len(),
                self.wf(),
                names.len() == nexts.len(),
                moves_of(names@, nexts@) == advancing(start.take(k as int), done@),
            decreases start.len() - k,
        {
            let (name, a) = self.active_lists.entry(k);
            assert(self@[k as int] == (name@, a@));
            let ghost t = start.take(k + 1);
            assert(t.drop_last() =~= start.take(k as int));
            if done[k] && a.hold_duration.is_some() {
                let ghost before = moves_of(names@, nexts@);
                names.push(name.clone());
                nexts.push(a.step_index + 1);
                assert(moves_of(names@, nexts@) =~= before.push((name@, a.step_index + 1)));
            }
            k = k + 1;
        }
        assert(start.take(k as int) =~= start);
        let ghost moves = moves_of(names@, nexts@);
        let mut out: Vec<Cue> = Vec::new();
        let mut j: usize = 0;
        while j < names.len()
            invariant
                j <= names.len(),
                names.len() == nexts.len(),
                moves == moves_of(names@, nexts@),
                moves_possible(moves, lists.lists@),
                self.wf(),
                self@ == advanced(start, moves.take(j as int), lists.lists@, beat, now),
                out@.map_values(|c: Cue| c@) == advance_sends(moves.take(j as int), lists.lists@, cues@),
            decreases names.len() - j,
        {
            let ghost t = moves.take(j + 1);
            assert(t.drop_last() =~= moves.take(j as int));
            assert(t.last() == moves[j as int]);
            assert(moves[j as int] == (names@[j as int]@, nexts@[j as int] as int));
            let name = &names[j];
            let next = nexts[j];
            let len_opt = match lists.lists.get(name.as_str()) {
                Some(l) => Some(l.cues.len()),
                None => None,
            };
            if let Some(len) = len_opt {
                assert(lookup(lists.lists@, moves[j as int].0) is Some);
                let actual = if next >= len {
                    0
                } else {
                    next
                };
                let sent = self.trigger_step(name.as_str(), actual, beat, now, lists, cues);
                if let Some(c) = sent {
                    let ghost before = out@;
                    out.push(c);
                    assert(out@.map_values(|c: Cue| c@) =~= before.map_values(|c: Cue| c@).push(c@));
                }
            }
            j = j + 1;
        }
        assert(moves.take(j as int) =~= moves);
        out
    }

    /// The `k`-th running list, with its name.
    pub fn active_list(&self, k: usize) -> (r: (&String, &ActiveCueList))
        requires
            k < self@.len(),
        ensures
            r.0@ == self@[k as int].0,
            r.1@ == self@[k as int].1,
    {
        let r = self.active_lists.entry(k);
        assert(self@[k as int] == (r.0@, r.1@));
        r
    }

    /// The number of running lists.
    pub fn len(&self) -> (r: usize)
        ensures
            r == self@.len(),
    {
        self.active_lists.len()
    }
}

/// Moving on the running lists of `active.take(j)` leaves the list `name` (at position `i`)
/// as it was until its turn, and then at the step after its current one, wrapped.
proof fn lemma_advanced_prefix(
    active: Seq<(Seq<char>, SpecActiveCueList)>,
    done: Seq<bool>,
    lists: Seq<(Seq<char>, CueList)>,
    beat: u32,
    now: u64,
    name: Seq<char>,
    i: int,
    j: int,
)
    requires
        crate::named::distinct_keys(active),
        done.len() == active.len(),
        0 <= i < active.len(),
        active[i].0 == name,
        0 <= j <= active.len(),
    ensures
        lookup(advanced(active, advancing(active.take(j), done), lists, beat, now), name) == if j > i
            && done[i] && active[i].1.hold_duration is Some && lookup(lists, name) is Some {
            Some(
                started_step(
                    lookup(lists, name).unwrap(),
                    name,
                    wrapped(active[i].1.step_index + 1, lookup(lists, name).unwrap().cues.len() as int),
                    beat,
                    now,
                ),
            )
        } else {
            lookup(active, name)
        },
    decreases j,
{
    if j == 0 {
        assert(active.take(0) =~= Seq::<(Seq<char>, SpecActiveCueList)>::empty());
    } else {
        lemma_advanced_prefix(active, done, lists, beat, now, name, i, j - 1);
        let t = active.take(j);
        assert(t.drop_last() =~= active.take(j - 1));
        assert(t.last() == active[j - 1]);
        let prev = advancing(active.take(j - 1), done);
        let (nm, a) = active[j - 1];
        if done[j - 1] && a.hold_duration is Some {
            let moves = prev.push((nm, a.step_index + 1));
            assert(advancing(t, done) == moves);
            assert(moves.drop_last() =~= prev);
            let before = advanced(active, prev, lists, beat, now);
            if nm == name {
                assert(j - 1 == i);
            }
            if let Some(l) = lookup(lists, nm) {
                crate::named::law_lookup_after_insert(
                    before,
                    nm,
                    started_step(l, nm, wrapped(a.step_index + 1, l.cues.len() as int), beat, now),
                    name,
                );
            }
        } else {
            assert(advancing(t, done) == prev);
        }
    }
}

/// A running list whose hold has passed moves on at a tick: to the step after its current
/// one, and from its last step back to its first (step 0), started at the tick's beat and
/// time. When it is the only list running, the tick sends the cue of step 0 after the last
/// step (where the cue store has it).
pub proof fn law_cue_list_moves_on_and_loops(
    active: Seq<(Seq<char>, SpecActiveCueList)>,
    done: Seq<bool>,
    lists: Seq<(Seq<char>, CueList)>,
    cues: Seq<(Seq<char>, SpecCue)>,
    beat: u32,
    now: u64,
    name: Seq<char>,
    a: SpecActiveCueList,
    list: CueList,
)
    requires
        crate::named::distinct_keys(active),
        done.len() == active.len(),
        lookup(active, name) == Some(a),
        a.hold_duration is Some,
        done[crate::named::key_index(active, name)],
        lookup(lists, name) == Some(list),
        a.step_index < list.cues.len(),
    ensures
        a.step_index + 1 == list.cues.len() ==> lookup(advanced(active, advancing(active, done), lists, beat, now), name)
            == Some(started_step(list, name, 0, beat, now)),
        a.step_index + 1 < list.cues.len() ==> lookup(advanced(active, advancing(active, done), lists, beat, now), name)
            == Some(started_step(list, name, a.step_index + 1, beat, now)),
        active.len() == 1 && a.step_index + 1 == list.cues.len() ==> advance_sends(advancing(active, done), lists, cues)
            == match step_sends(list, 0, cues) {
                Some(c) => seq![c],
                None => Seq::<SpecCue>::empty(),
            },
{
    crate::named::lemma_key_index(active, name);
    let i = crate::named::key_index(active, name);
    assert(active[i] == (name, a));
    lemma_advanced_prefix(active, done, lists, beat, now, name, i, active.len() as int);
    assert(active.take(active.len() as int) =~= active);
    if active.len() == 1 {
        assert(i == 0);
        assert(active.drop_last() =~= Seq::<(Seq<char>, SpecActiveCueList)>::empty());
        let moves = advancing(active, done);
        assert(advancing(active.drop_last(), done).len() == 0);
        assert(active.last() == (name, a));
        assert(done[active.len() - 1]);
        assert(moves =~= seq![(name, a.step_index + 1)]);
        assert(moves.drop_last() =~= Seq::<(Seq<char>, int)>::empty());
        assert(advance_sends(moves.drop_last(), lists, cues).len() == 0);
        if a.step_index + 1 == list.cues.len() {
            assert(wrapped(a.step_index + 1, list.cues.len() as int) == 0);
            match step_sends(list, 0, cues) {
                Some(c) => {
                    assert(advance_sends(moves, lists, cues) =~= seq![c]);
                },
                None => {
                    assert(advance_sends(moves, lists, cues) =~= Seq::<SpecCue>::empty());
                },
            }
        }
    }
}

/// A list that is stopped no longer runs, and the others run as before.
pub proof fn law_stopped_list_not_running(s: Seq<(Seq<char>, SpecActiveCueList)>, name: Seq<char>, other: Seq<char>)
    requires
        crate::named::distinct_keys(s),
    ensures
        lookup(remove_entry(s, name), name) is None,
        other != name ==> lookup(remove_entry(s, other), name) == lookup(s, name),
{
    crate::named::law_lookup_after_remove(s, name);
    if other != name {
        crate::named::lemma_key_index(s, other);
        crate::named::lemma_key_index(s, name);
        let i = crate::named::key_index(s, other);
        let j = crate::named::key_index(s, name);
        let s2 = remove_entry(s, other);
        if i < s.len() {
            if j < i {
                assert forall|q: int| 0 <= q < j implies #[trigger] s2[q].0 != name by {
                    assert(s2[q] == s[q]);
                }
                assert(s2[j] == s[j]);
                crate::named::lemma_key_index_is(s2, name, j);
            } else {
                assert(j != i);
                assert forall|q: int| 0 <= q < j - 1 implies #[trigger] s2[q].0 != name by {
                    if q < i {
                        assert(s2[q] == s[q]);
                    } else {
                        assert(s2[q] == s[q + 1]);
                    }
                }
                if j < s.len() {
                    assert(s2[j - 1] == s[j]);
                }
                crate::named::lemma_key_index_is(s2, name, j - 1);
            }
        }
    }
}

/// The moves given by names and next steps.
pub open spec fn moves_of(names: Seq<String>, nexts: Seq<usize>) -> Seq<(Seq<char>, int)> {
    Seq::new(names.len(), |i: int| (names[i]@, nexts[i] as int))
}

/// What a playback fader is told to do; `At` carries a level (binary32 bits).
#[derive(Debug, Clone, Copy, PartialEq, Eq, Structural)]
pub enum PlayCommand {
    At(u32),
    FlashOn,
    FlashOff,
    Go,
    Stop,
    Pause,
    Next,
    Prev,
}

/// A playback fader: a level parameter, and what flashing saved.
pub struct Playback {
    name: String,
    min: u32,
    max: u32,
    last: u32,
    pub param: FloatParam,
    at_min: Option<PlayCommand>,
    above_min: Option<PlayCommand>,
    at_max: Option<PlayCommand>,
    below_max: Option<PlayCommand>,
    priority: usize,
}

/// The name, level bits (with the time of their last write) and saved level bits of a
/// playback, and its settings: its range (binary32 bits), what it does on reaching its
/// minimum, on rising above it, on reaching its maximum and on falling below it, and its
/// priority.
pub struct SpecPlayback {
    pub name: Seq<char>,
    pub level: u32,
    pub level_time: u64,
    pub last: u32,
    pub min: u32,
    pub max: u32,
    pub at_min: Option<PlayCommand>,
    pub above_min: Option<PlayCommand>,
    pub at_max: Option<PlayCommand>,
    pub below_max: Option<PlayCommand>,
    pub priority: usize,
}

/// Playbacks `a` and `b` have the same name and settings.
pub open spec fn same_settings(a: SpecPlayback, b: SpecPlayback) -> bool {
    &&& a.name == b.name
    &&& a.min == b.min
    &&& a.max == b.max
    &&& a.at_min == b.at_min
    &&& a.above_min == b.above_min
    &&& a.at_max == b.at_max
    &&& a.below_max == b.below_max
    &&& a.priority == b.priority
}

impl View for Playback {
    type V = SpecPlayback;

    closed spec fn view(&self) -> SpecPlayback {
        SpecPlayback {
            name: self.name@,
            level: self.param@.0,
            level_time: self.param@.1,
            last: self.last,
            min: self.min,
            max: self.max,
            at_min: self.at_min,
            above_min: self.above_min,
            at_max: self.at_max,
            below_max: self.below_max,
            priority: self.priority,
        }
    }
}

/// The level and saved level after a command: `At` sets the level, `FlashOn` saves the level
/// and goes to full, `FlashOff` goes back to the saved level; the others change nothing.
pub open spec fn after_play(level: u32, last: u32, cmd: PlayCommand) -> (u32, u32) {
    match cmd {
        PlayCommand::At(v) => (v, last),
        PlayCommand::FlashOn => (BITS_255, level),
        PlayCommand::FlashOff => (last, last),
        _ => (level, last),
    }
}

impl Playback {
    /// A playback called `name` at level 0 that goes on above its minimum and stops at it;
    /// its level parameter is added to `params` under its name.
    pub fn new(name: String, params: &mut Params) -> (r: Playback)
        ensures
            r@.name == name@,
            r@.level == 0,
            r@.last == 0,
            r@.min == 0,
            r@.max == BITS_255,
            r@.at_min == Some(PlayCommand::Stop),
            r@.above_min == Some(PlayCommand::Go),
            r@.at_max is None,
            r@.below_max is None,
            r@.priority == 0,
            final(params)@ == crate::named::insert_entry(old(params)@, name@, (r@.level, r@.level_time)),
    {
        let param = params.create_param(name.as_str());
        Playback {
            name,
            min: 0,
            max: BITS_255,
            last: 0,
            param,
            at_min: Some(PlayCommand::Stop),
            above_min: Some(PlayCommand::Go),
            at_max: None,
            below_max: None,
            priority: 0,
        }
    }

    /// Sets the level.
    pub fn set_level(&mut self, level: u32)
        ensures
            final(self)@.level == level,
            final(self)@.last == old(self)@.last,
            same_settings(final(self)@, old(self)@),
    {
        self.param.store(level);
    }

    /// The level.
    pub fn level(&self) -> (r: u32)
        ensures
            r == self@.level,
    {
        self.param.load()
    }

    /// The level as a DMX byte, for each of the three channels a playback drives.
    pub fn levels(&self) -> (r: Vec<(usize, u8)>)
        ensures
            r@ == seq![(0usize, bits_as_u8(self@.level)), (1usize, bits_as_u8(self@.level)), (2usize, bits_as_u8(self@.level))],
    {
        let mut vals: Vec<(usize, u8)> = Vec::new();
        let v = bits_to_u8(self.level());
        let mut i: usize = 0;
        while i < 3
            invariant
                i <= 3,
                v == bits_as_u8(self@.level),
                vals@ == Seq::new(i as nat, |k: int| (k as usize, v)),
            decreases 3 - i,
        {
            vals.push((i, v));
            i = i + 1;
            assert(vals@ =~= Seq::new(i as nat, |k: int| (k as usize, v)));
        }
        assert(vals@ =~= seq![(0usize, v), (1usize, v), (2usize, v)]);
        vals
    }

    /// Applies a command (see `after_play`).
    pub fn handle_cmd(&mut self, cmd: PlayCommand)
        ensures
            (final(self)@.level, final(self)@.last) == after_play(old(self)@.level, old(self)@.last, cmd),
            same_settings(final(self)@, old(self)@),
            !(cmd is At || cmd is FlashOn || cmd is FlashOff) ==> final(self)@.level_time == old(self)@.level_time,
    {
        match cmd {
            PlayCommand::At(level) => {
                self.param.store(level);
            },
            PlayCommand::FlashOn => {
                self.last = self.param.load();
                self.param.store(BITS_255);
            },
            PlayCommand::FlashOff => {
                let l = self.last;
                self.param.store(l);
            },
            _ => {},
        }
    }
}

/// Flashing a playback and releasing the flash brings back the level it had before, and
/// while it flashes it is at full.
pub proof fn law_flash_restores_level(level: u32, last: u32)
    ensures
        after_play(level, last, PlayCommand::FlashOn).0 == BITS_255,
        ({
            let (l1, s1) = after_play(level, last, PlayCommand::FlashOn);
            after_play(l1, s1, PlayCommand::FlashOff).0 == level
        }),
{
}

} // verus!

//! The engine: patched fixtures, the raw DMX channels, and what a command does to them.
use vstd::prelude::*;
use std::sync::Arc;
use crate::named::{NameMap, lookup, key_index, lemma_key_index, distinct_keys};
use crate::fixture::{Fixture, param_bits, after_command, command_writes, initial_params, mode_channels, channel_output, DimmedChannel};
use crate::stores::{Group, GroupStore, CueStore, CueListStore, LayoutStore};
use crate::target::{Target, SpecTarget, strings_view};
use crate::text::{chars_of, eq_chars, eq_ignore_case_chars, eq_ignore_ascii_case};
use crate::command::{Command, SpecCommand, Cue, SpecCue, Value, SpecValue};
use crate::effects::{Effect, SpecEffect};
use crate::param::{FloatParam, Params, BITS_255, bits_as_u8, bits_to_u8};
use crate::playback::{PlaybackManager, opt_cue_view};
use crate::profile::{OflProfile, PatchStore, PatchEntry};
use crate::settings::Settings;

verus! {

/// A parameter a command or an effect acts on: a raw DMX channel (by index, 0 to 511) or a
/// named parameter of a fixture.
#[derive(Debug, Clone, PartialEq, Eq)]
pub enum ParamRef {
    Raw(usize),
    Fixture(String, String),
}

pub enum SpecParamRef {
    Raw(usize),
    Fixture(Seq<char>, Seq<char>),
}

impl View for ParamRef {
    type V = SpecParamRef;

    open spec fn view(&self) -> SpecParamRef {
        match self {
            ParamRef::Raw(i) => SpecParamRef::Raw(*i),
            ParamRef::Fixture(f, p) => SpecParamRef::Fixture(f@, p@),
        }
    }
}

impl ParamRef {
    /// Whether both name the same parameter.
    pub fn same(&self, other: &ParamRef) -> (r: bool)
        ensures
            r == (self@ == other@),
    {
        match (self, other) {
            (ParamRef::Raw(a), ParamRef::Raw(b)) => *a == *b,
            (ParamRef::Fixture(f1, p1), ParamRef::Fixture(f2, p2)) => {
                eq_chars(&chars_of(f1.as_str()), &chars_of(f2.as_str())) && eq_chars(
                    &chars_of(p1.as_str()),
                    &chars_of(p2.as_str()),
                )
            },
            _ => false,
        }
    }

    /// A copy of this reference.
    pub fn copy(&self) -> (r: ParamRef)
        ensures
            r@ == self@,
    {
        match self {
            ParamRef::Raw(i) => ParamRef::Raw(*i),
            ParamRef::Fixture(f, p) => ParamRef::Fixture(f.clone(), p.clone()),
        }
    }
}

pub open spec fn param_refs_view(v: Seq<ParamRef>) -> Seq<SpecParamRef> {
    v.map_values(|p: ParamRef| p@)
}

/// What a target resolves to: the parameters it names (in order, as effects see them), the
/// fixtures it names (by id) and the raw channels it names (by index).
#[verifier::ext_equal]
pub struct SpecResolved {
    pub params: Seq<SpecParamRef>,
    pub fixtures: Seq<Seq<char>>,
    pub raw: Seq<usize>,
}

pub open spec fn no_resolved() -> SpecResolved {
    SpecResolved { params: Seq::empty(), fixtures: Seq::empty(), raw: Seq::empty() }
}

pub open spec fn join_resolved(a: SpecResolved, b: SpecResolved) -> SpecResolved {
    SpecResolved { params: a.params + b.params, fixtures: a.fixtures + b.fixtures, raw: a.raw + b.raw }
}

/// DMX channels 1 to 512 name the raw channels 0 to 511; other numbers name nothing.
pub open spec fn channels_resolved(chs: Seq<u16>) -> SpecResolved
    decreases chs.len(),
{
    if chs.len() == 0 {
        no_resolved()
    } else {
        let ch = chs.last();
        let rest = channels_resolved(chs.drop_last());
        if 0 < ch <= 512 {
            let i = (ch - 1) as usize;
            join_resolved(
                rest,
                SpecResolved { params: seq![SpecParamRef::Raw(i)], fixtures: Seq::empty(), raw: seq![i] },
            )
        } else {
            rest
        }
    }
}

/// A fixture id names the fixture when it is patched, and its `Dimmer` parameter when it has
/// one.
pub open spec fn fixture_resolved(id: Seq<char>, fixtures: Seq<(Seq<char>, Fixture)>) -> SpecResolved {
    match lookup(fixtures, id) {
        Some(f) => SpecResolved {
            params: if lookup(f.parameters@, "Dimmer"@) is Some {
                seq![SpecParamRef::Fixture(id, "Dimmer"@)]
            } else {
                Seq::empty()
            },
            fixtures: seq![id],
            raw: Seq::empty(),
        },
        None => no_resolved(),
    }
}

pub open spec fn fixtures_resolved(ids: Seq<Seq<char>>, fixtures: Seq<(Seq<char>, Fixture)>) -> SpecResolved
    decreases ids.len(),
{
    if ids.len() == 0 {
        no_resolved()
    } else {
        join_resolved(fixtures_resolved(ids.drop_last(), fixtures), fixture_resolved(ids.last(), fixtures))
    }
}

/// Whether group entry `g` is called `name`, by id or by name, ignoring ASCII case.
pub open spec fn group_matches(g: (Seq<char>, Group), name: Seq<char>) -> bool {
    eq_ignore_ascii_case(g.0, name) || eq_ignore_ascii_case(g.1.name@, name)
}

/// Position of the first group called `name`, or the number of groups.
pub open spec fn group_index(groups: Seq<(Seq<char>, Group)>, name: Seq<char>) -> int
    decreases groups.len(),
{
    if groups.len() == 0 {
        0
    } else if group_matches(groups[0], name) {
        0
    } else {
        1 + group_index(groups.drop_first(), name)
    }
}

/// The fixtures of the first group called `name`; none when there is no such group.
pub open spec fn group_heads(groups: Seq<(Seq<char>, Group)>, name: Seq<char>) -> Seq<Seq<char>> {
    let i = group_index(groups, name);
    if 0 <= i < groups.len() {
        crate::target::strings_view(groups[i].1.heads@)
    } else {
        Seq::empty()
    }
}

pub open spec fn groups_resolved(
    names: Seq<Seq<char>>,
    fixtures: Seq<(Seq<char>, Fixture)>,
    groups: Seq<(Seq<char>, Group)>,
) -> SpecResolved
    decreases names.len(),
{
    if names.len() == 0 {
        no_resolved()
    } else {
        join_resolved(
            groups_resolved(names.drop_last(), fixtures, groups),
            fixtures_resolved(group_heads(groups, names.last()), fixtures),
        )
    }
}

/// What a target resolves to; a list of parameter names resolves to nothing.
pub open spec fn resolve(
    t: SpecTarget,
    fixtures: Seq<(Seq<char>, Fixture)>,
    groups: Seq<(Seq<char>, Group)>,
) -> SpecResolved
    decreases t,
{
    match t {
        SpecTarget::Channels(chs) => channels_resolved(chs),
        SpecTarget::Fixtures(ids) => fixtures_resolved(ids, fixtures),
        SpecTarget::Groups(names) => groups_resolved(names, fixtures, groups),
        SpecTarget::Parameters(_) => no_resolved(),
        SpecTarget::Mixed(ts) => resolve_all(ts, fixtures, groups),
    }
}

pub open spec fn resolve_all(
    ts: Seq<SpecTarget>,
    fixtures: Seq<(Seq<char>, Fixture)>,
    groups: Seq<(Seq<char>, Group)>,
) -> SpecResolved
    decreases ts,
{
    if ts.len() == 0 {
        no_resolved()
    } else {
        proof {
            assert(decreases_to!(ts => ts[ts.len() - 1]));
            assert(decreases_to!(ts => ts.subrange(0, ts.len() - 1)));
        }
        join_resolved(resolve_all(ts.subrange(0, ts.len() - 1), fixtures, groups), resolve(ts[ts.len() - 1], fixtures, groups))
    }
}

pub proof fn lemma_join_assoc(a: SpecResolved, b: SpecResolved, c: SpecResolved)
    ensures
        join_resolved(join_resolved(a, b), c) == join_resolved(a, join_resolved(b, c)),
        join_resolved(a, no_resolved()) == a,
{
    assert(join_resolved(join_resolved(a, b), c) =~= join_resolved(a, join_resolved(b, c)));
    assert(join_resolved(a, no_resolved()) =~= a);
}

/// Parameters, fixtures and raw channels named by targets, in the order they were named.
pub struct Resolved {
    pub params: Vec<ParamRef>,
    pub fixtures: Vec<String>,
    pub raw: Vec<usize>,
}

impl View for Resolved {
    type V = SpecResolved;

    open spec fn view(&self) -> SpecResolved {
        SpecResolved {
            params: param_refs_view(self.params@),
            fixtures: crate::target::strings_view(self.fixtures@),
            raw: self.raw@,
        }
    }
}

impl Resolved {
    /// Nothing named.
    pub fn new() -> (r: Resolved)
        ensures
            r@ == no_resolved(),
    {
        let r = Resolved { params: Vec::new(), fixtures: Vec::new(), raw: Vec::new() };
        assert(r@ =~= no_resolved());
        r
    }
}

fn resolve_channels(chs: &Vec<u16>, acc: &mut Resolved)
    ensures
        final(acc)@ == join_resolved(old(acc)@, channels_resolved(chs@)),
{
    let mut i: usize = 0;
    while i < chs.len()
        invariant
            i <= chs.len(),
            acc@ == join_resolved(old(acc)@, channels_resolved(chs@.take(i as int))),
        decreases chs.len() - i,
    {
        let ch = chs[i];
        let ghost before = acc@;
        let ghost t = chs@.take(i + 1);
        assert(t.drop_last() =~= chs@.take(i as int));
        assert(t.last() == ch);
        if ch > 0 && ch <= 512 {
            let idx: usize = (ch - 1) as usize;
            acc.params.push(ParamRef::Raw(idx));
            acc.raw.push(idx);
            proof {
                let add = SpecResolved { params: seq![SpecParamRef::Raw(idx)], fixtures: Seq::empty(), raw: seq![idx] };
                assert(acc@ =~= join_resolved(before, add));
                lemma_join_assoc(old(acc)@, channels_resolved(chs@.take(i as int)), add);
            }
        }
        i = i + 1;
    }
    assert(chs@.take(i as int) =~= chs@);
}

fn resolve_fixture(id: &String, fixtures: &NameMap<Fixture>, acc: &mut Resolved)
    ensures
        final(acc)@ == join_resolved(old(acc)@, fixture_resolved(id@, fixtures@)),
{
    match fixtures.get(id.as_str()) {
        Some(f) => {
            acc.fixtures.push(id.clone());
            let has_dimmer = f.parameters.get("Dimmer").is_some();
            if has_dimmer {
                acc.params.push(ParamRef::Fixture(id.clone(), "Dimmer".to_owned()));
            }
            assert(acc@ =~= join_resolved(old(acc)@, fixture_resolved(id@, fixtures@)));
        },
        None => {
            assert(acc@ =~= join_resolved(old(acc)@, no_resolved()));
        },
    }
}

fn resolve_fixtures(ids: &Vec<String>, fixtures: &NameMap<Fixture>, acc: &mut Resolved)
    ensures
        final(acc)@ == join_resolved(old(acc)@, fixtures_resolved(crate::target::strings_view(ids@), fixtures@)),
{
    let ghost all = crate::target::strings_view(ids@);
    let mut i: usize = 0;
    while i < ids.len()
        invariant
            i <= ids.len(),
            all == crate::target::strings_view(ids@),
            acc@ == join_resolved(old(acc)@, fixtures_resolved(all.take(i as int), fixtures@)),
        decreases ids.len() - i,
    {
        let ghost t = all.take(i + 1);
        assert(t.drop_last() =~= all.take(i as int));
        assert(t.last() == ids@[i as int]@);
        resolve_fixture(&ids[i], fixtures, acc);
        proof {
            lemma_join_assoc(old(acc)@, fixtures_resolved(all.take(i as int), fixtures@), fixture_resolved(ids@[i as int]@, fixtures@));
        }
        i = i + 1;
    }
    assert(all.take(i as int) =~= all);
}

proof fn lemma_group_index(groups: Seq<(Seq<char>, Group)>, name: Seq<char>)
    ensures
        0 <= group_index(groups, name) <= groups.len(),
        group_index(groups, name) < groups.len() ==> group_matches(groups[group_index(groups, name)], name),
        forall|j: int| 0 <= j < group_index(groups, name) ==> !group_matches(#[trigger] groups[j], name),
    decreases groups.len(),
{
    if groups.len() > 0 && !group_matches(groups[0], name) {
        lemma_group_index(groups.drop_first(), name);
        assert forall|j: int| 0 <= j < group_index(groups, name) implies !group_matches(#[trigger] groups[j], name) by {
            if j > 0 {
                assert(groups[j] == groups.drop_first()[j - 1]);
            }
        }
    }
}

proof fn lemma_group_index_is(groups: Seq<(Seq<char>, Group)>, name: Seq<char>, k: int)
    requires
        0 <= k <= groups.len(),
        k == groups.len() || group_matches(groups[k], name),
        forall|j: int| 0 <= j < k ==> !group_matches(#[trigger] groups[j], name),
    ensures
        group_index(groups, name) == k,
    decreases groups.len(),
{
    if groups.len() > 0 && !group_matches(groups[0], name) {
        let t = groups.drop_first();
        assert forall|j: int| 0 <= j < k - 1 implies !group_matches(#[trigger] t[j], name) by {
            assert(t[j] == groups[j + 1]);
        }
        lemma_group_index_is(t, name, k - 1);
    }
}

/// Position of the first group called `name` (see `group_matches`), or the number of groups.
fn find_group(groups: &NameMap<Group>, name: &String) -> (r: usize)
    ensures
        r == group_index(groups@, name@),
{
    let key = chars_of(name.as_str());
    let mut i: usize = 0;
    while i < groups.len()
        invariant
            i <= groups@.len(),
            key@ == name@,
            forall|j: int| 0 <= j < i ==> !group_matches(#[trigger] groups@[j], name@),
        decreases groups@.len() - i,
    {
        let (id, g) = groups.entry(i);
        if eq_ignore_case_chars(&chars_of(id.as_str()), &key) || eq_ignore_case_chars(&chars_of(g.name.as_str()), &key) {
            proof {
                lemma_group_index_is(groups@, name@, i as int);
            }
            return i;
        }
        i = i + 1;
    }
    proof {
        lemma_group_index_is(groups@, name@, i as int);
    }
    i
}

fn resolve_groups(names: &Vec<String>, fixtures: &NameMap<Fixture>, groups: &GroupStore, acc: &mut Resolved)
    ensures
        final(acc)@ == join_resolved(old(acc)@, groups_resolved(crate::target::strings_view(names@), fixtures@, groups.groups@)),
{
    let ghost all = crate::target::strings_view(names@);
    let mut i: usize = 0;
    while i < names.len()
        invariant
            i <= names.len(),
            all == crate::target::strings_view(names@),
            acc@ == join_resolved(old(acc)@, groups_resolved(all.take(i as int), fixtures@, groups.groups@)),
        decreases names.len() - i,
    {
        let ghost t = all.take(i + 1);
        assert(t.drop_last() =~= all.take(i as int));
        assert(t.last() == names@[i as int]@);
        let k = find_group(&groups.groups, &names[i]);
        proof {
            lemma_group_index(groups.groups@, names@[i as int]@);
        }
        let ghost before = acc@;
        if k < groups.groups.len() {
            let (_, g) = groups.groups.entry(k);
            resolve_fixtures(&g.heads, fixtures, acc);
        } else {
            assert(fixtures_resolved(Seq::empty(), fixtures@) == no_resolved());
        }
        proof {
            lemma_join_assoc(
                old(acc)@,
                groups_resolved(all.take(i as int), fixtures@, groups.groups@),
                fixtures_resolved(group_heads(groups.groups@, names@[i as int]@), fixtures@),
            );
        }
        i = i + 1;
    }
    assert(all.take(i as int) =~= all);
}

/// Adds to `acc` what `t` names (see `resolve`).
pub fn resolve_target(t: &Target, fixtures: &NameMap<Fixture>, groups: &GroupStore, acc: &mut Resolved)
    ensures
        final(acc)@ == join_resolved(old(acc)@, resolve(t@, fixtures@, groups.groups@)),
    decreases t,
{
    match t {
        Target::Channels(cl) => resolve_channels(&cl.0, acc),
        Target::Fixtures(ids) => resolve_fixtures(ids, fixtures, acc),
        Target::Groups(names) => resolve_groups(names, fixtures, groups, acc),
        Target::Parameters(_) => {
            proof {
                lemma_join_assoc(old(acc)@, no_resolved(), no_resolved());
            }
        },
        Target::Mixed(ts) => {
            let ghost views = match t@ {
                SpecTarget::Mixed(vs) => vs,
                _ => Seq::empty(),
            };
            assert(views.len() == ts.len());
            assert(forall|j: int| 0 <= j < ts.len() ==> #[trigger] views[j] == ts@[j]@);
            let mut i: usize = 0;
            while i < ts.len()
                invariant
                    i <= ts.len(),
                    *t == Target::Mixed(*ts),
                    views.len() == ts.len(),
                    t@ == SpecTarget::Mixed(views),
                    forall|j: int| 0 <= j < ts.len() ==> #[trigger] views[j] == ts@[j]@,
                    acc@ == join_resolved(old(acc)@, resolve_all(views.take(i as int), fixtures@, groups.groups@)),
                decreases ts.len() - i,
            {
                proof {
                    assert(decreases_to!(*t => (*t)->Mixed_0));
                    assert(decreases_to!(*ts => ts@));
                    assert(decreases_to!(ts@ => ts@[i as int]));
                    assert(decreases_to!(*t => ts@[i as int]));
                }
                let ghost u = views.take(i + 1);
                assert(u.subrange(0, u.len() - 1) =~= views.take(i as int));
                assert(u[u.len() - 1] == ts@[i as int]@);
                resolve_target(&ts[i], fixtures, groups, acc);
                proof {
                    lemma_join_assoc(
                        old(acc)@,
                        resolve_all(views.take(i as int), fixtures@, groups.groups@),
                        resolve(ts@[i as int]@, fixtures@, groups.groups@),
                    );
                }
                i = i + 1;
            }
            assert(views.take(i as int) =~= views);
        },
    }
}

/// Every raw channel named is below 512.
pub open spec fn raw_in_range(r: SpecResolved) -> bool {
    forall|j: int| 0 <= j < r.raw.len() ==> #[trigger] r.raw[j] < DMX_CHANNELS
}

proof fn lemma_channels_raw_bounds(chs: Seq<u16>)
    ensures
        raw_in_range(channels_resolved(chs)),
    decreases chs.len(),
{
    if chs.len() > 0 {
        lemma_channels_raw_bounds(chs.drop_last());
    }
}

proof fn lemma_fixtures_no_raw(ids: Seq<Seq<char>>, fixtures: Seq<(Seq<char>, Fixture)>)
    ensures
        fixtures_resolved(ids, fixtures).raw.len() == 0,
    decreases ids.len(),
{
    if ids.len() > 0 {
        lemma_fixtures_no_raw(ids.drop_last(), fixtures);
    }
}

proof fn lemma_groups_no_raw(names: Seq<Seq<char>>, fixtures: Seq<(Seq<char>, Fixture)>, groups: Seq<(Seq<char>, Group)>)
    ensures
        groups_resolved(names, fixtures, groups).raw.len() == 0,
    decreases names.len(),
{
    if names.len() > 0 {
        lemma_groups_no_raw(names.drop_last(), fixtures, groups);
        lemma_fixtures_no_raw(group_heads(groups, names.last()), fixtures);
    }
}

proof fn lemma_resolve_raw_bounds(t: SpecTarget, fixtures: Seq<(Seq<char>, Fixture)>, groups: Seq<(Seq<char>, Group)>)
    ensures
        raw_in_range(resolve(t, fixtures, groups)),
    decreases t,
{
    match t {
        SpecTarget::Channels(chs) => lemma_channels_raw_bounds(chs),
        SpecTarget::Fixtures(ids) => lemma_fixtures_no_raw(ids, fixtures),
        SpecTarget::Groups(names) => lemma_groups_no_raw(names, fixtures, groups),
        SpecTarget::Parameters(_) => {},
        SpecTarget::Mixed(ts) => lemma_resolve_all_raw_bounds(ts, fixtures, groups),
    }
}

proof fn lemma_resolve_all_raw_bounds(ts: Seq<SpecTarget>, fixtures: Seq<(Seq<char>, Fixture)>, groups: Seq<(Seq<char>, Group)>)
    ensures
        raw_in_range(resolve_all(ts, fixtures, groups)),
    decreases ts,
{
    if ts.len() > 0 {
        assert(decreases_to!(ts => ts[ts.len() - 1]));
        assert(decreases_to!(ts => ts.subrange(0, ts.len() - 1)));
        lemma_resolve_all_raw_bounds(ts.subrange(0, ts.len() - 1), fixtures, groups);
        lemma_resolve_raw_bounds(ts[ts.len() - 1], fixtures, groups);
        let a = resolve_all(ts.subrange(0, ts.len() - 1), fixtures, groups);
        let b = resolve(ts[ts.len() - 1], fixtures, groups);
        assert forall|j: int| 0 <= j < (a.raw + b.raw).len() implies #[trigger] (a.raw + b.raw)[j] < DMX_CHANNELS by {
            if j >= a.raw.len() {
                assert((a.raw + b.raw)[j] == b.raw[j - a.raw.len()]);
            }
        }
    }
}

// ---------------------------------------------------------------------------
// effect actions

/// What a command asks of the running effects: stop those on a parameter, or start one.
pub enum EffectAction {
    Clear(ParamRef),
    Start(ParamRef, Effect),
}

pub enum SpecEffectAction {
    Clear(SpecParamRef),
    Start(SpecParamRef, SpecEffect),
}

impl View for EffectAction {
    type V = SpecEffectAction;

    open spec fn view(&self) -> SpecEffectAction {
        match self {
            EffectAction::Clear(p) => SpecEffectAction::Clear(p@),
            EffectAction::Start(p, e) => SpecEffectAction::Start(p@, e@),
        }
    }
}

pub open spec fn actions_view(v: Seq<EffectAction>) -> Seq<SpecEffectAction> {
    v.map_values(|a: EffectAction| a@)
}

/// Whether fixture `id` is patched and has parameter `name`.
pub open spec fn fixture_has(fixtures: Seq<(Seq<char>, Fixture)>, id: Seq<char>, name: Seq<char>) -> bool {
    match lookup(fixtures, id) {
        Some(f) => lookup(f.parameters@, name) is Some,
        None => false,
    }
}

/// The parameters among `names` that fixture `id` has, in the order of `names`.
pub open spec fn params_of_fixture(id: Seq<char>, names: Seq<Seq<char>>, fixtures: Seq<(Seq<char>, Fixture)>) -> Seq<SpecParamRef>
    decreases names.len(),
{
    if names.len() == 0 {
        Seq::empty()
    } else {
        params_of_fixture(id, names.drop_last(), fixtures) + if fixture_has(fixtures, id, names.last()) {
            seq![SpecParamRef::Fixture(id, names.last())]
        } else {
            Seq::empty()
        }
    }
}

/// The parameters among `names` of each fixture of `ids`, fixture by fixture.
pub open spec fn params_of_fixtures(ids: Seq<Seq<char>>, names: Seq<Seq<char>>, fixtures: Seq<(Seq<char>, Fixture)>) -> Seq<SpecParamRef>
    decreases ids.len(),
{
    if ids.len() == 0 {
        Seq::empty()
    } else {
        params_of_fixtures(ids.drop_last(), names, fixtures) + params_of_fixture(ids.last(), names, fixtures)
    }
}

pub open spec fn clears(ps: Seq<SpecParamRef>) -> Seq<SpecEffectAction> {
    ps.map_values(|p: SpecParamRef| SpecEffectAction::Clear(p))
}

pub open spec fn raw_refs(raw: Seq<usize>) -> Seq<SpecParamRef> {
    raw.map_values(|i: usize| SpecParamRef::Raw(i))
}

pub open spec fn color_params() -> Seq<Seq<char>> {
    seq!["Red"@, "Green"@, "Blue"@, "White"@]
}

pub open spec fn position_params() -> Seq<Seq<char>> {
    seq!["Pan"@, "Tilt"@]
}

/// What a command does to the running effects, given what its target resolved to: a level
/// stops the effects on the fixtures' `Dimmer` and on the raw channels; a colour those on
/// `Red`, `Green`, `Blue` and `White`; a position those on `Pan` and `Tilt`; an effect starts
/// on every parameter named; stopping effects stops those on every parameter named.
pub open spec fn command_actions(cmd: SpecCommand, res: SpecResolved, fixtures: Seq<(Seq<char>, Fixture)>) -> Seq<SpecEffectAction> {
    match cmd {
        SpecCommand::SetLevel { .. } => clears(params_of_fixtures(res.fixtures, seq!["Dimmer"@], fixtures)) + clears(raw_refs(res.raw)),
        SpecCommand::SetColor { .. } => clears(params_of_fixtures(res.fixtures, color_params(), fixtures)),
        SpecCommand::SetPosition { .. } => clears(params_of_fixtures(res.fixtures, position_params(), fixtures)),
        SpecCommand::StartEffect { effect, .. } => res.params.map_values(|p: SpecParamRef| SpecEffectAction::Start(p, effect)),
        SpecCommand::StopEffect { .. } => clears(res.params),
        _ => Seq::empty(),
    }
}

/// The target of a command that has one.
pub open spec fn command_target(cmd: SpecCommand) -> Option<SpecTarget> {
    match cmd {
        SpecCommand::SetLevel { target, .. } => Some(target),
        SpecCommand::SetColor { target, .. } => Some(target),
        SpecCommand::SetPosition { target, .. } => Some(target),
        SpecCommand::SetStrobe { target, .. } => Some(target),
        SpecCommand::StartEffect { target, .. } => Some(target),
        SpecCommand::StopEffect { target } => Some(target),
        _ => None,
    }
}

/// Whether a command sets values on the fixtures it targets.
pub open spec fn sets_fixtures(cmd: SpecCommand) -> bool {
    ||| cmd is SetLevel
    ||| cmd is SetColor
    ||| cmd is SetPosition
    ||| cmd is SetStrobe
}

/// The value a level command sets (binary32 bits): a named level is full.
pub open spec fn level_of(cmd: SpecCommand, level_bits: u32) -> u32 {
    match cmd {
        SpecCommand::SetLevel { value: SpecValue::Semantic(_), .. } => BITS_255,
        _ => level_bits,
    }
}

fn push_fixture_params(out: &mut Vec<EffectAction>, id: &String, names: &Vec<String>, fixtures: &NameMap<Fixture>)
    ensures
        actions_view(final(out)@) == actions_view(old(out)@) + clears(params_of_fixture(id@, strings_view(names@), fixtures@)),
{
    let ghost all = strings_view(names@);
    let mut i: usize = 0;
    assert(actions_view(out@) =~= actions_view(old(out)@) + clears(params_of_fixture(id@, all.take(0), fixtures@)));
    while i < names.len()
        invariant
            i <= names.len(),
            all == strings_view(names@),
            actions_view(out@) == actions_view(old(out)@) + clears(params_of_fixture(id@, all.take(i as int), fixtures@)),
        decreases names.len() - i,
    {
        let ghost t = all.take(i + 1);
        assert(t.drop_last() =~= all.take(i as int));
        assert(t.last() == names@[i as int]@);
        let has = match fixtures.get(id.as_str()) {
            Some(f) => f.parameters.get(names[i].as_str()).is_some(),
            None => false,
        };
        let ghost before = actions_view(out@);
        assert(has == fixture_has(fixtures@, id@, names@[i as int]@));
        let ghost added: Seq<SpecParamRef> = if has {
            seq![SpecParamRef::Fixture(id@, names@[i as int]@)]
        } else {
            Seq::empty()
        };
        let ghost prev = params_of_fixture(id@, all.take(i as int), fixtures@);
        assert(params_of_fixture(id@, t, fixtures@) == prev + added);
        assert(clears(prev + added) =~= clears(prev) + clears(added));
        if has {
            out.push(EffectAction::Clear(ParamRef::Fixture(id.clone(), names[i].clone())));
        }
        assert(actions_view(out@) =~= before + clears(added));
        assert(actions_view(out@) =~= actions_view(old(out)@) + clears(params_of_fixture(id@, t, fixtures@)));
        i = i + 1;
    }
    assert(all.take(i as int) =~= all);
}

fn push_fixtures_params(out: &mut Vec<EffectAction>, ids: &Vec<String>, names: &Vec<String>, fixtures: &NameMap<Fixture>)
    ensures
        actions_view(final(out)@) == actions_view(old(out)@) + clears(params_of_fixtures(strings_view(ids@), strings_view(names@), fixtures@)),
{
    let ghost all = strings_view(ids@);
    let mut i: usize = 0;
    assert(actions_view(out@) =~= actions_view(old(out)@) + clears(params_of_fixtures(all.take(0), strings_view(names@), fixtures@)));
    while i < ids.len()
        invariant
            i <= ids.len(),
            all == strings_view(ids@),
            actions_view(out@) == actions_view(old(out)@) + clears(params_of_fixtures(all.take(i as int), strings_view(names@), fixtures@)),
        decreases ids.len() - i,
    {
        let ghost t = all.take(i + 1);
        assert(t.drop_last() =~= all.take(i as int));
        assert(t.last() == ids@[i as int]@);
        let ghost prev = params_of_fixtures(all.take(i as int), strings_view(names@), fixtures@);
        let ghost added = params_of_fixture(ids@[i as int]@, strings_view(names@), fixtures@);
        push_fixture_params(out, &ids[i], names, fixtures);
        assert(params_of_fixtures(t, strings_view(names@), fixtures@) == prev + added);
        assert(clears(prev + added) =~= clears(prev) + clears(added));
        assert(actions_view(out@) =~= actions_view(old(out)@) + clears(params_of_fixtures(t, strings_view(names@), fixtures@)));
        i = i + 1;
    }
    assert(all.take(i as int) =~= all);
}

// ---------------------------------------------------------------------------
// the engine

/// A fixture made by `Fixture::new` from a patch entry and its profile.
pub open spec fn made_from(f: Fixture, e: PatchEntry, profile: Arc<OflProfile>) -> bool {
    &&& f.name@ == e.name@
    &&& f.address == e.address
    &&& f.universe == 1
    &&& f.profile == profile
    &&& f.mode_index == e.mode
    &&& param_bits(f.parameters@) == initial_params(*profile, e.mode)
}

/// The number of raw DMX channels.
pub const DMX_CHANNELS: usize = 512;

/// Another handle to the same profile.
#[verifier::external_body]
fn share_profile(p: &Arc<OflProfile>) -> (r: Arc<OflProfile>)
    ensures
        r == *p,
{
    Arc::clone(p)
}

/// The console's state: the patched fixtures, the raw DMX channels, the stored show and the
/// running cue lists.
pub struct Engine {
    pub settings: Settings,
    pub params: Params,
    pub fixtures: NameMap<Fixture>,
    pub raw_channels: Vec<FloatParam>,
    pub cue_store: CueStore,
    pub cue_list_store: CueListStore,
    pub group_store: GroupStore,
    pub layout_store: LayoutStore,
    pub playback: PlaybackManager,
}

impl Engine {
    /// There are 512 raw channels and the running cue lists are well formed.
    pub open spec fn wf(&self) -> bool {
        &&& self.raw_channels@.len() == DMX_CHANNELS
        &&& self.playback.wf()
    }

    /// An engine with a fixture for every entry of `patch` (made with the entry's profile from
    /// `profiles`), 512 raw channels at 0 written at time 0, no parameters and no running
    /// lists.
    pub fn new(
        settings: Settings,
        patch: &PatchStore,
        profiles: &NameMap<Arc<OflProfile>>,
        cue_store: CueStore,
        cue_list_store: CueListStore,
        group_store: GroupStore,
        layout_store: LayoutStore,
    ) -> (r: Engine)
        requires
            distinct_keys(patch.fixtures@),
            forall|k: int| 0 <= k < patch.fixtures@.len() ==> (#[trigger] lookup(profiles@, patch.fixtures@[k].1.profile@)) is Some,
        ensures
            r.wf(),
            r.fixtures@.len() == patch.fixtures@.len(),
            forall|k: int| 0 <= k < patch.fixtures@.len() ==> {
                &&& (#[trigger] r.fixtures@[k]).0 == patch.fixtures@[k].0
                &&& made_from(r.fixtures@[k].1, patch.fixtures@[k].1, lookup(profiles@, patch.fixtures@[k].1.profile@).unwrap())
            },
            forall|i: int| 0 <= i < DMX_CHANNELS ==> (#[trigger] r.raw_channels@[i])@ == (0u32, 0u64),
            r.params@.len() == 0,
            r.playback@.len() == 0,
    {
        let mut fixtures: NameMap<Fixture> = NameMap::new();
        let mut k: usize = 0;
        while k < patch.fixtures.len()
            invariant
                k <= patch.fixtures@.len(),
                distinct_keys(patch.fixtures@),
                forall|j: int| 0 <= j < patch.fixtures@.len() ==> (#[trigger] lookup(profiles@, patch.fixtures@[j].1.profile@)) is Some,
                fixtures@.len() == k,
                forall|j: int| 0 <= j < k ==> {
                    &&& (#[trigger] fixtures@[j]).0 == patch.fixtures@[j].0
                    &&& made_from(fixtures@[j].1, patch.fixtures@[j].1, lookup(profiles@, patch.fixtures@[j].1.profile@).unwrap())
                },
            decreases patch.fixtures@.len() - k,
        {
            let (id, entry) = patch.fixtures.entry(k);
            assert(lookup(profiles@, patch.fixtures@[k as int].1.profile@) is Some);
            let profile = share_profile(profiles.get(entry.profile.as_str()).unwrap());
            let f = Fixture::new(entry.name.as_str(), entry.address, profile, entry.mode);
            let ghost before = fixtures@;
            let ghost fv = f;
            proof {
                lemma_key_index(before, id@);
                assert forall|j: int| 0 <= j < before.len() implies #[trigger] before[j].0 != id@ by {
                    assert(patch.fixtures@[j].0 != patch.fixtures@[k as int].0);
                }
                crate::named::lemma_key_index_is(before, id@, before.len() as int);
            }
            fixtures.insert(id.clone(), f);
            assert(fixtures@ == before.push((id@, fv)));
            k = k + 1;
        }
        let mut raw_channels: Vec<FloatParam> = Vec::new();
        let mut i: usize = 0;
        while i < DMX_CHANNELS
            invariant
                i <= DMX_CHANNELS,
                raw_channels@.len() == i,
                forall|j: int| 0 <= j < i ==> (#[trigger] raw_channels@[j])@ == (0u32, 0u64),
            decreases DMX_CHANNELS - i,
        {
            raw_channels.push(FloatParam::new_with_time(0, 0));
            i = i + 1;
        }
        Engine {
            settings,
            params: Params::new(),
            fixtures,
            raw_channels,
            cue_store,
            cue_list_store,
            group_store,
            layout_store,
            playback: PlaybackManager::new(),
        }
    }
}

/// Fixture `b` is fixture `a` after `Fixture::handle_command`: the parameters the command
/// writes hold their new values, and all others keep their values and times.
pub open spec fn fixture_updated(a: Fixture, b: Fixture, cmd: Command, level_bits: u32) -> bool {
    &&& param_bits(b.parameters@) == after_command(param_bits(a.parameters@), cmd, level_bits)
    &&& forall|n: Seq<char>| !command_writes(cmd, n) ==> #[trigger] lookup(b.parameters@, n) == lookup(a.parameters@, n)
    &&& b.name == a.name
    &&& b.address == a.address
    &&& b.universe == a.universe
    &&& b.profile == a.profile
    &&& b.mode_index == a.mode_index
}

/// The cues sent when starting list `name` (see `PlaybackManager::start_list`).
pub open spec fn start_sends(lists: Seq<(Seq<char>, crate::stores::CueList)>, name: Seq<char>, cues: Seq<(Seq<char>, SpecCue)>) -> Seq<SpecCue> {
    match lookup(lists, name) {
        Some(l) => if l.cues.len() > 0 {
            match crate::playback::step_sends(l, 0, cues) {
                Some(c) => seq![c],
                None => Seq::empty(),
            }
        } else {
            Seq::empty()
        },
        None => Seq::empty(),
    }
}

pub open spec fn cues_view(v: Seq<Cue>) -> Seq<SpecCue> {
    v.map_values(|c: Cue| c@)
}

fn contains_name(ids: &Vec<String>, name: &String) -> (r: bool)
    ensures
        r == strings_view(ids@).contains(name@),
{
    let key = chars_of(name.as_str());
    let mut i: usize = 0;
    while i < ids.len()
        invariant
            i <= ids.len(),
            key@ == name@,
            forall|j: int| 0 <= j < i ==> strings_view(ids@)[j] != name@,
        decreases ids.len() - i,
    {
        if eq_chars(&chars_of(ids[i].as_str()), &key) {
            assert(strings_view(ids@)[i as int] == name@);
            return true;
        }
        i = i + 1;
    }
    false
}

fn update_fixtures(fixtures: &mut NameMap<Fixture>, ids: &Vec<String>, cmd: &Command, level_bits: u32)
    ensures
        final(fixtures)@.len() == old(fixtures)@.len(),
        forall|k: int| 0 <= k < old(fixtures)@.len() ==> {
            &&& (#[trigger] final(fixtures)@[k]).0 == old(fixtures)@[k].0
            &&& if strings_view(ids@).contains(old(fixtures)@[k].0) {
                fixture_updated(old(fixtures)@[k].1, final(fixtures)@[k].1, *cmd, level_bits)
            } else {
                final(fixtures)@[k].1 == old(fixtures)@[k].1
            }
        },
{
    let mut k: usize = 0;
    while k < fixtures.len()
        invariant
            k <= fixtures@.len(),
            fixtures@.len() == old(fixtures)@.len(),
            forall|j: int| k <= j < fixtures@.len() ==> #[trigger] fixtures@[j] == old(fixtures)@[j],
            forall|j: int| 0 <= j < k ==> {
                &&& (#[trigger] fixtures@[j]).0 == old(fixtures)@[j].0
                &&& if strings_view(ids@).contains(old(fixtures)@[j].0) {
                    fixture_updated(old(fixtures)@[j].1, fixtures@[j].1, *cmd, level_bits)
                } else {
                    fixtures@[j].1 == old(fixtures)@[j].1
                }
            },
        decreases fixtures@.len() - k,
    {
        let ghost before = fixtures@;
        let (name, mut f) = fixtures.take_at(k);
        if contains_name(ids, &name) {
            f.handle_command(cmd, level_bits);
        }
        let ghost fv = f;
        fixtures.put_at(k, name, f);
        assert(fixtures@ =~= before.update(k as int, (before[k as int].0, fv)));
        k = k + 1;
    }
}

impl Engine {
    /// Carries out one command of a cue (see `command_actions`, `fixture_updated`): starting
    /// and stopping cue lists; setting levels, colours, positions and strobes on the fixtures
    /// its target names (and levels on the raw channels it names); and it returns what the
    /// command asks of the running effects and the cues a started list sends. `level_bits` is
    /// the binary32 value of a numeric level, `beat` the current beat (binary32 bits) and
    /// `now` the current time in microseconds.
    pub fn apply_command(&mut self, cmd: &Command, level_bits: u32, beat: u32, now: u64) -> (r: (Vec<EffectAction>, Vec<Cue>))
        requires
            old(self).wf(),
        ensures
            final(self).wf(),
            final(self).settings == old(self).settings,
            final(self).params == old(self).params,
            final(self).cue_store == old(self).cue_store,
            final(self).cue_list_store == old(self).cue_list_store,
            final(self).group_store == old(self).group_store,
            final(self).layout_store == old(self).layout_store,
            match cmd@ {
                SpecCommand::StartCueList { list } => {
                    &&& final(self).fixtures == old(self).fixtures
                    &&& final(self).raw_channels == old(self).raw_channels
                    &&& r.0@.len() == 0
                    &&& cues_view(r.1@) == start_sends(old(self).cue_list_store.lists@, list, old(self).cue_store@)
                    &&& final(self).playback@ == match lookup(old(self).cue_list_store.lists@, list) {
                        Some(l) => if l.cues.len() > 0 {
                            crate::named::insert_entry(old(self).playback@, list, crate::playback::started_step(l, list, 0, beat, now))
                        } else {
                            old(self).playback@
                        },
                        None => old(self).playback@,
                    }
                },
                SpecCommand::StopCueList { list } => {
                    &&& final(self).fixtures == old(self).fixtures
                    &&& final(self).raw_channels == old(self).raw_channels
                    &&& r.0@.len() == 0
                    &&& r.1@.len() == 0
                    &&& final(self).playback@ == if list == "all"@ {
                        Seq::empty()
                    } else {
                        crate::named::remove_entry(old(self).playback@, list)
                    }
                },
                _ => {
                    &&& r.1@.len() == 0
                    &&& final(self).playback == old(self).playback
                    &&& match command_target(cmd@) {
                        None => {
                            &&& final(self).fixtures == old(self).fixtures
                            &&& final(self).raw_channels == old(self).raw_channels
                            &&& r.0@.len() == 0
                        },
                        Some(t) => {
                            let res = resolve(t, old(self).fixtures@, old(self).group_store.groups@);
                            &&& actions_view(r.0@) == command_actions(cmd@, res, old(self).fixtures@)
                            &&& final(self).fixtures@.len() == old(self).fixtures@.len()
                            &&& forall|k: int| 0 <= k < old(self).fixtures@.len() ==> {
                                &&& (#[trigger] final(self).fixtures@[k]).0 == old(self).fixtures@[k].0
                                &&& if sets_fixtures(cmd@) && res.fixtures.contains(old(self).fixtures@[k].0) {
                                    fixture_updated(old(self).fixtures@[k].1, final(self).fixtures@[k].1, *cmd, level_bits)
                                } else {
                                    final(self).fixtures@[k].1 == old(self).fixtures@[k].1
                                }
                            }
                            &&& forall|i: int| 0 <= i < DMX_CHANNELS ==> if cmd@ is SetLevel && res.raw.contains(i as usize) {
                                (#[trigger] final(self).raw_channels@[i])@.0 == level_of(cmd@, level_bits)
                            } else {
                                final(self).raw_channels@[i] == old(self).raw_channels@[i]
                            }
                        },
                    }
                },
            },
    {
        match cmd {
            Command::StartCueList { list } => {
                let sent = self.playback.start_list(list.as_str(), beat, now, &self.cue_list_store, &self.cue_store);
                let mut cues: Vec<Cue> = Vec::new();
                if let Some(c) = sent {
                    cues.push(c);
                }
                assert(cues_view(cues@) =~= start_sends(old(self).cue_list_store.lists@, list@, old(self).cue_store@));
                return (Vec::new(), cues);
            },
            Command::StopCueList { list } => {
                self.playback.stop_list(list.as_str());
                return (Vec::new(), Vec::new());
            },
            _ => {},
        }
        let target = match cmd {
            Command::SetLevel { target, .. } => target,
            Command::SetColor { target, .. } => target,
            Command::SetPosition { target, .. } => target,
            Command::SetStrobe { target, .. } => target,
            Command::StartEffect { target, .. } => target,
            Command::StopEffect { target } => target,
            _ => {
                return (Vec::new(), Vec::new());
            },
        };
        let mut res = Resolved::new();
        resolve_target(target, &self.fixtures, &self.group_store, &mut res);
        proof {
            lemma_join_assoc(no_resolved(), no_resolved(), resolve(target@, self.fixtures@, self.group_store.groups@));
            assert(join_resolved(no_resolved(), resolve(target@, self.fixtures@, self.group_store.groups@)) =~= resolve(target@, self.fixtures@, self.group_store.groups@));
        }
        proof {
            lemma_resolve_raw_bounds(target@, old(self).fixtures@, old(self).group_store.groups@);
        }
        let mut actions: Vec<EffectAction> = Vec::new();
        match cmd {
            Command::SetLevel { value, .. } => {
                let names = vec!["Dimmer".to_owned()];
                assert(strings_view(names@) =~= seq!["Dimmer"@]);
                push_fixtures_params(&mut actions, &res.fixtures, &names, &self.fixtures);
                update_fixtures(&mut self.fixtures, &res.fixtures, cmd, level_bits);
                let level = match value {
                    Value::Numeric(_) => level_bits,
                    Value::Semantic(_) => BITS_255,
                };
                self.set_raw(&res.raw, level, &mut actions);
            },
            Command::SetColor { .. } => {
                let names = vec!["Red".to_owned(), "Green".to_owned(), "Blue".to_owned(), "White".to_owned()];
                assert(strings_view(names@) =~= color_params());
                push_fixtures_params(&mut actions, &res.fixtures, &names, &self.fixtures);
                update_fixtures(&mut self.fixtures, &res.fixtures, cmd, level_bits);
            },
            Command::SetPosition { .. } => {
                let names = vec!["Pan".to_owned(), "Tilt".to_owned()];
                assert(strings_view(names@) =~= position_params());
                push_fixtures_params(&mut actions, &res.fixtures, &names, &self.fixtures);
                update_fixtures(&mut self.fixtures, &res.fixtures, cmd, level_bits);
            },
            Command::SetStrobe { .. } => {
                update_fixtures(&mut self.fixtures, &res.fixtures, cmd, level_bits);
            },
            Command::StartEffect { effect, .. } => {
                let mut i: usize = 0;
                while i < res.params.len()
                    invariant
                        i <= res.params.len(),
                        actions_view(actions@) == param_refs_view(res.params@).take(i as int).map_values(|p: SpecParamRef| SpecEffectAction::Start(p, effect@)),
                    decreases res.params.len() - i,
                {
                    let ghost before = actions_view(actions@);
                    let a = EffectAction::Start(res.params[i].copy(), effect.copy());
                    let ghost av = a@;
                    actions.push(a);
                    assert(actions_view(actions@) =~= before.push(av));
                    assert(param_refs_view(res.params@).take(i + 1) =~= param_refs_view(res.params@).take(i as int).push(res.params@[i as int]@));
                    i = i + 1;
                    assert(actions_view(actions@) =~= param_refs_view(res.params@).take(i as int).map_values(|p: SpecParamRef| SpecEffectAction::Start(p, effect@)));
                }
                assert(param_refs_view(res.params@).take(i as int) =~= param_refs_view(res.params@));
            },
            Command::StopEffect { .. } => {
                let mut i: usize = 0;
                while i < res.params.len()
                    invariant
                        i <= res.params.len(),
                        actions_view(actions@) == clears(param_refs_view(res.params@).take(i as int)),
                    decreases res.params.len() - i,
                {
                    let ghost before = actions_view(actions@);
                    let a = EffectAction::Clear(res.params[i].copy());
                    let ghost av = a@;
                    actions.push(a);
                    assert(actions_view(actions@) =~= before.push(av));
                    assert(param_refs_view(res.params@).take(i + 1) =~= param_refs_view(res.params@).take(i as int).push(res.params@[i as int]@));
                    i = i + 1;
                    assert(actions_view(actions@) =~= clears(param_refs_view(res.params@).take(i as int)));
                }
                assert(param_refs_view(res.params@).take(i as int) =~= param_refs_view(res.params@));
            },
            _ => {},
        }
        (actions, Vec::new())
    }

    /// Sets the raw channels `raw` to `level`, asking first to stop their effects.
    fn set_raw(&mut self, raw: &Vec<usize>, level: u32, actions: &mut Vec<EffectAction>)
        requires
            old(self).wf(),
            forall|j: int| 0 <= j < raw@.len() ==> raw@[j] < DMX_CHANNELS,
        ensures
            final(self).wf(),
            final(self).settings == old(self).settings,
            final(self).params == old(self).params,
            final(self).fixtures == old(self).fixtures,
            final(self).cue_store == old(self).cue_store,
            final(self).cue_list_store == old(self).cue_list_store,
            final(self).group_store == old(self).group_store,
            final(self).layout_store == old(self).layout_store,
            final(self).playback == old(self).playback,
            actions_view(final(actions)@) == actions_view(old(actions)@) + clears(raw_refs(raw@)),
            forall|i: int| 0 <= i < DMX_CHANNELS ==> if raw@.contains(i as usize) {
                (#[trigger] final(self).raw_channels@[i])@.0 == level
            } else {
                final(self).raw_channels@[i] == old(self).raw_channels@[i]
            },
    {
        let mut j: usize = 0;
        while j < raw.len()
            invariant
                j <= raw.len(),
                self.wf(),
                forall|q: int| 0 <= q < raw@.len() ==> raw@[q] < DMX_CHANNELS,
                self.settings == old(self).settings,
                self.params == old(self).params,
                self.fixtures == old(self).fixtures,
                self.cue_store == old(self).cue_store,
                self.cue_list_store == old(self).cue_list_store,
                self.group_store == old(self).group_store,
                self.layout_store == old(self).layout_store,
                self.playback == old(self).playback,
                actions_view(actions@) == actions_view(old(actions)@) + clears(raw_refs(raw@.take(j as int))),
                forall|i: int| 0 <= i < DMX_CHANNELS ==> if raw@.take(j as int).contains(i as usize) {
                    (#[trigger] self.raw_channels@[i])@.0 == level
                } else {
                    self.raw_channels@[i] == old(self).raw_channels@[i]
                },
            decreases raw.len() - j,
        {
            let idx = raw[j];
            let ghost before = actions_view(actions@);
            actions.push(EffectAction::Clear(ParamRef::Raw(idx)));
            assert(raw@.take(j + 1) =~= raw@.take(j as int).push(idx));
            assert(actions_view(actions@) =~= before.push(SpecEffectAction::Clear(SpecParamRef::Raw(idx))));
            assert(clears(raw_refs(raw@.take(j + 1))) =~= clears(raw_refs(raw@.take(j as int))).push(SpecEffectAction::Clear(SpecParamRef::Raw(idx))));
            assert(actions_view(actions@) =~= actions_view(old(actions)@) + clears(raw_refs(raw@.take(j + 1))));
            self.raw_channels.set(idx, FloatParam::new(level));
            assert forall|i: int| 0 <= i < DMX_CHANNELS implies if raw@.take(j + 1).contains(i as usize) {
                (#[trigger] self.raw_channels@[i])@.0 == level
            } else {
                self.raw_channels@[i] == old(self).raw_channels@[i]
            } by {
                if i != idx {
                    assert(raw@.take(j + 1).contains(i as usize) == raw@.take(j as int).contains(i as usize));
                } else {
                    assert(raw@.take(j + 1)[j as int] == idx);
                }
            }
            j = j + 1;
        }
        assert(raw@.take(j as int) =~= raw@);
    }
}

// ---------------------------------------------------------------------------
// output frames

/// What the fixtures put on one DMX channel: a byte, or a colour value (binary32 bits) that
/// a virtual dimmer (binary32 bits) scales: value times dimmer / 255, converted to a byte.
#[derive(Debug, Clone, Copy, PartialEq, Eq, Structural)]
pub enum FrameCell {
    Byte(u8),
    Scaled(u32, u32),
}

/// A fixture whose channels all have DMX addresses from 1 to 65536.
pub open spec fn renderable(f: Fixture) -> bool {
    &&& f.address >= 1
    &&& f.address - 1 + mode_channels(*f.profile, f.mode_index).len() <= 65536
}

/// Channel `a` (from 0) after fixture `f` rendered over `prev`.
pub open spec fn fixture_cell(f: Fixture, a: int, prev: (FrameCell, u64)) -> (FrameCell, u64) {
    let i = a - (f.address - 1);
    if 0 <= i < mode_channels(*f.profile, f.mode_index).len() {
        let (byte, t, scaled) = channel_output(f, i);
        (
            match byte {
                Some(b) => FrameCell::Byte(b),
                None => FrameCell::Scaled(scaled.unwrap().0, scaled.unwrap().1),
            },
            t,
        )
    } else {
        prev
    }
}

/// Channel `a` (from 0) and its time after all `fixtures` rendered in order over zeros.
pub open spec fn frame_cell(fixtures: Seq<(Seq<char>, Fixture)>, a: int) -> (FrameCell, u64)
    decreases fixtures.len(),
{
    if fixtures.len() == 0 {
        (FrameCell::Byte(0), 0)
    } else {
        fixture_cell(fixtures.last().1, a, frame_cell(fixtures.drop_last(), a))
    }
}

fn mode_len(f: &Fixture) -> (r: usize)
    ensures
        r == mode_channels(*f.profile, f.mode_index).len(),
{
    if f.mode_index < f.profile.modes.len() {
        f.profile.modes[f.mode_index].channels.len()
    } else {
        0
    }
}

fn render_one(f: &Fixture, cells: &mut Vec<FrameCell>, times: &mut Vec<u64>)
    requires
        old(cells)@.len() == DMX_CHANNELS,
        old(times)@.len() == DMX_CHANNELS,
        renderable(*f),
    ensures
        final(cells)@.len() == DMX_CHANNELS,
        final(times)@.len() == DMX_CHANNELS,
        forall|a: int| 0 <= a < DMX_CHANNELS ==> (#[trigger] final(cells)@[a], final(times)@[a]) == fixture_cell(*f, a, (old(cells)@[a], old(times)@[a])),
{
    let mut dmx: Vec<u8> = Vec::new();
    let mut z: usize = 0;
    while z < DMX_CHANNELS
        invariant
            z <= DMX_CHANNELS,
            dmx@.len() == z,
        decreases DMX_CHANNELS - z,
    {
        dmx.push(0);
        z = z + 1;
    }
    let ghost old_cells = cells@;
    let ghost old_times = times@;
    let dimmed = f.render(&mut dmx, times);
    let n = mode_len(f);
    let base: usize = (f.address - 1) as usize;
    let mut i: usize = 0;
    while i < n
        invariant
            i <= n,
            n == mode_channels(*f.profile, f.mode_index).len(),
            base == f.address - 1,
            base + n <= 65536,
            cells@.len() == DMX_CHANNELS,
            dmx@.len() == DMX_CHANNELS,
            forall|a: int| 0 <= a < DMX_CHANNELS ==> #[trigger] cells@[a] == if base <= a < base + i {
                FrameCell::Byte(dmx@[a])
            } else {
                old_cells[a]
            },
        decreases n - i,
    {
        let a = base + i;
        if a < DMX_CHANNELS {
            cells.set(a, FrameCell::Byte(dmx[a]));
        }
        i = i + 1;
    }
    let ghost bytes_done = cells@;
    let mut k: usize = 0;
    while k < dimmed.len()
        invariant
            k <= dimmed.len(),
            cells@.len() == DMX_CHANNELS,
            forall|q: int|
                #![trigger dimmed@[q]]
                0 <= q < dimmed@.len() ==> {
                    let c = dimmed@[q].addr - (f.address - 1);
                    &&& 0 <= c < mode_channels(*f.profile, f.mode_index).len()
                    &&& dimmed@[q].addr < DMX_CHANNELS
                    &&& channel_output(*f, c).2 == Some((dimmed@[q].value_bits, dimmed@[q].dimmer_bits))
                },
            forall|q: int| 0 <= q < k ==> cells@[#[trigger] dimmed@[q].addr as int] == FrameCell::Scaled(dimmed@[q].value_bits, dimmed@[q].dimmer_bits),
            forall|a: int| 0 <= a < DMX_CHANNELS && (forall|q: int| 0 <= q < k ==> #[trigger] dimmed@[q].addr != a) ==> #[trigger] cells@[a] == bytes_done[a],
        decreases dimmed.len() - k,
    {
        let d = &dimmed[k];
        cells.set(d.addr, FrameCell::Scaled(d.value_bits, d.dimmer_bits));
        proof {
            assert forall|q: int| 0 <= q < k + 1 implies cells@[#[trigger] dimmed@[q].addr as int] == FrameCell::Scaled(dimmed@[q].value_bits, dimmed@[q].dimmer_bits) by {
                if q < k && dimmed@[q].addr == d.addr {
                    assert(dimmed@[q].addr - (f.address - 1) == d.addr - (f.address - 1));
                }
            }
        }
        k = k + 1;
    }
    proof {
        assert forall|a: int| 0 <= a < DMX_CHANNELS implies (#[trigger] cells@[a], times@[a]) == fixture_cell(*f, a, (old_cells[a], old_times[a])) by {
            let c = a - (f.address - 1);
            if 0 <= c < mode_channels(*f.profile, f.mode_index).len() {
                let (byte, t, sc) = channel_output(*f, c);
                if sc is Some {
                    let q = choose|q: int| 0 <= q < dimmed@.len() && dimmed@[q].addr == crate::fixture::channel_addr(f.address, c);
                    assert(dimmed@[q].addr == a);
                    assert(cells@[dimmed@[q].addr as int] == FrameCell::Scaled(dimmed@[q].value_bits, dimmed@[q].dimmer_bits));
                } else {
                    assert forall|q: int| 0 <= q < dimmed@.len() implies #[trigger] dimmed@[q].addr != a by {
                        if dimmed@[q].addr == a {
                            assert(dimmed@[q].addr - (f.address - 1) == c);
                        }
                    }
                    assert(cells@[a] == bytes_done[a]);
                }
            } else {
                assert forall|q: int| 0 <= q < dimmed@.len() implies #[trigger] dimmed@[q].addr != a by {}
                assert(cells@[a] == bytes_done[a]);
            }
        }
    }
}

impl Engine {
    /// Renders the fixtures in order into 512 channels and their times, from zeros (see
    /// `frame_cell`).
    pub fn render_frame(&self) -> (r: (Vec<FrameCell>, Vec<u64>))
        requires
            forall|k: int| 0 <= k < self.fixtures@.len() ==> renderable(#[trigger] self.fixtures@[k].1),
        ensures
            r.0@.len() == DMX_CHANNELS,
            r.1@.len() == DMX_CHANNELS,
            forall|a: int| 0 <= a < DMX_CHANNELS ==> (#[trigger] r.0@[a], r.1@[a]) == frame_cell(self.fixtures@, a),
    {
        let mut cells: Vec<FrameCell> = Vec::new();
        let mut times: Vec<u64> = Vec::new();
        let mut z: usize = 0;
        while z < DMX_CHANNELS
            invariant
                z <= DMX_CHANNELS,
                cells@.len() == z,
                times@.len() == z,
                forall|a: int| 0 <= a < z ==> #[trigger] cells@[a] == FrameCell::Byte(0) && times@[a] == 0,
            decreases DMX_CHANNELS - z,
        {
            cells.push(FrameCell::Byte(0));
            times.push(0);
            z = z + 1;
        }
        let mut k: usize = 0;
        while k < self.fixtures.len()
            invariant
                k <= self.fixtures@.len(),
                forall|j: int| 0 <= j < self.fixtures@.len() ==> renderable(#[trigger] self.fixtures@[j].1),
                cells@.len() == DMX_CHANNELS,
                times@.len() == DMX_CHANNELS,
                forall|a: int| 0 <= a < DMX_CHANNELS ==> (#[trigger] cells@[a], times@[a]) == frame_cell(self.fixtures@.take(k as int), a),
            decreases self.fixtures@.len() - k,
        {
            let (_, f) = self.fixtures.entry(k);
            assert(renderable(self.fixtures@[k as int].1));
            render_one(f, &mut cells, &mut times);
            proof {
                let t = self.fixtures@.take(k + 1);
                assert(t.drop_last() =~= self.fixtures@.take(k as int));
                assert(t.last().1 == *f);
            }
            k = k + 1;
        }
        assert(self.fixtures@.take(k as int) =~= self.fixtures@);
        (cells, times)
    }

    /// Merges the raw channels into the rendered frame: a raw channel written later than the
    /// fixtures' value of its channel wins (as a byte, see `bits_as_u8`).
    pub fn merge_raw(&self, data: &Vec<u8>, times: &Vec<u64>) -> (r: Vec<u8>)
        requires
            self.wf(),
            data@.len() == DMX_CHANNELS,
            times@.len() == DMX_CHANNELS,
        ensures
            r@.len() == DMX_CHANNELS,
            forall|i: int| 0 <= i < DMX_CHANNELS ==> #[trigger] r@[i] == if self.raw_channels@[i]@.1 > times@[i] {
                bits_as_u8(self.raw_channels@[i]@.0)
            } else {
                data@[i]
            },
    {
        let mut out: Vec<u8> = Vec::new();
        let mut i: usize = 0;
        while i < DMX_CHANNELS
            invariant
                i <= DMX_CHANNELS,
                self.wf(),
                data@.len() == DMX_CHANNELS,
                times@.len() == DMX_CHANNELS,
                out@.len() == i,
                forall|j: int| 0 <= j < i ==> #[trigger] out@[j] == if self.raw_channels@[j]@.1 > times@[j] {
                    bits_as_u8(self.raw_channels@[j]@.0)
                } else {
                    data@[j]
                },
            decreases DMX_CHANNELS - i,
        {
            let raw = &self.raw_channels[i];
            if raw.last_updated() > times[i] {
                out.push(raw.load_u8());
            } else {
                out.push(data[i]);
            }
            i = i + 1;
        }
        out
    }
}

/// The value (binary32 bits) of the parameter `p` refers to, when there is one.
pub open spec fn param_value(raw: Seq<FloatParam>, fixtures: Seq<(Seq<char>, Fixture)>, p: SpecParamRef) -> Option<u32> {
    match p {
        SpecParamRef::Raw(i) => if i < raw.len() {
            Some(raw[i as int]@.0)
        } else {
            None
        },
        SpecParamRef::Fixture(id, name) => match lookup(fixtures, id) {
            Some(f) => match lookup(f.parameters@, name) {
                Some(fp) => Some(fp@.0),
                None => None,
            },
            None => None,
        },
    }
}

impl Engine {
    /// The value (binary32 bits) of the parameter `p` refers to (see `param_value`).
    pub fn param_bits(&self, p: &ParamRef) -> (r: Option<u32>)
        ensures
            r == param_value(self.raw_channels@, self.fixtures@, p@),
    {
        match p {
            ParamRef::Raw(i) => {
                if *i < self.raw_channels.len() {
                    Some(self.raw_channels[*i].load())
                } else {
                    None
                }
            },
            ParamRef::Fixture(id, name) => match self.fixtures.get(id.as_str()) {
                Some(f) => match f.parameters.get(name.as_str()) {
                    Some(fp) => Some(fp.load()),
                    None => None,
                },
                None => None,
            },
        }
    }

    /// Writes `bits` to the parameter `p` refers to, now; a reference to nothing writes
    /// nothing, and no other parameter changes.
    pub fn store_param(&mut self, p: &ParamRef, bits: u32)
        requires
            old(self).wf(),
        ensures
            final(self).wf(),
            final(self).playback == old(self).playback,
            final(self).settings == old(self).settings,
            match p@ {
                SpecParamRef::Raw(i) => {
                    &&& final(self).fixtures == old(self).fixtures
                    &&& final(self).raw_channels@.len() == old(self).raw_channels@.len()
                    &&& forall|j: int| 0 <= j < DMX_CHANNELS && j != i ==> #[trigger] final(self).raw_channels@[j] == old(self).raw_channels@[j]
                    &&& i < DMX_CHANNELS ==> final(self).raw_channels@[i as int]@.0 == bits
                },
                SpecParamRef::Fixture(id, name) => {
                    &&& final(self).raw_channels == old(self).raw_channels
                    &&& final(self).fixtures@.len() == old(self).fixtures@.len()
                    &&& forall|k: int| 0 <= k < old(self).fixtures@.len() ==> {
                        &&& (#[trigger] final(self).fixtures@[k]).0 == old(self).fixtures@[k].0
                        &&& if k == key_index(old(self).fixtures@, id) {
                            &&& param_bits(final(self).fixtures@[k].1.parameters@) == crate::fixture::set_if_present(
                                param_bits(old(self).fixtures@[k].1.parameters@),
                                name,
                                bits,
                            )
                            &&& final(self).fixtures@[k].1.name == old(self).fixtures@[k].1.name
                            &&& final(self).fixtures@[k].1.address == old(self).fixtures@[k].1.address
                            &&& final(self).fixtures@[k].1.profile == old(self).fixtures@[k].1.profile
                            &&& final(self).fixtures@[k].1.mode_index == old(self).fixtures@[k].1.mode_index
                        } else {
                            final(self).fixtures@[k].1 == old(self).fixtures@[k].1
                        }
                    }
                },
            },
    {
        match p {
            ParamRef::Raw(i) => {
                if *i < self.raw_channels.len() {
                    self.raw_channels.set(*i, FloatParam::new(bits));
                }
            },
            ParamRef::Fixture(id, name) => {
                let k = self.fixtures.index_of(id.as_str());
                if k < self.fixtures.len() {
                    let ghost before = self.fixtures@;
                    let (fid, mut f) = self.fixtures.take_at(k);
                    f.set_param(name.as_str(), bits);
                    let ghost fv = f;
                    self.fixtures.put_at(k, fid, f);
                    assert(self.fixtures@ =~= before.update(k as int, (before[k as int].0, fv)));
                }
            },
        }
    }
}

} // verus!

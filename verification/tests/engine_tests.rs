use std::sync::Arc;
use svetd::command::{Command, Cue, Number, Value};
use svetd::effects::Effect;
use svetd::command::Duration;
use svetd::engine::{resolve_target, EffectAction, Engine, FrameCell, ParamRef, Resolved};
use svetd::named::NameMap;
use svetd::profile::{OflChannel, OflMode, OflProfile, PatchEntry, PatchStore};
use svetd::settings::{ArtnetSettings, EngineSettings, OscSettings, Settings, WebSettings};
use svetd::stores::{CueList, CueListStepConfig, CueListStore, CueStore, Group, GroupStore, LayoutStore};
use svetd::target::{ChannelList, Target};

fn bits(x: f32) -> u32 {
    x.to_bits()
}

fn settings() -> Settings {
    Settings {
        web: WebSettings { bind_address: "0.0.0.0:8080".to_string() },
        osc: OscSettings { bind_address: "127.0.0.1".to_string(), port: 8001 },
        engine: EngineSettings {
            patch_file: "p".to_string(),
            profiles_dir: "d".to_string(),
            cues_file: "c".to_string(),
            presets_file: "pr".to_string(),
            groups_file: "g".to_string(),
            layout_file: "l".to_string(),
            effects_file: "e".to_string(),
            cue_lists_file: "cl".to_string(),
        },
        artnet: ArtnetSettings { target_ip: "2.0.0.1".to_string(), universe: 0 },
    }
}

fn channel(ty: &str) -> OflChannel {
    OflChannel { channel_type: ty.to_string(), color: None }
}

fn profiles() -> NameMap<Arc<OflProfile>> {
    let mut rgb = NameMap::new();
    rgb.insert("Red".to_string(), channel("Single Color"));
    rgb.insert("Green".to_string(), channel("Single Color"));
    rgb.insert("Blue".to_string(), channel("Single Color"));
    let mut drt = NameMap::new();
    drt.insert("Dimmer".to_string(), channel("Intensity"));
    drt.insert("Red".to_string(), channel("Single Color"));
    drt.insert("Tilt".to_string(), channel("Tilt"));
    let mut m = NameMap::new();
    m.insert(
        "rgb".to_string(),
        Arc::new(OflProfile {
            name: "RGB".to_string(),
            available_channels: rgb,
            modes: vec![OflMode { name: "3ch".to_string(), channels: vec!["Red".to_string(), "Green".to_string(), "Blue".to_string()] }],
        }),
    );
    m.insert(
        "drt".to_string(),
        Arc::new(OflProfile {
            name: "DRT".to_string(),
            available_channels: drt,
            modes: vec![OflMode { name: "3ch".to_string(), channels: vec!["Dimmer".to_string(), "Red".to_string(), "Tilt".to_string()] }],
        }),
    );
    m
}

fn engine() -> Engine {
    let mut fixtures = NameMap::new();
    fixtures.insert("F1".to_string(), PatchEntry { name: "Par".to_string(), address: 1, profile: "rgb".to_string(), mode: 0 });
    fixtures.insert("F2".to_string(), PatchEntry { name: "Spot".to_string(), address: 10, profile: "drt".to_string(), mode: 0 });
    let mut groups = NameMap::new();
    groups.insert("front".to_string(), Group { name: "Front row".to_string(), heads: vec!["F1".to_string(), "F7".to_string()] });
    let mut lists = NameMap::new();
    lists.insert(
        "intro".to_string(),
        CueList { name: "Intro".to_string(), cues: vec![CueListStepConfig::Simple("c1".to_string())] },
    );
    let mut cues = CueStore::new();
    cues.cues.insert("c1".to_string(), Cue::new("First", vec![]));
    Engine::new(
        settings(),
        &PatchStore { fixtures },
        &profiles(),
        cues,
        CueListStore { lists },
        GroupStore { groups },
        LayoutStore { layouts: NameMap::new() },
    )
}

fn numeric(lit: &str) -> Value {
    Value::Numeric(Number { literal: lit.to_string(), divisor: None, percent: false })
}

#[test]
fn engine_patches_fixtures_and_raw_channels() {
    let e = engine();
    assert_eq!(e.fixtures.len(), 2);
    let (id, f) = e.fixtures.entry(1);
    assert_eq!(id, "F2");
    assert_eq!(f.name, "Spot");
    assert_eq!(f.address, 10);
    assert_eq!(e.raw_channels.len(), 512);
    assert_eq!(e.raw_channels[511].load(), 0);
    assert_eq!(e.raw_channels[511].last_updated(), 0);
}

#[test]
fn level_on_channels_sets_raw_channels() {
    let mut e = engine();
    let cmd = Command::SetLevel { target: Target::Channels(ChannelList(vec![1, 600])), value: numeric("40") };
    let (actions, cues) = e.apply_command(&cmd, bits(40.0), 0, 0);
    assert!(cues.is_empty());
    assert_eq!(actions.len(), 1);
    assert!(matches!(&actions[0], EffectAction::Clear(ParamRef::Raw(0))));
    assert_eq!(e.raw_channels[0].load(), bits(40.0));
    assert_eq!(e.raw_channels[1].load(), 0);
}

#[test]
fn named_level_on_channels_is_full() {
    let mut e = engine();
    let cmd = Command::SetLevel { target: Target::Channels(ChannelList(vec![3])), value: Value::Semantic("full".to_string()) };
    e.apply_command(&cmd, 0, 0, 0);
    assert_eq!(e.raw_channels[2].load(), bits(255.0));
}

#[test]
fn level_on_fixtures_sets_dimmers() {
    let mut e = engine();
    let cmd = Command::SetLevel { target: Target::Fixtures(vec!["F1".to_string(), "F9".to_string()]), value: numeric("10") };
    let (actions, _) = e.apply_command(&cmd, bits(10.0), 0, 0);
    assert_eq!(actions.len(), 1);
    match &actions[0] {
        EffectAction::Clear(ParamRef::Fixture(f, p)) => {
            assert_eq!(f, "F1");
            assert_eq!(p, "Dimmer");
        },
        _ => panic!("unexpected action"),
    }
    assert_eq!(e.fixtures.get("F1").unwrap().parameters.get("Dimmer").unwrap().load(), bits(10.0));
    assert_eq!(e.fixtures.get("F2").unwrap().parameters.get("Dimmer").unwrap().load(), 0);
}

#[test]
fn colour_on_group_found_ignoring_case() {
    let mut e = engine();
    let cmd = Command::SetColor { target: Target::Groups(vec!["FRONT".to_string()]), color: Value::Semantic("green".to_string()) };
    let (actions, _) = e.apply_command(&cmd, 0, 0, 0);
    assert_eq!(actions.len(), 3);
    let f1 = e.fixtures.get("F1").unwrap();
    assert_eq!(f1.parameters.get("Red").unwrap().load(), 0);
    assert_eq!(f1.parameters.get("Green").unwrap().load(), bits(255.0));
    let cmd2 = Command::SetColor { target: Target::Groups(vec!["front row".to_string()]), color: Value::Semantic("red".to_string()) };
    e.apply_command(&cmd2, 0, 0, 0);
    assert_eq!(e.fixtures.get("F1").unwrap().parameters.get("Red").unwrap().load(), bits(255.0));
}

#[test]
fn effects_start_and_stop_on_every_parameter() {
    let mut e = engine();
    let fx = Effect::Fade {
        target_val: Number { literal: "1".to_string(), divisor: None, percent: false },
        duration: Duration::Time(Number { literal: "2".to_string(), divisor: None, percent: false }),
    };
    let t = Target::Mixed(vec![Target::Channels(ChannelList(vec![2])), Target::Fixtures(vec!["F2".to_string()])]);
    let (actions, _) = e.apply_command(&Command::StartEffect { target: t.copy(), effect: fx.clone() }, 0, 0, 0);
    assert_eq!(actions.len(), 2);
    assert!(matches!(&actions[0], EffectAction::Start(ParamRef::Raw(1), x) if *x == fx));
    assert!(matches!(&actions[1], EffectAction::Start(ParamRef::Fixture(f, p), _) if f == "F2" && p == "Dimmer"));
    let (stops, _) = e.apply_command(&Command::StopEffect { target: t }, 0, 0, 0);
    assert_eq!(stops.len(), 2);
    assert!(matches!(&stops[0], EffectAction::Clear(ParamRef::Raw(1))));
}

#[test]
fn resolve_target_lists_what_is_named() {
    let e = engine();
    let mut res = Resolved::new();
    let t = Target::Mixed(vec![Target::Channels(ChannelList(vec![0, 5])), Target::Groups(vec!["front".to_string()])]);
    resolve_target(&t, &e.fixtures, &e.group_store, &mut res);
    assert_eq!(res.raw, vec![4]);
    assert_eq!(res.fixtures, vec!["F1".to_string()]);
    assert_eq!(res.params.len(), 2);
}

#[test]
fn cue_lists_start_and_stop() {
    let mut e = engine();
    let (_, cues) = e.apply_command(&Command::StartCueList { list: "intro".to_string() }, 0, 0, 5);
    assert_eq!(cues.len(), 1);
    assert_eq!(cues[0].name, "First");
    assert_eq!(e.playback.len(), 1);
    let (_, none) = e.apply_command(&Command::StartCueList { list: "missing".to_string() }, 0, 0, 5);
    assert!(none.is_empty());
    e.apply_command(&Command::StopCueList { list: "all".to_string() }, 0, 0, 5);
    assert_eq!(e.playback.len(), 0);
}

#[test]
fn frame_renders_fixtures_and_merges_raw_channels() {
    let mut e = engine();
    let lvl = Command::SetLevel { target: Target::Fixtures(vec!["F2".to_string()]), value: numeric("100") };
    e.apply_command(&lvl, bits(100.0), 0, 0);
    let (cells, times) = e.render_frame();
    assert_eq!(cells.len(), 512);
    assert_eq!(cells[0], FrameCell::Scaled(bits(255.0), 0));
    assert_eq!(cells[9], FrameCell::Byte(100));
    assert_eq!(cells[10], FrameCell::Byte(255));
    assert_eq!(cells[11], FrameCell::Byte(0));
    assert_eq!(cells[12], FrameCell::Byte(0));
    let mut data: Vec<u8> = cells.iter().map(|c| match c {
        FrameCell::Byte(b) => *b,
        FrameCell::Scaled(v, d) => (f32::from_bits(*v) * (f32::from_bits(*d) / 255.0)) as u8,
    }).collect();
    assert_eq!(data[0], 0);
    while svetd::param::FloatParam::now_micros() <= times[9] {}
    let raw = Command::SetLevel { target: Target::Channels(ChannelList(vec![10])), value: numeric("5") };
    e.apply_command(&raw, bits(5.0), 0, 0);
    data[20] = 9;
    let out = e.merge_raw(&data, &times);
    assert_eq!(out[9], 5);
    assert_eq!(out[10], 255);
    assert_eq!(out[20], 9);
}

#[test]
fn effects_start_from_the_parameters_value() {
    let mut e = engine();
    let cmd = Command::SetLevel { target: Target::Channels(ChannelList(vec![1])), value: numeric("40") };
    e.apply_command(&cmd, bits(40.0), 0, 0);
    let n = |s: &str| Number { literal: s.to_string(), divisor: None, percent: false };
    let rnd = Effect::Random {
        min_val: n("0"),
        max_val: n("10"),
        duration: Duration::Time(n("1")),
        easing: svetd::effects::Easing::Linear,
        method: svetd::effects::MathMethod::Absolute,
    };
    let rnd0 = Effect::Random0 {
        min_val: n("0"),
        max_val: n("10"),
        duration: Duration::Time(n("1")),
        easing: svetd::effects::Easing::Linear,
        method: svetd::effects::MathMethod::Absolute,
    };
    let mut em = svetd::effects::EffectManager::new();
    em.start_effect(&e, ParamRef::Raw(0), rnd, bits(2.0), 5, Some((bits(7.0), 99)));
    assert_eq!(em.len(), 1);
    assert_eq!(em.effect(0).start_val, bits(40.0));
    assert_eq!(em.effect(0).start_beat, bits(2.0));
    assert_eq!(
        em.effect(0).random_state,
        Some(svetd::effects::RandomState { prev_val: bits(40.0), next_val: bits(7.0), last_period: 0, rng_state: 99 })
    );
    em.start_effect(&e, ParamRef::Fixture("F2".to_string(), "Dimmer".to_string()), rnd0, 0, 6, Some((bits(3.0), 4)));
    assert_eq!(em.len(), 2);
    assert_eq!(em.effect(1).start_val, 0);
    assert_eq!(
        em.effect(1).random_state,
        Some(svetd::effects::RandomState { prev_val: bits(3.0), next_val: 0, last_period: 0, rng_state: 4 })
    );
    let fade = Effect::Fade { target_val: n("1"), duration: Duration::Time(n("2")) };
    em.start_effect(&e, ParamRef::Raw(0), fade, 0, 7, None);
    assert_eq!(em.len(), 2);
    assert_eq!(em.effect(1).start_val, bits(40.0));
    assert_eq!(em.effect(1).random_state, None);
    em.start_effect(&e, ParamRef::Raw(600), Effect::Fade { target_val: n("1"), duration: Duration::Time(n("2")) }, 0, 8, None);
    assert_eq!(em.effect(2).start_val, 0);
}

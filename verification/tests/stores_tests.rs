use svetd::command::{Command, Cue, Number, Value};
use svetd::effects::{Easing, Effect, MathMethod};
use svetd::command::Duration;
use svetd::named::NameMap;
use svetd::parser::ParserState;
use svetd::stores::{CueStore, EffectStore, Layout, LayoutStore, SavedEffect};
use svetd::target::{ChannelList, Target};

fn layout(id: &str) -> Layout {
    Layout { heads: vec![vec![id.to_string()]] }
}

#[test]
fn default_layout_prefers_plan1() {
    let mut layouts = NameMap::new();
    layouts.insert("stage".to_string(), layout("A"));
    layouts.insert("plan1".to_string(), layout("B"));
    let store = LayoutStore { layouts };
    assert_eq!(store.get_default_layout(), Some(&layout("B")));
}

#[test]
fn default_layout_falls_back_to_first() {
    let mut layouts = NameMap::new();
    layouts.insert("stage".to_string(), layout("A"));
    layouts.insert("other".to_string(), layout("C"));
    assert_eq!(LayoutStore { layouts }.get_default_layout(), Some(&layout("A")));
    assert_eq!(LayoutStore { layouts: NameMap::new() }.get_default_layout(), None);
}

#[test]
fn cues_stored_as_lines_are_read() {
    let mut store = CueStore::new();
    let mut c = Cue::new("Warm", vec![]);
    c.raw_commands = vec!["1@50".to_string(), "@red".to_string(), "nonsense".to_string()];
    store.cues.insert("c1".to_string(), c);
    let ready = Cue::new("Ready", vec![Command::StopCueList { list: "x".to_string() }]);
    store.cues.insert("c2".to_string(), ready);
    assert!(store.fill_commands());
    let filled = store.cues.get("c1").unwrap();
    let t = Target::Channels(ChannelList(vec![1]));
    assert_eq!(
        filled.commands,
        vec![
            Command::SetLevel { target: t.copy(), value: Value::Numeric(Number { literal: "50".to_string(), divisor: None, percent: false }) },
            Command::SetColor { target: t, color: Value::Semantic("red".to_string()) },
        ]
    );
    assert_eq!(store.cues.get("c2").unwrap().commands.len(), 1);
    assert!(!store.fill_commands());
}

fn n(l: &str) -> Number {
    Number { literal: l.to_string(), divisor: None, percent: false }
}

#[test]
fn saved_effects_are_read_and_registered() {
    let mut effects = NameMap::new();
    effects.insert("pulse".to_string(), SavedEffect { name: "Pulse".to_string(), raw: "fx(sin,0,255,4b)".to_string(), params: None });
    effects.insert("fade".to_string(), SavedEffect { name: "Fade".to_string(), raw: "full/2s".to_string(), params: None });
    effects.insert("bad".to_string(), SavedEffect { name: "Bad".to_string(), raw: "50".to_string(), params: None });
    let mut store = EffectStore { effects };
    assert!(store.fill_params());
    let pulse = Effect::Cycle { min_val: n("0"), max_val: n("255"), duration: Duration::Tempo(n("4")), easing: Easing::Linear, method: MathMethod::Absolute };
    assert_eq!(store.effects.get("pulse").unwrap().params, Some(pulse.clone()));
    assert_eq!(
        store.effects.get("fade").unwrap().params,
        Some(Effect::Fade { target_val: n("255"), duration: Duration::Time(n("2")) })
    );
    assert_eq!(store.effects.get("bad").unwrap().params, None);
    let mut st = ParserState::new();
    store.register(&mut st);
    assert_eq!(st.saved_effect("pulse"), Some(pulse));
    assert_eq!(st.saved_effect("bad"), None);
}

#[test]
fn cues_with_zero_step_lines_are_not_read() {
    let mut store = CueStore::new();
    let mut c = Cue::new("Bad", vec![]);
    c.raw_commands = vec!["1..4*0@50".to_string()];
    store.cues.insert("bad".to_string(), c);
    assert!(!store.readable());
    assert_eq!(store.try_fill_commands(), None);
    assert!(store.cues.get("bad").unwrap().commands.is_empty());
    let mut ok = CueStore::new();
    let mut c2 = Cue::new("Good", vec![]);
    c2.raw_commands = vec!["1..4*2@50".to_string()];
    ok.cues.insert("good".to_string(), c2);
    assert!(ok.readable());
    assert_eq!(ok.try_fill_commands(), Some(true));
    assert_eq!(ok.cues.get("good").unwrap().commands.len(), 1);
}

#[test]
fn loading_cues_reads_lines_and_says_when_to_write_back() {
    let (empty, write) = CueStore::loaded(None);
    assert_eq!(empty.cues.len(), 0);
    assert!(!write);
    let mut store = CueStore::new();
    let mut c = Cue::new("Warm", vec![]);
    c.raw_commands = vec!["1@50".to_string()];
    store.cues.insert("c1".to_string(), c);
    let (loaded, write) = CueStore::loaded(Some(store));
    assert!(write);
    assert_eq!(loaded.cues.len(), 1);
    assert_eq!(loaded.cues.get("c1").unwrap().commands.len(), 1);
    let (again, write) = CueStore::loaded(Some(loaded));
    assert!(!write);
    assert_eq!(again.cues.get("c1").unwrap().commands.len(), 1);
}

#[test]
fn loading_effects_reads_actions_and_registers_them() {
    let mut st = ParserState::new();
    let (empty, write) = EffectStore::loaded(None, &mut st);
    assert_eq!(empty.effects.len(), 0);
    assert!(!write);
    assert_eq!(st.saved_effect("pulse"), None);
    let mut effects = NameMap::new();
    effects.insert("pulse".to_string(), SavedEffect { name: "Pulse".to_string(), raw: "fx(sin,0,255,4b)".to_string(), params: None });
    let (loaded, write) = EffectStore::loaded(Some(EffectStore { effects }), &mut st);
    assert!(write);
    let pulse = Effect::Cycle { min_val: n("0"), max_val: n("255"), duration: Duration::Tempo(n("4")), easing: Easing::Linear, method: MathMethod::Absolute };
    assert_eq!(loaded.effects.get("pulse").unwrap().params, Some(pulse.clone()));
    assert_eq!(st.saved_effect("pulse"), Some(pulse));
    let (_, write) = EffectStore::loaded(Some(loaded), &mut st);
    assert!(!write);
}

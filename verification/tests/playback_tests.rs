use svetd::command::{Cue, Duration, Number};
use svetd::named::NameMap;
use svetd::param::{Params, BITS_255};
use svetd::playback::{PlayCommand, Playback, PlaybackManager};
use svetd::stores::{CueList, CueListStep, CueListStepConfig, CueListStore, CueStore};

fn stores() -> (CueListStore, CueStore) {
    let mut lists = NameMap::new();
    lists.insert(
        "show".to_string(),
        CueList {
            name: "Show".to_string(),
            cues: vec![
                CueListStepConfig::Simple("a".to_string()),
                CueListStepConfig::Detailed(CueListStep { fade_in: None, hold: None, fade_out: None, cue: "b".to_string() }),
            ],
        },
    );
    lists.insert("empty".to_string(), CueList { name: "Empty".to_string(), cues: vec![] });
    let mut cues = CueStore::new();
    cues.cues.insert("a".to_string(), Cue::new("A", vec![]));
    cues.cues.insert("b".to_string(), Cue::new("B", vec![]));
    (CueListStore { lists }, cues)
}

#[test]
fn starting_a_list_sends_its_first_cue() {
    let (lists, cues) = stores();
    let mut pm = PlaybackManager::new();
    let sent = pm.start_list("show", 7, 100, &lists, &cues).unwrap();
    assert_eq!(sent.name, "A");
    assert_eq!(pm.len(), 1);
    let (name, active) = pm.active_list(0);
    assert_eq!(name, "show");
    assert_eq!(active.step_index, 0);
    assert_eq!(active.start_time, 100);
    assert_eq!(active.start_beat, 7);
    assert_eq!(
        active.hold_duration,
        Some(Duration::Tempo(Number { literal: "1.0".to_string(), divisor: None, percent: false }))
    );
    assert!(pm.start_list("empty", 0, 0, &lists, &cues).is_none());
    assert!(pm.start_list("nothing", 0, 0, &lists, &cues).is_none());
    assert_eq!(pm.len(), 1);
}

#[test]
fn tick_moves_finished_lists_on_and_wraps() {
    let (lists, cues) = stores();
    let mut pm = PlaybackManager::new();
    pm.start_list("show", 0, 0, &lists, &cues);
    let sent = pm.tick(&vec![false], 1, 1, &lists, &cues);
    assert!(sent.is_empty());
    let sent = pm.tick(&vec![true], 1, 1, &lists, &cues);
    assert_eq!(sent.len(), 1);
    assert_eq!(sent[0].name, "B");
    assert_eq!(pm.active_list(0).1.step_index, 1);
    assert_eq!(pm.active_list(0).1.hold_duration, None);
    let sent = pm.tick(&vec![true], 2, 2, &lists, &cues);
    assert!(sent.is_empty());
    assert_eq!(pm.active_list(0).1.step_index, 1);
}

#[test]
fn stopping_lists() {
    let (lists, cues) = stores();
    let mut pm = PlaybackManager::new();
    pm.start_list("show", 0, 0, &lists, &cues);
    pm.stop_list("other");
    assert_eq!(pm.len(), 1);
    pm.stop_list("show");
    assert_eq!(pm.len(), 0);
    pm.start_list("show", 0, 0, &lists, &cues);
    pm.stop_list("all");
    assert_eq!(pm.len(), 0);
}

#[test]
fn flash_restores_level() {
    let mut params = Params::new();
    let mut pb = Playback::new("PB1".to_string(), &mut params);
    assert!(params.get("PB1".to_string()).is_some());
    pb.handle_cmd(PlayCommand::At(100.0f32.to_bits()));
    assert_eq!(pb.level(), 100.0f32.to_bits());
    pb.handle_cmd(PlayCommand::FlashOn);
    assert_eq!(pb.level(), BITS_255);
    pb.handle_cmd(PlayCommand::Go);
    assert_eq!(pb.level(), BITS_255);
    pb.handle_cmd(PlayCommand::FlashOff);
    assert_eq!(pb.level(), 100.0f32.to_bits());
    pb.set_level(3.7f32.to_bits());
    assert_eq!(pb.levels(), vec![(0, 3), (1, 3), (2, 3)]);
}

#[test]
fn commands_that_write_nothing_keep_the_level_time() {
    let mut params = Params::new();
    let mut pb = Playback::new("PB2".to_string(), &mut params);
    pb.handle_cmd(PlayCommand::At(10.0f32.to_bits()));
    let t = pb.param.last_updated();
    pb.handle_cmd(PlayCommand::Go);
    pb.handle_cmd(PlayCommand::Stop);
    pb.handle_cmd(PlayCommand::Next);
    assert_eq!(pb.param.last_updated(), t);
    assert_eq!(pb.level(), 10.0f32.to_bits());
}

use svetd::heads::{Cue, Head};
use svetd::named::NameMap;
use svetd::timing::{FadeMode, TapTempo};

#[test]
fn heads_give_three_levels_each() {
    let h = Head::default();
    assert_eq!(h.levels(), vec![(0, 0), (1, 64), (2, 128)]);
    let mut c = Cue::new();
    assert!(c.levels().is_empty());
    c.heads.push(Head::default());
    c.heads.push(Head::default());
    assert_eq!(c.levels(), vec![(0, 0), (1, 64), (2, 128), (0, 0), (1, 64), (2, 128)]);
    let patched = Head::default();
    patched.patch(9);
}

#[test]
fn name_map_read_after_write() {
    let mut m = NameMap::new();
    m.insert("a".to_string(), 1);
    m.insert("b".to_string(), 2);
    m.insert("a".to_string(), 3);
    assert_eq!(m.len(), 2);
    assert_eq!(m.get("a"), Some(&3));
    assert_eq!(m.get("b"), Some(&2));
    assert_eq!(m.get("c"), None);
    m.remove("a");
    assert_eq!(m.get("a"), None);
    assert_eq!(m.entry(0), (&"b".to_string(), &2));
    m.clear();
    assert_eq!(m.len(), 0);
}

#[test]
fn fade_modes() {
    assert_eq!(FadeMode::default(), FadeMode::Beat);
    assert_eq!(FadeMode::Instant.beats(), 0);
    assert_eq!(FadeMode::Beats4.beats(), 4);
    assert_eq!(FadeMode::Beats16.beats(), 16);
}

#[test]
fn tap_tempo_averages_the_held_taps() {
    let mut t = TapTempo::new();
    assert_eq!(t.tap(1_000), None);
    assert_eq!(t.tap_count, 1);
    assert_eq!(t.tap(1_500), Some(500));
    assert_eq!(t.tap(2_100), Some(550));
    assert_eq!(t.taps, [None, Some(1_000), Some(1_500), Some(2_100)]);
    assert_eq!(t.tap(2_600), Some(533));
    assert_eq!(t.tap(3_000), Some(500));
    assert_eq!(t.taps, [Some(1_500), Some(2_100), Some(2_600), Some(3_000)]);
    t.remove_old_taps(10_000_002_500);
    assert_eq!(t.taps, [None, None, Some(2_600), Some(3_000)]);
    assert_eq!(t.tap_count, 5);
    t.remove_old_taps(20_000_000_000);
    assert_eq!(t.taps, [None, None, None, None]);
    assert_eq!(t.tap_count, 0);
}

use std::sync::Arc;
use svetd::command::{Command, Number, Value};
use svetd::fixture::Fixture;
use svetd::named::NameMap;
use svetd::profile::{OflChannel, OflMode, OflProfile};
use svetd::target::{ChannelList, Target};

fn bits(x: f32) -> u32 {
    x.to_bits()
}

fn channel(ty: &str) -> OflChannel {
    OflChannel { channel_type: ty.to_string(), color: None }
}

fn rgb_profile() -> Arc<OflProfile> {
    let mut ch = NameMap::new();
    ch.insert("Red".to_string(), channel("Single Color"));
    ch.insert("Green".to_string(), channel("Single Color"));
    ch.insert("Blue".to_string(), channel("Single Color"));
    Arc::new(OflProfile {
        name: "RGB".to_string(),
        available_channels: ch,
        modes: vec![OflMode { name: "3ch".to_string(), channels: vec!["Red".to_string(), "Green".to_string(), "Blue".to_string()] }],
    })
}

fn dimmer_profile() -> Arc<OflProfile> {
    let mut ch = NameMap::new();
    ch.insert("Dimmer".to_string(), channel("Intensity"));
    ch.insert("Red".to_string(), channel("Single Color"));
    ch.insert("Tilt".to_string(), channel("Tilt"));
    Arc::new(OflProfile {
        name: "DRT".to_string(),
        available_channels: ch,
        modes: vec![OflMode { name: "3ch".to_string(), channels: vec!["Dimmer".to_string(), "Red".to_string(), "Tilt".to_string()] }],
    })
}

fn level(target: Target, lit: &str) -> Command {
    Command::SetLevel { target, value: Value::Numeric(Number { literal: lit.to_string(), divisor: None, percent: false }) }
}

#[test]
fn colour_fixture_gets_a_virtual_dimmer() {
    let f = Fixture::new("Par", 10, rgb_profile(), 0);
    assert_eq!(f.name, "Par");
    assert_eq!(f.address, 10);
    assert_eq!(f.universe, 1);
    assert_eq!(f.parameters.len(), 4);
    assert_eq!(f.parameters.get("Red").unwrap().load(), bits(255.0));
    assert_eq!(f.parameters.get("Dimmer").unwrap().load(), 0);
}

#[test]
fn fixture_with_intensity_has_no_virtual_dimmer() {
    let f = Fixture::new("Spot", 1, dimmer_profile(), 0);
    assert_eq!(f.parameters.len(), 3);
    assert_eq!(f.parameters.get("Dimmer").unwrap().load(), 0);
    assert_eq!(f.parameters.get("Red").unwrap().load(), bits(255.0));
    assert_eq!(f.parameters.get("Tilt").unwrap().load(), 0);
}

#[test]
fn missing_mode_gives_no_parameters() {
    let f = Fixture::new("X", 1, rgb_profile(), 3);
    assert_eq!(f.parameters.len(), 0);
}

#[test]
fn level_and_colour_commands_set_parameters() {
    let mut f = Fixture::new("Par", 10, rgb_profile(), 0);
    let t = Target::Channels(ChannelList(vec![1]));
    f.handle_command(&level(t.copy(), "128"), bits(128.0));
    assert_eq!(f.parameters.get("Dimmer").unwrap().load(), bits(128.0));
    f.handle_command(&Command::SetLevel { target: t.copy(), value: Value::Semantic("half".to_string()) }, 0);
    assert_eq!(f.parameters.get("Dimmer").unwrap().load(), bits(255.0));
    f.handle_command(&Command::SetColor { target: t.copy(), color: Value::Semantic("PURPLE".to_string()) }, 0);
    assert_eq!(f.parameters.get("Red").unwrap().load(), bits(128.0));
    assert_eq!(f.parameters.get("Green").unwrap().load(), 0);
    assert_eq!(f.parameters.get("Blue").unwrap().load(), bits(128.0));
    assert!(f.parameters.get("White").is_none());
}

#[test]
fn virtual_dimmer_channels_are_returned_for_scaling() {
    let mut f = Fixture::new("Par", 10, rgb_profile(), 0);
    f.handle_command(&level(Target::Fixtures(vec![]), "100"), bits(100.0));
    let mut dmx = vec![7u8; 512];
    let mut times = vec![0u64; 512];
    let dimmed = f.render(&mut dmx, &mut times);
    assert_eq!(dimmed.len(), 3);
    assert_eq!(dimmed[0].addr, 9);
    assert_eq!(dimmed[0].value_bits, bits(255.0));
    assert_eq!(dimmed[0].dimmer_bits, bits(100.0));
    assert_eq!(dimmed[2].addr, 11);
    assert_eq!(dmx[9], 7);
    assert!(times[9] > 0);
    assert_eq!(times[12], 0);
}

#[test]
fn physical_dimmer_channels_are_written() {
    let mut f = Fixture::new("Spot", 2, dimmer_profile(), 0);
    f.handle_command(&level(Target::Fixtures(vec![]), "200.7"), bits(200.7));
    let mut dmx = vec![0u8; 4];
    let mut times = vec![0u64; 4];
    let dimmed = f.render(&mut dmx, &mut times);
    assert!(dimmed.is_empty());
    assert_eq!(dmx, vec![0, 200, 255, 0]);
}

#[test]
fn a_longer_time_buffer_is_written_only_under_the_dmx_buffer() {
    let mut f = Fixture::new("Spot", 2, dimmer_profile(), 0);
    f.handle_command(&level(Target::Fixtures(vec![]), "200.7"), bits(200.7));
    let mut dmx = vec![0u8; 2];
    let mut times = vec![5u64; 6];
    let dimmed = f.render(&mut dmx, &mut times);
    assert!(dimmed.is_empty());
    assert_eq!(dmx, vec![0, 200]);
    assert_eq!(times[0], 5);
    assert!(times[1] > 5);
    assert_eq!(&times[2..], &[5, 5, 5, 5]);
}

#[test]
fn commands_leave_other_parameters_and_their_times_alone() {
    let mut f = Fixture::new("Spot", 2, dimmer_profile(), 0);
    let red_time = f.parameters.get("Red").unwrap().last_updated();
    let tilt_time = f.parameters.get("Tilt").unwrap().last_updated();
    wait_a_tick();
    f.handle_command(&level(Target::Fixtures(vec![]), "10"), bits(10.0));
    assert_eq!(f.parameters.get("Red").unwrap().last_updated(), red_time);
    assert_eq!(f.parameters.get("Tilt").unwrap().last_updated(), tilt_time);
    assert!(f.parameters.get("Dimmer").unwrap().last_updated() > red_time);
    let dimmer_time = f.parameters.get("Dimmer").unwrap().last_updated();
    wait_a_tick();
    f.handle_command(&Command::SetColor { target: Target::Fixtures(vec![]), color: Value::Semantic("Red".to_string()) }, 0);
    assert_eq!(f.parameters.get("Dimmer").unwrap().last_updated(), dimmer_time);
    assert_eq!(f.parameters.get("Tilt").unwrap().last_updated(), tilt_time);
    assert_eq!(f.parameters.get("Red").unwrap().load(), bits(255.0));
    assert!(f.parameters.get("Red").unwrap().last_updated() > red_time);
}

fn wait_a_tick() {
    let t0 = svetd::param::FloatParam::now_micros();
    while svetd::param::FloatParam::now_micros() <= t0 {}
}

use svetd::command::{Command, Number, Value};
use svetd::osc::{handle_datagram, handle_packet, osc_cue, packet_refused, OscArg, OscCommand, OscInput, OscOutcome};
use svetd::target::Target;

fn msg(addr: &str, args: Vec<OscArg>) -> OscInput {
    OscInput::Message { addr: addr.to_string(), args }
}

fn f(x: f32) -> OscArg {
    OscArg::Float(x.to_bits())
}

#[test]
fn desk_messages_become_commands() {
    assert_eq!(handle_packet(&msg("/LS/DBO", vec![f(1.0)])), Some(OscCommand::On { target: "DBO".to_string() }));
    assert_eq!(handle_packet(&msg("/LS/DBO", vec![f(-0.0)])), Some(OscCommand::Off { target: "DBO".to_string() }));
    assert_eq!(handle_packet(&msg("/LS/DBO", vec![f(0.5)])), None);
    assert_eq!(
        handle_packet(&msg("/LS/Level/PB3", vec![f(0.25)])),
        Some(OscCommand::At { level: 0.25f32.to_bits(), target: "PB3".to_string() })
    );
    assert_eq!(
        handle_packet(&msg("/LS/Level/PB3", vec![OscArg::Other])),
        Some(OscCommand::At { level: 0, target: "PB3".to_string() })
    );
    assert_eq!(
        handle_packet(&msg("/LS/Level/PB/4", vec![f(2.0)])),
        Some(OscCommand::At { level: 2.0f32.to_bits(), target: "PB4".to_string() })
    );
    assert_eq!(handle_packet(&msg("/LS/Flash/PB/5", vec![f(1.0)])), Some(OscCommand::On { target: "PB5".to_string() }));
    assert_eq!(
        handle_packet(&msg("/LS/Executor/1/2/3", vec![f(0.0)])),
        Some(OscCommand::Off { target: "Exec 1.2.3".to_string() })
    );
    assert_eq!(handle_packet(&msg("/LS/Other", vec![])), None);
    assert_eq!(handle_packet(&msg("/XY/DBO", vec![f(1.0)])), None);
    assert_eq!(handle_packet(&OscInput::Bundle), None);
}

#[test]
fn messages_the_desk_cannot_handle_are_refused() {
    assert!(packet_refused(&msg("LS", vec![])));
    assert!(packet_refused(&msg("/LS", vec![])));
    assert!(packet_refused(&msg("/LS/DBO", vec![])));
    assert!(packet_refused(&msg("/LS/Flash/PB/5", vec![OscArg::Other])));
    assert!(packet_refused(&msg("/LS/Level/PB3", vec![])));
    assert!(!packet_refused(&msg("/LS/Level/PB3", vec![OscArg::Other])));
    assert!(!packet_refused(&msg("/XY", vec![])));
    assert!(!packet_refused(&OscInput::Bundle));
}

fn osc_message_bytes(addr: &str, level: f32) -> Vec<u8> {
    let mut v: Vec<u8> = addr.as_bytes().to_vec();
    v.push(0);
    while v.len() % 4 != 0 {
        v.push(0);
    }
    v.extend_from_slice(b",f\0\0");
    v.extend_from_slice(&level.to_be_bytes());
    v
}

#[test]
fn datagrams_are_decoded() {
    let bytes = osc_message_bytes("/LS/Level/PB7", 0.5);
    assert_eq!(
        handle_datagram(&bytes),
        OscOutcome::Handled(Some(OscCommand::At { level: 0.5f32.to_bits(), target: "PB7".to_string() }))
    );
    assert_eq!(handle_datagram(&vec![1, 2, 3]), OscOutcome::Malformed);
    let refused = osc_message_bytes("/LS", 1.0);
    assert_eq!(handle_datagram(&refused), OscOutcome::Refused);
}

#[test]
fn playback_commands_become_cues() {
    let c = osc_cue(&OscCommand::At { level: 0.5f32.to_bits(), target: "PB12".to_string() }, "0.5").unwrap();
    assert_eq!(c.name, "OSC");
    assert_eq!(
        c.commands,
        vec![Command::SetLevel {
            target: Target::Fixtures(vec!["F12".to_string()]),
            value: Value::Numeric(Number { literal: "0.5".to_string(), divisor: None, percent: false }),
        }]
    );
    let on = osc_cue(&OscCommand::On { target: "PB1".to_string() }, "").unwrap();
    assert_eq!(
        on.commands,
        vec![Command::SetLevel {
            target: Target::Fixtures(vec!["F1".to_string()]),
            value: Value::Numeric(Number { literal: "255.0".to_string(), divisor: None, percent: false }),
        }]
    );
    assert!(osc_cue(&OscCommand::Off { target: "PBx".to_string() }, "").is_none());
    assert!(osc_cue(&OscCommand::Off { target: "DBO".to_string() }, "").is_none());
}

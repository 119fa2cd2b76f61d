use svetd::command::{Command, Cue, Duration, Number, Value};
use svetd::effects::{Easing, Effect, MathMethod};
use svetd::parser::{
    command_has_zero_step, line_has_zero_step, parse_command, parse_command_line, parse_duration, parse_target,
    try_parse_command, try_parse_command_line, try_parse_target, ParserState,
};
use svetd::target::{ChannelList, Target};

fn num(lit: &str) -> Number {
    Number { literal: lit.to_string(), divisor: None, percent: false }
}

fn channels(v: Vec<u16>) -> Target {
    Target::Channels(ChannelList(v))
}

#[test]
fn level_on_one_channel_is_a_cli_cue() {
    let mut st = ParserState::new();
    let cue = parse_command_line("1@50", &mut st).unwrap().unwrap();
    assert_eq!(cue.name, "CLI");
    assert_eq!(cue.raw_commands, vec!["1@50".to_string()]);
    assert_eq!(cue.commands, vec![Command::SetLevel { target: channels(vec![1]), value: Value::Numeric(num("50")) }]);
}

#[test]
fn percent_level_is_scaled() {
    let mut st = ParserState::new();
    let cue = parse_command_line("  2@50%  ", &mut st).unwrap().unwrap();
    assert_eq!(cue.raw_commands, vec!["2@50%".to_string()]);
    assert_eq!(
        cue.commands,
        vec![Command::SetLevel {
            target: channels(vec![2]),
            value: Value::Numeric(Number { literal: "50".to_string(), divisor: None, percent: true }),
        }]
    );
}

#[test]
fn full_is_255_and_bang_is_ignored() {
    let mut st = ParserState::new();
    let cue = parse_command_line("f1..3@full!", &mut st).unwrap().unwrap();
    assert_eq!(
        cue.commands,
        vec![Command::SetLevel {
            target: Target::Fixtures(vec!["F1".to_string(), "F2".to_string(), "F3".to_string()]),
            value: Value::Numeric(num("255")),
        }]
    );
}

#[test]
fn stepped_range_with_colour() {
    let mut st = ParserState::new();
    let cue = parse_command_line("1..10*3@Red", &mut st).unwrap().unwrap();
    assert_eq!(
        cue.commands,
        vec![Command::SetColor { target: channels(vec![1, 4, 7, 10]), color: Value::Semantic("red".to_string()) }]
    );
}

#[test]
fn position_and_named_level() {
    let mut st = ParserState::new();
    let c1 = parse_command_line("gFront@up", &mut st).unwrap().unwrap();
    assert_eq!(
        c1.commands,
        vec![Command::SetPosition { target: Target::Groups(vec!["Front".to_string()]), pos: Value::Semantic("up".to_string()) }]
    );
    let c2 = parse_command_line("@half", &mut st).unwrap().unwrap();
    assert_eq!(
        c2.commands,
        vec![Command::SetLevel { target: Target::Groups(vec!["Front".to_string()]), value: Value::Semantic("half".to_string()) }]
    );
}

#[test]
fn mixed_target_sorts_and_dedups_channels() {
    let t = parse_target("5, 3, 3, f2, gAll").unwrap();
    assert_eq!(
        t,
        Target::Mixed(vec![
            channels(vec![3, 5]),
            Target::Fixtures(vec!["F2".to_string()]),
            Target::Groups(vec!["All".to_string()]),
        ])
    );
    assert_eq!(parse_target("fSpot"), Some(Target::Fixtures(vec!["Spot".to_string()])));
    assert_eq!(parse_target(" , "), None);
    assert_eq!(parse_target("x1"), None);
}

#[test]
fn effect_with_all_arguments() {
    let mut st = ParserState::new();
    let cmds = parse_command("1@fx(sin, 10%, 200, 2b, sine, add)", &mut st).unwrap();
    assert_eq!(
        cmds,
        vec![Command::StartEffect {
            target: channels(vec![1]),
            effect: Effect::Cycle {
                min_val: num("10"),
                max_val: num("200"),
                duration: Duration::Tempo(num("2")),
                easing: Easing::Sine,
                method: MathMethod::Add,
            },
        }]
    );
}

#[test]
fn random_effect_with_defaults() {
    let mut st = ParserState::new();
    let cmds = parse_command("1@fx(rnd)", &mut st).unwrap();
    assert_eq!(
        cmds,
        vec![Command::StartEffect {
            target: channels(vec![1]),
            effect: Effect::Random {
                min_val: num("0"),
                max_val: num("100"),
                duration: Duration::Tempo(num("1")),
                easing: Easing::Linear,
                method: MathMethod::Absolute,
            },
        }]
    );
}

#[test]
fn fade_to_full_over_seconds() {
    let mut st = ParserState::new();
    let cmds = parse_command("3@full/3s", &mut st).unwrap();
    assert_eq!(
        cmds,
        vec![Command::StartEffect {
            target: channels(vec![3]),
            effect: Effect::Fade { target_val: num("255"), duration: Duration::Time(num("3")) },
        }]
    );
}

#[test]
fn saved_effect_is_used_by_name() {
    let mut st = ParserState::new();
    let e = Effect::Fade { target_val: num("1"), duration: Duration::Time(num("2")) };
    st.save_effect("glow".to_string(), e.clone());
    assert_eq!(st.saved_effect("glow"), Some(e.clone()));
    assert_eq!(st.saved_effect("other"), None);
    let cmds = parse_command("1@glow", &mut st).unwrap();
    assert_eq!(cmds, vec![Command::StartEffect { target: channels(vec![1]), effect: e }]);
}

#[test]
fn held_commands_are_released_by_go() {
    let mut st = ParserState::new();
    assert_eq!(parse_command_line("1@50?", &mut st), Ok(None));
    assert_eq!(parse_command_line("2@red?", &mut st), Ok(None));
    let cue = parse_command_line("GO", &mut st).unwrap().unwrap();
    assert_eq!(cue.name, "Delayed");
    assert_eq!(cue.raw_commands, vec!["GO".to_string()]);
    assert_eq!(
        cue.commands,
        vec![
            Command::SetLevel { target: channels(vec![1]), value: Value::Numeric(num("50")) },
            Command::SetColor { target: channels(vec![2]), color: Value::Semantic("red".to_string()) },
        ]
    );
    assert_eq!(parse_command_line("", &mut st), Err("No pending commands".to_string()));
}

#[test]
fn a_plain_command_drops_held_commands() {
    let mut st = ParserState::new();
    assert_eq!(parse_command_line("1@50?", &mut st), Ok(None));
    assert!(parse_command_line("2@10", &mut st).unwrap().is_some());
    assert_eq!(parse_command_line("go", &mut st), Err("No pending commands".to_string()));
}

#[test]
fn go_and_stop_lists() {
    let mut st = ParserState::new();
    let g = parse_command_line("Go  Intro ", &mut st).unwrap().unwrap();
    assert_eq!(g.commands, vec![Command::StartCueList { list: "Intro".to_string() }]);
    assert_eq!(g.raw_commands, vec!["Go  Intro".to_string()]);
    let s = parse_command_line("stop all", &mut st).unwrap().unwrap();
    assert_eq!(s.commands, vec![Command::StopCueList { list: "all".to_string() }]);
}

#[test]
fn unreadable_command_is_refused() {
    let mut st = ParserState::new();
    assert_eq!(parse_command_line("hello", &mut st), Err("Unrecognized command format.".to_string()));
    assert_eq!(parse_command_line("@50", &mut st), Err("Unrecognized command format.".to_string()));
}

#[test]
fn target_without_action_is_remembered() {
    let mut st = ParserState::new();
    let c = parse_command_line("7", &mut st).unwrap().unwrap();
    assert_eq!(c.commands, vec![]);
    let c2 = parse_command_line("@30", &mut st).unwrap().unwrap();
    assert_eq!(c2.commands, vec![Command::SetLevel { target: channels(vec![7]), value: Value::Numeric(num("30")) }]);
}

#[test]
fn durations() {
    assert_eq!(parse_duration("2b"), Some(Duration::Tempo(num("2"))));
    assert_eq!(
        parse_duration("1/4b"),
        Some(Duration::Tempo(Number { literal: "1".to_string(), divisor: Some("4".to_string()), percent: false }))
    );
    assert_eq!(parse_duration("1/0b"), None);
    assert_eq!(parse_duration("1.5s"), Some(Duration::Time(num("1.5"))));
    assert_eq!(parse_duration("3"), Some(Duration::Time(num("3"))));
    assert_eq!(parse_duration("xs"), None);
}

#[test]
fn tempo_divisors_that_read_as_zero_are_refused() {
    assert_eq!(parse_duration("1/0.000b"), None);
    assert_eq!(parse_duration("1/-0e5b"), None);
    assert_eq!(parse_duration("1/1e-50b"), None);
    assert_eq!(parse_duration("1/7e-46b"), None);
    assert_eq!(parse_duration("1/0.7e-45b"), None);
    assert_eq!(parse_duration("1/1e-99999999999999999999999b"), None);
    assert_eq!(
        parse_duration("1/1e-45b"),
        Some(Duration::Tempo(Number { literal: "1".to_string(), divisor: Some("1e-45".to_string()), percent: false }))
    );
    assert_eq!(
        parse_duration("1/7.1e-46b"),
        Some(Duration::Tempo(Number { literal: "1".to_string(), divisor: Some("7.1e-46".to_string()), percent: false }))
    );
    assert_eq!(
        parse_duration("1/1e99999999999999999999999b"),
        Some(Duration::Tempo(Number {
            literal: "1".to_string(),
            divisor: Some("1e99999999999999999999999".to_string()),
            percent: false
        }))
    );
    assert!("7e-46".parse::<f32>().unwrap() == 0.0);
    assert!("7.1e-46".parse::<f32>().unwrap() != 0.0);
}

#[test]
fn zero_step_ranges_are_detected() {
    assert!(line_has_zero_step("1..5*0@50"));
    assert!(!line_has_zero_step("1..5*2@50"));
    assert!(!line_has_zero_step("go 1..5*0"));
    assert!(command_has_zero_step("1..5*0@50"));
    assert!(!command_has_zero_step("1..5@50"));
}

#[test]
fn cue_new_has_no_console_line() {
    let c = Cue::new("OSC", vec![]);
    assert_eq!(c.name, "OSC");
    assert!(c.raw_commands.is_empty());
}

#[test]
fn zero_step_lines_are_not_read() {
    let mut st = ParserState::new();
    assert_eq!(try_parse_command_line("1..5*0@50", &mut st), None);
    assert_eq!(try_parse_command("1..5*0@50", &mut st), None);
    assert_eq!(try_parse_target("1..5*0"), None);
    assert_eq!(try_parse_target("1..5*2"), Some(Some(channels(vec![1, 3, 5]))));
    let r = try_parse_command_line("4@full", &mut st).unwrap().unwrap().unwrap();
    assert_eq!(r.commands, vec![Command::SetLevel { target: channels(vec![4]), value: Value::Numeric(num("255")) }]);
    assert_eq!(
        try_parse_command("@10", &mut st),
        Some(Some(vec![Command::SetLevel { target: channels(vec![4]), value: Value::Numeric(num("10")) }]))
    );
}

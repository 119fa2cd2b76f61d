//! OSC input: the messages of a lighting desk's playback controls, and the cues they become.
//!
//! Float arguments are kept as their binary32 bits.
use vstd::prelude::*;
use crate::text::{split_char, starts_with, chars_of, string_of, split_on_char, eq_chars, starts_with_chars, pieces};
use crate::numeric::{
    parse_u16_spec, parse_u16_chars, push_decimal, is_float_literal, is_zero_literal, without_sign,
    is_special_float, first_exp, mantissa_ok, mantissa_digits, digits_value, fraction_len,
    literal_exponent,
};
use crate::text::{ascii_lower, is_digit};
use crate::decimal::pow10;
use vstd::arithmetic::power2::pow2;
use crate::parser::fixture_name;
use crate::command::{Cue, SpecCue, Command, SpecCommand, Value, SpecValue, Number, SpecNumber, commands_view};
use crate::target::{Target, SpecTarget, strings_view};

verus! {

/// The binary32 value 1.0.
pub const BITS_ONE: u32 = 0x3f80_0000;

/// An argument of an OSC message: a float (by its bits) or anything else.
#[derive(Debug, Clone, Copy, PartialEq, Eq, Structural)]
pub enum OscArg {
    Float(u32),
    Other,
}

/// A decoded OSC packet: a message with its address and arguments, or a bundle.
#[derive(Debug, Clone, PartialEq, Eq)]
pub enum OscInput {
    Message { addr: String, args: Vec<OscArg> },
    Bundle,
}

pub enum SpecOscInput {
    Message { addr: Seq<char>, args: Seq<OscArg> },
    Bundle,
}

impl View for OscInput {
    type V = SpecOscInput;

    open spec fn view(&self) -> SpecOscInput {
        match self {
            OscInput::Message { addr, args } => SpecOscInput::Message { addr: addr@, args: args@ },
            OscInput::Bundle => SpecOscInput::Bundle,
        }
    }
}

pub open spec fn opt_input_view(i: Option<OscInput>) -> Option<SpecOscInput> {
    match i {
        Some(x) => Some(x@),
        None => None,
    }
}

/// What `rosc::decoder::decode_udp` makes of a datagram, when it decodes.
pub uninterp spec fn osc_decoded(bytes: Seq<u8>) -> Option<SpecOscInput>;

/// Decodes a datagram with `rosc::decoder::decode_udp`; bytes after the packet are ignored.
/// What the decoder returns is named by `osc_decoded`, not stated.
#[verifier::external_body]
fn decode_osc(bytes: &Vec<u8>) -> (r: Option<OscInput>)
    ensures
        opt_input_view(r) == osc_decoded(bytes@),
{
    match rosc::decoder::decode_udp(bytes.as_slice()) {
        Ok((_, rosc::OscPacket::Message(m))) => Some(OscInput::Message {
            addr: m.addr,
            args: m.args.into_iter().map(|a| match a {
                rosc::OscType::Float(x) => OscArg::Float(x.to_bits()),
                _ => OscArg::Other,
            }).collect(),
        }),
        Ok((_, rosc::OscPacket::Bundle(_))) => Some(OscInput::Bundle),
        Err(_) => None,
    }
}

/// A command from the desk; `At` carries a level (binary32 bits).
#[derive(Debug, Clone, PartialEq, Eq)]
pub enum OscCommand {
    At { level: u32, target: String },
    On { target: String },
    Off { target: String },
}

pub enum SpecOscCommand {
    At { level: u32, target: Seq<char> },
    On { target: Seq<char> },
    Off { target: Seq<char> },
}

impl View for OscCommand {
    type V = SpecOscCommand;

    open spec fn view(&self) -> SpecOscCommand {
        match self {
            OscCommand::At { level, target } => SpecOscCommand::At { level: *level, target: target@ },
            OscCommand::On { target } => SpecOscCommand::On { target: target@ },
            OscCommand::Off { target } => SpecOscCommand::Off { target: target@ },
        }
    }
}

pub open spec fn opt_osc_view(c: Option<OscCommand>) -> Option<SpecOscCommand> {
    match c {
        Some(x) => Some(x@),
        None => None,
    }
}

/// A switch value: 1.0 is on, 0.0 (either sign) is off, anything else is neither.
pub open spec fn switch(bits: u32, target: Seq<char>) -> Option<SpecOscCommand> {
    if bits == BITS_ONE {
        Some(SpecOscCommand::On { target })
    } else if bits == 0 || bits == 0x8000_0000 {
        Some(SpecOscCommand::Off { target })
    } else {
        None
    }
}

/// The address patterns whose first argument must be a float.
pub open spec fn float_pattern(n: int, w: Seq<char>) -> bool {
    ||| (n == 3 && w == "DBO"@)
    ||| (n == 5 && w == "Level"@)
    ||| (n == 5 && w == "Flash"@)
    ||| (n == 6 && w == "Executor"@)
}

/// Messages that are not handled: an address without a second part; and under `/LS`, an
/// address without a third part, or a known pattern without the first argument it reads, or
/// whose first argument must be a float and is not.
pub open spec fn message_refused(addr: Seq<char>, args: Seq<OscArg>) -> bool {
    let parts = split_char(addr, '/');
    ||| parts.len() < 2
    ||| (parts[1] == "LS"@ && (parts.len() < 3 || {
        let n = parts.len() as int;
        let w = parts[2];
        if float_pattern(n, w) {
            args.len() == 0 || args[0] is Other
        } else if n == 4 && w == "Level"@ {
            args.len() == 0
        } else {
            false
        }
    }))
}

pub open spec fn input_refused(i: SpecOscInput) -> bool {
    match i {
        SpecOscInput::Message { addr, args } => message_refused(addr, args),
        SpecOscInput::Bundle => false,
    }
}

pub open spec fn first_bits(args: Seq<OscArg>) -> u32 {
    match args[0] {
        OscArg::Float(b) => b,
        OscArg::Other => 0,
    }
}

/// The command a message under `/LS` gives:
/// `/LS/DBO` switches `DBO`; `/LS/Level/<t>` sets `<t>` to the level (0 when the argument is
/// not a float); `/LS/Level/<a>/<b>` sets `<a><b>`; `/LS/Flash/<a>/<b>` switches `<a><b>`;
/// `/LS/Executor/<a>/<b>/<c>` switches `Exec <a>.<b>.<c>`; other messages give none.
pub open spec fn message_command(addr: Seq<char>, args: Seq<OscArg>) -> Option<SpecOscCommand> {
    let parts = split_char(addr, '/');
    if parts[1] != "LS"@ {
        None
    } else {
        let n = parts.len() as int;
        let w = parts[2];
        if n == 3 && w == "DBO"@ {
            switch(first_bits(args), parts[2])
        } else if n == 4 && w == "Level"@ {
            Some(SpecOscCommand::At { level: first_bits(args), target: parts[3] })
        } else if n == 5 && w == "Level"@ {
            Some(SpecOscCommand::At { level: first_bits(args), target: parts[3] + parts[4] })
        } else if n == 5 && w == "Flash"@ {
            switch(first_bits(args), parts[3] + parts[4])
        } else if n == 6 && w == "Executor"@ {
            switch(first_bits(args), "Exec "@ + parts[3] + seq!['.'] + parts[4] + seq!['.'] + parts[5])
        } else {
            None
        }
    }
}

pub open spec fn input_command(i: SpecOscInput) -> Option<SpecOscCommand> {
    match i {
        SpecOscInput::Message { addr, args } => message_command(addr, args),
        SpecOscInput::Bundle => None,
    }
}

fn is_word(s: &Vec<char>, w: &str) -> (r: bool)
    ensures
        r == (s@ == w@),
{
    eq_chars(s, &chars_of(w))
}

fn switch_exec(bits: u32, target: Vec<char>) -> (r: Option<OscCommand>)
    ensures
        opt_osc_view(r) == switch(bits, target@),
{
    if bits == BITS_ONE {
        Some(OscCommand::On { target: string_of(&target) })
    } else if bits == 0 || bits == 0x8000_0000 {
        Some(OscCommand::Off { target: string_of(&target) })
    } else {
        None
    }
}

fn concat(a: &Vec<char>, b: &Vec<char>) -> (r: Vec<char>)
    ensures
        r@ == a@ + b@,
{
    let mut r = crate::text::subvec(a, 0, a.len());
    assert(a@.subrange(0, a@.len() as int) =~= a@);
    let mut i: usize = 0;
    while i < b.len()
        invariant
            i <= b.len(),
            r@ == a@ + b@.take(i as int),
        decreases b.len() - i,
    {
        r.push(b[i]);
        i = i + 1;
        assert(r@ =~= a@ + b@.take(i as int));
    }
    assert(b@.take(i as int) =~= b@);
    r
}

/// The command of a decoded packet (see `message_command`); bundles give none.
pub fn handle_packet(packet: &OscInput) -> (r: Option<OscCommand>)
    requires
        !input_refused(packet@),
    ensures
        opt_osc_view(r) == input_command(packet@),
{
    match packet {
        OscInput::Bundle => None,
        OscInput::Message { addr, args } => {
            let parts = split_on_char(&chars_of(addr.as_str()), '/');
            assert(parts@.len() == split_char(addr@, '/').len());
            assert(parts@[1]@ == split_char(addr@, '/')[1]);
            if !is_word(&parts[1], "LS") {
                return None;
            }
            assert(parts@[2]@ == split_char(addr@, '/')[2]);
            let n = parts.len();
            let w = &parts[2];
            let bits = if args.len() > 0 {
                match args[0] {
                    OscArg::Float(b) => b,
                    OscArg::Other => 0,
                }
            } else {
                0
            };
            if n == 3 && is_word(w, "DBO") {
                let t = crate::text::subvec(w, 0, w.len());
                assert(t@ =~= split_char(addr@, '/')[2]);
                switch_exec(bits, t)
            } else if n == 4 && is_word(w, "Level") {
                assert(parts@[3]@ == split_char(addr@, '/')[3]);
                Some(OscCommand::At { level: bits, target: string_of(&parts[3]) })
            } else if n == 5 && is_word(w, "Level") {
                assert(parts@[3]@ == split_char(addr@, '/')[3]);
                assert(parts@[4]@ == split_char(addr@, '/')[4]);
                Some(OscCommand::At { level: bits, target: string_of(&concat(&parts[3], &parts[4])) })
            } else if n == 5 && is_word(w, "Flash") {
                assert(parts@[3]@ == split_char(addr@, '/')[3]);
                assert(parts@[4]@ == split_char(addr@, '/')[4]);
                let t = concat(&parts[3], &parts[4]);
                let r = switch_exec(bits, t);
                assert(opt_osc_view(r) == input_command(packet@));
                r
            } else if n == 6 && is_word(w, "Executor") {
                assert(parts@[3]@ == split_char(addr@, '/')[3]);
                assert(parts@[4]@ == split_char(addr@, '/')[4]);
                assert(parts@[5]@ == split_char(addr@, '/')[5]);
                let dot = vec!['.'];
                let t = concat(&concat(&concat(&concat(&chars_of("Exec "), &parts[3]), &dot), &parts[4]), &dot);
                let t = concat(&t, &parts[5]);
                assert(dot@ =~= seq!['.']);
                let ghost ps = split_char(addr@, '/');
                assert(t@ =~= "Exec "@ + ps[3] + seq!['.'] + ps[4] + seq!['.'] + ps[5]);
                let r = switch_exec(bits, t);
                assert(opt_osc_view(r) == input_command(packet@));
                r
            } else {
                None
            }
        },
    }
}

/// Whether a decoded packet is refused (see `message_refused`).
pub fn packet_refused(packet: &OscInput) -> (r: bool)
    ensures
        r == input_refused(packet@),
{
    match packet {
        OscInput::Bundle => false,
        OscInput::Message { addr, args } => {
            let parts = split_on_char(&chars_of(addr.as_str()), '/');
            assert(parts@.len() == split_char(addr@, '/').len());
            if parts.len() < 2 {
                return true;
            }
            assert(parts@[1]@ == split_char(addr@, '/')[1]);
            if !is_word(&parts[1], "LS") {
                return false;
            }
            if parts.len() < 3 {
                return true;
            }
            assert(parts@[2]@ == split_char(addr@, '/')[2]);
            let n = parts.len();
            let w = &parts[2];
            let float_first = (n == 3 && is_word(w, "DBO")) || (n == 5 && is_word(w, "Level")) || (n == 5
                && is_word(w, "Flash")) || (n == 6 && is_word(w, "Executor"));
            if float_first {
                args.len() == 0 || args[0] == OscArg::Other
            } else if n == 4 && is_word(w, "Level") {
                args.len() == 0
            } else {
                false
            }
        },
    }
}

/// What became of a datagram.
#[derive(Debug, Clone, PartialEq, Eq)]
pub enum OscOutcome {
    /// It did not decode.
    Malformed,
    /// It decoded to a refused message (see `message_refused`).
    Refused,
    /// It decoded, and gave this command or none.
    Handled(Option<OscCommand>),
}

/// Decodes a datagram and reads its command (see `handle_packet`).
pub fn handle_datagram(bytes: &Vec<u8>) -> (r: OscOutcome)
    ensures
        match osc_decoded(bytes@) {
            None => r == OscOutcome::Malformed,
            Some(p) => if input_refused(p) {
                r == OscOutcome::Refused
            } else {
                r matches OscOutcome::Handled(c) && opt_osc_view(c) == input_command(p)
            },
        },
{
    match decode_osc(bytes) {
        None => OscOutcome::Malformed,
        Some(p) => {
            if packet_refused(&p) {
                OscOutcome::Refused
            } else {
                OscOutcome::Handled(handle_packet(&p))
            }
        },
    }
}

/// The target of a desk command.
pub open spec fn osc_target(c: SpecOscCommand) -> Seq<char> {
    match c {
        SpecOscCommand::At { target, .. } => target,
        SpecOscCommand::On { target } => target,
        SpecOscCommand::Off { target } => target,
    }
}

/// The cue a desk command gives: a command for playback `PB<n>` sets the level of fixture
/// `F<n>` (the level given, full for on, zero for off; `at_literal` is the decimal text of the
/// level of an `At`); other targets give no cue.
pub open spec fn osc_cue_spec(c: SpecOscCommand, at_literal: Seq<char>) -> Option<SpecCue> {
    let t = osc_target(c);
    if starts_with(t, "PB"@) {
        match parse_u16_spec(t.skip(2)) {
            Some(num) => {
                let lit = match c {
                    SpecOscCommand::At { .. } => at_literal,
                    SpecOscCommand::On { .. } => "255.0"@,
                    SpecOscCommand::Off { .. } => "0.0"@,
                };
                Some(SpecCue {
                    name: "OSC"@,
                    raw_commands: Seq::empty(),
                    commands: seq![SpecCommand::SetLevel {
                        target: SpecTarget::Fixtures(seq![fixture_name(num as nat)]),
                        value: SpecValue::Numeric(SpecNumber { literal: lit, divisor: None, percent: false }),
                    }],
                })
            },
            None => None,
        }
    } else {
        None
    }
}

/// The cue a desk command gives (see `osc_cue_spec`).
pub fn osc_cue(cmd: &OscCommand, at_literal: &str) -> (r: Option<Cue>)
    ensures
        match r {
            Some(c) => osc_cue_spec(cmd@, at_literal@) == Some(c@),
            None => osc_cue_spec(cmd@, at_literal@) is None,
        },
{
    let target = match cmd {
        OscCommand::At { target, .. } => target,
        OscCommand::On { target } => target,
        OscCommand::Off { target } => target,
    };
    let t = chars_of(target.as_str());
    proof {
        reveal_strlit("PB");
    }
    if !starts_with_chars(&t, &chars_of("PB")) {
        return None;
    }
    let rest = crate::text::skip_chars(&t, 2);
    match parse_u16_chars(&rest) {
        Some(num) => {
            let lit = match cmd {
                OscCommand::At { .. } => at_literal.to_owned(),
                OscCommand::On { .. } => "255.0".to_owned(),
                OscCommand::Off { .. } => "0.0".to_owned(),
            };
            let mut name: Vec<char> = vec!['F'];
            push_decimal(&mut name, num);
            assert(name@ =~= fixture_name(num as nat));
            let fixtures = vec![string_of(&name)];
            assert(strings_view(fixtures@) =~= seq![fixture_name(num as nat)]);
            let value = Value::Numeric(Number { literal: lit, divisor: None, percent: false });
            let command = Command::SetLevel { target: Target::Fixtures(fixtures), value };
            let ghost cv = command@;
            let c = Cue::new("OSC", vec![command]);
            proof {
                reveal_strlit("OSC");
                reveal_strlit("255.0");
                reveal_strlit("0.0");
            }
            assert(commands_view(c.commands@) =~= seq![cv]);
            assert(c@.raw_commands =~= Seq::<Seq<char>>::empty());
            Some(c)
        },
        None => None,
    }
}

/// The level a desk command sets for fixture `F<n>` when its target is playback `PB<n>`.
pub open spec fn cue_level(c: Option<SpecCue>) -> Option<SpecNumber> {
    match c {
        Some(cue) => if cue.commands.len() == 1 {
            match cue.commands[0] {
                SpecCommand::SetLevel { value: SpecValue::Numeric(num), .. } => Some(num),
                _ => None,
            }
        } else {
            None
        },
        None => None,
    }
}

proof fn lemma_zero_level_literal()
    ensures
        is_float_literal("0.0"@),
        is_zero_literal("0.0"@),
{
    reveal_strlit("0.0");
    let s = "0.0"@;
    assert(s.len() == 3 && s[0] == '0' && s[1] == '.' && s[2] == '0');
    assert(without_sign(s) == s);
    reveal_strlit("inf");
    reveal_strlit("nan");
    reveal_strlit("infinity");
    assert(!is_special_float(s)) by {
        assert(ascii_lower(s[0]) != ascii_lower("inf"@[0]));
        assert(ascii_lower(s[0]) != ascii_lower("nan"@[0]));
        assert("infinity"@.len() == 8);
    }
    reveal_with_fuel(first_exp, 4);
    assert(s.drop_first().drop_first().drop_first().len() == 0);
    assert(first_exp(s) == 3);
    let m = s.take(3);
    assert(m =~= s);
    assert(mantissa_ok(m)) by {
        assert(is_digit(m[0]));
    }
    reveal_with_fuel(mantissa_digits, 4);
    assert(m.drop_last() =~= seq!['0', '.']);
    assert(m.drop_last().drop_last() =~= seq!['0']);
    assert(m.drop_last().drop_last().drop_last() =~= Seq::<char>::empty());
    let md = mantissa_digits(m);
    assert(md =~= seq!['0', '0']);
    assert(md.drop_last() =~= seq!['0']);
    assert(md.drop_last().drop_last() =~= Seq::<char>::empty());
    reveal_with_fuel(digits_value, 3);
    assert(digits_value(md) == 0);
}

proof fn lemma_full_level_literal()
    ensures
        is_float_literal("255.0"@),
        !is_zero_literal("255.0"@),
{
    reveal_strlit("255.0");
    let s = "255.0"@;
    assert(s.len() == 5 && s[0] == '2' && s[1] == '5' && s[2] == '5' && s[3] == '.' && s[4] == '0');
    assert(without_sign(s) == s);
    reveal_strlit("inf");
    reveal_strlit("nan");
    reveal_strlit("infinity");
    assert(!is_special_float(s)) by {
        assert("inf"@.len() == 3 && "nan"@.len() == 3 && "infinity"@.len() == 8);
    }
    reveal_with_fuel(first_exp, 6);
    assert(s.drop_first().drop_first().drop_first().drop_first().drop_first().len() == 0);
    assert(first_exp(s) == 5);
    let m = s.take(5);
    assert(m =~= s);
    assert(mantissa_ok(m)) by {
        assert(is_digit(m[0]));
    }
    reveal_with_fuel(mantissa_digits, 6);
    let m1 = m.drop_last();
    let m2 = m1.drop_last();
    let m3 = m2.drop_last();
    let m4 = m3.drop_last();
    assert(m1 =~= seq!['2', '5', '5', '.']);
    assert(m2 =~= seq!['2', '5', '5']);
    assert(m3 =~= seq!['2', '5']);
    assert(m4 =~= seq!['2']);
    assert(m4.drop_last() =~= Seq::<char>::empty());
    let md = mantissa_digits(m);
    assert(md =~= seq!['2', '5', '5', '0']);
    reveal_with_fuel(digits_value, 5);
    assert(md.drop_last() =~= seq!['2', '5', '5']);
    assert(md.drop_last().drop_last() =~= seq!['2', '5']);
    assert(md.drop_last().drop_last().drop_last() =~= seq!['2']);
    assert(md.drop_last().drop_last().drop_last().drop_last() =~= Seq::<char>::empty());
    assert(digits_value(md) == 2550);
    assert(m1.contains('.')) by {
        assert(m1[3] == '.');
    }
    assert(fraction_len(m) == fraction_len(m1) + 1);
    assert(fraction_len(m1) == 0);
    assert(literal_exponent(s) == 0);
    vstd::arithmetic::power2::lemma_pow2_pos(150);
    assert(pow10(1) == 10) by {
        reveal_with_fuel(pow10, 2);
    }
    let t = pow2(150);
    assert(2550 * t > 10) by (nonlinear_arith)
        requires
            t > 0,
    ;
}

/// A desk command for playback `PB<n>` sets fixture `F<n>`: off sets a level that reads as
/// zero, on a level that does not, so the two differ; a level command sets the level given.
pub proof fn law_osc_switch_levels(t: Seq<char>, n: u16, at_literal: Seq<char>, bits: u32)
    requires
        starts_with(t, "PB"@),
        parse_u16_spec(t.skip(2)) == Some(n),
    ensures
        cue_level(osc_cue_spec(SpecOscCommand::Off { target: t }, at_literal)) matches Some(off)
            && is_float_literal(off.literal) && is_zero_literal(off.literal) && off.divisor is None && !off.percent,
        cue_level(osc_cue_spec(SpecOscCommand::On { target: t }, at_literal)) matches Some(on)
            && is_float_literal(on.literal) && !is_zero_literal(on.literal) && on.divisor is None && !on.percent,
        cue_level(osc_cue_spec(SpecOscCommand::At { level: bits, target: t }, at_literal)) matches Some(at)
            && at.literal == at_literal,
        osc_cue_spec(SpecOscCommand::Off { target: t }, at_literal) matches Some(c)
            && c.commands[0] matches SpecCommand::SetLevel { target: SpecTarget::Fixtures(fs), .. }
            && fs == seq![fixture_name(n as nat)],
{
    lemma_zero_level_literal();
    lemma_full_level_literal();
}

} // verus!

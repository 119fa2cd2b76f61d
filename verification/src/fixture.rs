//! A patched fixture: its parameters, how commands set them, and how they become DMX bytes.
use vstd::prelude::*;
use std::sync::Arc;
use crate::named::{NameMap, lookup, insert_entry, map_entries, lemma_insert_map_entries, lemma_key_index_map_entries};
use crate::param::{FloatParam, BITS_255, bits_as_u8, bits_to_u8};
use crate::profile::{OflProfile, OflChannel};
use crate::command::{Command, Value};
use crate::target::{strings_view, Target};
use crate::text::{chars_of, eq_chars, to_lowercase_chars, str_to_lowercase};

verus! {

/// The kinds of things a fixture can do.
#[derive(Debug, Clone, Copy, PartialEq, Eq, Structural)]
pub enum FixtureTraitType {
    Dimmer,
    Color,
    Pan,
    Tilt,
    Strobe,
    Gobo,
    Iris,
    Zoom,
    Prism,
    Control,
}

/// The binary32 value 128.0.
pub const BITS_128: u32 = 0x4300_0000;

/// The type of channel `ch` in profile `p`.
pub open spec fn channel_type(p: OflProfile, ch: Seq<char>) -> Option<Seq<char>> {
    match lookup(p.available_channels@, ch) {
        Some(c) => Some(c.channel_type@),
        None => None,
    }
}

pub open spec fn has_type(p: OflProfile, ch: Seq<char>, ty: Seq<char>) -> bool {
    channel_type(p, ch) == Some(ty)
}

/// A colour channel starts at full, any other channel at zero.
pub open spec fn default_bits(p: OflProfile, ch: Seq<char>) -> u32 {
    if has_type(p, ch, "Single Color"@) {
        BITS_255
    } else {
        0
    }
}

/// The parameter values for the channels `chans`, set in order.
pub open spec fn mode_params(p: OflProfile, chans: Seq<Seq<char>>) -> Seq<(Seq<char>, u32)>
    decreases chans.len(),
{
    if chans.len() == 0 {
        Seq::empty()
    } else {
        insert_entry(mode_params(p, chans.drop_last()), chans.last(), default_bits(p, chans.last()))
    }
}

pub open spec fn any_type(p: OflProfile, chans: Seq<Seq<char>>, ty: Seq<char>) -> bool {
    exists|i: int| 0 <= i < chans.len() && has_type(p, #[trigger] chans[i], ty)
}

/// The channels of mode `mode_index`, none when the profile has no such mode.
pub open spec fn mode_channels(p: OflProfile, mode_index: usize) -> Seq<Seq<char>> {
    if mode_index < p.modes.len() {
        strings_view(p.modes[mode_index as int].channels@)
    } else {
        Seq::empty()
    }
}

/// The parameters a new fixture has: one per channel of its mode, and a virtual `Dimmer` when
/// the mode has colour channels but no intensity channel.
pub open spec fn initial_params(p: OflProfile, mode_index: usize) -> Seq<(Seq<char>, u32)> {
    let chans = mode_channels(p, mode_index);
    let base = mode_params(p, chans);
    if !any_type(p, chans, "Intensity"@) && any_type(p, chans, "Single Color"@) {
        insert_entry(base, "Dimmer"@, 0u32)
    } else {
        base
    }
}

/// The parameters of a fixture by name, with the bits of their values.
pub open spec fn param_bits(s: Seq<(Seq<char>, FloatParam)>) -> Seq<(Seq<char>, u32)> {
    map_entries(s, |fp: FloatParam| fp@.0)
}

/// A patched fixture.
pub struct Fixture {
    pub name: String,
    pub address: u16,
    pub universe: u16,
    pub profile: Arc<OflProfile>,
    pub mode_index: usize,
    pub parameters: NameMap<FloatParam>,
}

fn type_is(profile: &OflProfile, ch: &String, ty: &str) -> (r: bool)
    ensures
        r == has_type(*profile, ch@, ty@),
{
    match profile.available_channels.get(ch.as_str()) {
        Some(def) => eq_chars(&chars_of(def.channel_type.as_str()), &chars_of(ty)),
        None => false,
    }
}

/// Sets `name` to `bits` when the fixture has such a parameter.
pub open spec fn set_if_present(s: Seq<(Seq<char>, u32)>, name: Seq<char>, bits: u32) -> Seq<(Seq<char>, u32)> {
    if lookup(s, name) is Some {
        insert_entry(s, name, bits)
    } else {
        s
    }
}

/// The red, green and blue levels of a colour name (lower case).
pub open spec fn color_bits(c: Seq<char>) -> (u32, u32, u32) {
    if c == "red"@ {
        (BITS_255, 0, 0)
    } else if c == "green"@ {
        (0, BITS_255, 0)
    } else if c == "blue"@ {
        (0, 0, BITS_255)
    } else if c == "purple"@ {
        (BITS_128, 0, BITS_128)
    } else if c == "white"@ {
        (BITS_255, BITS_255, BITS_255)
    } else {
        (0, 0, 0)
    }
}

/// The parameter values after a command. A level goes to `Dimmer` (a named level is full,
/// a numeric one is `level_bits`); a colour name sets `Red`, `Green`, `Blue` and `White`;
/// other commands change nothing.
pub open spec fn after_command(s: Seq<(Seq<char>, u32)>, cmd: Command, level_bits: u32) -> Seq<(Seq<char>, u32)> {
    match cmd {
        Command::SetLevel { value, .. } => set_if_present(
            s,
            "Dimmer"@,
            match value {
                Value::Numeric(_) => level_bits,
                Value::Semantic(_) => BITS_255,
            },
        ),
        Command::SetColor { color: Value::Semantic(c), .. } => {
            let lower = str_to_lowercase(c@);
            let (r, g, b) = color_bits(lower);
            set_if_present(
                set_if_present(
                    set_if_present(set_if_present(s, "Red"@, r), "Green"@, g),
                    "Blue"@,
                    b,
                ),
                "White"@,
                if lower == "white"@ { BITS_255 } else { 0 },
            )
        },
        _ => s,
    }
}

/// Whether `handle_command` writes the parameter `n` for `cmd` (when the fixture has it): the
/// dimmer for a level, the colour parameters for a named colour, nothing otherwise.
pub open spec fn command_writes(cmd: Command, n: Seq<char>) -> bool {
    match cmd {
        Command::SetLevel { .. } => n == "Dimmer"@,
        Command::SetColor { color: Value::Semantic(_), .. } => n == "Red"@ || n == "Green"@ || n == "Blue"@ || n == "White"@,
        _ => false,
    }
}

/// The address of the `i`-th channel of a fixture at `address` (DMX addresses count from 1).
pub open spec fn channel_addr(address: u16, i: int) -> int {
    address - 1 + i
}

/// A colour channel whose level the fixture's virtual dimmer scales.
pub struct DimmedChannel {
    pub addr: usize,
    pub value_bits: u32,
    pub dimmer_bits: u32,
}

/// What rendering writes for the `i`-th channel: the byte (none when the caller has to scale
/// it by the dimmer), the time, and the values to scale.
pub open spec fn channel_output(f: Fixture, i: int) -> (Option<u8>, u64, Option<(u32, u32)>) {
    let p = *f.profile;
    let chans = mode_channels(p, f.mode_index);
    let ch = chans[i];
    let params = f.parameters@;
    let physical = any_type(p, chans, "Intensity"@);
    let (val, t) = match lookup(params, ch) {
        Some(fp) => fp@,
        None => (0u32, 0u64),
    };
    let dimmed = !physical && has_type(p, ch, "Single Color"@);
    let dimmer = lookup(params, "Dimmer"@);
    let dimmer_time: u64 = match dimmer {
        Some(d) => d@.1,
        None => 0,
    };
    let time = if dimmed && dimmer_time > t { dimmer_time } else { t };
    if dimmed && dimmer is Some {
        (None, time, Some((val, dimmer.unwrap()@.0)))
    } else {
        (Some(bits_as_u8(val)), time, None)
    }
}

impl Fixture {
    /// A fixture with the parameters of `initial_params`.
    pub fn new(name: &str, address: u16, profile: Arc<OflProfile>, mode_index: usize) -> (r: Fixture)
        ensures
            r.name@ == name@,
            r.address == address,
            r.universe == 1,
            r.profile == profile,
            r.mode_index == mode_index,
            param_bits(r.parameters@) == initial_params(*profile, mode_index),
    {
        let mut parameters: NameMap<FloatParam> = NameMap::new();
        assert(param_bits(parameters@) =~= Seq::<(Seq<char>, u32)>::empty());
        if mode_index < profile.modes.len() {
            let mode = &profile.modes[mode_index];
            let ghost chans = strings_view(mode.channels@);
            let mut has_dimmer = false;
            let mut has_color = false;
            let mut i: usize = 0;
            while i < mode.channels.len()
                invariant
                    i <= mode.channels.len(),
                    chans == strings_view(mode.channels@),
                    chans == mode_channels(*profile, mode_index),
                    param_bits(parameters@) == mode_params(*profile, chans.take(i as int)),
                    has_dimmer == any_type(*profile, chans.take(i as int), "Intensity"@),
                    has_color == any_type(*profile, chans.take(i as int), "Single Color"@),
                decreases mode.channels.len() - i,
            {
                let ch = &mode.channels[i];
                let color = type_is(&profile, ch, "Single Color");
                let intensity = type_is(&profile, ch, "Intensity");
                let bits = if color {
                    BITS_255
                } else {
                    0
                };
                let fp = FloatParam::new(bits);
                let ghost before = parameters@;
                let ghost fpv = fp;
                parameters.insert(ch.clone(), fp);
                proof {
                    lemma_insert_map_entries(before, |q: FloatParam| q@.0, ch@, fpv);
                    let t = chans.take(i + 1);
                    assert(t.drop_last() =~= chans.take(i as int));
                    assert(t.last() == ch@);
                    assert(any_type(*profile, t, "Intensity"@) == (has_dimmer || intensity)) by {
                        if intensity {
                            assert(has_type(*profile, t[i as int], "Intensity"@));
                        }
                        if has_dimmer {
                            let k = choose|k: int| 0 <= k < i && has_type(*profile, #[trigger] chans.take(i as int)[k], "Intensity"@);
                            assert(t[k] == chans.take(i as int)[k]);
                        }
                        if any_type(*profile, t, "Intensity"@) {
                            let k = choose|k: int| 0 <= k < t.len() && has_type(*profile, #[trigger] t[k], "Intensity"@);
                            if k < i {
                                assert(chans.take(i as int)[k] == t[k]);
                            }
                        }
                    }
                    assert(any_type(*profile, t, "Single Color"@) == (has_color || color)) by {
                        if color {
                            assert(has_type(*profile, t[i as int], "Single Color"@));
                        }
                        if has_color {
                            let k = choose|k: int| 0 <= k < i && has_type(*profile, #[trigger] chans.take(i as int)[k], "Single Color"@);
                            assert(t[k] == chans.take(i as int)[k]);
                        }
                        if any_type(*profile, t, "Single Color"@) {
                            let k = choose|k: int| 0 <= k < t.len() && has_type(*profile, #[trigger] t[k], "Single Color"@);
                            if k < i {
                                assert(chans.take(i as int)[k] == t[k]);
                            }
                        }
                    }
                }
                has_dimmer = has_dimmer || intensity;
                has_color = has_color || color;
                i = i + 1;
            }
            assert(chans.take(i as int) =~= chans);
            if !has_dimmer && has_color {
                let fp = FloatParam::new(0);
                let ghost before = parameters@;
                let ghost fpv = fp;
                let dname = "Dimmer".to_owned();
                parameters.insert(dname, fp);
                proof {
                    lemma_insert_map_entries(before, |q: FloatParam| q@.0, "Dimmer"@, fpv);
                }
            }
        } else {
            assert(mode_channels(*profile, mode_index) =~= Seq::<Seq<char>>::empty());
        }
        Fixture {
            name: name.to_owned(),
            address,
            universe: 1,
            profile,
            mode_index,
            parameters,
        }
    }

    pub(crate) fn set_param(&mut self, name: &str, bits: u32)
        ensures
            param_bits(final(self).parameters@) == set_if_present(param_bits(old(self).parameters@), name@, bits),
            forall|n: Seq<char>| n != name@ ==> #[trigger] lookup(final(self).parameters@, n) == lookup(old(self).parameters@, n),
            lookup(old(self).parameters@, name@) is None ==> final(self).parameters@ == old(self).parameters@,
            final(self).name == old(self).name,
            final(self).address == old(self).address,
            final(self).universe == old(self).universe,
            final(self).profile == old(self).profile,
            final(self).mode_index == old(self).mode_index,
    {
        proof {
            lemma_key_index_map_entries(self.parameters@, |q: FloatParam| q@.0, name@);
        }
        let found = match self.parameters.get(name) {
            Some(p) => Some(p.copy()),
            None => None,
        };
        if let Some(mut p) = found {
            p.store(bits);
            let ghost before = self.parameters@;
            let ghost pv = p;
            self.parameters.insert(name.to_owned(), p);
            proof {
                lemma_insert_map_entries(before, |q: FloatParam| q@.0, name@, pv);
                assert forall|n: Seq<char>| n != name@ implies #[trigger] lookup(self.parameters@, n) == lookup(before, n) by {
                    crate::named::law_lookup_after_insert(before, name@, pv, n);
                }
            }
        }
    }

    /// Applies a level or colour command (see `after_command`); `level_bits` is the binary32
    /// value of a numeric level.
    pub fn handle_command(&mut self, cmd: &Command, level_bits: u32)
        ensures
            param_bits(final(self).parameters@) == after_command(param_bits(old(self).parameters@), *cmd, level_bits),
            forall|n: Seq<char>| !command_writes(*cmd, n) ==> #[trigger] lookup(final(self).parameters@, n) == lookup(old(self).parameters@, n),
            final(self).name == old(self).name,
            final(self).universe == old(self).universe,
            final(self).address == old(self).address,
            final(self).profile == old(self).profile,
            final(self).mode_index == old(self).mode_index,
    {
        match cmd {
            Command::SetLevel { value, .. } => {
                let bits = match value {
                    Value::Numeric(_) => level_bits,
                    Value::Semantic(_) => BITS_255,
                };
                self.set_param("Dimmer", bits);
            },
            Command::SetColor { color, .. } => {
                if let Value::Semantic(c) = color {
                    let lower = to_lowercase_chars(&chars_of(c.as_str()));
                    let is = |w: &str| -> (r: bool)
                        ensures
                            r == (lower@ == w@),
                        { eq_chars(&lower, &chars_of(w)) };
                    let (r, g, b) = if is("red") {
                        (BITS_255, 0, 0)
                    } else if is("green") {
                        (0, BITS_255, 0)
                    } else if is("blue") {
                        (0, 0, BITS_255)
                    } else if is("purple") {
                        (BITS_128, 0, BITS_128)
                    } else if is("white") {
                        (BITS_255, BITS_255, BITS_255)
                    } else {
                        (0, 0, 0)
                    };
                    self.set_param("Red", r);
                    self.set_param("Green", g);
                    self.set_param("Blue", b);
                    let w = if is("white") {
                        BITS_255
                    } else {
                        0
                    };
                    self.set_param("White", w);
                }
            },
            _ => {},
        }
    }

    /// Writes the fixture's channels into the DMX and time buffers at its addresses (channels
    /// past the end of the buffers are skipped). A colour channel scaled by a virtual dimmer
    /// is returned instead of written, for the caller to scale in binary32 arithmetic
    /// (value times dimmer / 255); its time is written.
    pub fn render(&self, dmx: &mut Vec<u8>, times: &mut Vec<u64>) -> (r: Vec<DimmedChannel>)
        requires
            old(dmx).len() <= old(times).len(),
            self.address >= 1,
            self.address - 1 + mode_channels(*self.profile, self.mode_index).len() <= 65536,
        ensures
            final(dmx).len() == old(dmx).len(),
            final(times).len() == old(times).len(),
            forall|a: int|
                #![trigger final(dmx)@[a]]
                #![trigger final(times)@[a]]
                0 <= a < old(dmx).len() ==> {
                    let i = a - (self.address - 1);
                    if 0 <= i < mode_channels(*self.profile, self.mode_index).len() {
                        let (byte, t, _) = channel_output(*self, i);
                        &&& final(times)@[a] == t
                        &&& final(dmx)@[a] == match byte {
                            Some(b) => b,
                            None => old(dmx)@[a],
                        }
                    } else {
                        &&& final(times)@[a] == old(times)@[a]
                        &&& final(dmx)@[a] == old(dmx)@[a]
                    }
                },
            forall|a: int| old(dmx).len() <= a < old(times).len() ==> #[trigger] final(times)@[a] == old(times)@[a],
            forall|k: int|
                #![trigger r@[k]]
                0 <= k < r@.len() ==> {
                    let i = r@[k].addr - (self.address - 1);
                    &&& 0 <= i < mode_channels(*self.profile, self.mode_index).len()
                    &&& r@[k].addr < old(dmx).len()
                    &&& channel_output(*self, i).2 == Some((r@[k].value_bits, r@[k].dimmer_bits))
                },
            forall|i: int|
                0 <= i < mode_channels(*self.profile, self.mode_index).len()
                    && channel_addr(self.address, i) < old(dmx).len()
                    && (#[trigger] channel_output(*self, i)).2 is Some
                    ==> exists|k: int| 0 <= k < r@.len() && r@[k].addr == channel_addr(self.address, i),
    {
        let mut out: Vec<DimmedChannel> = Vec::new();
        if self.mode_index >= self.profile.modes.len() {
            return out;
        }
        let mode = &self.profile.modes[self.mode_index];
        let mut physical = false;
        let mut j: usize = 0;
        while j < mode.channels.len()
            invariant
                j <= mode.channels.len(),
                mode_channels(*self.profile, self.mode_index) == strings_view(mode.channels@),
                physical == exists|k: int| 0 <= k < j && has_type(*self.profile, #[trigger] mode_channels(*self.profile, self.mode_index)[k], "Intensity"@),
            decreases mode.channels.len() - j,
        {
            let is_intensity = type_is(&self.profile, &mode.channels[j], "Intensity");
            proof {
                if is_intensity {
                    assert(has_type(*self.profile, mode_channels(*self.profile, self.mode_index)[j as int], "Intensity"@));
                }
            }
            if is_intensity {
                physical = true;
            }
            j = j + 1;
        }
        let dimmer = self.parameters.get("Dimmer");
        let dimmer_time: u64 = match dimmer {
            Some(d) => d.last_updated(),
            None => 0,
        };
        let base: usize = (self.address - 1) as usize;
        let ghost old_dmx = dmx@;
        let ghost old_times = times@;
        let mut i: usize = 0;
        while i < mode.channels.len()
            invariant
                i <= mode.channels.len(),
                mode_channels(*self.profile, self.mode_index) == strings_view(mode.channels@),
                physical == any_type(*self.profile, mode_channels(*self.profile, self.mode_index), "Intensity"@),
                base == self.address - 1,
                base + mode_channels(*self.profile, self.mode_index).len() <= 65536,
                dimmer_time == match lookup(self.parameters@, "Dimmer"@) {
                    Some(d) => d@.1,
                    None => 0,
                },
                match dimmer {
                    Some(d) => lookup(self.parameters@, "Dimmer"@) == Some(*d),
                    None => lookup(self.parameters@, "Dimmer"@) is None,
                },
                dmx.len() == old_dmx.len(),
                times.len() == old_times.len(),
                old_dmx.len() <= old_times.len(),
                old_dmx == old(dmx)@,
                old_times == old(times)@,
                forall|a: int|
                    #![trigger dmx@[a]]
                    #![trigger times@[a]]
                    0 <= a < old_dmx.len() ==> {
                        let k = a - base;
                        if 0 <= k < i {
                            let (byte, t, _) = channel_output(*self, k);
                            &&& times@[a] == t
                            &&& dmx@[a] == match byte {
                                Some(b) => b,
                                None => old_dmx[a],
                            }
                        } else {
                            &&& times@[a] == old_times[a]
                            &&& dmx@[a] == old_dmx[a]
                        }
                    },
                forall|a: int| old_dmx.len() <= a < old_times.len() ==> #[trigger] times@[a] == old_times[a],
                forall|k: int|
                    #![trigger out@[k]]
                    0 <= k < out@.len() ==> {
                        let c = out@[k].addr - base;
                        &&& 0 <= c < i
                        &&& out@[k].addr < old_dmx.len()
                        &&& channel_output(*self, c).2 == Some((out@[k].value_bits, out@[k].dimmer_bits))
                    },
                forall|c: int|
                    0 <= c < i && base + c < old_dmx.len() && (#[trigger] channel_output(*self, c)).2 is Some
                        ==> exists|k: int| 0 <= k < out@.len() && out@[k].addr == base + c,
            decreases mode.channels.len() - i,
        {
            let ghost old_out = out@;
            let addr = base + i;
            let ch = &mode.channels[i];
            assert(mode_channels(*self.profile, self.mode_index)[i as int] == ch@);
            if addr < dmx.len() {
                let (val, t) = match self.parameters.get(ch.as_str()) {
                    Some(fp) => (fp.load(), fp.last_updated()),
                    None => (0u32, 0u64),
                };
                let dimmed = !physical && type_is(&self.profile, ch, "Single Color");
                let time = if dimmed && dimmer_time > t {
                    dimmer_time
                } else {
                    t
                };
                times.set(addr, time);
                if dimmed && dimmer.is_some() {
                    let d = dimmer.unwrap();
                    out.push(DimmedChannel { addr, value_bits: val, dimmer_bits: d.load() });
                } else {
                    dmx.set(addr, bits_to_u8(val));
                }
            }
            proof {
                assert forall|c: int|
                    0 <= c < i + 1 && base + c < old_dmx.len() && (#[trigger] channel_output(*self, c)).2 is Some
                    implies exists|k: int| 0 <= k < out@.len() && out@[k].addr == base + c by {
                    if c < i {
                        let k = choose|k: int| 0 <= k < old_out.len() && old_out[k].addr == base + c;
                        assert(out@[k] == old_out[k]);
                    } else {
                        assert(out@[out@.len() - 1].addr == base + c);
                    }
                }
            }
            i = i + 1;
        }
        out
    }
}

/// Reading a parameter after `set_if_present`: the parameter set holds the new bits when the
/// fixture has it; every other parameter reads as before.
proof fn lemma_set_if_present(s: Seq<(Seq<char>, u32)>, name: Seq<char>, bits: u32, n: Seq<char>)
    ensures
        lookup(set_if_present(s, name, bits), n) == if n == name && lookup(s, name) is Some {
            Some(bits)
        } else {
            lookup(s, n)
        },
{
    if lookup(s, name) is Some {
        crate::named::law_lookup_after_insert(s, name, bits, n);
    }
}

proof fn lemma_colour_names_distinct()
    ensures
        "Red"@ != "Green"@,
        "Red"@ != "Blue"@,
        "Red"@ != "White"@,
        "Green"@ != "Blue"@,
        "Green"@ != "White"@,
        "Blue"@ != "White"@,
        "red"@ != "green"@,
        "red"@ != "blue"@,
        "red"@ != "purple"@,
        "red"@ != "white"@,
        "green"@ != "blue"@,
        "green"@ != "purple"@,
        "green"@ != "white"@,
        "blue"@ != "purple"@,
        "blue"@ != "white"@,
        "purple"@ != "white"@,
{
    reveal_strlit("red");
    reveal_strlit("green");
    reveal_strlit("blue");
    reveal_strlit("purple");
    reveal_strlit("white");
    assert("red"@.len() == 3 && "green"@.len() == 5 && "blue"@.len() == 4 && "purple"@.len() == 6 && "white"@.len() == 5);
    assert("green"@[0] != "white"@[0]);
    reveal_strlit("Red");
    reveal_strlit("Green");
    reveal_strlit("Blue");
    reveal_strlit("White");
    assert("Red"@.len() == 3 && "Green"@.len() == 5 && "Blue"@.len() == 4 && "White"@.len() == 5);
    assert("Green"@[0] != "White"@[0]);
}

/// The colour parameters read `red`, `green`, `blue` and `white` where the fixture had them
/// (`before`), and any parameter the fixture did not have stays absent.
pub open spec fn colour_levels(before: Seq<(Seq<char>, u32)>, after: Seq<(Seq<char>, u32)>, red: u32, green: u32, blue: u32, white: u32) -> bool {
    &&& (lookup(before, "Red"@) is Some ==> lookup(after, "Red"@) == Some(red))
    &&& (lookup(before, "Green"@) is Some ==> lookup(after, "Green"@) == Some(green))
    &&& (lookup(before, "Blue"@) is Some ==> lookup(after, "Blue"@) == Some(blue))
    &&& (lookup(before, "White"@) is Some ==> lookup(after, "White"@) == Some(white))
    &&& forall|n: Seq<char>| lookup(before, n) is None ==> #[trigger] lookup(after, n) is None
}

/// A colour given by name (in any case) sets the colour parameters a fixture has to that
/// colour's own levels, as binary32 values: red 255/0/0, green 0/255/0, blue 0/0/255,
/// purple 128/0/128, white 255/255/255 with White at 255; any other name 0/0/0. White is 0
/// for every colour but white.
pub proof fn law_named_colour_levels(s: Seq<(Seq<char>, u32)>, target: Target, c: String, level_bits: u32)
    ensures
        ({
            let after = after_command(s, Command::SetColor { target, color: Value::Semantic(c) }, level_bits);
            let w = str_to_lowercase(c@);
            &&& w == "red"@ ==> colour_levels(s, after, 0x437f_0000, 0, 0, 0)
            &&& w == "green"@ ==> colour_levels(s, after, 0, 0x437f_0000, 0, 0)
            &&& w == "blue"@ ==> colour_levels(s, after, 0, 0, 0x437f_0000, 0)
            &&& w == "purple"@ ==> colour_levels(s, after, 0x4300_0000, 0, 0x4300_0000, 0)
            &&& w == "white"@ ==> colour_levels(s, after, 0x437f_0000, 0x437f_0000, 0x437f_0000, 0x437f_0000)
            &&& (w != "red"@ && w != "green"@ && w != "blue"@ && w != "purple"@ && w != "white"@)
                ==> colour_levels(s, after, 0, 0, 0, 0)
        }),
{
    let w = str_to_lowercase(c@);
    lemma_colour_names_distinct();
    let (r, g, b) = color_bits(w);
    let wh: u32 = if w == "white"@ { BITS_255 } else { 0 };
    let s1 = set_if_present(s, "Red"@, r);
    let s2 = set_if_present(s1, "Green"@, g);
    let s3 = set_if_present(s2, "Blue"@, b);
    let s4 = set_if_present(s3, "White"@, wh);
    assert forall|n: Seq<char>| #[trigger] lookup(s4, n) == (if n == "Red"@ && lookup(s, n) is Some {
        Some(r)
    } else if n == "Green"@ && lookup(s, n) is Some {
        Some(g)
    } else if n == "Blue"@ && lookup(s, n) is Some {
        Some(b)
    } else if n == "White"@ && lookup(s, n) is Some {
        Some(wh)
    } else {
        lookup(s, n)
    }) by {
        lemma_colour_names_distinct();
        lemma_set_if_present(s, "Red"@, r, n);
        lemma_set_if_present(s1, "Green"@, g, n);
        lemma_set_if_present(s2, "Blue"@, b, n);
        lemma_set_if_present(s3, "White"@, wh, n);
        lemma_set_if_present(s, "Red"@, r, "Green"@);
        lemma_set_if_present(s, "Red"@, r, "Blue"@);
        lemma_set_if_present(s, "Red"@, r, "White"@);
        lemma_set_if_present(s1, "Green"@, g, "Blue"@);
        lemma_set_if_present(s1, "Green"@, g, "White"@);
        lemma_set_if_present(s2, "Blue"@, b, "White"@);
    }
    assert(lookup(s4, "Red"@) == (if lookup(s, "Red"@) is Some { Some(r) } else { lookup(s, "Red"@) }));
    assert(lookup(s4, "Green"@) == (if lookup(s, "Green"@) is Some { Some(g) } else { lookup(s, "Green"@) }));
    assert(lookup(s4, "Blue"@) == (if lookup(s, "Blue"@) is Some { Some(b) } else { lookup(s, "Blue"@) }));
    assert(lookup(s4, "White"@) == (if lookup(s, "White"@) is Some { Some(wh) } else { lookup(s, "White"@) }));
}

} // verus!

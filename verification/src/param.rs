//! Parameters: named values that fixtures, playbacks and effects read and write.
//!
//! A `FloatParam` holds a binary32 value by its bit pattern, together with the time (in
//! microseconds since the Unix epoch) it was last written.
use vstd::prelude::*;
use vstd::arithmetic::power2::pow2;
use crate::named::NameMap;

verus! {

/// The binary32 value 255.0.
pub const BITS_255: u32 = 0x437f_0000;

/// The value of a binary32 number, given by its bits, converted to `u8` as Rust's `as` does:
/// NaN gives 0, values are truncated toward zero and saturate at 0 and 255.
pub open spec fn bits_as_u8(bits: u32) -> u8 {
    let negative = bits >= 0x8000_0000;
    let e = (bits / 0x80_0000) % 256;
    let m = bits % 0x80_0000;
    if e == 255 && m != 0 {
        0
    } else if negative {
        0
    } else if e == 255 {
        255
    } else if e < 127 {
        0
    } else if e >= 135 {
        255
    } else {
        ((0x80_0000 + m) as nat / pow2((150 - e) as nat)) as u8
    }
}

/// Converts the binary32 number with bits `bits` to `u8` (see `bits_as_u8`).
pub fn bits_to_u8(bits: u32) -> (r: u8)
    ensures
        r == bits_as_u8(bits),
{
    let negative = bits >= 0x8000_0000;
    let e = (bits / 0x80_0000) % 256;
    let m = bits % 0x80_0000;
    if e == 255 && m != 0 {
        0
    } else if negative {
        0
    } else if e == 255 {
        255
    } else if e < 127 {
        0
    } else if e >= 135 {
        255
    } else {
        let x: u32 = 0x80_0000 + m;
        let s: u32 = 150 - e;
        proof {
            vstd::bits::lemma_u32_shr_is_div(x, s);
            vstd::arithmetic::power2::lemma_pow2_pos(s as nat);
            assert(pow2(s as nat) >= pow2(16)) by {
                if s > 16 {
                    vstd::arithmetic::power2::lemma_pow2_strictly_increases(16, s as nat);
                }
            }
            assert(pow2(16) == 65536) by {
                vstd::arithmetic::power2::lemma2_to64();
            }
            assert(x < 0x100_0000);
            assert(x as nat / pow2(s as nat) < 256) by (nonlinear_arith)
                requires
                    x < 0x100_0000,
                    pow2(s as nat) >= 65536,
            ;
        }
        (x >> s) as u8
    }
}

/// The current time in microseconds since the Unix epoch (0 when the clock is before it).
#[verifier::external_body]
fn clock_micros() -> u64 {
    std::time::SystemTime::now().duration_since(std::time::UNIX_EPOCH).unwrap_or_default().as_micros() as u64
}

/// A binary32 value with the time of its last write.
#[derive(Debug)]
pub struct FloatParam {
    val: u32,
    last_updated: u64,
}

impl View for FloatParam {
    type V = (u32, u64);

    /// The bits of the value and the time of the last write.
    closed spec fn view(&self) -> (u32, u64) {
        (self.val, self.last_updated)
    }
}

impl FloatParam {
    /// A parameter holding `bits`, written now.
    pub fn new(bits: u32) -> (r: FloatParam)
        ensures
            r@.0 == bits,
    {
        Self::new_with_time(bits, Self::now_micros())
    }

    /// A parameter holding `bits`, written at `time`.
    pub fn new_with_time(bits: u32, time: u64) -> (r: FloatParam)
        ensures
            r@ == (bits, time),
    {
        FloatParam { val: bits, last_updated: time }
    }

    /// The current time in microseconds since the Unix epoch.
    pub fn now_micros() -> u64 {
        clock_micros()
    }

    /// Writes `bits`, stamping the parameter with the current time.
    pub fn store(&mut self, bits: u32)
        ensures
            final(self)@.0 == bits,
    {
        self.val = bits;
        self.last_updated = Self::now_micros();
    }

    /// The bits of the value.
    pub fn load(&self) -> (r: u32)
        ensures
            r == self@.0,
    {
        self.val
    }

    /// When the value was last written.
    pub fn last_updated(&self) -> (r: u64)
        ensures
            r == self@.1,
    {
        self.last_updated
    }

    /// The value as a DMX byte (see `bits_as_u8`).
    pub fn load_u8(&self) -> (r: u8)
        ensures
            r == bits_as_u8(self@.0),
    {
        bits_to_u8(self.val)
    }

    /// A copy of this parameter.
    pub fn copy(&self) -> (r: FloatParam)
        ensures
            r@ == self@,
    {
        FloatParam { val: self.val, last_updated: self.last_updated }
    }
}

/// An integer parameter.
pub struct Param {
    value: isize,
}

impl View for Param {
    type V = isize;

    closed spec fn view(&self) -> isize {
        self.value
    }
}

impl Param {
    /// A parameter holding 0.
    pub fn new() -> (r: Param)
        ensures
            r@ == 0,
    {
        Param { value: 0 }
    }

    /// The value.
    pub fn value(&self) -> (r: isize)
        ensures
            r == self@,
    {
        self.value
    }
}

/// Parameters by name.
pub struct Params {
    map: NameMap<FloatParam>,
}

impl View for Params {
    type V = Seq<(Seq<char>, (u32, u64))>;

    closed spec fn view(&self) -> Seq<(Seq<char>, (u32, u64))> {
        self.map@.map_values(|p: (Seq<char>, FloatParam)| (p.0, p.1@))
    }
}

impl Params {
    /// No parameters.
    pub fn new() -> (r: Params)
        ensures
            r@.len() == 0,
    {
        let r = Params { map: NameMap::new() };
        assert(r@ =~= Seq::<(Seq<char>, (u32, u64))>::empty());
        r
    }

    /// Adds (or replaces) the parameter `name` with value 0 and returns a copy of it.
    pub fn create_param(&mut self, name: &str) -> (r: FloatParam)
        ensures
            r@.0 == 0,
            final(self)@ == crate::named::insert_entry(old(self)@, name@, r@),
    {
        let p = FloatParam::new(0);
        let c = p.copy();
        self.insert(name.to_owned(), p);
        c
    }

    /// Adds (or replaces) the parameter `name`.
    pub fn insert(&mut self, name: String, param: FloatParam)
        ensures
            final(self)@ == crate::named::insert_entry(old(self)@, name@, param@),
    {
        let ghost pv = param@;
        let ghost n = name@;
        let ghost before = self.map@;
        self.map.insert(name, param);
        proof {
            crate::named::lemma_key_index(before, n);
            let f = |p: (Seq<char>, FloatParam)| (p.0, p.1@);
            let old_view = before.map_values(f);
            lemma_key_index_map(before, n);
            assert(self@ =~= crate::named::insert_entry(old_view, n, pv));
        }
    }

    /// A copy of the parameter `name`.
    pub fn get(&self, name: String) -> (r: Option<FloatParam>)
        ensures
            match r {
                Some(p) => crate::named::lookup(self@, name@) == Some(p@),
                None => crate::named::lookup(self@, name@) is None,
            },
    {
        proof {
            lemma_key_index_map(self.map@, name@);
            crate::named::lemma_key_index(self.map@, name@);
        }
        match self.map.get(name.as_str()) {
            Some(p) => Some(p.copy()),
            None => None,
        }
    }
}

/// The parameters after storing each of `ops` (a name and a parameter's value and time), in
/// order, from none, as `create_param` and `insert` store them.
pub open spec fn params_after(ops: Seq<(Seq<char>, (u32, u64))>) -> Seq<(Seq<char>, (u32, u64))>
    decreases ops.len(),
{
    if ops.len() == 0 {
        Seq::empty()
    } else {
        crate::named::insert_entry(params_after(ops.drop_last()), ops.last().0, ops.last().1)
    }
}

/// What was stored last under `name` among `ops`, if anything.
pub open spec fn last_stored(ops: Seq<(Seq<char>, (u32, u64))>, name: Seq<char>) -> Option<(u32, u64)>
    decreases ops.len(),
{
    if ops.len() == 0 {
        None
    } else if ops.last().0 == name {
        Some(ops.last().1)
    } else {
        last_stored(ops.drop_last(), name)
    }
}

/// After any sequence of stores into a new map of parameters, reading a name gives the
/// parameter stored last under it, and nothing where nothing was stored under it.
pub proof fn law_params_get_last_stored(ops: Seq<(Seq<char>, (u32, u64))>, name: Seq<char>)
    ensures
        crate::named::lookup(params_after(ops), name) == last_stored(ops, name),
    decreases ops.len(),
{
    if ops.len() == 0 {
        crate::named::lemma_key_index(Seq::<(Seq<char>, (u32, u64))>::empty(), name);
    } else {
        let prev = ops.drop_last();
        law_params_get_last_stored(prev, name);
        crate::named::law_lookup_after_insert(params_after(prev), ops.last().0, ops.last().1, name);
    }
}

proof fn lemma_key_index_map(s: Seq<(Seq<char>, FloatParam)>, k: Seq<char>)
    ensures
        crate::named::key_index(s.map_values(|p: (Seq<char>, FloatParam)| (p.0, p.1@)), k)
            == crate::named::key_index(s, k),
    decreases s.len(),
{
    let f = |p: (Seq<char>, FloatParam)| (p.0, p.1@);
    if s.len() > 0 {
        assert(s.map_values(f).drop_first() =~= s.drop_first().map_values(f));
        lemma_key_index_map(s.drop_first(), k);
    }
}

} // verus!

//! Heads patched at a start channel, and a cue made of heads.
use vstd::prelude::*;

verus! {

/// A head: three channels from its start channel.
#[derive(Debug)]
pub struct Head {
    start_ch: usize,
}

impl Default for Head {
    /// A head at channel 0.
    fn default() -> (r: Head)
        ensures
            r.start() == 0,
    {
        Head { start_ch: 0 }
    }
}

/// The levels a head at `start` gives: 0, 64 and 128 on its three channels.
pub open spec fn head_levels(start: usize) -> Seq<(usize, u8)> {
    seq![(start, 0u8), ((start + 1) as usize, 64u8), ((start + 2) as usize, 128u8)]
}

impl Head {
    /// The channel the head starts at.
    pub closed spec fn start(&self) -> usize {
        self.start_ch
    }

    /// Sets the start channel of a head that is then dropped.
    pub fn patch(self, ch: usize) {
        let mut h = self;
        h.start_ch = ch;
    }

    /// The channel and level of each of the head's channels.
    pub fn levels(&self) -> (r: Vec<(usize, u8)>)
        requires
            self.start() + 2 <= usize::MAX,
        ensures
            r@ == head_levels(self.start()),
    {
        let v = vec![(self.start_ch + 0, 0u8), (self.start_ch + 1, 64u8), (self.start_ch + 2, 128u8)];
        assert(v@ =~= head_levels(self.start()));
        v
    }
}

/// The levels of the heads, head by head.
pub open spec fn heads_levels(heads: Seq<Head>) -> Seq<(usize, u8)>
    decreases heads.len(),
{
    if heads.len() == 0 {
        Seq::empty()
    } else {
        heads_levels(heads.drop_last()) + head_levels(heads.last().start())
    }
}

/// A cue of heads.
pub struct Cue {
    pub heads: Vec<Head>,
}

impl Cue {
    /// A cue without heads.
    pub fn new() -> (r: Cue)
        ensures
            r.heads@.len() == 0,
    {
        Cue { heads: Vec::new() }
    }

    /// The levels of all heads, head by head.
    pub fn levels(&self) -> (r: Vec<(usize, u8)>)
        requires
            forall|i: int| 0 <= i < self.heads@.len() ==> (#[trigger] self.heads@[i]).start() + 2 <= usize::MAX,
        ensures
            r@ == heads_levels(self.heads@),
    {
        let mut out: Vec<(usize, u8)> = Vec::new();
        let mut i: usize = 0;
        while i < self.heads.len()
            invariant
                i <= self.heads.len(),
                forall|j: int| 0 <= j < self.heads@.len() ==> (#[trigger] self.heads@[j]).start() + 2 <= usize::MAX,
                out@ == heads_levels(self.heads@.take(i as int)),
            decreases self.heads.len() - i,
        {
            let mut l = self.heads[i].levels();
            let ghost t = self.heads@.take(i + 1);
            assert(t.drop_last() =~= self.heads@.take(i as int));
            out.append(&mut l);
            i = i + 1;
        }
        assert(self.heads@.take(i as int) =~= self.heads@);
        out
    }
}

} // verus!

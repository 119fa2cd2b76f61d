//! Tempo-related settings.
use vstd::prelude::*;

verus! {

/// How long a fade takes: no time, or one, four or sixteen beats.
#[derive(Debug, Clone, Copy, PartialEq, Eq, Structural)]
pub enum FadeMode {
    Instant,
    Beat,
    Beats4,
    Beats16,
}

impl Default for FadeMode {
    /// A fade takes one beat.
    fn default() -> (r: FadeMode)
        ensures
            r == FadeMode::Beat,
    {
        FadeMode::Beat
    }
}

impl FadeMode {
    /// The number of beats a fade takes.
    pub fn beats(&self) -> (r: u32)
        ensures
            r == match *self {
                FadeMode::Instant => 0u32,
                FadeMode::Beat => 1u32,
                FadeMode::Beats4 => 4u32,
                FadeMode::Beats16 => 16u32,
            },
    {
        match self {
            FadeMode::Instant => 0,
            FadeMode::Beat => 1,
            FadeMode::Beats4 => 4,
            FadeMode::Beats16 => 16,
        }
    }
}

/// Taps older than this many nanoseconds are forgotten.
pub const TAP_MEMORY_NANOS: u64 = 10_000_000_000;

/// The order of tap slots: an empty slot first, then taps by time.
pub open spec fn tap_key(t: Option<u64>) -> int {
    match t {
        None => 0,
        Some(x) => x + 1,
    }
}

pub open spec fn taps_sorted(s: Seq<Option<u64>>) -> bool {
    forall|i: int, j: int| 0 <= i < j < s.len() ==> tap_key(#[trigger] s[i]) <= tap_key(#[trigger] s[j])
}

/// The number of taps held.
pub open spec fn tap_count_of(s: Seq<Option<u64>>) -> nat
    decreases s.len(),
{
    if s.len() == 0 {
        0
    } else {
        tap_count_of(s.drop_last()) + if s.last() is Some { 1nat } else { 0nat }
    }
}

/// The earliest tap held.
pub open spec fn earliest_tap(s: Seq<Option<u64>>) -> Option<u64>
    decreases s.len(),
{
    if s.len() == 0 {
        None
    } else {
        match (earliest_tap(s.drop_last()), s.last()) {
            (Some(a), Some(b)) => Some(if a <= b { a } else { b }),
            (Some(a), None) => Some(a),
            (None, b) => b,
        }
    }
}

/// A tap slot after forgetting taps more than ten seconds before `now`.
pub open spec fn kept_tap(t: Option<u64>, now: u64) -> Option<u64> {
    match t {
        Some(x) => if now >= x && now - x > TAP_MEMORY_NANOS {
            None
        } else {
            Some(x)
        },
        None => None,
    }
}

/// The last four taps (times in nanoseconds of a monotonic clock) and the taps counted since
/// the count was last reset.
pub struct TapTempo {
    pub taps: [Option<u64>; 4],
    pub tap_count: usize,
}

fn sort_taps(taps: &mut [Option<u64>; 4])
    ensures
        taps_sorted(final(taps)@),
        final(taps)@.to_multiset() == old(taps)@.to_multiset(),
{
    let mut i: usize = 1;
    while i < 4
        invariant
            1 <= i <= 4,
            taps@.len() == 4,
            taps_sorted(taps@.take(i as int)),
            taps@.to_multiset() == old(taps)@.to_multiset(),
        decreases 4 - i,
    {
        let mut j: usize = i;
        assert forall|p: int, q: int| 0 <= p < q <= i && q != j implies tap_key(#[trigger] taps@[p]) <= tap_key(#[trigger] taps@[q]) by {
            assert(taps@.take(i as int)[p] == taps@[p]);
            assert(taps@.take(i as int)[q] == taps@[q]);
        }
        while j > 0 && tap_less(taps[j], taps[j - 1])
            invariant
                0 <= j <= i < 4,
                taps@.len() == 4,
                taps@.to_multiset() == old(taps)@.to_multiset(),
                forall|p: int, q: int| 0 <= p < q <= i && q != j ==> tap_key(#[trigger] taps@[p]) <= tap_key(#[trigger] taps@[q]),
                forall|p: int, q: int| j <= p < q <= i ==> tap_key(#[trigger] taps@[p]) <= tap_key(#[trigger] taps@[q]),
                0 < j < i ==> tap_key(taps@[j - 1]) <= tap_key(taps@[j + 1]),
            decreases j,
        {
            let a = taps[j - 1];
            let b = taps[j];
            let ghost before = taps@;
            taps.set(j - 1, b);
            taps.set(j, a);
            proof {
                assert(taps@ =~= before.update(j - 1, b).update(j as int, a));
                swap_multiset(before, j - 1, j as int);
            }
            j = j - 1;
        }
        assert forall|p: int, q: int| 0 <= p < q < i + 1 implies tap_key(#[trigger] taps@.take(i + 1)[p]) <= tap_key(#[trigger] taps@.take(i + 1)[q]) by {
            assert(taps@.take(i + 1)[p] == taps@[p]);
            assert(taps@.take(i + 1)[q] == taps@[q]);
        }
        i = i + 1;
    }
    assert(taps@.take(4) =~= taps@);
}

proof fn swap_multiset(s: Seq<Option<u64>>, a: int, b: int)
    requires
        0 <= a < b < s.len(),
    ensures
        s.update(a, s[b]).update(b, s[a]).to_multiset() == s.to_multiset(),
{
    broadcast use vstd::seq_lib::group_to_multiset_ensures;
    let t = s.update(a, s[b]);
    vstd::seq_lib::to_multiset_update(s, a, s[b]);
    vstd::seq_lib::to_multiset_update(t, b, s[a]);
    assert(t[b] == s[b]);
    assert(s.update(a, s[b]).update(b, s[a]).to_multiset() =~= s.to_multiset());
}

fn tap_less(a: Option<u64>, b: Option<u64>) -> (r: bool)
    ensures
        r == (tap_key(a) < tap_key(b)),
{
    match (a, b) {
        (None, Some(_)) => true,
        (Some(x), Some(y)) => x < y,
        _ => false,
    }
}

impl TapTempo {
    /// No taps.
    pub fn new() -> (r: TapTempo)
        ensures
            r.taps@ == seq![None::<u64>, None, None, None],
            r.tap_count == 0,
    {
        let r = TapTempo { taps: [None, None, None, None], tap_count: 0 };
        assert(r.taps@ =~= seq![None::<u64>, None, None, None]);
        r
    }

    /// Forgets the taps more than ten seconds before `now`; when no tap is left, the count
    /// starts again.
    pub fn remove_old_taps(&mut self, now: u64)
        ensures
            final(self).taps@.len() == 4,
            forall|i: int| 0 <= i < 4 ==> #[trigger] final(self).taps@[i] == kept_tap(old(self).taps@[i], now),
            final(self).tap_count == if forall|i: int| 0 <= i < 4 ==> (#[trigger] kept_tap(old(self).taps@[i], now)) is None {
                0
            } else {
                old(self).tap_count
            },
    {
        let mut reset = true;
        let mut i: usize = 0;
        while i < 4
            invariant
                0 <= i <= 4,
                self.taps@.len() == 4,
                self.tap_count == old(self).tap_count,
                forall|k: int| i <= k < 4 ==> #[trigger] self.taps@[k] == old(self).taps@[k],
                forall|k: int| 0 <= k < i ==> #[trigger] self.taps@[k] == kept_tap(old(self).taps@[k], now),
                reset == forall|k: int| 0 <= k < i ==> (#[trigger] kept_tap(old(self).taps@[k], now)) is None,
            decreases 4 - i,
        {
            if let Some(t) = self.taps[i] {
                if now >= t && now - t > TAP_MEMORY_NANOS {
                    self.taps.set(i, None);
                } else {
                    reset = false;
                }
            }
            assert(self.taps@[i as int] == kept_tap(old(self).taps@[i as int], now));
            i = i + 1;
        }
        if reset {
            self.tap_count = 0;
        }
    }

    /// Records a tap at `now`: it takes the first slot (an empty one or the earliest tap, the
    /// slots being in order), the slots are put in order, and the count goes up. Returns the
    /// average time between the held taps (nanoseconds), or `None` when `now` is the earliest
    /// tap held.
    pub fn tap(&mut self, now: u64) -> (r: Option<u64>)
        requires
            old(self).tap_count < usize::MAX,
        ensures
            final(self).tap_count == old(self).tap_count + 1,
            taps_sorted(final(self).taps@),
            final(self).taps@.to_multiset() == old(self).taps@.update(0, Some(now)).to_multiset(),
            ({
                let held = final(self).taps@;
                let first = earliest_tap(held).unwrap();
                if first == now {
                    r is None
                } else {
                    r == Some(((now - first) / (tap_count_of(held) - 1)) as u64)
                }
            }),
    {
        self.tap_count = self.tap_count + 1;
        self.taps.set(0, Some(now));
        let ghost placed = self.taps@;
        proof {
            lemma_tap_in(placed, now);
        }
        sort_taps(&mut self.taps);
        let mut first: Option<u64> = None;
        let mut count: u64 = 0;
        let mut i: usize = 0;
        assert(self.taps@.take(0) =~= Seq::<Option<u64>>::empty());
        while i < 4
            invariant
                0 <= i <= 4,
                self.taps@.len() == 4,
                first == earliest_tap(self.taps@.take(i as int)),
                count == tap_count_of(self.taps@.take(i as int)),
                count <= i,
            decreases 4 - i,
        {
            let t = self.taps[i];
            let ghost u = self.taps@.take(i + 1);
            assert(u.drop_last() =~= self.taps@.take(i as int));
            if let Some(x) = t {
                count = count + 1;
                first = match first {
                    Some(a) => Some(if a <= x { a } else { x }),
                    None => Some(x),
                };
            }
            i = i + 1;
        }
        assert(self.taps@.take(4) =~= self.taps@);
        proof {
            broadcast use vstd::seq_lib::group_to_multiset_ensures;
            assert(self.taps@.to_multiset().count(Some(now)) > 0);
            lemma_earliest_le(self.taps@, now);
            assert(self.taps@.contains(Some(now)));
        }
        let f = first.unwrap();
        if f == now {
            return None;
        }
        proof {
            lemma_two_taps(self.taps@, now, f);
        }
        Some((now - f) / (count - 1))
    }
}

proof fn lemma_tap_in(s: Seq<Option<u64>>, now: u64)
    requires
        s.len() == 4,
        s[0] == Some(now),
    ensures
        s.to_multiset().count(Some(now)) > 0,
{
    broadcast use vstd::seq_lib::group_to_multiset_ensures;
    assert(s.contains(Some(now)));
}

/// The earliest tap is held, is no later than any held tap, and a held `now` makes one.
proof fn lemma_earliest_le(s: Seq<Option<u64>>, now: u64)
    requires
        s.to_multiset().count(Some(now)) > 0,
    ensures
        earliest_tap(s) is Some,
        earliest_tap(s).unwrap() <= now,
        s.contains(Some(earliest_tap(s).unwrap())),
    decreases s.len(),
{
    broadcast use vstd::seq_lib::group_to_multiset_ensures;
    assert(s.contains(Some(now)));
    lemma_earliest_props(s);
    let k = choose|k: int| 0 <= k < s.len() && s[k] == Some(now);
    assert(s[k] == Some(now));
}

proof fn lemma_earliest_props(s: Seq<Option<u64>>)
    ensures
        forall|k: int| 0 <= k < s.len() && (#[trigger] s[k]) is Some ==> earliest_tap(s) is Some && earliest_tap(s).unwrap() <= s[k].unwrap(),
        earliest_tap(s) is Some ==> s.contains(Some(earliest_tap(s).unwrap())),
        earliest_tap(s) is None ==> forall|k: int| 0 <= k < s.len() ==> (#[trigger] s[k]) is None,
    decreases s.len(),
{
    if s.len() > 0 {
        let p = s.drop_last();
        lemma_earliest_props(p);
        assert forall|k: int| 0 <= k < s.len() && (#[trigger] s[k]) is Some implies earliest_tap(s) is Some && earliest_tap(s).unwrap() <= s[k].unwrap() by {
            if k < s.len() - 1 {
                assert(s[k] == p[k]);
            }
        }
        if earliest_tap(s) is Some {
            if earliest_tap(p) is Some && earliest_tap(s) == earliest_tap(p) {
                let k = choose|k: int| 0 <= k < p.len() && p[k] == Some(earliest_tap(p).unwrap());
                assert(s[k] == p[k]);
            } else {
                assert(s[s.len() - 1] == Some(earliest_tap(s).unwrap()));
            }
        }
        if earliest_tap(s) is None {
            assert forall|k: int| 0 <= k < s.len() implies (#[trigger] s[k]) is None by {
                if k < s.len() - 1 {
                    assert(s[k] == p[k]);
                }
            }
        }
    }
}

/// With a held `now` and an earlier held tap, at least two taps are held.
proof fn lemma_two_taps(s: Seq<Option<u64>>, now: u64, f: u64)
    requires
        s.contains(Some(now)),
        s.contains(Some(f)),
        f != now,
    ensures
        tap_count_of(s) >= 2,
    decreases s.len(),
{
    let p = s.drop_last();
    if s.last() == Some(now) {
        let k = choose|k: int| 0 <= k < s.len() && s[k] == Some(f);
        assert(k < s.len() - 1);
        assert(p[k] == Some(f));
        lemma_count_one(p, k);
    } else if s.last() == Some(f) {
        let k = choose|k: int| 0 <= k < s.len() && s[k] == Some(now);
        assert(k < s.len() - 1);
        assert(p[k] == Some(now));
        lemma_count_one(p, k);
    } else {
        let a = choose|k: int| 0 <= k < s.len() && s[k] == Some(now);
        let b = choose|k: int| 0 <= k < s.len() && s[k] == Some(f);
        assert(p[a] == Some(now));
        assert(p[b] == Some(f));
        lemma_two_taps(p, now, f);
    }
}

proof fn lemma_count_one(s: Seq<Option<u64>>, k: int)
    requires
        0 <= k < s.len(),
        s[k] is Some,
    ensures
        tap_count_of(s) >= 1,
    decreases s.len(),
{
    if k < s.len() - 1 {
        assert(s.drop_last()[k] == s[k]);
        lemma_count_one(s.drop_last(), k);
    }
}

} // verus!

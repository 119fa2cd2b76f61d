//! What a command acts on: DMX channels, fixtures, groups, parameters or a mix of them, and
//! the textual form of channel lists (`1..4,7,9..10`).
use vstd::prelude::*;
use crate::text::{
    trim, trim_start, trim_end, is_ws, split_char, split_dots, contains_dots, first_index,
    first_dots, dots_at, lemma_first_index_bounds, lemma_first_dots_bounds, trim_chars,
    lemma_first_index, lemma_first_dots, lemma_trim_start, lemma_trim_end, is_digit,
    split_on_char, split_on_dots, has_dots, pieces, chars_of, string_of,
};
use crate::numeric::{dec_digits, parse_u16_spec, push_decimal, parse_u16_chars, lemma_dec_digits, all_digits};

verus! {

/// A list of DMX channel numbers.
#[derive(Debug, Clone, PartialEq, Eq)]
pub struct ChannelList(pub Vec<u16>);

impl View for ChannelList {
    type V = Seq<u16>;

    open spec fn view(&self) -> Seq<u16> {
        self.0@
    }
}

pub open spec fn strictly_increasing(s: Seq<u16>) -> bool {
    forall|i: int, j: int| 0 <= i < j < s.len() ==> s[i] < s[j]
}

pub open spec fn sorted(s: Seq<u16>) -> bool {
    forall|i: int, j: int| 0 <= i < j < s.len() ==> s[i] <= s[j]
}

/// `s` is `v` in ascending order.
pub open spec fn is_sorted_version(v: Seq<u16>, s: Seq<u16>) -> bool {
    sorted(s) && s.to_multiset() == v.to_multiset()
}

/// `s` holds each value of `v` once, in ascending order.
pub open spec fn is_normalized(v: Seq<u16>, s: Seq<u16>) -> bool {
    strictly_increasing(s) && s.to_set() == v.to_set()
}

/// The channels `a..=b`.
pub open spec fn channel_range(a: u16, b: u16) -> Seq<u16> {
    Seq::new(if a <= b { (b - a + 1) as nat } else { 0 }, |i: int| (a + i) as u16)
}

/// One run of channels as text: `a` or `a..b`.
pub open spec fn run_text(a: u16, b: u16) -> Seq<char> {
    if a == b {
        dec_digits(a as nat)
    } else {
        dec_digits(a as nat) + seq!['.', '.'] + dec_digits(b as nat)
    }
}

/// Text of the runs of channels, the current run being `start..=end` and `rest` still to come.
/// A channel one above the end of the current run extends it; any other closes it.
pub open spec fn runs_text(rest: Seq<u16>, start: u16, end: u16) -> Seq<char>
    decreases rest.len(),
{
    if rest.len() == 0 {
        run_text(start, end)
    } else if rest[0] as int == end + 1 {
        runs_text(rest.drop_first(), start, rest[0])
    } else {
        run_text(start, end) + seq![','] + runs_text(rest.drop_first(), rest[0], rest[0])
    }
}

/// Text of an ascending list of channels.
pub open spec fn sorted_channels_text(s: Seq<u16>) -> Seq<char> {
    if s.len() == 0 {
        Seq::empty()
    } else {
        runs_text(s.drop_first(), s[0], s[0])
    }
}

/// The channels one piece of channel-list text names.
pub open spec fn piece_channels(p0: Seq<char>) -> Option<Seq<u16>> {
    let p = trim(p0);
    if contains_dots(p) {
        let r = split_dots(p);
        if r.len() == 2 {
            match (parse_u16_spec(r[0]), parse_u16_spec(r[1])) {
                (Some(a), Some(b)) => Some(channel_range(a, b)),
                _ => None,
            }
        } else {
            None
        }
    } else {
        match parse_u16_spec(p) {
            Some(c) => Some(seq![c]),
            None => None,
        }
    }
}

/// The channels all pieces name, in order; `None` when a piece is malformed.
pub open spec fn pieces_channels(ps: Seq<Seq<char>>) -> Option<Seq<u16>>
    decreases ps.len(),
{
    if ps.len() == 0 {
        Some(Seq::empty())
    } else {
        match (piece_channels(ps[0]), pieces_channels(ps.drop_first())) {
            (Some(a), Some(b)) => Some(a + b),
            _ => None,
        }
    }
}

/// The channels named by a channel-list text (before ordering and removal of repeats).
pub open spec fn channel_text_channels(s: Seq<char>) -> Option<Seq<u16>> {
    if trim(s).len() == 0 {
        Some(Seq::empty())
    } else {
        pieces_channels(split_char(s, ','))
    }
}

// ---------------------------------------------------------------------------
// sorting
fn sort_channels(v: &Vec<u16>) -> (r: Vec<u16>)
    ensures
        is_sorted_version(v@, r@),
{
    broadcast use vstd::seq_lib::group_to_multiset_ensures;
    let mut r: Vec<u16> = Vec::new();
    let mut k: usize = 0;
    while k < v.len()
        invariant
            k <= v.len(),
            sorted(r@),
            r@.to_multiset() == v@.take(k as int).to_multiset(),
        decreases v.len() - k,
    {
        let x = v[k];
        let mut p: usize = 0;
        while p < r.len() && r[p] <= x
            invariant
                p <= r.len(),
                forall|j: int| 0 <= j < p ==> r@[j] <= x,
            decreases r.len() - p,
        {
            p = p + 1;
        }
        let ghost old_r = r@;
        r.insert(p, x);
        proof {
            assert(r@ == old_r.insert(p as int, x));
            vstd::seq_lib::to_multiset_insert(old_r, p as int, x);
            vstd::seq_lib::to_multiset_build(v@.take(k as int), x);
            assert(v@.take(k + 1) =~= v@.take(k as int).push(x));
            assert forall|i: int, j: int| 0 <= i < j < r@.len() implies r@[i] <= r@[j] by {
                if j < p {
                } else if j == p {
                    assert(r@[i] == old_r[i]);
                } else if i < p {
                    assert(r@[j] == old_r[j - 1]);
                    assert(r@[i] == old_r[i]);
                } else if i == p {
                    assert(r@[j] == old_r[j - 1]);
                } else {
                    assert(r@[j] == old_r[j - 1]);
                    assert(r@[i] == old_r[i - 1]);
                }
            }
        }
        k = k + 1;
    }
    assert(v@.take(v.len() as int) =~= v@);
    r
}

/// The values of `v`, each once, in ascending order.
pub fn sort_dedup(v: &Vec<u16>) -> (r: Vec<u16>)
    ensures
        is_normalized(v@, r@),
{
    let mut r: Vec<u16> = Vec::new();
    let mut k: usize = 0;
    while k < v.len()
        invariant
            k <= v.len(),
            strictly_increasing(r@),
            r@.to_set() == v@.take(k as int).to_set(),
        decreases v.len() - k,
    {
        let x = v[k];
        let mut p: usize = 0;
        while p < r.len() && r[p] < x
            invariant
                p <= r.len(),
                forall|j: int| 0 <= j < p ==> r@[j] < x,
            decreases r.len() - p,
        {
            p = p + 1;
        }
        let ghost old_r = r@;
        assert(v@.take(k + 1) =~= v@.take(k as int).push(x));
        if p < r.len() && r[p] == x {
            assert(r@.to_set() =~= v@.take(k + 1).to_set()) by {
                assert forall|y: u16| v@.take(k + 1).to_set().contains(y) implies r@.to_set().contains(y) by {
                    if y != x {
                        let i = choose|i: int| 0 <= i < k + 1 && #[trigger] v@.take(k + 1)[i] == y;
                        assert(v@.take(k as int)[i] == y);
                        assert(v@.take(k as int).to_set().contains(y));
                    } else {
                        assert(r@[p as int] == y);
                    }
                }
                assert forall|y: u16| r@.to_set().contains(y) implies v@.take(k + 1).to_set().contains(y) by {
                    assert(v@.take(k as int).to_set().contains(y));
                    let i = choose|i: int| 0 <= i < k && #[trigger] v@.take(k as int)[i] == y;
                    assert(v@.take(k + 1)[i] == y);
                }
            }
        } else {
            r.insert(p, x);
            proof {
                assert forall|i: int, j: int| 0 <= i < j < r@.len() implies r@[i] < r@[j] by {
                    if j < p {
                    } else if j == p {
                        assert(r@[i] == old_r[i]);
                    } else if i < p {
                        assert(r@[j] == old_r[j - 1]);
                        assert(r@[i] == old_r[i]);
                    } else if i == p {
                        assert(r@[j] == old_r[j - 1]);
                        assert(old_r[p as int] >= x);
                    } else {
                        assert(r@[j] == old_r[j - 1]);
                        assert(r@[i] == old_r[i - 1]);
                    }
                }
                assert(r@.to_set() =~= v@.take(k + 1).to_set()) by {
                    assert forall|y: u16| v@.take(k + 1).to_set().contains(y) implies r@.to_set().contains(y) by {
                        if y != x {
                            let i = choose|i: int| 0 <= i < k + 1 && #[trigger] v@.take(k + 1)[i] == y;
                            assert(v@.take(k as int)[i] == y);
                            assert(old_r.to_set().contains(y));
                            let q = choose|q: int| 0 <= q < old_r.len()&& #[trigger] old_r[q] == y;
                            if q < p {
                                assert(r@[q] == y);
                            } else {
                                assert(r@[q + 1] == y);
                            }
                        } else {
                            assert(r@[p as int] == y);
                        }
                    }
                    assert forall|y: u16| r@.to_set().contains(y) implies v@.take(k + 1).to_set().contains(y) by {
                        let q = choose|q: int| 0 <= q < r@.len()&& #[trigger] r@[q] == y;
                        if q == p {
                            assert(v@.take(k + 1)[k as int] == y);
                        } else {
                            if q < p {
                                assert(old_r[q] == y);
                            } else {
                                assert(old_r[q - 1] == y);
                            }
                            assert(old_r.to_set().contains(y));
                            let i = choose|i: int| 0 <= i < k && #[trigger] v@.take(k as int)[i] == y;
                            assert(v@.take(k + 1)[i] == y);
                        }
                    }
                }
            }
        }
        k = k + 1;
    }
    assert(v@.take(v.len() as int) =~= v@);
    r
}

impl ChannelList {
    /// The channel list as text: the channels in ascending order, consecutive channels
    /// joined into `a..b` runs, runs separated by `,`; the empty list gives the empty text.
    pub fn to_text(&self) -> (r: String)
        ensures
            exists|s: Seq<u16>| is_sorted_version(self@, s) && r@ == sorted_channels_text(s),
    {
        let sorted = sort_channels(&self.0);
        let mut out: Vec<char> = Vec::new();
        if sorted.len() == 0 {
            let r = string_of(&out);
            assert(r@ =~= sorted_channels_text(sorted@));
            assert(is_sorted_version(self@, sorted@) && r@ == sorted_channels_text(sorted@));
            return r;
        }
        let mut start = sorted[0];
        let mut end = start;
        let mut i: usize = 1;
        while i < sorted.len()
            invariant
                1 <= i <= sorted.len(),
                out@ + runs_text(sorted@.skip(i as int), start, end) == sorted_channels_text(sorted@),
            decreases sorted.len() - i,
        {
            let ch = sorted[i];
            let ghost rest = sorted@.skip(i as int);
            assert(rest[0] == ch);
            assert(rest.drop_first() =~= sorted@.skip(i + 1));
            if ch as u32 == end as u32 + 1 {
                end = ch;
            } else {
                let ghost before = out@;
                push_run(&mut out, start, end);
                out.push(',');
                assert(out@ =~= before + run_text(start, end) + seq![',']);
                start = ch;
                end = ch;
            }
            i = i + 1;
        }
        push_run(&mut out, start, end);
        assert(sorted@.skip(i as int) =~= Seq::<u16>::empty());
        let r = string_of(&out);
        assert(is_sorted_version(self@, sorted@) && r@ == sorted_channels_text(sorted@));
        r
    }

    /// Reads a channel list from text: pieces separated by `,`, each (after trimming white
    /// space) a channel number or a range `a..b`; the result is ascending without repeats.
    /// Text that is blank gives the empty list; `None` when a piece is malformed.
    pub fn from_text(text: &str) -> (r: Option<ChannelList>)
        ensures
            match r {
                Some(cl) => match channel_text_channels(text@) {
                    Some(chs) => is_normalized(chs, cl@),
                    None => false,
                },
                None => channel_text_channels(text@) is None,
            },
    {
        let s = chars_of(text);
        let t = trim_chars(&s);
        if t.len() == 0 {
            let v: Vec<u16> = Vec::new();
            assert(v@.to_set() =~= Seq::<u16>::empty().to_set());
            return Some(ChannelList(v));
        }
        let parts = split_on_char(&s, ',');
        let mut chans: Vec<u16> = Vec::new();
        let mut k: usize = 0;
        assert(pieces(parts@).skip(0) =~= pieces(parts@));
        proof {
            match pieces_channels(pieces(parts@)) {
                Some(rest) => {
                    assert(chans@ + rest =~= rest);
                },
                None => {},
            }
        }
        while k < parts.len()
            invariant
                k <= parts.len(),
                s@ == text@,
                trim(s@).len() != 0,
                pieces(parts@) == split_char(s@, ','),
                match pieces_channels(pieces(parts@).skip(k as int)) {
                    Some(rest) => pieces_channels(split_char(s@, ',')) == Some(chans@ + rest),
                    None => pieces_channels(split_char(s@, ',')) is None,
                },
            decreases parts.len() - k,
        {
            let ghost ps = pieces(parts@).skip(k as int);
            assert(ps[0] == parts@[k as int]@);
            assert(ps.drop_first() =~= pieces(parts@).skip(k + 1));
            match piece_to_channels(&parts[k]) {
                Some(cs) => {
                    let ghost old_chans = chans@;
                    let mut j: usize = 0;
                    while j < cs.len()
                        invariant
                            j <= cs.len(),
                            chans@ == old_chans + cs@.take(j as int),
                        decreases cs.len() - j,
                    {
                        chans.push(cs[j]);
                        j = j + 1;
                        assert(chans@ =~= old_chans + cs@.take(j as int));
                    }
                    assert(cs@.take(cs.len() as int) =~= cs@);
                    proof {
                        match pieces_channels(pieces(parts@).skip(k + 1)) {
                            Some(rest) => {
                                assert(old_chans + (cs@ + rest) =~= chans@ + rest);
                            },
                            None => {},
                        }
                    }
                },
                None => {
                    return None;
                },
            }
            k = k + 1;
        }
        assert(pieces(parts@).skip(parts.len() as int) =~= Seq::<Seq<char>>::empty());
        assert(chans@ + Seq::<u16>::empty() =~= chans@);
        Some(ChannelList(sort_dedup(&chans)))
    }
}

fn push_run(out: &mut Vec<char>, a: u16, b: u16)
    ensures
        final(out)@ == old(out)@ + run_text(a, b),
{
    push_decimal(out, a);
    if a != b {
        out.push('.');
        out.push('.');
        push_decimal(out, b);
    }
    assert(final(out)@ =~= old(out)@ + run_text(a, b));
}

fn range_vec(a: u16, b: u16) -> (r: Vec<u16>)
    ensures
        r@ == channel_range(a, b),
{
    let mut r: Vec<u16> = Vec::new();
    if a > b {
        assert(r@ =~= channel_range(a, b));
        return r;
    }
    let mut c: u16 = a;
    loop
        invariant
            a <= c <= b,
            r@ == channel_range(a, b).take(c - a),
        decreases b - c,
    {
        r.push(c);
        assert(r@ =~= channel_range(a, b).take(c - a + 1));
        if c == b {
            assert(r@ =~= channel_range(a, b));
            return r;
        }
        c = c + 1;
    }
}

fn piece_to_channels(p0: &Vec<char>) -> (r: Option<Vec<u16>>)
    ensures
        match r {
            Some(v) => piece_channels(p0@) == Some(v@),
            None => piece_channels(p0@) is None,
        },
{
    let p = trim_chars(p0);
    if has_dots(&p) {
        let r = split_on_dots(&p);
        assert(pieces(r@) == split_dots(p@));
        if r.len() == 2 {
            assert(pieces(r@)[0] == r@[0]@ && pieces(r@)[1] == r@[1]@);
            match (parse_u16_chars(&r[0]), parse_u16_chars(&r[1])) {
                (Some(a), Some(b)) => Some(range_vec(a, b)),
                _ => None,
            }
        } else {
            None
        }
    } else {
        match parse_u16_chars(&p) {
            Some(c) => {
                let mut v: Vec<u16> = Vec::new();
                v.push(c);
                assert(v@ =~= seq![c]);
                Some(v)
            },
            None => None,
        }
    }
}

// ---------------------------------------------------------------------------
// reading back the text of a channel list

/// No white space, `,` or `.` in the decimal digits of a number.
proof fn lemma_dec_plain(n: nat)
    ensures
        forall|i: int| 0 <= i < dec_digits(n).len() ==> is_digit(#[trigger] dec_digits(n)[i]),
        dec_digits(n).len() > 0,
{
    lemma_dec_digits(n);
}

proof fn lemma_no_ws_trim(s: Seq<char>)
    requires
        forall|i: int| 0 <= i < s.len() ==> !is_ws(#[trigger] s[i]),
    ensures
        trim(s) == s,
{
    lemma_trim_start(s, 0);
    assert(s.skip(0) =~= s);
    if s.len() > 0 {
        assert(!is_ws(s[s.len() - 1]));
    }
    lemma_trim_end(s, s.len() as int);
    assert(s.take(s.len() as int) =~= s);
}

proof fn lemma_split_single(p: Seq<char>, c: char)
    requires
        !p.contains(c),
    ensures
        split_char(p, c) == seq![p],
{
    lemma_first_index(p, c, p.len() as int);
}

proof fn lemma_split_cons(p: Seq<char>, c: char, q: Seq<char>)
    requires
        !p.contains(c),
    ensures
        split_char(p + seq![c] + q, c) == seq![p] + split_char(q, c),
{
    let s = p + seq![c] + q;
    assert forall|j: int| 0 <= j < p.len() implies s[j] != c by {
        assert(s[j] == p[j]);
    }
    lemma_first_index(s, c, p.len() as int);
    assert(s.take(p.len() as int) =~= p);
    assert(s.skip(p.len() as int + 1) =~= q);
}

proof fn lemma_run_text(a: u16, b: u16)
    requires
        a <= b,
    ensures
        piece_channels(run_text(a, b)) == Some(channel_range(a, b)),
        !run_text(a, b).contains(','),
        run_text(a, b).len() > 0,
        is_digit(run_text(a, b)[0]),
{
    lemma_dec_plain(a as nat);
    lemma_dec_plain(b as nat);
    lemma_dec_digits(a as nat);
    lemma_dec_digits(b as nat);
    let da = dec_digits(a as nat);
    let db = dec_digits(b as nat);
    let t = run_text(a, b);
    assert(parse_u16_spec(da) == Some(a)) by {
        assert(da[0] != '+');
    }
    assert(parse_u16_spec(db) == Some(b)) by {
        assert(db[0] != '+');
    }
    if a == b {
        assert forall|i: int| 0 <= i < t.len() implies !is_ws(#[trigger] t[i]) by {
            assert(is_digit(da[i]));
        }
        lemma_no_ws_trim(t);
        assert forall|j: int| 0 <= j < t.len() implies !#[trigger] dots_at(t, j) by {
            assert(is_digit(da[j]));
        }
        lemma_first_dots(t, t.len() as int);
        assert(channel_range(a, b) =~= seq![a]);
        assert forall|j: int| 0 <= j < t.len() implies t[j] != ',' by {
            assert(is_digit(da[j]));
        }
    } else {
        let dd = seq!['.', '.'];
        assert(t == da + dd + db);
        assert forall|i: int| 0 <= i < t.len() implies !is_ws(#[trigger] t[i]) by {
            if i < da.len() {
                assert(is_digit(da[i]));
            } else if i >= da.len() + 2 {
                assert(t[i] == db[i - da.len() - 2]);
                assert(is_digit(db[i - da.len() - 2]));
            }
        }
        lemma_no_ws_trim(t);
        assert forall|j: int| 0 <= j < da.len() implies !#[trigger] dots_at(t, j) by {
            assert(is_digit(da[j]));
        }
        lemma_first_dots(t, da.len() as int);
        assert(t.take(da.len() as int) =~= da);
        assert(t.skip(da.len() as int + 2) =~= db);
        assert forall|j: int| 0 <= j < db.len() implies !#[trigger] dots_at(db, j) by {
            assert(is_digit(db[j]));
        }
        lemma_first_dots(db, db.len() as int);
        assert(split_dots(db) == seq![db]);
        assert(split_dots(t) == seq![da] + seq![db]);
        assert(split_dots(t) =~= seq![da, db]);
        assert forall|j: int| 0 <= j < t.len() implies t[j] != ',' by {
            if j < da.len() {
                assert(is_digit(da[j]));
            } else if j >= da.len() + 2 {
                assert(t[j] == db[j - da.len() - 2]);
                assert(is_digit(db[j - da.len() - 2]));
            }
        }
    }
}

proof fn lemma_pieces_cons(p: Seq<char>, rest: Seq<Seq<char>>)
    ensures
        pieces_channels(seq![p] + rest) == match (piece_channels(p), pieces_channels(rest)) {
            (Some(a), Some(b)) => Some(a + b),
            _ => None,
        },
{
    let ps = seq![p] + rest;
    assert(ps[0] == p);
    assert(ps.drop_first() =~= rest);
}

proof fn lemma_set_concat(a: Seq<u16>, b: Seq<u16>)
    ensures
        (a + b).to_set() == a.to_set() + b.to_set(),
{
    assert forall|y: u16| #[trigger] (a + b).to_set().contains(y) <==> (a.to_set() + b.to_set()).contains(y) by {
        if (a + b).contains(y) {
            let i = choose|i: int| 0 <= i < (a + b).len() && #[trigger] (a + b)[i] == y;
            if i < a.len() {
                assert(a[i] == y);
            } else {
                assert(b[i - a.len()] == y);
            }
        }
        if a.contains(y) {
            let i = choose|i: int| 0 <= i < a.len() && #[trigger] a[i] == y;
            assert((a + b)[i] == y);
        }
        if b.contains(y) {
            let i = choose|i: int| 0 <= i < b.len() && #[trigger] b[i] == y;
            assert((a + b)[i + a.len()] == y);
        }
    }
    assert((a + b).to_set() =~= a.to_set() + b.to_set());
}

proof fn lemma_set_cons(s: Seq<u16>)
    requires
        s.len() > 0,
    ensures
        s.to_set() == set![s[0]] + s.drop_first().to_set(),
{
    assert(s =~= seq![s[0]] + s.drop_first());
    lemma_set_concat(seq![s[0]], s.drop_first());
    assert(seq![s[0]].to_set() =~= set![s[0]]) by {
        assert(seq![s[0]][0] == s[0]);
    }
}

proof fn lemma_range_set(a: u16, e: u16)
    requires
        a <= e,
    ensures
        channel_range(a, e).to_set() == Set::new(|y: u16| a <= y <= e),
{
    assert forall|y: u16| #[trigger] channel_range(a, e).to_set().contains(y) <==> (a <= y && y <= e) by {
        if a <= y && y <= e {
            assert(channel_range(a, e)[y - a] == y);
        }
    }
    assert(channel_range(a, e).to_set() =~= Set::new(|y: u16| a <= y <= e));
}

proof fn lemma_runs_text(rest: Seq<u16>, start: u16, end: u16)
    requires
        start <= end,
    ensures
        runs_text(rest, start, end).len() > 0,
        is_digit(runs_text(rest, start, end)[0]),
        match pieces_channels(split_char(runs_text(rest, start, end), ',')) {
            Some(x) => x.to_set() == channel_range(start, end).to_set() + rest.to_set(),
            None => false,
        },
    decreases rest.len(),
{
    lemma_run_text(start, end);
    let r = run_text(start, end);
    if rest.len() == 0 {
        lemma_split_single(r, ',');
        lemma_pieces_cons(r, Seq::empty());
        assert(seq![r] + Seq::<Seq<char>>::empty() =~= seq![r]);
        assert(channel_range(start, end) + Seq::<u16>::empty() =~= channel_range(start, end));
        assert(rest.to_set() =~= Set::<u16>::empty());
        assert(channel_range(start, end).to_set() + rest.to_set() =~= channel_range(start, end).to_set());
    } else if rest[0] as int == end + 1 {
        lemma_runs_extend(rest, start, end);
    } else {
        lemma_runs_break(rest, start, end);
    }
}

proof fn lemma_runs_extend(rest: Seq<u16>, start: u16, end: u16)
    requires
        start <= end,
        rest.len() > 0,
        rest[0] as int == end + 1,
    ensures
        runs_text(rest, start, end).len() > 0,
        is_digit(runs_text(rest, start, end)[0]),
        match pieces_channels(split_char(runs_text(rest, start, end), ',')) {
            Some(x) => x.to_set() == channel_range(start, end).to_set() + rest.to_set(),
            None => false,
        },
    decreases rest.len(), 0int,
{
    let nxt = rest[0];
    lemma_runs_text(rest.drop_first(), start, nxt);
    lemma_range_set(start, end);
    lemma_range_set(start, nxt);
    lemma_set_cons(rest);
    let x = pieces_channels(split_char(runs_text(rest, start, end), ',')).unwrap();
    assert(channel_range(start, nxt).to_set() + rest.drop_first().to_set() =~= channel_range(start, end).to_set() + rest.to_set());
}

proof fn lemma_runs_break(rest: Seq<u16>, start: u16, end: u16)
    requires
        start <= end,
        rest.len() > 0,
        rest[0] as int != end + 1,
    ensures
        runs_text(rest, start, end).len() > 0,
        is_digit(runs_text(rest, start, end)[0]),
        match pieces_channels(split_char(runs_text(rest, start, end), ',')) {
            Some(x) => x.to_set() == channel_range(start, end).to_set() + rest.to_set(),
            None => false,
        },
    decreases rest.len(), 0int,
{
    lemma_run_text(start, end);
    let r = run_text(start, end);
    let nxt = rest[0];
    let t2 = runs_text(rest.drop_first(), nxt, nxt);
    lemma_runs_text(rest.drop_first(), nxt, nxt);
    lemma_split_cons(r, ',', t2);
    lemma_pieces_cons(r, split_char(t2, ','));
    let x2 = pieces_channels(split_char(t2, ',')).unwrap();
    assert(runs_text(rest, start, end) == r + seq![','] + t2);
    assert(runs_text(rest, start, end)[0] == r[0]);
    lemma_set_concat(channel_range(start, end), x2);
    lemma_range_set(nxt, nxt);
    lemma_set_cons(rest);
    assert(channel_range(nxt, nxt).to_set() =~= set![nxt]);
}

/// The runs `start..=end`, then those of `rest`, as `runs_text` writes them.
pub open spec fn list_runs(rest: Seq<u16>, start: u16, end: u16) -> Seq<(u16, u16)>
    decreases rest.len(),
{
    if rest.len() == 0 {
        seq![(start, end)]
    } else if rest[0] as int == end + 1 {
        list_runs(rest.drop_first(), start, rest[0])
    } else {
        seq![(start, end)] + list_runs(rest.drop_first(), rest[0], rest[0])
    }
}

/// The runs of consecutive channels of an ascending list, first to last.
pub open spec fn channel_runs(s: Seq<u16>) -> Seq<(u16, u16)> {
    if s.len() == 0 {
        Seq::empty()
    } else {
        list_runs(s.drop_first(), s[0], s[0])
    }
}

/// The texts of the runs `rs`, joined by `,`.
pub open spec fn runs_joined(rs: Seq<(u16, u16)>) -> Seq<char>
    decreases rs.len(),
{
    if rs.len() == 0 {
        Seq::empty()
    } else if rs.len() == 1 {
        run_text(rs[0].0, rs[0].1)
    } else {
        run_text(rs[0].0, rs[0].1) + seq![','] + runs_joined(rs.drop_first())
    }
}

/// The channels the runs `rs` name, in order.
pub open spec fn runs_channels(rs: Seq<(u16, u16)>) -> Seq<u16>
    decreases rs.len(),
{
    if rs.len() == 0 {
        Seq::empty()
    } else {
        channel_range(rs[0].0, rs[0].1) + runs_channels(rs.drop_first())
    }
}

/// Each run `a..=b` has `a <= b`, and a run starts at least two above the end of the one
/// before it (so no two runs could be joined).
pub open spec fn maximal_runs(rs: Seq<(u16, u16)>) -> bool {
    &&& forall|i: int| 0 <= i < rs.len() ==> (#[trigger] rs[i]).0 <= rs[i].1
    &&& forall|i: int| 0 <= i < rs.len() - 1 ==> (#[trigger] rs[i + 1]).0 >= rs[i].1 + 2
}

proof fn lemma_list_runs(rest: Seq<u16>, start: u16, end: u16)
    requires
        start <= end,
        strictly_increasing(rest),
        rest.len() > 0 ==> rest[0] > end,
    ensures
        list_runs(rest, start, end).len() >= 1,
        list_runs(rest, start, end)[0].0 == start,
        maximal_runs(list_runs(rest, start, end)),
        runs_channels(list_runs(rest, start, end)) == channel_range(start, end) + rest,
        runs_joined(list_runs(rest, start, end)) == runs_text(rest, start, end),
    decreases rest.len(),
{
    let rs = list_runs(rest, start, end);
    if rest.len() == 0 {
        assert(rs.drop_first() =~= Seq::<(u16, u16)>::empty());
        assert(channel_range(start, end) + rest =~= channel_range(start, end));
        assert(runs_channels(rs) =~= channel_range(start, end) + runs_channels(rs.drop_first()));
    } else {
        let t = rest.drop_first();
        assert(strictly_increasing(t)) by {
            assert forall|i: int, j: int| 0 <= i < j < t.len() implies t[i] < t[j] by {
                assert(t[i] == rest[i + 1] && t[j] == rest[j + 1]);
            }
        }
        if t.len() > 0 {
            assert(t[0] == rest[1]);
            assert(rest[0] < rest[1]);
        }
        if rest[0] as int == end + 1 {
            lemma_list_runs(t, start, rest[0]);
            assert(channel_range(start, end) + rest =~= channel_range(start, rest[0]) + t);
        } else {
            lemma_list_runs(t, rest[0], rest[0]);
            let tail = list_runs(t, rest[0], rest[0]);
            assert(rs == seq![(start, end)] + tail);
            assert(rs.drop_first() =~= tail);
            assert(maximal_runs(rs)) by {
                assert forall|i: int| 0 <= i < rs.len() implies (#[trigger] rs[i]).0 <= rs[i].1 by {
                    if i > 0 {
                        assert(rs[i] == tail[i - 1]);
                    }
                }
                assert forall|i: int| 0 <= i < rs.len() - 1 implies (#[trigger] rs[i + 1]).0 >= rs[i].1 + 2 by {
                    assert(rs[i + 1] == tail[i]);
                    if i > 0 {
                        assert(rs[i] == tail[i - 1]);
                    }
                }
            }
            assert(channel_range(rest[0], rest[0]) + t =~= rest);
            assert(channel_range(start, end) + rest =~= channel_range(start, end) + (channel_range(rest[0], rest[0]) + t));
        }
    }
}

/// The text of a channel list without duplicates lists its maximal runs of consecutive
/// channels in ascending order, `a` or `a..b`, joined by `,` (the empty list gives the empty
/// text): `to_text` gives `sorted_channels_text` of its ascending version, and that is this.
pub proof fn law_channel_text_runs(v: Seq<u16>, s: Seq<u16>)
    requires
        v.no_duplicates(),
        is_sorted_version(v, s),
    ensures
        strictly_increasing(s),
        maximal_runs(channel_runs(s)),
        runs_channels(channel_runs(s)) == s,
        sorted_channels_text(s) == runs_joined(channel_runs(s)),
{
    v.lemma_multiset_has_no_duplicates();
    s.lemma_multiset_has_no_duplicates_conv();
    assert(strictly_increasing(s)) by {
        assert forall|i: int, j: int| 0 <= i < j < s.len() implies s[i] < s[j] by {
            assert(s[i] <= s[j]);
            assert(s[i] != s[j]);
        }
    }
    if s.len() > 0 {
        let t = s.drop_first();
        assert(strictly_increasing(t)) by {
            assert forall|i: int, j: int| 0 <= i < j < t.len() implies t[i] < t[j] by {
                assert(t[i] == s[i + 1] && t[j] == s[j + 1]);
            }
        }
        if t.len() > 0 {
            assert(t[0] == s[1]);
        }
        lemma_list_runs(t, s[0], s[0]);
        assert(channel_range(s[0], s[0]) + t =~= s);
    } else {
        assert(runs_channels(channel_runs(s)) =~= s);
    }
}

/// Reading back the text of a channel list names exactly the channels of the list: the text
/// `to_text` gives for `v` is accepted by `from_text`, and the channels it names are those of
/// `v` (so `from_text` returns them ascending, each once).
pub proof fn law_channel_text_roundtrip(v: Seq<u16>, text: Seq<char>)
    requires
        exists|s: Seq<u16>| is_sorted_version(v, s) && text == sorted_channels_text(s),
    ensures
        match channel_text_channels(text) {
            Some(chs) => chs.to_set() == v.to_set(),
            None => false,
        },
{
    broadcast use vstd::seq_lib::group_to_multiset_ensures;
    let s = choose|s: Seq<u16>| is_sorted_version(v, s) && text == sorted_channels_text(s);
    assert forall|y: u16| #[trigger] s.to_set().contains(y) <==> v.to_set().contains(y) by {
        assert(s.contains(y) <==> s.to_multiset().count(y) > 0);
        assert(v.contains(y) <==> v.to_multiset().count(y) > 0);
    }
    assert(s.to_set() =~= v.to_set());
    if s.len() == 0 {
        assert(text =~= Seq::<char>::empty());
        assert(trim(text) =~= Seq::<char>::empty());
        assert(s.to_set() =~= Seq::<u16>::empty().to_set());
    } else {
        lemma_runs_text(s.drop_first(), s[0], s[0]);
        assert(!is_ws(text[0]));
        lemma_trim_start(text, 0);
        assert(text.skip(0) =~= text);
        assert(trim_end(text).len() > 0) by {
            lemma_trim_end_keeps_first(text);
        }
        let x = channel_text_channels(text).unwrap();
        assert(x.to_set() =~= s.to_set()) by {
            assert forall|y: u16| #[trigger] x.to_set().contains(y) <==> s.to_set().contains(y) by {
                if channel_range(s[0], s[0]).to_set().contains(y) {
                    let k = choose|k: int| 0 <= k < channel_range(s[0], s[0]).len() && #[trigger] channel_range(s[0], s[0])[k] == y;
                    assert(s[0] == y);
                }
                if s.drop_first().to_set().contains(y) {
                    let k = choose|k: int| 0 <= k < s.drop_first().len() && #[trigger] s.drop_first()[k] == y;
                    assert(s[k + 1] == y);
                }
                if s.to_set().contains(y) {
                    let k = choose|k: int| 0 <= k < s.len() && #[trigger] s[k] == y;
                    if k == 0 {
                        assert(channel_range(s[0], s[0])[0] == y);
                    } else {
                        assert(s.drop_first()[k - 1] == y);
                    }
                }
            }
        }
    }
}

proof fn lemma_trim_end_keeps_first(s: Seq<char>)
    requires
        s.len() > 0,
        !is_ws(s[0]),
    ensures
        trim_end(s).len() > 0,
    decreases s.len(),
{
    if s.len() > 1 && is_ws(s.last()) {
        lemma_trim_end_keeps_first(s.drop_last());
    }
}

// ---------------------------------------------------------------------------
// targets

/// What a command acts on.
#[derive(Debug, PartialEq, Eq)]
pub enum Target {
    Channels(ChannelList),
    Fixtures(Vec<String>),
    Groups(Vec<String>),
    Parameters(Vec<String>),
    Mixed(Vec<Target>),
}

/// The mathematical value of a `Target`.
pub enum SpecTarget {
    Channels(Seq<u16>),
    Fixtures(Seq<Seq<char>>),
    Groups(Seq<Seq<char>>),
    Parameters(Seq<Seq<char>>),
    Mixed(Seq<SpecTarget>),
}

/// The text of each string.
pub open spec fn strings_view(v: Seq<String>) -> Seq<Seq<char>> {
    v.map_values(|s: String| s@)
}

impl View for Target {
    type V = SpecTarget;

    open spec fn view(&self) -> SpecTarget
        decreases self,
    {
        match self {
            Target::Channels(cl) => SpecTarget::Channels(cl.0@),
            Target::Fixtures(v) => SpecTarget::Fixtures(strings_view(v@)),
            Target::Groups(v) => SpecTarget::Groups(strings_view(v@)),
            Target::Parameters(v) => SpecTarget::Parameters(strings_view(v@)),
            Target::Mixed(v) => SpecTarget::Mixed(
                Seq::new(
                    v.len() as nat,
                    |i: int|
                        if 0 <= i < v.len() {
                            v@[i].view()
                        } else {
                            SpecTarget::Mixed(Seq::empty())
                        },
                ),
            ),
        }
    }
}

/// A copy of a list of strings.
pub fn copy_strings(v: &Vec<String>) -> (r: Vec<String>)
    ensures
        strings_view(r@) == strings_view(v@),
{
    let mut r: Vec<String> = Vec::new();
    let mut i: usize = 0;
    while i < v.len()
        invariant
            i <= v.len(),
            strings_view(r@) == strings_view(v@.take(i as int)),
        decreases v.len() - i,
    {
        let c = v[i].clone();
        let ghost old_r = r@;
        r.push(c);
        assert(r@ == old_r.push(v@[i as int]));
        assert(v@.take(i + 1) =~= v@.take(i as int).push(v@[i as int]));
        assert(strings_view(r@) =~= strings_view(old_r).push(v@[i as int]@));
        assert(strings_view(v@.take(i + 1)) =~= strings_view(v@.take(i as int)).push(v@[i as int]@));
        i = i + 1;
        assert(strings_view(r@) =~= strings_view(v@.take(i as int)));
    }
    assert(v@.take(v.len() as int) =~= v@);
    r
}

impl Target {
    /// A copy of this target.
    pub fn copy(&self) -> (r: Target)
        ensures
            r@ == self@,
        decreases self,
    {
        match self {
            Target::Channels(cl) => {
                let mut v: Vec<u16> = Vec::new();
                let mut i: usize = 0;
                while i < cl.0.len()
                    invariant
                        i <= cl.0.len(),
                        v@ == cl.0@.take(i as int),
                    decreases cl.0.len() - i,
                {
                    v.push(cl.0[i]);
                    i = i + 1;
                    assert(v@ =~= cl.0@.take(i as int));
                }
                assert(cl.0@.take(cl.0.len() as int) =~= cl.0@);
                Target::Channels(ChannelList(v))
            },
            Target::Fixtures(v) => Target::Fixtures(copy_strings(v)),
            Target::Groups(v) => Target::Groups(copy_strings(v)),
            Target::Parameters(v) => Target::Parameters(copy_strings(v)),
            Target::Mixed(v) => {
                let mut r: Vec<Target> = Vec::new();
                let mut i: usize = 0;
                while i < v.len()
                    invariant
                        i <= v.len(),
                        r.len() == i,
                        *self == Target::Mixed(*v),
                        forall|j: int| 0 <= j < i ==> #[trigger] r@[j].view() == v@[j].view(),
                    decreases v.len() - i,
                {
                    proof {
                        assert(decreases_to!(*self => (*self)->Mixed_0));
                        assert((*self)->Mixed_0 == *v);
                        assert(decreases_to!(*v => v@));
                        assert(decreases_to!(v@ => v@[i as int]));
                        assert(decreases_to!(*self => v@[i as int]));
                    }
                    let t = v[i].copy();
                    r.push(t);
                    i = i + 1;
                }
                let res = Target::Mixed(r);
                assert(res@ == self@) by {
                    if let SpecTarget::Mixed(a) = res@ {
                        if let SpecTarget::Mixed(b) = self@ {
                            assert forall|j: int| 0 <= j < a.len() implies a[j] == b[j] by {
                                assert(r@[j].view() == v@[j].view());
                            }
                            assert(a =~= b);
                        }
                    }
                }
                res
            },
        }
    }
}

/// The values of `v`, each once, ascending.
pub open spec fn normalized(v: Seq<u16>) -> Seq<u16> {
    choose|s: Seq<u16>| is_normalized(v, s)
}

/// There is one ascending list without repeats for a given set of values.
pub proof fn lemma_normalized_unique(v: Seq<u16>, s1: Seq<u16>, s2: Seq<u16>)
    requires
        is_normalized(v, s1),
        is_normalized(v, s2),
    ensures
        s1 == s2,
    decreases s1.len(),
{
    if s1.len() == 0 {
        if s2.len() > 0 {
            assert(s2.to_set().contains(s2[0]));
            assert(s1.to_set().contains(s2[0]));
        }
        assert(s1 =~= s2);
    } else {
        assert(s1.to_set().contains(s1[0]));
        assert(s2.to_set().contains(s1[0]));
        let k = choose|k: int| 0 <= k < s2.len() && #[trigger] s2[k] == s1[0];
        assert(s2.to_set().contains(s2[0]));
        assert(s1.to_set().contains(s2[0]));
        let m = choose|m: int| 0 <= m < s1.len() && #[trigger] s1[m] == s2[0];
        assert(s1[0] == s2[0]) by {
            if k > 0 {
                assert(s2[0] < s2[k]);
            }
            if m > 0 {
                assert(s1[0] < s1[m]);
            }
        }
        let t1 = s1.drop_first();
        let t2 = s2.drop_first();
        assert forall|y: u16| #[trigger] t2.to_set().contains(y) <==> t1.to_set().contains(y) by {
            if t2.to_set().contains(y) {
                let i = choose|i: int| 0 <= i < t2.len() && #[trigger] t2[i] == y;
                assert(s2[i + 1] == y);
                assert(s1.to_set().contains(y));
                let j = choose|j: int| 0 <= j < s1.len() && #[trigger] s1[j] == y;
                assert(j != 0) by {
                    assert(s2[0] < s2[i + 1]);
                }
                assert(t1[j - 1] == y);
            }
            if t1.to_set().contains(y) {
                let i = choose|i: int| 0 <= i < t1.len() && #[trigger] t1[i] == y;
                assert(s1[i + 1] == y);
                assert(s2.to_set().contains(y));
                let j = choose|j: int| 0 <= j < s2.len() && #[trigger] s2[j] == y;
                assert(j != 0) by {
                    assert(s1[0] < s1[i + 1]);
                }
                assert(t2[j - 1] == y);
            }
        }
        assert(t2.to_set() =~= t1.to_set());
        lemma_normalized_unique(t1, t1, t2);
        assert(s1 =~= seq![s1[0]] + t1);
        assert(s2 =~= seq![s2[0]] + t2);
    }
}

/// A list normalized from `v` is `normalized(v)`.
pub proof fn lemma_normalized_is(v: Seq<u16>, s: Seq<u16>)
    requires
        is_normalized(v, s),
    ensures
        normalized(v) == s,
{
    lemma_normalized_unique(v, normalized(v), s);
}

} // verus!

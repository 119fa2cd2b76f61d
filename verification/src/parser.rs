//! The console command language.
//!
//! A line is `target @ action`: the target names channels (`1`, `1..10`, `1..10*2`),
//! fixtures (`f3`, `f1..4`, `fSpot`) or groups (`gFront`), separated by `,`; the action is a
//! level (`50`, `50%`, `full`), a colour or position name, a fade (`full/3s`), an effect
//! (`fx(sin,0,255,2b,sine,add)`) or the name of a saved effect.  `go <list>` and
//! `stop <list>` start and stop cue lists; a line ending in `?` is held back until a blank
//! line or `go`.
use vstd::prelude::*;
use crate::text::{
    trim, first_index, split_char, split_dots, contains_dots, str_to_lowercase, is_digit,
    remove_all, eq_ignore_ascii_case, starts_with, trim_chars, find_char, skip_chars, subvec,
    drop_last_char, ends_with_char, starts_with_char, has_char, has_dots, split_on_char,
    split_on_dots, remove_char, eq_chars, eq_ignore_case_chars, starts_with_chars, chars_of,
    string_of, to_lowercase_chars, pieces, lemma_first_index_bounds, char_is_digit,
};
use crate::numeric::{
    is_float_literal, is_zero_literal, check_float_literal, parse_u16_spec, parse_usize_spec,
    parse_u16_chars, parse_usize_chars, dec_digits, push_decimal,
};
use crate::command::{
    Number, SpecNumber, Duration, SpecDuration, Value, SpecValue, Command, SpecCommand, Cue,
    SpecCue, commands_view,
};
use crate::effects::{Effect, SpecEffect, Easing, MathMethod};
use crate::target::{
    Target, SpecTarget, ChannelList, strings_view, normalized, is_normalized, sort_dedup,
    lemma_normalized_is,
};

verus! {

// ---------------------------------------------------------------------------
// numbers and durations

/// `s` when it is a floating-point literal, `dflt` otherwise.
pub open spec fn literal_or(s: Seq<char>, dflt: Seq<char>) -> Seq<char> {
    if is_float_literal(s) {
        s
    } else {
        dflt
    }
}

pub open spec fn plain_number(lit: Seq<char>) -> SpecNumber {
    SpecNumber { literal: lit, divisor: None, percent: false }
}

/// A duration: `<n>b` or `<n>/<d>b` beats (a zero denominator is refused), `<n>s` or `<n>`
/// seconds.
pub open spec fn duration_spec(s: Seq<char>) -> Option<SpecDuration> {
    if s.len() > 0 && s.last() == 'b' {
        let n = s.drop_last();
        if n.contains('/') {
            let k = first_index(n, '/');
            let p0 = n.take(k);
            let p1 = n.skip(k + 1);
            if is_float_literal(p0) && is_float_literal(p1) && !is_zero_literal(p1) {
                Some(SpecDuration::Tempo(SpecNumber { literal: p0, divisor: Some(p1), percent: false }))
            } else {
                None
            }
        } else if is_float_literal(n) {
            Some(SpecDuration::Tempo(plain_number(n)))
        } else {
            None
        }
    } else if s.len() > 0 && s.last() == 's' {
        let n = s.drop_last();
        if is_float_literal(n) {
            Some(SpecDuration::Time(plain_number(n)))
        } else {
            None
        }
    } else if is_float_literal(s) {
        Some(SpecDuration::Time(plain_number(s)))
    } else {
        None
    }
}

fn plain(lit: &Vec<char>) -> (r: Number)
    ensures
        r@ == plain_number(lit@),
{
    Number { literal: string_of(lit), divisor: None, percent: false }
}

/// `s` as a number when it is a floating-point literal, `dflt` otherwise.
fn number_or(s: &Vec<char>, dflt: &str) -> (r: Number)
    ensures
        r@ == plain_number(literal_or(s@, dflt@)),
{
    let (ok, _) = check_float_literal(s);
    if ok {
        plain(s)
    } else {
        plain(&chars_of(dflt))
    }
}

fn parse_duration_chars(s: &Vec<char>) -> (r: Option<Duration>)
    ensures
        match r {
            Some(d) => duration_spec(s@) == Some(d@),
            None => duration_spec(s@) is None,
        },
{
    if ends_with_char(s, 'b') {
        let n = drop_last_char(s);
        if has_char(&n, '/') {
            let k = find_char(&n, 0, '/');
            assert(n@.skip(0) =~= n@);
            proof {
                lemma_first_index_bounds(n@, '/');
            }
            let p0 = subvec(&n, 0, k);
            let p1 = skip_chars(&n, k + 1);
            assert(p0@ =~= n@.take(k as int));
            let (ok0, _) = check_float_literal(&p0);
            let (ok1, zero1) = check_float_literal(&p1);
            if ok0 && ok1 && !zero1 {
                Some(Duration::Tempo(Number { literal: string_of(&p0), divisor: Some(string_of(&p1)), percent: false }))
            } else {
                None
            }
        } else {
            let (ok, _) = check_float_literal(&n);
            if ok {
                Some(Duration::Tempo(plain(&n)))
            } else {
                None
            }
        }
    } else if ends_with_char(s, 's') {
        let n = drop_last_char(s);
        let (ok, _) = check_float_literal(&n);
        if ok {
            Some(Duration::Time(plain(&n)))
        } else {
            None
        }
    } else {
        let (ok, _) = check_float_literal(s);
        if ok {
            Some(Duration::Time(plain(s)))
        } else {
            None
        }
    }
}

/// Reads a duration (see `duration_spec`).
pub fn parse_duration(s: &str) -> (r: Option<Duration>)
    ensures
        match r {
            Some(d) => duration_spec(s@) == Some(d@),
            None => duration_spec(s@) is None,
        },
{
    parse_duration_chars(&chars_of(s))
}

// ---------------------------------------------------------------------------
// targets

/// What the pieces of a target name, in the order written.
#[verifier::ext_equal]
pub struct TargetItems {
    pub channels: Seq<u16>,
    pub fixtures: Seq<Seq<char>>,
    pub groups: Seq<Seq<char>>,
}

pub open spec fn no_items() -> TargetItems {
    TargetItems { channels: Seq::empty(), fixtures: Seq::empty(), groups: Seq::empty() }
}

pub open spec fn join_items(a: TargetItems, b: TargetItems) -> TargetItems {
    TargetItems {
        channels: a.channels + b.channels,
        fixtures: a.fixtures + b.fixtures,
        groups: a.groups + b.groups,
    }
}

/// The fixture named `F<n>`.
pub open spec fn fixture_name(n: nat) -> Seq<char> {
    seq!['F'] + dec_digits(n)
}

/// The fixtures `F<a>` to `F<b>`.
pub open spec fn fixture_names(a: u16, b: u16) -> Seq<Seq<char>> {
    Seq::new(if a <= b { (b - a + 1) as nat } else { 0 }, |i: int| fixture_name((a + i) as nat))
}

/// The channels `a, a + step, ...` up to `b`.
pub open spec fn stepped(a: u16, b: u16, step: nat) -> Seq<u16> {
    Seq::new(if a <= b && step > 0 { ((b - a) as nat / step + 1) as nat } else { 0 }, |i: int| (a + i * step) as u16)
}

/// The step of a channel range `<range>*<step>`: a step that does not read as a number is 1,
/// and so is the step when there is no `*` or more than one.
pub open spec fn range_step(rs: Seq<Seq<char>>) -> nat {
    if rs.len() == 2 {
        match parse_usize_spec(rs[1]) {
            Some(x) => x as nat,
            None => 1,
        }
    } else {
        1
    }
}

/// What one `,`-separated piece of a target names.
pub open spec fn part_items(p0: Seq<char>) -> TargetItems {
    let p = trim(p0);
    let lower = str_to_lowercase(p);
    if p.len() == 0 {
        no_items()
    } else if lower.len() > 0 && lower[0] == 'g' {
        TargetItems { groups: seq![p.drop_first()], ..no_items() }
    } else if lower.len() > 0 && lower[0] == 'f' {
        let f = lower.drop_first();
        if contains_dots(f) {
            let r = split_dots(f);
            if r.len() == 2 {
                match (parse_u16_spec(r[0]), parse_u16_spec(r[1])) {
                    (Some(a), Some(b)) => TargetItems { fixtures: fixture_names(a, b), ..no_items() },
                    _ => no_items(),
                }
            } else {
                no_items()
            }
        } else {
            match parse_u16_spec(f) {
                Some(n) => TargetItems { fixtures: seq![fixture_name(n as nat)], ..no_items() },
                None => TargetItems { fixtures: seq![p.drop_first()], ..no_items() },
            }
        }
    } else if lower.len() > 0 && is_digit(lower[0]) {
        if contains_dots(lower) {
            let rs = split_char(lower, '*');
            let r = split_dots(rs[0]);
            if r.len() == 2 {
                match (parse_u16_spec(r[0]), parse_u16_spec(r[1])) {
                    (Some(a), Some(b)) => TargetItems {
                        channels: stepped(a, b, range_step(rs)),
                        ..no_items()
                    },
                    _ => no_items(),
                }
            } else {
                no_items()
            }
        } else {
            match parse_u16_spec(lower) {
                Some(c) => TargetItems { channels: seq![c], ..no_items() },
                None => no_items(),
            }
        }
    } else {
        no_items()
    }
}

/// Whether a piece is a channel range with step 0, which the step iteration refuses.
pub open spec fn part_zero_step(p0: Seq<char>) -> bool {
    let p = trim(p0);
    let lower = str_to_lowercase(p);
    &&& p.len() > 0
    &&& lower.len() > 0
    &&& lower[0] != 'g'
    &&& lower[0] != 'f'
    &&& is_digit(lower[0])
    &&& contains_dots(lower)
    &&& {
        let rs = split_char(lower, '*');
        let r = split_dots(rs[0]);
        &&& rs.len() == 2
        &&& parse_usize_spec(rs[1]) == Some(0usize)
        &&& r.len() == 2
        &&& parse_u16_spec(r[0]) is Some
        &&& parse_u16_spec(r[1]) is Some
    }
}

pub open spec fn parts_items(ps: Seq<Seq<char>>) -> TargetItems
    decreases ps.len(),
{
    if ps.len() == 0 {
        no_items()
    } else {
        join_items(part_items(ps[0]), parts_items(ps.drop_first()))
    }
}

/// Whether a target text holds a channel range with step 0.
pub open spec fn target_zero_step(s: Seq<char>) -> bool {
    exists|i: int| 0 <= i < split_char(s, ',').len() && part_zero_step(#[trigger] split_char(s, ',')[i])
}

/// The targets named, before they are combined.
pub open spec fn target_list(it: TargetItems) -> Seq<SpecTarget> {
    (if it.channels.len() > 0 { seq![SpecTarget::Channels(normalized(it.channels))] } else { Seq::empty() })
        + (if it.fixtures.len() > 0 { seq![SpecTarget::Fixtures(it.fixtures)] } else { Seq::empty() })
        + (if it.groups.len() > 0 { seq![SpecTarget::Groups(it.groups)] } else { Seq::empty() })
}

/// The target a target text names: channels (ascending, each once), fixtures and groups;
/// several kinds together make a mixed target; `None` when nothing is named.
pub open spec fn target_spec(s: Seq<char>) -> Option<SpecTarget> {
    let ts = target_list(parts_items(split_char(s, ',')));
    if ts.len() == 0 {
        None
    } else if ts.len() == 1 {
        Some(ts[0])
    } else {
        Some(SpecTarget::Mixed(ts))
    }
}

fn fixture_name_string(n: u16) -> (r: String)
    ensures
        r@ == fixture_name(n as nat),
{
    let mut v: Vec<char> = Vec::new();
    v.push('F');
    push_decimal(&mut v, n);
    assert(v@ =~= fixture_name(n as nat));
    string_of(&v)
}

fn push_fixture_range(out: &mut Vec<String>, a: u16, b: u16)
    ensures
        strings_view(final(out)@) == strings_view(old(out)@) + fixture_names(a, b),
{
    let ghost start = strings_view(out@);
    if a > b {
        assert(fixture_names(a, b) =~= Seq::<Seq<char>>::empty());
        assert(strings_view(out@) =~= start + fixture_names(a, b));
        return;
    }
    let mut c: u16 = a;
    loop
        invariant
            a <= c <= b,
            start == strings_view(old(out)@),
            strings_view(out@) == start + fixture_names(a, b).take(c - a),
        decreases b - c,
    {
        let name = fixture_name_string(c);
        let ghost before = out@;
        out.push(name);
        assert(strings_view(out@) =~= strings_view(before).push(name@));
        assert(fixture_names(a, b).take(c - a + 1) =~= fixture_names(a, b).take(c - a).push(fixture_name(c as nat)));
        assert(strings_view(out@) =~= start + fixture_names(a, b).take(c - a + 1));
        if c == b {
            assert(fixture_names(a, b).take(c - a + 1) =~= fixture_names(a, b));
            return;
        }
        c = c + 1;
    }
}

fn push_stepped(out: &mut Vec<u16>, a: u16, b: u16, step: usize)
    requires
        step > 0,
    ensures
        final(out)@ == old(out)@ + stepped(a, b, step as nat),
{
    let ghost start = out@;
    if a > b {
        assert(stepped(a, b, step as nat) =~= Seq::<u16>::empty());
        assert(out@ =~= start + stepped(a, b, step as nat));
        return;
    }
    let ghost count: int = ((b - a) as nat / step as nat + 1) as int;
    let mut c: u16 = a;
    let ghost mut k: int = 0;
    assert(count >= 1) by (nonlinear_arith)
        requires
            count == (b - a) as nat / step as nat + 1,
            step > 0,
            b >= a,
    ;
    loop
        invariant
            a <= c <= b,
            step > 0,
            start == old(out)@,
            0 <= k,
            c == a + k * step,
            count == (b - a) as nat / step as nat + 1,
            k < count,
            out@ == start + stepped(a, b, step as nat).take(k),
        decreases b - c,
    {
        out.push(c);
        assert(stepped(a, b, step as nat)[k] == c);
        assert(stepped(a, b, step as nat).take(k + 1) =~= stepped(a, b, step as nat).take(k).push(c));
        let ghost old_k = k;
        proof {
            k = k + 1;
        }
        if ((b - c) as usize) < step {
            proof {
                assert((b - a) as int == old_k * step + (b - c)) by (nonlinear_arith)
                    requires
                        c == a + old_k * step,
                ;
                vstd::arithmetic::div_mod::lemma_fundamental_div_mod_converse(
                    (b - a) as int,
                    step as int,
                    old_k,
                    (b - c) as int,
                );
            }
            assert(stepped(a, b, step as nat).take(k) =~= stepped(a, b, step as nat));
            return;
        }
        proof {
            let x = (b - a) as int;
            let d = step as int;
            vstd::arithmetic::div_mod::lemma_fundamental_div_mod(x, d);
            assert(x >= k * d) by (nonlinear_arith)
                requires
                    c == a + old_k * step,
                    (b - c) >= step,
                    x == (b - a),
                    d == step,
                    k == old_k + 1,
            ;
            assert(x / d >= k) by (nonlinear_arith)
                requires
                    x >= k * d,
                    d > 0,
                    x == d * (x / d) + (x % d),
                    0 <= x % d < d,
            ;
        }
        c = c + step as u16;
        assert(c == a + k * step) by (nonlinear_arith)
            requires
                c == (a + old_k * step) + step,
                k == old_k + 1,
        ;
    }
}

pub open spec fn items_of(chans: Seq<u16>, fix: Seq<String>, grp: Seq<String>) -> TargetItems {
    TargetItems { channels: chans, fixtures: strings_view(fix), groups: strings_view(grp) }
}

fn add_part(
    p0: &Vec<char>,
    chans: &mut Vec<u16>,
    fix: &mut Vec<String>,
    grp: &mut Vec<String>,
)
    requires
        !part_zero_step(p0@),
    ensures
        items_of(final(chans)@, final(fix)@, final(grp)@) == join_items(
            items_of(old(chans)@, old(fix)@, old(grp)@),
            part_items(p0@),
        ),
{
    let ghost before = items_of(chans@, fix@, grp@);
    let p = trim_chars(p0);
    if p.len() == 0 {
        assert(join_items(before, no_items()) =~= before);
        return;
    }
    let lower = to_lowercase_chars(&p);
    if starts_with_char(&lower, 'g') {
        let ghost old_g = grp@;
        grp.push(string_of(&skip_chars(&p, 1)));
        assert(strings_view(grp@) =~= strings_view(old_g) + seq![p@.drop_first()]);
        assert(items_of(chans@, fix@, grp@) =~= join_items(before, part_items(p0@)));
    } else if starts_with_char(&lower, 'f') {
        let f = skip_chars(&lower, 1);
        if has_dots(&f) {
            let r = split_on_dots(&f);
            if r.len() == 2 {
                assert(pieces(r@)[0] == r@[0]@ && pieces(r@)[1] == r@[1]@);
                match (parse_u16_chars(&r[0]), parse_u16_chars(&r[1])) {
                    (Some(a), Some(b)) => {
                        push_fixture_range(fix, a, b);
                        assert(items_of(chans@, fix@, grp@) =~= join_items(before, part_items(p0@)));
                    },
                    _ => {
                        assert(join_items(before, no_items()) =~= before);
                    },
                }
            } else {
                assert(join_items(before, no_items()) =~= before);
            }
        } else {
            let ghost old_f = fix@;
            match parse_u16_chars(&f) {
                Some(n) => {
                    fix.push(fixture_name_string(n));
                },
                None => {
                    fix.push(string_of(&skip_chars(&p, 1)));
                },
            }
            assert(strings_view(fix@) =~= strings_view(old_f) + part_items(p0@).fixtures);
            assert(items_of(chans@, fix@, grp@) =~= join_items(before, part_items(p0@)));
        }
    } else if lower.len() > 0 && char_is_digit(lower[0]) {
        if has_dots(&lower) {
            let rs = split_on_char(&lower, '*');
            assert(pieces(rs@)[0] == rs@[0]@);
            let r = split_on_dots(&rs[0]);
            let step: usize = if rs.len() == 2 {
                assert(pieces(rs@)[1] == rs@[1]@);
                match parse_usize_chars(&rs[1]) {
                    Some(x) => x,
                    None => 1,
                }
            } else {
                1
            };
            assert(step as nat == range_step(pieces(rs@)));
            if r.len() == 2 {
                assert(pieces(r@)[0] == r@[0]@ && pieces(r@)[1] == r@[1]@);
                match (parse_u16_chars(&r[0]), parse_u16_chars(&r[1])) {
                    (Some(a), Some(b)) => {
                        assert(step > 0);
                        push_stepped(chans, a, b, step);
                        assert(items_of(chans@, fix@, grp@) =~= join_items(before, part_items(p0@)));
                    },
                    _ => {
                        assert(join_items(before, no_items()) =~= before);
                    },
                }
            } else {
                assert(join_items(before, no_items()) =~= before);
            }
        } else {
            match parse_u16_chars(&lower) {
                Some(c) => {
                    chans.push(c);
                    assert(items_of(chans@, fix@, grp@) =~= join_items(before, part_items(p0@)));
                },
                None => {
                    assert(join_items(before, no_items()) =~= before);
                },
            }
        }
    } else {
        assert(join_items(before, no_items()) =~= before);
    }
}

#[verifier::rlimit(30)]
fn parse_target_chars(s: &Vec<char>) -> (r: Option<Target>)
    requires
        !target_zero_step(s@),
    ensures
        match r {
            Some(t) => target_spec(s@) == Some(t@),
            None => target_spec(s@) is None,
        },
{
    let parts = split_on_char(s, ',');
    let mut chans: Vec<u16> = Vec::new();
    let mut fix: Vec<String> = Vec::new();
    let mut grp: Vec<String> = Vec::new();
    let mut k: usize = 0;
    assert(pieces(parts@).skip(0) =~= pieces(parts@));
    assert(join_items(items_of(chans@, fix@, grp@), parts_items(pieces(parts@))) =~= parts_items(pieces(parts@)));
    while k < parts.len()
        invariant
            k <= parts.len(),
            pieces(parts@) == split_char(s@, ','),
            !target_zero_step(s@),
            join_items(items_of(chans@, fix@, grp@), parts_items(pieces(parts@).skip(k as int)))
                == parts_items(split_char(s@, ',')),
        decreases parts.len() - k,
    {
        let ghost rest = pieces(parts@).skip(k as int);
        assert(rest[0] == parts@[k as int]@);
        assert(rest.drop_first() =~= pieces(parts@).skip(k + 1));
        assert(!part_zero_step(parts@[k as int]@)) by {
            assert(split_char(s@, ',')[k as int] == parts@[k as int]@);
        }
        let ghost before = items_of(chans@, fix@, grp@);
        add_part(&parts[k], &mut chans, &mut fix, &mut grp);
        assert(join_items(items_of(chans@, fix@, grp@), parts_items(rest.drop_first())) =~= join_items(before, parts_items(rest)));
        k = k + 1;
    }
    assert(pieces(parts@).skip(k as int) =~= Seq::<Seq<char>>::empty());
    let ghost it = parts_items(split_char(s@, ','));
    assert(items_of(chans@, fix@, grp@) =~= it);
    let mut targets: Vec<Target> = Vec::new();
    if chans.len() > 0 {
        let sorted = sort_dedup(&chans);
        proof {
            lemma_normalized_is(chans@, sorted@);
        }
        targets.push(Target::Channels(ChannelList(sorted)));
    }
    if fix.len() > 0 {
        targets.push(Target::Fixtures(fix));
    }
    if grp.len() > 0 {
        targets.push(Target::Groups(grp));
    }
    let ghost ts = target_list(it);
    assert(targets@.map_values(|t: Target| t@) =~= ts);
    if targets.len() == 0 {
        None
    } else if targets.len() == 1 {
        let t = targets.pop().unwrap();
        Some(t)
    } else {
        let res = Target::Mixed(targets);
        assert(res@ == SpecTarget::Mixed(ts)) by {
            if let SpecTarget::Mixed(a) = res@ {
                assert(a =~= ts);
            }
        }
        Some(res)
    }
}

/// Reads a target (see `target_spec`).
pub fn parse_target(target_str: &str) -> (r: Option<Target>)
    requires
        !target_zero_step(target_str@),
    ensures
        match r {
            Some(t) => target_spec(target_str@) == Some(t@),
            None => target_spec(target_str@) is None,
        },
{
    parse_target_chars(&chars_of(target_str))
}

/// Whether reading the target text `s` would iterate a channel range with step 0.
pub fn has_zero_step_chars(s: &Vec<char>) -> (r: bool)
    ensures
        r == target_zero_step(s@),
{
    let parts = split_on_char(s, ',');
    let mut k: usize = 0;
    while k < parts.len()
        invariant
            k <= parts.len(),
            pieces(parts@) == split_char(s@, ','),
            forall|i: int| 0 <= i < k ==> !part_zero_step(#[trigger] split_char(s@, ',')[i]),
        decreases parts.len() - k,
    {
        assert(split_char(s@, ',')[k as int] == parts@[k as int]@);
        if part_has_zero_step(&parts[k]) {
            return true;
        }
        k = k + 1;
    }
    false
}

fn part_has_zero_step(p0: &Vec<char>) -> (r: bool)
    ensures
        r == part_zero_step(p0@),
{
    let p = trim_chars(p0);
    if p.len() == 0 {
        return false;
    }
    let lower = to_lowercase_chars(&p);
    if lower.len() == 0 || lower[0] == 'g' || lower[0] == 'f' || !char_is_digit(lower[0]) || !has_dots(&lower) {
        return false;
    }
    let rs = split_on_char(&lower, '*');
    assert(pieces(rs@)[0] == rs@[0]@);
    if rs.len() != 2 {
        return false;
    }
    assert(pieces(rs@)[1] == rs@[1]@);
    let r = split_on_dots(&rs[0]);
    if r.len() != 2 {
        return false;
    }
    assert(pieces(r@)[0] == r@[0]@ && pieces(r@)[1] == r@[1]@);
    match (parse_usize_chars(&rs[1]), parse_u16_chars(&r[0]), parse_u16_chars(&r[1])) {
        (Some(0), Some(_), Some(_)) => true,
        _ => false,
    }
}

// ---------------------------------------------------------------------------
// parser state

/// What the console remembers between lines: the last target named, the commands held back
/// by `?`, and the saved effects that can be named as an action.
pub struct ParserState {
    pub last_target: Option<Target>,
    pub pending_commands: Vec<Command>,
    pub saved_effects: Vec<(String, Effect)>,
}

pub struct SpecParserState {
    pub last_target: Option<SpecTarget>,
    pub pending_commands: Seq<SpecCommand>,
    pub saved_effects: Seq<(Seq<char>, SpecEffect)>,
}

pub open spec fn opt_target_view(t: Option<Target>) -> Option<SpecTarget> {
    match t {
        Some(x) => Some(x@),
        None => None,
    }
}

pub open spec fn saved_view(v: Seq<(String, Effect)>) -> Seq<(Seq<char>, SpecEffect)> {
    v.map_values(|p: (String, Effect)| (p.0@, p.1@))
}

impl View for ParserState {
    type V = SpecParserState;

    open spec fn view(&self) -> SpecParserState {
        SpecParserState {
            last_target: opt_target_view(self.last_target),
            pending_commands: commands_view(self.pending_commands@),
            saved_effects: saved_view(self.saved_effects@),
        }
    }
}

/// Position of the first saved effect called `name`, or the number of saved effects.
pub open spec fn saved_index(saved: Seq<(Seq<char>, SpecEffect)>, name: Seq<char>) -> int
    decreases saved.len(),
{
    if saved.len() == 0 {
        0
    } else if saved[0].0 == name {
        0
    } else {
        1 + saved_index(saved.drop_first(), name)
    }
}

pub proof fn lemma_saved_index(saved: Seq<(Seq<char>, SpecEffect)>, name: Seq<char>)
    ensures
        0 <= saved_index(saved, name) <= saved.len(),
        saved_index(saved, name) < saved.len() ==> saved[saved_index(saved, name)].0 == name,
        forall|j: int| 0 <= j < saved_index(saved, name) ==> #[trigger] saved[j].0 != name,
    decreases saved.len(),
{
    if saved.len() > 0 && saved[0].0 != name {
        lemma_saved_index(saved.drop_first(), name);
        assert forall|j: int| 0 <= j < saved_index(saved, name) implies #[trigger] saved[j].0 != name by {
            if j > 0 {
                assert(saved[j] == saved.drop_first()[j - 1]);
            }
        }
    }
}

proof fn lemma_saved_index_is(saved: Seq<(Seq<char>, SpecEffect)>, name: Seq<char>, k: int)
    requires
        0 <= k <= saved.len(),
        k == saved.len() || saved[k].0 == name,
        forall|j: int| 0 <= j < k ==> #[trigger] saved[j].0 != name,
    ensures
        saved_index(saved, name) == k,
    decreases saved.len(),
{
    if saved.len() > 0 && saved[0].0 != name {
        let t = saved.drop_first();
        assert forall|j: int| 0 <= j < k - 1 implies #[trigger] t[j].0 != name by {
            assert(t[j] == saved[j + 1]);
        }
        lemma_saved_index_is(t, name, k - 1);
    }
}

/// The saved effect called `name`.
pub open spec fn saved_lookup(saved: Seq<(Seq<char>, SpecEffect)>, name: Seq<char>) -> Option<SpecEffect> {
    let i = saved_index(saved, name);
    if i < saved.len() {
        Some(saved[i].1)
    } else {
        None
    }
}

/// The saved effects after saving `e` as `name`: an effect of that name is replaced,
/// otherwise `e` is added.
pub open spec fn saved_insert(
    saved: Seq<(Seq<char>, SpecEffect)>,
    name: Seq<char>,
    e: SpecEffect,
) -> Seq<(Seq<char>, SpecEffect)> {
    let i = saved_index(saved, name);
    if i < saved.len() {
        saved.update(i, (name, e))
    } else {
        saved.push((name, e))
    }
}

fn find_saved(saved: &Vec<(String, Effect)>, name: &Vec<char>) -> (r: usize)
    ensures
        r == saved_index(saved_view(saved@), name@),
{
    let mut i: usize = 0;
    while i < saved.len()
        invariant
            i <= saved.len(),
            forall|j: int| 0 <= j < i ==> #[trigger] saved_view(saved@)[j].0 != name@,
        decreases saved.len() - i,
    {
        let key = chars_of(saved[i].0.as_str());
        if eq_chars(&key, name) {
            proof {
                lemma_saved_index_is(saved_view(saved@), name@, i as int);
            }
            return i;
        }
        assert(saved_view(saved@)[i as int].0 == saved@[i as int].0@);
        i = i + 1;
    }
    proof {
        lemma_saved_index_is(saved_view(saved@), name@, i as int);
    }
    i
}

impl ParserState {
    /// A state with no last target, nothing held back and no saved effects.
    pub fn new() -> (r: ParserState)
        ensures
            r@.last_target is None,
            r@.pending_commands.len() == 0,
            r@.saved_effects.len() == 0,
    {
        ParserState { last_target: None, pending_commands: Vec::new(), saved_effects: Vec::new() }
    }

    /// Saves `effect` under `name`, replacing an effect saved under that name.
    pub fn save_effect(&mut self, name: String, effect: Effect)
        ensures
            final(self)@.saved_effects == saved_insert(old(self)@.saved_effects, name@, effect@),
            final(self)@.last_target == old(self)@.last_target,
            final(self)@.pending_commands == old(self)@.pending_commands,
    {
        let key = chars_of(name.as_str());
        let i = find_saved(&self.saved_effects, &key);
        let ghost e = effect@;
        let ghost n = name@;
        if i < self.saved_effects.len() {
            self.saved_effects.set(i, (name, effect));
            assert(saved_view(self.saved_effects@) =~= saved_insert(saved_view(old(self).saved_effects@), n, e));
        } else {
            self.saved_effects.push((name, effect));
            assert(saved_view(self.saved_effects@) =~= saved_insert(saved_view(old(self).saved_effects@), n, e));
        }
    }

    /// The effect saved under `name`.
    pub fn saved_effect(&self, name: &str) -> (r: Option<Effect>)
        ensures
            match r {
                Some(e) => saved_lookup(self@.saved_effects, name@) == Some(e@),
                None => saved_lookup(self@.saved_effects, name@) is None,
            },
    {
        let key = chars_of(name);
        let i = find_saved(&self.saved_effects, &key);
        if i < self.saved_effects.len() {
            Some(self.saved_effects[i].1.copy())
        } else {
            None
        }
    }
}

/// Reading a saved effect gives the effect last saved under that name; saving under one name
/// leaves the effects saved under other names as they were.
pub proof fn law_saved_effect_read_after_write(
    saved: Seq<(Seq<char>, SpecEffect)>,
    name: Seq<char>,
    e: SpecEffect,
    other: Seq<char>,
)
    ensures
        saved_lookup(saved_insert(saved, name, e), name) == Some(e),
        other != name ==> saved_lookup(saved_insert(saved, name, e), other) == saved_lookup(
            saved,
            other,
        ),
{
    lemma_saved_index(saved, name);
    lemma_saved_index(saved, other);
    let i = saved_index(saved, name);
    let s2 = saved_insert(saved, name, e);
    lemma_saved_index_is(s2, name, i);
    if other != name {
        let j = saved_index(saved, other);
        if i < saved.len() {
            assert forall|q: int| 0 <= q < j implies #[trigger] s2[q].0 != other by {
                if q != i {
                    assert(s2[q] == saved[q]);
                }
            }
            if j < saved.len() {
                assert(j != i);
                assert(s2[j] == saved[j]);
            }
            lemma_saved_index_is(s2, other, j);
        } else if j < saved.len() {
            assert forall|q: int| 0 <= q < j implies #[trigger] s2[q].0 != other by {
                assert(s2[q] == saved[q]);
            }
            assert(s2[j] == saved[j]);
            lemma_saved_index_is(s2, other, j);
        } else {
            assert forall|q: int| 0 <= q < s2.len() implies #[trigger] s2[q].0 != other by {
                if q < saved.len() {
                    assert(s2[q] == saved[q]);
                }
            }
            lemma_saved_index_is(s2, other, s2.len() as int);
        }
    }
}

// ---------------------------------------------------------------------------
// actions

/// The `i`-th effect argument, trimmed, or `dflt` when it is missing or blank.
pub open spec fn arg_text(args: Seq<Seq<char>>, i: int, dflt: Seq<char>) -> Seq<char> {
    if args.len() > i && trim(args[i]).len() > 0 {
        trim(args[i])
    } else {
        dflt
    }
}

/// The `i`-th effect argument, trimmed and lower-cased, or `dflt`.
pub open spec fn arg_lower(args: Seq<Seq<char>>, i: int, dflt: Seq<char>) -> Seq<char> {
    if args.len() > i && trim(args[i]).len() > 0 {
        str_to_lowercase(trim(args[i]))
    } else {
        dflt
    }
}

pub open spec fn easing_of(w: Seq<char>) -> Easing {
    if w == "sine"@ {
        Easing::Sine
    } else if w == "step"@ {
        Easing::Step
    } else {
        Easing::Linear
    }
}

pub open spec fn method_of(m: Seq<char>) -> MathMethod {
    if m == "add"@ {
        MathMethod::Add
    } else if m == "subtract"@ {
        MathMethod::Subtract
    } else if m == "multiply"@ {
        MathMethod::Multiply
    } else {
        MathMethod::Absolute
    }
}

/// `fx(name, min, max, period, wave, method)`: `rnd` and `rnd0` are random effects, any
/// other name a cycle; `%` signs in the bounds are ignored; the period defaults to one beat.
pub open spec fn fx_effect(a: Seq<char>) -> SpecEffect {
    let args = split_char(a.subrange(3, a.len() - 1), ',');
    let name = str_to_lowercase(trim(args[0]));
    let min_val = plain_number(literal_or(remove_all(arg_text(args, 1, "0"@), '%'), "0"@));
    let max_val = plain_number(literal_or(remove_all(arg_text(args, 2, "100"@), '%'), "100"@));
    let duration = match duration_spec(arg_text(args, 3, "1b"@)) {
        Some(d) => d,
        None => SpecDuration::Tempo(plain_number("1"@)),
    };
    let easing = easing_of(arg_lower(args, 4, "linear"@));
    let method = method_of(arg_lower(args, 5, "absolute"@));
    if name == "rnd"@ {
        SpecEffect::Random { min_val, max_val, duration, easing, method }
    } else if name == "rnd0"@ {
        SpecEffect::Random0 { min_val, max_val, duration, easing, method }
    } else {
        SpecEffect::Cycle { min_val, max_val, duration, easing, method }
    }
}

/// `value/duration`: a fade to `full` or to a level (`%` scales by 2.55), over a duration
/// that defaults to zero seconds.
pub open spec fn fade_effect(a: Seq<char>) -> SpecEffect {
    let k = first_index(a, '/');
    let val = trim(a.take(k));
    let dur = trim(a.skip(k + 1));
    let target_val = if eq_ignore_ascii_case(val, "full"@) {
        plain_number("255"@)
    } else {
        SpecNumber {
            literal: literal_or(remove_all(val, '%'), "0"@),
            divisor: None,
            percent: val.contains('%'),
        }
    };
    let duration = match duration_spec(dur) {
        Some(d) => d,
        None => SpecDuration::Time(plain_number("0"@)),
    };
    SpecEffect::Fade { target_val, duration }
}

pub open spec fn is_color_name(s: Seq<char>) -> bool {
    s == "red"@ || s == "green"@ || s == "blue"@ || s == "purple"@ || s == "white"@
}

pub open spec fn is_position_name(s: Seq<char>) -> bool {
    s == "center"@ || s == "up"@ || s == "down"@
}

/// A level (`full`, a number, a number with `%` scaled by 2.55; a trailing `!` is ignored),
/// a colour name, a position name, or any other word as a named level.
pub open spec fn level_command(t: SpecTarget, a: Seq<char>) -> SpecCommand {
    let v1 = if a.len() > 0 && a.last() == '!' { a.drop_last() } else { a };
    let pct = v1.len() > 0 && v1.last() == '%';
    let v2 = if pct { v1.drop_last() } else { v1 };
    if eq_ignore_ascii_case(v2, "full"@) {
        SpecCommand::SetLevel { target: t, value: SpecValue::Numeric(plain_number("255"@)) }
    } else if is_float_literal(v2) {
        SpecCommand::SetLevel {
            target: t,
            value: SpecValue::Numeric(SpecNumber { literal: v2, divisor: None, percent: pct }),
        }
    } else {
        let lower = str_to_lowercase(v2);
        if is_color_name(lower) {
            SpecCommand::SetColor { target: t, color: SpecValue::Semantic(lower) }
        } else if is_position_name(lower) {
            SpecCommand::SetPosition { target: t, pos: SpecValue::Semantic(lower) }
        } else {
            SpecCommand::SetLevel { target: t, value: SpecValue::Semantic(lower) }
        }
    }
}

/// The command for action `a` on target `t`: an `fx(...)` effect, a saved effect, a fade,
/// or a level.
pub open spec fn action_command(
    t: SpecTarget,
    a: Seq<char>,
    saved: Seq<(Seq<char>, SpecEffect)>,
) -> SpecCommand {
    if starts_with(a, "fx("@) && a.len() > 0 && a.last() == ')' {
        SpecCommand::StartEffect { target: t, effect: fx_effect(a) }
    } else {
        match saved_lookup(saved, a) {
            Some(e) => SpecCommand::StartEffect { target: t, effect: e },
            None => if a.contains('/') {
                SpecCommand::StartEffect { target: t, effect: fade_effect(a) }
            } else {
                level_command(t, a)
            },
        }
    }
}

fn arg_or(args: &Vec<Vec<char>>, i: usize, dflt: &str) -> (r: Vec<char>)
    ensures
        r@ == arg_text(pieces(args@), i as int, dflt@),
{
    if args.len() > i {
        let t = trim_chars(&args[i]);
        assert(pieces(args@)[i as int] == args@[i as int]@);
        if t.len() > 0 {
            return t;
        }
    }
    chars_of(dflt)
}

fn arg_lower_or(args: &Vec<Vec<char>>, i: usize, dflt: &str) -> (r: Vec<char>)
    ensures
        r@ == arg_lower(pieces(args@), i as int, dflt@),
{
    if args.len() > i {
        let t = trim_chars(&args[i]);
        assert(pieces(args@)[i as int] == args@[i as int]@);
        if t.len() > 0 {
            return to_lowercase_chars(&t);
        }
    }
    chars_of(dflt)
}

fn is_word(s: &Vec<char>, w: &str) -> (r: bool)
    ensures
        r == (s@ == w@),
{
    eq_chars(s, &chars_of(w))
}

fn fx_effect_exec(a: &Vec<char>) -> (r: Effect)
    requires
        a.len() >= 4,
    ensures
        r@ == fx_effect(a@),
{
    let inner = subvec(a, 3, a.len() - 1);
    let args = split_on_char(&inner, ',');
    assert(pieces(args@)[0] == args@[0]@);
    let name = to_lowercase_chars(&trim_chars(&args[0]));
    let min_val = number_or(&remove_char(&arg_or(&args, 1, "0"), '%'), "0");
    let max_val = number_or(&remove_char(&arg_or(&args, 2, "100"), '%'), "100");
    let duration = match parse_duration_chars(&arg_or(&args, 3, "1b")) {
        Some(d) => d,
        None => Duration::Tempo(plain(&chars_of("1"))),
    };
    let wave = arg_lower_or(&args, 4, "linear");
    let easing = if is_word(&wave, "sine") {
        Easing::Sine
    } else if is_word(&wave, "step") {
        Easing::Step
    } else {
        Easing::Linear
    };
    let m = arg_lower_or(&args, 5, "absolute");
    let method = if is_word(&m, "add") {
        MathMethod::Add
    } else if is_word(&m, "subtract") {
        MathMethod::Subtract
    } else if is_word(&m, "multiply") {
        MathMethod::Multiply
    } else {
        MathMethod::Absolute
    };
    if is_word(&name, "rnd") {
        Effect::Random { min_val, max_val, duration, easing, method }
    } else if is_word(&name, "rnd0") {
        Effect::Random0 { min_val, max_val, duration, easing, method }
    } else {
        Effect::Cycle { min_val, max_val, duration, easing, method }
    }
}

fn fade_effect_exec(a: &Vec<char>) -> (r: Effect)
    requires
        a@.contains('/'),
    ensures
        r@ == fade_effect(a@),
{
    let k = find_char(a, 0, '/');
    assert(a@.skip(0) =~= a@);
    proof {
        lemma_first_index_bounds(a@, '/');
    }
    let val = trim_chars(&subvec(a, 0, k));
    assert(a@.subrange(0, k as int) =~= a@.take(k as int));
    assert(k < a.len()) by {
        let j = choose|j: int| 0 <= j < a@.len() && a@[j] == '/';
    }
    let dur = trim_chars(&skip_chars(a, k + 1));
    let target_val = if eq_ignore_case_chars(&val, &chars_of("full")) {
        plain(&chars_of("255"))
    } else {
        let n = number_or(&remove_char(&val, '%'), "0");
        Number { literal: n.literal, divisor: None, percent: has_char(&val, '%') }
    };
    let duration = match parse_duration_chars(&dur) {
        Some(d) => d,
        None => Duration::Time(plain(&chars_of("0"))),
    };
    Effect::Fade { target_val, duration }
}

fn level_command_exec(t: Target, a: &Vec<char>) -> (r: Command)
    ensures
        r@ == level_command(t@, a@),
{
    let v1 = if ends_with_char(a, '!') {
        drop_last_char(a)
    } else {
        subvec(a, 0, a.len())
    };
    assert(a@.subrange(0, a@.len() as int) =~= a@);
    let pct = ends_with_char(&v1, '%');
    let v2 = if pct {
        drop_last_char(&v1)
    } else {
        v1
    };
    if eq_ignore_case_chars(&v2, &chars_of("full")) {
        return Command::SetLevel { target: t, value: Value::Numeric(plain(&chars_of("255"))) };
    }
    let (ok, _) = check_float_literal(&v2);
    if ok {
        return Command::SetLevel {
            target: t,
            value: Value::Numeric(Number { literal: string_of(&v2), divisor: None, percent: pct }),
        };
    }
    let lower = to_lowercase_chars(&v2);
    if is_word(&lower, "red") || is_word(&lower, "green") || is_word(&lower, "blue") || is_word(
        &lower,
        "purple",
    ) || is_word(&lower, "white") {
        Command::SetColor { target: t, color: Value::Semantic(string_of(&lower)) }
    } else if is_word(&lower, "center") || is_word(&lower, "up") || is_word(&lower, "down") {
        Command::SetPosition { target: t, pos: Value::Semantic(string_of(&lower)) }
    } else {
        Command::SetLevel { target: t, value: Value::Semantic(string_of(&lower)) }
    }
}

fn action_command_exec(t: Target, a: &Vec<char>, saved: &Vec<(String, Effect)>) -> (r: Command)
    ensures
        r@ == action_command(t@, a@, saved_view(saved@)),
{
    let fx = chars_of("fx(");
    if starts_with_chars(a, &fx) && ends_with_char(a, ')') {
        proof {
            reveal_strlit("fx(");
            assert(a@.take(3)[2] == '(');
            assert(a@[2] == '(');
        }
        return Command::StartEffect { target: t, effect: fx_effect_exec(a) };
    }
    let i = find_saved(saved, a);
    if i < saved.len() {
        assert(saved_view(saved@)[i as int].1 == saved@[i as int].1@);
        return Command::StartEffect { target: t, effect: saved[i].1.copy() };
    }
    if has_char(a, '/') {
        Command::StartEffect { target: t, effect: fade_effect_exec(a) }
    } else {
        level_command_exec(t, a)
    }
}

// ---------------------------------------------------------------------------
// commands and lines

/// The target text of a command: what stands before the first `@`, trimmed.
pub open spec fn target_text(line: Seq<char>) -> Seq<char> {
    let l = trim(line);
    trim(l.take(first_index(l, '@')))
}

/// Whether reading the command `line` would iterate a channel range with step 0.
pub open spec fn command_zero_step(line: Seq<char>) -> bool {
    target_zero_step(target_text(line))
}

/// Reads one command `target @ action` against the parser state: a blank target means the
/// last target; a target that names nothing, or a blank target with no last target, is
/// refused. A line without `@`, or with a blank action, gives no command but still records
/// its target as the last target.
pub open spec fn parse_command_spec(line: Seq<char>, st: SpecParserState) -> (
    Option<Seq<SpecCommand>>,
    SpecParserState,
) {
    let l = trim(line);
    if l.len() == 0 {
        (None, st)
    } else {
        let at = first_index(l, '@');
        let ts = trim(l.take(at));
        let picked: Option<SpecTarget> = if ts.len() == 0 {
            st.last_target
        } else {
            target_spec(ts)
        };
        match picked {
            None => (None, st),
            Some(t) => {
                let st2 = if ts.len() == 0 {
                    st
                } else {
                    SpecParserState { last_target: Some(t), ..st }
                };
                if at == l.len() {
                    (Some(Seq::empty()), st2)
                } else {
                    let a = trim(l.skip(at + 1));
                    if a.len() == 0 {
                        (Some(Seq::empty()), st2)
                    } else {
                        (Some(seq![action_command(t, a, st.saved_effects)]), st2)
                    }
                }
            },
        }
    }
}

pub(crate) fn parse_command_chars(line: &Vec<char>, state: &mut ParserState) -> (r: Option<Vec<Command>>)
    requires
        !command_zero_step(line@),
    ensures
        ({
            let (res, st) = parse_command_spec(line@, old(state)@);
            &&& final(state)@ == st
            &&& match r {
                Some(v) => res == Some(commands_view(v@)),
                None => res is None,
            }
        }),
{
    let l = trim_chars(line);
    if l.len() == 0 {
        return None;
    }
    let at = find_char(&l, 0, '@');
    assert(l@.skip(0) =~= l@);
    proof {
        lemma_first_index_bounds(l@, '@');
    }
    let ts = trim_chars(&subvec(&l, 0, at));
    assert(l@.subrange(0, at as int) =~= l@.take(at as int));
    let target = if ts.len() == 0 {
        match &state.last_target {
            Some(t) => t.copy(),
            None => {
                return None;
            },
        }
    } else {
        match parse_target_chars(&ts) {
            Some(t) => {
                state.last_target = Some(t.copy());
                t
            },
            None => {
                return None;
            },
        }
    };
    if at == l.len() {
        let v: Vec<Command> = Vec::new();
        assert(commands_view(v@) =~= Seq::<SpecCommand>::empty());
        return Some(v);
    }
    let a = trim_chars(&skip_chars(&l, at + 1));
    if a.len() == 0 {
        let v: Vec<Command> = Vec::new();
        assert(commands_view(v@) =~= Seq::<SpecCommand>::empty());
        return Some(v);
    }
    let cmd = action_command_exec(target, &a, &state.saved_effects);
    let mut v: Vec<Command> = Vec::new();
    v.push(cmd);
    assert(commands_view(v@) =~= seq![cmd@]);
    Some(v)
}

/// Reads one command (see `parse_command_spec`).
pub fn parse_command(line: &str, state: &mut ParserState) -> (r: Option<Vec<Command>>)
    requires
        !command_zero_step(line@),
    ensures
        ({
            let (res, st) = parse_command_spec(line@, old(state)@);
            &&& final(state)@ == st
            &&& match r {
                Some(v) => res == Some(commands_view(v@)),
                None => res is None,
            }
        }),
{
    parse_command_chars(&chars_of(line), state)
}

pub open spec fn console_cue(name: Seq<char>, line: Seq<char>, cmds: Seq<SpecCommand>) -> SpecCue {
    SpecCue { name, raw_commands: seq![line], commands: cmds }
}

/// The command part of a console line that is neither `go`/`stop` nor a bare `go`.
pub open spec fn command_part(l: Seq<char>) -> Seq<char> {
    if l.len() > 0 && l.last() == '?' {
        l.drop_last()
    } else {
        l
    }
}

/// Whether `l` starts with `p`, ignoring ASCII case.
pub open spec fn starts_with_ignore_case(l: Seq<char>, p: Seq<char>) -> bool {
    l.len() >= p.len() && eq_ignore_ascii_case(l.take(p.len() as int), p)
}

pub open spec fn is_list_line(l: Seq<char>) -> bool {
    starts_with_ignore_case(l, "go "@) || starts_with_ignore_case(l, "stop "@)
}

pub open spec fn is_release_line(l: Seq<char>) -> bool {
    l.len() == 0 || eq_ignore_ascii_case(l, "go"@)
}

/// Whether reading the console line would iterate a channel range with step 0.
pub open spec fn line_zero_step(line: Seq<char>) -> bool {
    let l = trim(line);
    !is_list_line(l) && !is_release_line(l) && command_zero_step(command_part(l))
}

/// Reads one console line.
///  - `go <list>` / `stop <list>` (any case) start or stop a cue list;
///  - a blank line or `go` releases the held-back commands as the cue `Delayed`, or is
///    refused when nothing is held back;
///  - a command ending in `?` is held back;
///  - any other command becomes the cue `CLI` and drops what was held back;
///  - a command that cannot be read is refused.
/// Cues carry the trimmed line as their console line.
pub open spec fn parse_line_spec(line: Seq<char>, st: SpecParserState) -> (
    Result<Option<SpecCue>, Seq<char>>,
    SpecParserState,
) {
    let l = trim(line);
    if starts_with_ignore_case(l, "go "@) {
        (
            Ok(Some(console_cue("CLI"@, l, seq![SpecCommand::StartCueList { list: trim(l.skip(3)) }]))),
            st,
        )
    } else if starts_with_ignore_case(l, "stop "@) {
        (
            Ok(Some(console_cue("CLI"@, l, seq![SpecCommand::StopCueList { list: trim(l.skip(5)) }]))),
            st,
        )
    } else if is_release_line(l) {
        if st.pending_commands.len() == 0 {
            (Err("No pending commands"@), st)
        } else {
            (
                Ok(Some(console_cue("Delayed"@, l, st.pending_commands))),
                SpecParserState { pending_commands: Seq::empty(), ..st },
            )
        }
    } else {
        let delayed = l.len() > 0 && l.last() == '?';
        let (res, st2) = parse_command_spec(command_part(l), st);
        match res {
            Some(cmds) => if delayed {
                (Ok(None), SpecParserState { pending_commands: st2.pending_commands + cmds, ..st2 })
            } else {
                (
                    Ok(Some(console_cue("CLI"@, l, cmds))),
                    SpecParserState { pending_commands: Seq::empty(), ..st2 },
                )
            },
            None => (Err("Unrecognized command format."@), st2),
        }
    }
}

pub open spec fn line_result_view(r: Result<Option<Cue>, String>) -> Result<Option<SpecCue>, Seq<char>> {
    match r {
        Ok(Some(c)) => Ok(Some(c@)),
        Ok(None) => Ok(None),
        Err(e) => Err(e@),
    }
}

fn one_line_cue(name: &str, l: &Vec<char>, commands: Vec<Command>) -> (r: Cue)
    ensures
        r@ == console_cue(name@, l@, commands_view(commands@)),
{
    let mut raw: Vec<String> = Vec::new();
    raw.push(string_of(l));
    let c = Cue { name: name.to_owned(), raw_commands: raw, commands };
    assert(crate::target::strings_view(c.raw_commands@) =~= seq![l@]);
    c
}

fn starts_with_ignore_case_chars(l: &Vec<char>, p: &str) -> (r: bool)
    ensures
        r == starts_with_ignore_case(l@, p@),
{
    let pc = chars_of(p);
    if l.len() < pc.len() {
        return false;
    }
    let head = subvec(l, 0, pc.len());
    assert(l@.subrange(0, pc@.len() as int) =~= l@.take(pc@.len() as int));
    eq_ignore_case_chars(&head, &pc)
}

fn list_cue(l: &Vec<char>, n: usize, start: bool) -> (r: Cue)
    requires
        n <= l.len(),
    ensures
        r@ == console_cue(
            "CLI"@,
            l@,
            seq![
                if start {
                    SpecCommand::StartCueList { list: trim(l@.skip(n as int)) }
                } else {
                    SpecCommand::StopCueList { list: trim(l@.skip(n as int)) }
                },
            ],
        ),
{
    let list = string_of(&trim_chars(&skip_chars(l, n)));
    let cmd = if start {
        Command::StartCueList { list }
    } else {
        Command::StopCueList { list }
    };
    let ghost cv = cmd@;
    let mut cmds: Vec<Command> = Vec::new();
    cmds.push(cmd);
    assert(commands_view(cmds@) =~= seq![cv]);
    one_line_cue("CLI", l, cmds)
}

fn release_line(l: &Vec<char>, state: &mut ParserState) -> (r: Result<Option<Cue>, String>)
    requires
        is_release_line(l@),
        !is_list_line(l@),
        trim(l@) == l@,
    ensures
        (line_result_view(r), final(state)@) == parse_line_spec(l@, old(state)@),
{
    if state.pending_commands.len() == 0 {
        return Err("No pending commands".to_owned());
    }
    let mut commands: Vec<Command> = Vec::new();
    std::mem::swap(&mut commands, &mut state.pending_commands);
    assert(commands_view(state.pending_commands@) =~= Seq::<SpecCommand>::empty());
    Ok(Some(one_line_cue("Delayed", l, commands)))
}

fn command_line(l: &Vec<char>, state: &mut ParserState) -> (r: Result<Option<Cue>, String>)
    requires
        !is_release_line(l@),
        !is_list_line(l@),
        trim(l@) == l@,
        !command_zero_step(command_part(l@)),
    ensures
        (line_result_view(r), final(state)@) == parse_line_spec(l@, old(state)@),
{
    let delayed = ends_with_char(l, '?');
    let part = if delayed {
        drop_last_char(l)
    } else {
        subvec(l, 0, l.len())
    };
    assert(l@.subrange(0, l@.len() as int) =~= l@);
    match parse_command_chars(&part, state) {
        Some(mut cmds) => {
            if delayed {
                let ghost before = commands_view(state.pending_commands@);
                let ghost added = commands_view(cmds@);
                state.pending_commands.append(&mut cmds);
                assert(commands_view(state.pending_commands@) =~= before + added);
                Ok(None)
            } else {
                state.pending_commands.clear();
                assert(commands_view(state.pending_commands@) =~= Seq::<SpecCommand>::empty());
                Ok(Some(one_line_cue("CLI", l, cmds)))
            }
        },
        None => Err("Unrecognized command format.".to_owned()),
    }
}

/// Reads one console line against the parser state (see `parse_line_spec`).
pub fn parse_command_line(line: &str, state: &mut ParserState) -> (r: Result<Option<Cue>, String>)
    requires
        !line_zero_step(line@),
    ensures
        (line_result_view(r), final(state)@) == parse_line_spec(line@, old(state)@),
{
    let l = trim_chars(&chars_of(line));
    proof {
        crate::text::lemma_trim_of_trimmed(line@);
    }
    if starts_with_ignore_case_chars(&l, "go ") {
        proof {
            reveal_strlit("go ");
        }
        return Ok(Some(list_cue(&l, 3, true)));
    }
    if starts_with_ignore_case_chars(&l, "stop ") {
        proof {
            reveal_strlit("stop ");
        }
        return Ok(Some(list_cue(&l, 5, false)));
    }
    if l.len() == 0 || eq_ignore_case_chars(&l, &chars_of("go")) {
        return release_line(&l, state);
    }
    command_line(&l, state)
}

/// Whether reading the console line would iterate a channel range with step 0 (a line for
/// which `parse_command_line` must not be called).
pub fn line_has_zero_step(line: &str) -> (r: bool)
    ensures
        r == line_zero_step(line@),
{
    let l = trim_chars(&chars_of(line));
    if starts_with_ignore_case_chars(&l, "go ") || starts_with_ignore_case_chars(&l, "stop ") {
        return false;
    }
    if l.len() == 0 || eq_ignore_case_chars(&l, &chars_of("go")) {
        return false;
    }
    let part = if ends_with_char(&l, '?') {
        drop_last_char(&l)
    } else {
        subvec(&l, 0, l.len())
    };
    assert(l@.subrange(0, l@.len() as int) =~= l@);
    let t = trim_chars(&part);
    let at = find_char(&t, 0, '@');
    assert(t@.skip(0) =~= t@);
    let ts = trim_chars(&subvec(&t, 0, at));
    assert(t@.subrange(0, at as int) =~= t@.take(at as int));
    has_zero_step_chars(&ts)
}

/// Whether reading the command `line` would iterate a channel range with step 0 (a line for
/// which `parse_command` must not be called).
pub fn command_has_zero_step(line: &str) -> (r: bool)
    ensures
        r == command_zero_step(line@),
{
    command_has_zero_step_chars(&chars_of(line))
}

pub(crate) fn command_has_zero_step_chars(line: &Vec<char>) -> (r: bool)
    ensures
        r == command_zero_step(line@),
{
    let l = trim_chars(line);
    let at = find_char(&l, 0, '@');
    assert(l@.skip(0) =~= l@);
    let ts = trim_chars(&subvec(&l, 0, at));
    assert(l@.subrange(0, at as int) =~= l@.take(at as int));
    has_zero_step_chars(&ts)
}

/// Commands held back by a line ending in `?` come out, after those held before, in the cue
/// `Delayed` of the next blank line or `go`, which empties what is held.
pub proof fn law_held_commands_released(line: Seq<char>, release: Seq<char>, st: SpecParserState)
    requires
        !is_list_line(trim(line)),
        !is_release_line(trim(line)),
        trim(line).last() == '?',
        parse_command_spec(command_part(trim(line)), st).0 is Some,
        is_release_line(trim(release)),
    ensures
        ({
            let cmds = parse_command_spec(command_part(trim(line)), st).0.unwrap();
            let (r1, st1) = parse_line_spec(line, st);
            let (r2, st2) = parse_line_spec(release, st1);
            &&& r1 == Ok::<Option<SpecCue>, Seq<char>>(None)
            &&& st1.pending_commands == st.pending_commands + cmds
            &&& (st.pending_commands + cmds).len() > 0 ==> r2 == Ok::<Option<SpecCue>, Seq<char>>(
                Some(console_cue("Delayed"@, trim(release), st.pending_commands + cmds)),
            )
            &&& st2.pending_commands.len() == 0
        }),
{
    let l = trim(line);
    let r = trim(release);
    reveal_strlit("go ");
    reveal_strlit("stop ");
    reveal_strlit("go");
    assert(!starts_with_ignore_case(r, "go "@));
    assert(!starts_with_ignore_case(r, "stop "@));
    assert(l.len() > 0);
}

/// Reads a target, unless it holds a channel range with step 0 (`None`).
pub fn try_parse_target(target_str: &str) -> (r: Option<Option<Target>>)
    ensures
        match r {
            None => target_zero_step(target_str@),
            Some(t) => !target_zero_step(target_str@) && match t {
                Some(x) => target_spec(target_str@) == Some(x@),
                None => target_spec(target_str@) is None,
            },
        },
{
    if has_zero_step_chars(&chars_of(target_str)) {
        None
    } else {
        Some(parse_target(target_str))
    }
}

/// Reads one command, unless it holds a channel range with step 0 (`None`, the state left
/// as it was).
pub fn try_parse_command(line: &str, state: &mut ParserState) -> (r: Option<Option<Vec<Command>>>)
    ensures
        match r {
            None => command_zero_step(line@) && final(state)@ == old(state)@,
            Some(c) => {
                let (res, st) = parse_command_spec(line@, old(state)@);
                &&& !command_zero_step(line@)
                &&& final(state)@ == st
                &&& match c {
                    Some(v) => res == Some(commands_view(v@)),
                    None => res is None,
                }
            },
        },
{
    if command_has_zero_step(line) {
        None
    } else {
        Some(parse_command(line, state))
    }
}

/// Reads one console line, unless it holds a channel range with step 0 (`None`, the state
/// left as it was).
pub fn try_parse_command_line(line: &str, state: &mut ParserState) -> (r: Option<Result<Option<Cue>, String>>)
    ensures
        match r {
            None => line_zero_step(line@) && final(state)@ == old(state)@,
            Some(res) => !line_zero_step(line@) && (line_result_view(res), final(state)@) == parse_line_spec(line@, old(state)@),
        },
{
    if line_has_zero_step(line) {
        None
    } else {
        Some(parse_command_line(line, state))
    }
}

/// How an effect combines its value with the parameter's, where it has a method.
pub open spec fn effect_method(e: SpecEffect) -> Option<MathMethod> {
    match e {
        SpecEffect::Fade { .. } => None,
        SpecEffect::Cycle { method, .. } => Some(method),
        SpecEffect::Random { method, .. } => Some(method),
        SpecEffect::Random0 { method, .. } => Some(method),
    }
}

/// The method word of `fx(...)` (its sixth argument, in any case) is read as the method it
/// names: `add` adds, `subtract` subtracts, `multiply` multiplies, and any other word (or
/// none) sets the value outright.
pub proof fn law_fx_method_words(a: Seq<char>)
    ensures
        ({
            let m = arg_lower(split_char(a.subrange(3, a.len() - 1), ','), 5, "absolute"@);
            let got = effect_method(fx_effect(a));
            &&& m == "add"@ ==> got == Some(MathMethod::Add)
            &&& m == "subtract"@ ==> got == Some(MathMethod::Subtract)
            &&& m == "multiply"@ ==> got == Some(MathMethod::Multiply)
            &&& (m != "add"@ && m != "subtract"@ && m != "multiply"@) ==> got == Some(MathMethod::Absolute)
        }),
{
    reveal_strlit("add");
    reveal_strlit("subtract");
    reveal_strlit("multiply");
    assert("add"@.len() == 3 && "subtract"@.len() == 8 && "multiply"@.len() == 8);
    assert("subtract"@[0] != "multiply"@[0]);
}

/// A channel range `a..b` written without a step names every channel from `a` to `b`, each
/// once, in order (none when `a > b`).
pub proof fn law_range_without_step(p: Seq<char>, a: u16, b: u16)
    requires
        trim(p).len() > 0,
        str_to_lowercase(trim(p)).len() > 0,
        is_digit(str_to_lowercase(trim(p))[0]),
        contains_dots(str_to_lowercase(trim(p))),
        !str_to_lowercase(trim(p)).contains('*'),
        split_dots(str_to_lowercase(trim(p))).len() == 2,
        parse_u16_spec(split_dots(str_to_lowercase(trim(p)))[0]) == Some(a),
        parse_u16_spec(split_dots(str_to_lowercase(trim(p)))[1]) == Some(b),
    ensures
        part_items(p).channels.len() == if a <= b { b - a + 1 } else { 0 },
        forall|i: int| 0 <= i < part_items(p).channels.len() ==> #[trigger] part_items(p).channels[i] == a + i,
        part_items(p).fixtures.len() == 0,
        part_items(p).groups.len() == 0,
{
    let lower = str_to_lowercase(trim(p));
    crate::text::lemma_first_index(lower, '*', lower.len() as int);
    assert(split_char(lower, '*') =~= seq![lower]);
    let st = stepped(a, b, 1);
    if a <= b {
        assert((b - a) as nat / 1 == (b - a) as nat);
    }
    assert forall|i: int| 0 <= i < st.len() implies #[trigger] st[i] == a + i by {
        assert(i * 1 == i);
    }
}

} // verus!

//! Number literals: unsigned integers (as `u16::from_str` / `usize::from_str` accept them),
//! decimal rendering of integers, and the decimal floating-point literal grammar of
//! `f32::from_str`.
use vstd::prelude::*;
use crate::text::{is_digit, eq_ignore_ascii_case, char_is_digit, eq_ignore_case_chars, skip_chars, subvec};
use crate::decimal::{underflows, underflows_exec, lemma_digits_bound, lemma_underflows_far, pow10};

verus! {

pub open spec fn digit_value(c: char) -> nat {
    ((c as u32) - ('0' as u32)) as nat
}

pub open spec fn digit_char(d: nat) -> char {
    ((d + ('0' as u32)) as u32) as char
}

pub open spec fn all_digits(s: Seq<char>) -> bool {
    forall|i: int| 0 <= i < s.len() ==> is_digit(#[trigger] s[i])
}

/// The number written by the decimal digits `s`.
pub open spec fn digits_value(s: Seq<char>) -> nat
    decreases s.len(),
{
    if s.len() == 0 {
        0
    } else {
        digits_value(s.drop_last()) * 10 + digit_value(s.last())
    }
}

/// `s` without one leading `+`.
pub open spec fn without_plus(s: Seq<char>) -> Seq<char> {
    if s.len() > 0 && s[0] == '+' {
        s.drop_first()
    } else {
        s
    }
}

/// What `from_str` of an unsigned integer type with largest value `max` gives for `s`:
/// an optional `+`, then at least one decimal digit, denoting at most `max`.
pub open spec fn parse_unsigned(s: Seq<char>, max: nat) -> Option<nat> {
    let d = without_plus(s);
    if d.len() > 0 && all_digits(d) && digits_value(d) <= max {
        Some(digits_value(d))
    } else {
        None
    }
}

pub open spec fn parse_u16_spec(s: Seq<char>) -> Option<u16> {
    match parse_unsigned(s, 65535) {
        Some(v) => Some(v as u16),
        None => None,
    }
}

pub open spec fn parse_usize_spec(s: Seq<char>) -> Option<usize> {
    match parse_unsigned(s, usize::MAX as nat) {
        Some(v) => Some(v as usize),
        None => None,
    }
}

/// The decimal digits of `n`, without leading zeros.
pub open spec fn dec_digits(n: nat) -> Seq<char>
    decreases n,
{
    if n < 10 {
        seq![digit_char(n)]
    } else {
        dec_digits(n / 10).push(digit_char(n % 10))
    }
}

proof fn lemma_digits_value_grows(s: Seq<char>, t: Seq<char>)
    requires
        all_digits(s + t),
    ensures
        digits_value(s + t) >= digits_value(s),
    decreases t.len(),
{
    if t.len() > 0 {
        let u = s + t;
        assert(u.drop_last() =~= s + t.drop_last());
        lemma_digits_value_grows(s, t.drop_last());
    } else {
        assert(s + t =~= s);
    }
}

pub proof fn lemma_dec_digits(n: nat)
    ensures
        all_digits(dec_digits(n)),
        digits_value(dec_digits(n)) == n,
        dec_digits(n).len() > 0,
        dec_digits(n)[0] != '+',
        forall|i: int| 0 <= i < dec_digits(n).len() ==> #[trigger] dec_digits(n)[i] != ','
            && dec_digits(n)[i] != '.',
    decreases n,
{
    if n >= 10 {
        lemma_dec_digits(n / 10);
        let s = dec_digits(n);
        assert(s.drop_last() =~= dec_digits(n / 10));
        assert(digit_value(digit_char(n % 10)) == n % 10);
        assert((n / 10) * 10 + n % 10 == n) by (nonlinear_arith);
        assert(s.last() == digit_char(n % 10));
        assert(digits_value(s) == digits_value(s.drop_last()) * 10 + digit_value(s.last()));
        assert forall|i: int| 0 <= i < s.len() implies is_digit(#[trigger] s[i]) by {
            if i < s.len() - 1 {
                assert(s[i] == dec_digits(n / 10)[i]);
            }
        }
    } else {
        assert(digit_value(digit_char(n)) == n);
        let s = dec_digits(n);
        assert(s.drop_last() =~= Seq::<char>::empty());
        assert(digits_value(s) == digits_value(s.drop_last()) * 10 + digit_value(s.last()));
    }
}

/// Parses an unsigned decimal with an optional leading `+`, bounded by `max`.
pub fn parse_unsigned_chars(s: &Vec<char>, max: u64) -> (r: Option<u64>)
    requires
        max >= 9,
    ensures
        match r {
            Some(v) => parse_unsigned(s@, max as nat) == Some(v as nat),
            None => parse_unsigned(s@, max as nat) is None,
        },
{
    let start: usize = if s.len() > 0 && s[0] == '+' {
        1
    } else {
        0
    };
    let ghost d = without_plus(s@);
    assert(d =~= s@.skip(start as int));
    if start == s.len() {
        return None;
    }
    let mut value: u64 = 0;
    let mut i = start;
    while i < s.len()
        invariant
            start <= i <= s.len(),
            d == s@.skip(start as int),
            d == without_plus(s@),
            d.len() > 0,
            max >= 9,
            all_digits(s@.subrange(start as int, i as int)),
            value as nat == digits_value(s@.subrange(start as int, i as int)),
            value <= max,
        decreases s.len() - i,
    {
        let c = s[i];
        let ghost prev = s@.subrange(start as int, i as int);
        let ghost cur = s@.subrange(start as int, i + 1);
        assert(cur.drop_last() =~= prev);
        assert(cur.last() == c);
        if !char_is_digit(c) {
            assert(d[i - start] == c);
            assert(!all_digits(d));
            return None;
        }
        let dv = (c as u32 - '0' as u32) as u64;
        assert(all_digits(cur)) by {
            assert forall|k: int| 0 <= k < cur.len() implies is_digit(#[trigger] cur[k]) by {
                if k < prev.len() {
                    assert(cur[k] == prev[k]);
                }
            }
        }
        if value > (max - dv) / 10 {
            proof {
                assert(value * 10 + dv > max) by (nonlinear_arith)
                    requires
                        value > (max - dv) / 10,
                        dv <= 9,
                        dv <= max || true,
                ;
                assert(cur =~= prev.push(c));
                assert(cur + d.skip(i + 1 - start) =~= d);
                if all_digits(d) {
                    lemma_digits_value_grows(cur, d.skip(i + 1 - start));
                }
            }
            return None;
        }
        proof {
            assert(value * 10 + dv <= max) by (nonlinear_arith)
                requires
                    value <= (max - dv) / 10,
                    dv <= max,
            ;
        }
        value = value * 10 + dv;
        i = i + 1;
    }
    assert(s@.subrange(start as int, s.len() as int) =~= d);
    Some(value)
}

pub fn parse_u16_chars(s: &Vec<char>) -> (r: Option<u16>)
    ensures
        r == parse_u16_spec(s@),
{
    match parse_unsigned_chars(s, 65535) {
        Some(v) => Some(v as u16),
        None => None,
    }
}

pub fn parse_usize_chars(s: &Vec<char>) -> (r: Option<usize>)
    ensures
        r == parse_usize_spec(s@),
{
    match parse_unsigned_chars(s, usize::MAX as u64) {
        Some(v) => Some(v as usize),
        None => None,
    }
}

/// Appends the decimal digits of `n` to `out`.
pub fn push_decimal(out: &mut Vec<char>, n: u16)
    ensures
        final(out)@ == old(out)@ + dec_digits(n as nat),
    decreases n,
{
    if n >= 10 {
        push_decimal(out, n / 10);
    }
    let d = (n % 10) as u8;
    let c = ((d + 48u8) as char);
    assert(c == digit_char((n % 10) as nat));
    out.push(c);
    proof {
        if n >= 10 {
            assert(dec_digits(n as nat) == dec_digits((n / 10) as nat).push(
                digit_char((n % 10) as nat),
            ));
        } else {
            assert(dec_digits(n as nat) == seq![digit_char(n as nat)]);
        }
    }
    assert(final(out)@ =~= old(out)@ + dec_digits(n as nat));
}

// ---------------------------------------------------------------------------
// Floating-point literal grammar of `f32::from_str`:
//   Float  ::= Sign? ( 'inf' | 'infinity' | 'nan' | Number )
//   Number ::= ( Digit+ | Digit+ '.' Digit* | Digit* '.' Digit+ ) Exp?
//   Exp    ::= 'e' Sign? Digit+
//   Sign   ::= [+-]
// where letters match without regard to case.
pub open spec fn without_sign(s: Seq<char>) -> Seq<char> {
    if s.len() > 0 && (s[0] == '+' || s[0] == '-') {
        s.drop_first()
    } else {
        s
    }
}

pub open spec fn is_exp_char(c: char) -> bool {
    c == 'e' || c == 'E'
}

/// Index of the first `e` or `E`, or `s.len()`.
pub open spec fn first_exp(s: Seq<char>) -> int
    decreases s.len(),
{
    if s.len() == 0 {
        0
    } else if is_exp_char(s[0]) {
        0
    } else {
        1 + first_exp(s.drop_first())
    }
}

pub open spec fn is_special_float(b: Seq<char>) -> bool {
    ||| eq_ignore_ascii_case(b, seq!['i', 'n', 'f'])
    ||| eq_ignore_ascii_case(b, seq!['i', 'n', 'f', 'i', 'n', 'i', 't', 'y'])
    ||| eq_ignore_ascii_case(b, seq!['n', 'a', 'n'])
}

pub open spec fn mantissa_ok(m: Seq<char>) -> bool {
    &&& forall|i: int| 0 <= i < m.len() ==> is_digit(#[trigger] m[i]) || m[i] == '.'
    &&& forall|i: int, j: int| 0 <= i < j < m.len() && #[trigger] m[i] == '.' ==> #[trigger] m[j] != '.'
    &&& exists|i: int| 0 <= i < m.len() && is_digit(#[trigger] m[i])
}

pub open spec fn exponent_ok(x: Seq<char>) -> bool {
    let y = without_sign(x);
    y.len() > 0 && all_digits(y)
}

pub open spec fn is_decimal_float(b: Seq<char>) -> bool {
    let e = first_exp(b);
    mantissa_ok(b.take(e)) && (e == b.len() || exponent_ok(b.skip(e + 1)))
}

/// Whether `f32::from_str` accepts `s`.
pub open spec fn is_float_literal(s: Seq<char>) -> bool {
    let b = without_sign(s);
    is_special_float(b) || is_decimal_float(b)
}

/// The digits of a mantissa, without its point.
pub open spec fn mantissa_digits(m: Seq<char>) -> Seq<char>
    decreases m.len(),
{
    if m.len() == 0 {
        Seq::<char>::empty()
    } else if m.last() == '.' {
        mantissa_digits(m.drop_last())
    } else {
        mantissa_digits(m.drop_last()).push(m.last())
    }
}

/// How many digits of a mantissa stand after its point (none without a point).
pub open spec fn fraction_len(m: Seq<char>) -> nat
    decreases m.len(),
{
    if m.len() == 0 || m.last() == '.' {
        0
    } else if m.drop_last().contains('.') {
        fraction_len(m.drop_last()) + 1
    } else {
        0
    }
}

/// The signed value of exponent digits `x` (with an optional sign).
pub open spec fn exponent_value(x: Seq<char>) -> int {
    let v = digits_value(without_sign(x)) as int;
    if x.len() > 0 && x[0] == '-' {
        -v
    } else {
        v
    }
}

/// The exponent of an unsigned decimal literal `b` (0 without one).
pub open spec fn literal_exponent(b: Seq<char>) -> int {
    let e = first_exp(b);
    if e == b.len() {
        0
    } else {
        exponent_value(b.skip(e + 1))
    }
}

/// Whether `f32::from_str` reads `s` as zero: a decimal literal whose value, its mantissa
/// digits times 10 to the power of its exponent less its fraction digits, rounds to zero.
pub open spec fn is_zero_literal(s: Seq<char>) -> bool {
    let b = without_sign(s);
    let m = b.take(first_exp(b));
    &&& is_float_literal(s)
    &&& !is_special_float(b)
    &&& underflows(digits_value(mantissa_digits(m)), fraction_len(m) - literal_exponent(b))
}

proof fn lemma_first_exp(s: Seq<char>, k: int)
    requires
        0 <= k <= s.len(),
        forall|j: int| 0 <= j < k ==> !is_exp_char(#[trigger] s[j]),
        k == s.len() || is_exp_char(s[k]),
    ensures
        first_exp(s) == k,
    decreases s.len(),
{
    if s.len() > 0 && !is_exp_char(s[0]) {
        let t = s.drop_first();
        assert forall|j: int| 0 <= j < k - 1 implies !is_exp_char(#[trigger] t[j]) by {
            assert(t[j] == s[j + 1]);
        }
        lemma_first_exp(t, k - 1);
    } else if s.len() > 0 {
        if k > 0 {
            assert(!is_exp_char(s[0]));
        }
    }
}

fn lit(a: &[char]) -> (r: Vec<char>)
    ensures
        r@ == a@,
{
    let mut r: Vec<char> = Vec::new();
    let mut i: usize = 0;
    while i < a.len()
        invariant
            i <= a.len(),
            r@ == a@.take(i as int),
        decreases a.len() - i,
    {
        r.push(a[i]);
        i = i + 1;
        assert(r@ =~= a@.take(i as int));
    }
    assert(a@.take(a.len() as int) =~= a@);
    r
}

/// Checks a mantissa: `None` unless `mantissa_ok`; else its digits and how many of them
/// stand after the point.
fn scan_mantissa(m: &Vec<char>) -> (r: Option<(Vec<char>, usize)>)
    ensures
        r is Some == mantissa_ok(m@),
        r matches Some((dm, frac)) ==> {
            &&& dm@ == mantissa_digits(m@)
            &&& all_digits(dm@)
            &&& dm@.len() <= m@.len()
            &&& frac == fraction_len(m@)
        },
{
    let mut i: usize = 0;
    let mut seen_dot = false;
    let ghost mut dot_pos: int = 0;
    let mut digits = false;
    let mut dm: Vec<char> = Vec::new();
    let mut frac: usize = 0;
    while i < m.len()
        invariant
            i <= m@.len(),
            forall|k: int| 0 <= k < i ==> is_digit(#[trigger] m@[k]) || m@[k] == '.',
            !seen_dot ==> forall|k: int| 0 <= k < i ==> #[trigger] m@[k] != '.',
            seen_dot ==> 0 <= dot_pos < i && m@[dot_pos] == '.' && forall|k: int|
                0 <= k < i && k != dot_pos ==> #[trigger] m@[k] != '.',
            digits == (exists|k: int| 0 <= k < i && is_digit(#[trigger] m@[k])),
            dm@ == mantissa_digits(m@.take(i as int)),
            all_digits(dm@),
            dm@.len() <= i,
            frac == fraction_len(m@.take(i as int)),
            frac <= i,
        decreases m@.len() - i,
    {
        let c = m[i];
        let ghost pre = m@.take(i as int);
        assert(m@.take(i + 1).drop_last() =~= pre);
        assert(m@.take(i + 1).last() == c);
        if c == '.' {
            if seen_dot {
                proof {
                    assert(m@[dot_pos] == '.' && m@[i as int] == '.');
                    assert(!mantissa_ok(m@));
                }
                return None;
            }
            seen_dot = true;
            proof {
                dot_pos = i as int;
            }
        } else if char_is_digit(c) {
            digits = true;
            proof {
                if seen_dot {
                    assert(pre[dot_pos] == '.');
                    assert(pre.contains('.'));
                } else {
                    assert forall|k: int| 0 <= k < pre.len() implies pre[k] != '.' by {
                        assert(pre[k] == m@[k]);
                    }
                    assert(!pre.contains('.'));
                }
            }
            dm.push(c);
            if seen_dot {
                frac = frac + 1;
            }
        } else {
            assert(!mantissa_ok(m@));
            return None;
        }
        i = i + 1;
    }
    if !digits {
        assert(!mantissa_ok(m@));
        return None;
    }
    assert(mantissa_ok(m@)) by {
        assert forall|p: int, q: int|
            0 <= p < q < m@.len() && #[trigger] m@[p] == '.' implies #[trigger] m@[q] != '.' by {
            if seen_dot {
                if p != dot_pos {
                    assert(m@[p] != '.');
                }
                assert(q != dot_pos);
            }
        }
    }
    assert(m@.take(m@.len() as int) =~= m@);
    Some((dm, frac))
}

/// Beyond this, an exponent's size no longer changes whether a literal reads as zero.
const EXPONENT_CAP: u128 = 0x4_0000_0000_0000_0000;

/// Reads exponent digits `y`: `None` unless they are all digits and there is one at least;
/// else their value, or some number above `EXPONENT_CAP` where their value is above it.
fn read_exponent(y: &Vec<char>) -> (r: Option<u128>)
    ensures
        r is Some == (y@.len() > 0 && all_digits(y@)),
        r matches Some(ev) ==> {
            &&& digits_value(y@) <= EXPONENT_CAP ==> ev == digits_value(y@)
            &&& digits_value(y@) > EXPONENT_CAP ==> EXPONENT_CAP < ev <= 10 * EXPONENT_CAP + 9
        },
{
    if y.len() == 0 {
        return None;
    }
    let mut j: usize = 0;
    let mut ev: u128 = 0;
    assert(y@.take(0) =~= Seq::<char>::empty());
    while j < y.len()
        invariant
            j <= y@.len(),
            forall|k: int| 0 <= k < j ==> is_digit(#[trigger] y@[k]),
            digits_value(y@.take(j as int)) <= EXPONENT_CAP ==> ev == digits_value(y@.take(j as int)),
            digits_value(y@.take(j as int)) > EXPONENT_CAP ==> EXPONENT_CAP < ev <= 10 * EXPONENT_CAP + 9,
        decreases y@.len() - j,
    {
        if !char_is_digit(y[j]) {
            assert(!all_digits(y@));
            return None;
        }
        let dv = (y[j] as u32) - ('0' as u32);
        proof {
            assert(y@.take(j + 1).drop_last() =~= y@.take(j as int));
            assert(y@.take(j + 1).last() == y@[j as int]);
        }
        if ev <= EXPONENT_CAP {
            ev = ev * 10 + dv as u128;
        }
        j = j + 1;
    }
    assert(y@.take(y@.len() as int) =~= y@);
    Some(ev)
}

/// Checks `s` against the `f32::from_str` grammar; the second component tells whether the
/// literal reads as zero.
pub fn check_float_literal(s: &Vec<char>) -> (r: (bool, bool))
    ensures
        r.0 == is_float_literal(s@),
        r.1 == is_zero_literal(s@),
{
    let start: usize = if s.len() > 0 && (s[0] == '+' || s[0] == '-') {
        1
    } else {
        0
    };
    let b = skip_chars(s, start);
    assert(b@ == without_sign(s@));
    let inf = lit(&['i', 'n', 'f']);
    let infinity = lit(&['i', 'n', 'f', 'i', 'n', 'i', 't', 'y']);
    let nan = lit(&['n', 'a', 'n']);
    assert(inf@ =~= seq!['i', 'n', 'f']);
    assert(infinity@ =~= seq!['i', 'n', 'f', 'i', 'n', 'i', 't', 'y']);
    assert(nan@ =~= seq!['n', 'a', 'n']);
    if eq_ignore_case_chars(&b, &inf) || eq_ignore_case_chars(&b, &infinity) || eq_ignore_case_chars(
        &b,
        &nan,
    ) {
        return (true, false);
    }
    // find the exponent marker
    let mut e: usize = 0;
    while e < b.len() && !(b[e] == 'e' || b[e] == 'E')
        invariant
            e <= b.len(),
            forall|j: int| 0 <= j < e ==> !is_exp_char(#[trigger] b@[j]),
        decreases b.len() - e,
    {
        e = e + 1;
    }
    proof {
        lemma_first_exp(b@, e as int);
    }
    let mant = subvec(&b, 0, e);
    assert(mant@ =~= b@.take(e as int));
    let (dm, frac) = match scan_mantissa(&mant) {
        Some(p) => p,
        None => {
            return (false, false);
        },
    };
    let ghost mv = digits_value(dm@);
    proof {
        lemma_digits_bound(dm@);
    }
    if e == b.len() {
        let zero = underflows_exec(&dm, frac as i128);
        return (true, zero);
    }
    // exponent
    let x = skip_chars(&b, e + 1);
    let xs: usize = if x.len() > 0 && (x[0] == '+' || x[0] == '-') {
        1
    } else {
        0
    };
    let negative = x.len() > 0 && x[0] == '-';
    let y = skip_chars(&x, xs);
    assert(y@ == without_sign(x@));
    let ev = match read_exponent(&y) {
        Some(v) => v,
        None => {
            return (false, false);
        },
    };
    let ghost ex = exponent_value(x@);
    assert(literal_exponent(b@) == ex);
    let d: i128 = if negative {
        frac as i128 + ev as i128
    } else {
        frac as i128 - ev as i128
    };
    let zero = underflows_exec(&dm, d);
    proof {
        if digits_value(y@) > EXPONENT_CAP && negative {
            lemma_underflows_far(mv, dm@.len(), d as int);
            lemma_underflows_far(mv, dm@.len(), frac - ex);
        }
    }
    (true, zero)
}

} // verus!

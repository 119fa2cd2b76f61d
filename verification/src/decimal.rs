//! Decimal digit strings as numbers: their values, their sizes, and how comparing them digit
//! by digit compares their values; and when a decimal literal is too small for binary32.
use vstd::prelude::*;
use vstd::arithmetic::power2::pow2;
use crate::numeric::{digits_value, digit_value, all_digits};
use crate::text::is_digit;

verus! {

/// 10 to the power `k`.
pub open spec fn pow10(k: nat) -> nat
    decreases k,
{
    if k == 0 {
        1
    } else {
        10 * pow10((k - 1) as nat)
    }
}

/// `k` zero digits.
pub open spec fn zeros(k: nat) -> Seq<char> {
    Seq::new(k, |i: int| '0')
}

/// Whether `a` is at most `b`, digit by digit from the first (strings of equal length).
pub open spec fn digits_le(a: Seq<char>, b: Seq<char>) -> bool
    decreases a.len(),
{
    if a.len() == 0 || b.len() == 0 {
        true
    } else if a[0] != b[0] {
        digit_value(a[0]) < digit_value(b[0])
    } else {
        digits_le(a.drop_first(), b.drop_first())
    }
}

/// Whether a decimal number `m` times 10 to the power `-d` is at most 2 to the power
/// -150, so that binary32 rounds it to zero (the midpoint between zero and the least
/// positive value goes to the even zero).
pub open spec fn underflows(m: nat, d: int) -> bool {
    m == 0 || (d >= 0 && m * pow2(150) <= pow10(d as nat))
}

pub proof fn lemma_pow10_pos(k: nat)
    ensures
        pow10(k) >= 1,
    decreases k,
{
    if k > 0 {
        lemma_pow10_pos((k - 1) as nat);
    }
}

pub proof fn lemma_pow10_add(a: nat, b: nat)
    ensures
        pow10(a + b) == pow10(a) * pow10(b),
    decreases a,
{
    let u = pow10(a);
    let v = pow10(b);
    if a == 0 {
        assert(u == 1);
        assert(a + b == b);
        assert(u * v == v) by (nonlinear_arith)
            requires
                u == 1,
        ;
    } else {
        let a1 = (a - 1) as nat;
        lemma_pow10_add(a1, b);
        assert(a + b == (a1 + b) + 1);
        assert(pow10(a + b) == 10 * pow10(a1 + b));
        assert(u == 10 * pow10(a1));
        let x = pow10(a1);
        assert(pow10(a1 + b) == x * v);
        assert(10 * (x * v) == (10 * x) * v) by (nonlinear_arith);
        assert(pow10(a + b) == u * v);
    }
}

pub proof fn lemma_pow10_mono(a: nat, b: nat)
    requires
        a <= b,
    ensures
        pow10(a) <= pow10(b),
    decreases b,
{
    if a < b {
        lemma_pow10_mono(a, (b - 1) as nat);
        lemma_pow10_pos((b - 1) as nat);
    }
}

/// The value of `s` followed by `t`.
pub proof fn lemma_digits_concat(s: Seq<char>, t: Seq<char>)
    ensures
        digits_value(s + t) == digits_value(s) * pow10(t.len()) + digits_value(t),
    decreases t.len(),
{
    let a = digits_value(s);
    if t.len() == 0 {
        assert(s + t =~= s);
        assert(pow10(0) == 1);
        assert(digits_value(t) == 0);
        assert(a * pow10(t.len()) == a) by (nonlinear_arith)
            requires
                pow10(t.len()) == 1,
        ;
    } else {
        let t2 = t.drop_last();
        lemma_digits_concat(s, t2);
        assert((s + t).drop_last() =~= s + t2);
        assert((s + t).last() == t.last());
        let p = pow10(t2.len());
        let b = digits_value(t2);
        let c = digit_value(t.last());
        assert(digits_value(s + t2) == a * p + b);
        assert(digits_value(s + t) == digits_value(s + t2) * 10 + c);
        assert(digits_value(t) == b * 10 + c);
        assert(pow10(t.len()) == 10 * p);
        assert((a * p + b) * 10 + c == a * (10 * p) + (b * 10 + c)) by (nonlinear_arith);
        assert(digits_value(s + t) == a * pow10(t.len()) + digits_value(t));
    }
}

pub proof fn lemma_zeros_value(k: nat)
    ensures
        digits_value(zeros(k)) == 0,
        all_digits(zeros(k)),
    decreases k,
{
    if k > 0 {
        assert(zeros(k).drop_last() =~= zeros((k - 1) as nat));
        lemma_zeros_value((k - 1) as nat);
    }
}

pub proof fn lemma_digits_bound(s: Seq<char>)
    requires
        all_digits(s),
    ensures
        digits_value(s) < pow10(s.len()),
    decreases s.len(),
{
    if s.len() > 0 {
        let t = s.drop_last();
        assert(all_digits(t)) by {
            assert forall|i: int| 0 <= i < t.len() implies is_digit(#[trigger] t[i]) by {
                assert(t[i] == s[i]);
            }
        }
        lemma_digits_bound(t);
        assert(is_digit(s.last()));
        assert(digit_value(s.last()) <= 9);
    }
}

/// A digit string without a leading zero is at least 10 to the power of its length less one.
pub proof fn lemma_digits_lower(s: Seq<char>)
    requires
        all_digits(s),
        s.len() > 0,
        s[0] != '0',
    ensures
        digits_value(s) >= pow10((s.len() - 1) as nat),
{
    let h = s.take(1);
    let r = s.skip(1);
    assert(s =~= h + r);
    lemma_digits_concat(h, r);
    assert(h.drop_last() =~= Seq::<char>::empty());
    assert(digits_value(Seq::<char>::empty()) == 0);
    assert(digits_value(h) == digits_value(h.drop_last()) * 10 + digit_value(h.last()));
    assert(digits_value(h) == digit_value(s[0]));
    assert(is_digit(s[0]));
    assert(digit_value(s[0]) >= 1);
    lemma_pow10_pos(r.len());
    assert(digit_value(s[0]) * pow10(r.len()) >= pow10(r.len())) by (nonlinear_arith)
        requires
            digit_value(s[0]) >= 1,
    ;
}

/// Comparing digit strings of equal length digit by digit compares their values.
pub proof fn lemma_digits_le(a: Seq<char>, b: Seq<char>)
    requires
        all_digits(a),
        all_digits(b),
        a.len() == b.len(),
    ensures
        digits_le(a, b) == (digits_value(a) <= digits_value(b)),
    decreases a.len(),
{
    if a.len() > 0 {
        let ha = a.take(1);
        let ra = a.skip(1);
        let hb = b.take(1);
        let rb = b.skip(1);
        assert(a =~= ha + ra);
        assert(b =~= hb + rb);
        assert(ra =~= a.drop_first());
        assert(rb =~= b.drop_first());
        lemma_digits_concat(ha, ra);
        lemma_digits_concat(hb, rb);
        assert(ha.drop_last() =~= Seq::<char>::empty());
        assert(hb.drop_last() =~= Seq::<char>::empty());
        assert(digits_value(Seq::<char>::empty()) == 0);
        assert(digits_value(ha) == digits_value(ha.drop_last()) * 10 + digit_value(ha.last()));
        assert(digits_value(hb) == digits_value(hb.drop_last()) * 10 + digit_value(hb.last()));
        assert(all_digits(ra)) by {
            assert forall|i: int| 0 <= i < ra.len() implies is_digit(#[trigger] ra[i]) by {
                assert(ra[i] == a[i + 1]);
            }
        }
        assert(all_digits(rb)) by {
            assert forall|i: int| 0 <= i < rb.len() implies is_digit(#[trigger] rb[i]) by {
                assert(rb[i] == b[i + 1]);
            }
        }
        lemma_digits_bound(ra);
        lemma_digits_bound(rb);
        lemma_digits_le(ra, rb);
        let p = pow10(ra.len());
        let da = digit_value(a[0]);
        let db = digit_value(b[0]);
        let va = digits_value(ra);
        let vb = digits_value(rb);
        assert(digits_value(a) == da * p + va);
        assert(digits_value(b) == db * p + vb);
        if a[0] != b[0] {
            assert(da != db);
            if da < db {
                assert(da * p + va < db * p + vb) by (nonlinear_arith)
                    requires
                        da < db,
                        va < p,
                ;
            } else {
                assert(db * p + vb < da * p + va) by (nonlinear_arith)
                    requires
                        db < da,
                        vb < p,
                ;
            }
        }
    }
}

/// A single digit is worth its digit value.
pub proof fn lemma_single_digit(c: char)
    ensures
        digits_value(seq![c]) == digit_value(c),
{
    assert(seq![c].drop_last() =~= Seq::<char>::empty());
    assert(digits_value(Seq::<char>::empty()) == 0);
    assert(digits_value(seq![c]) == digits_value(seq![c].drop_last()) * 10 + digit_value(seq![c].last()));
}

pub proof fn lemma_pow2_le_pow10(k: nat)
    ensures
        pow2(k) <= pow10(k),
    decreases k,
{
    if k > 0 {
        vstd::arithmetic::power2::lemma_pow2_unfold(k);
        lemma_pow2_le_pow10((k - 1) as nat);
    } else {
        vstd::arithmetic::power2::lemma_pow2(0);
        assert(vstd::arithmetic::power::pow(2, 0) == 1) by {
            reveal(vstd::arithmetic::power::pow);
        }
    }
}

/// A digit string is worth zero exactly when all its digits are zero.
pub proof fn lemma_digits_zero(s: Seq<char>)
    requires
        all_digits(s),
    ensures
        (digits_value(s) == 0) == (forall|i: int| 0 <= i < s.len() ==> #[trigger] s[i] == '0'),
    decreases s.len(),
{
    if s.len() > 0 {
        let t = s.drop_last();
        assert(all_digits(t)) by {
            assert forall|i: int| 0 <= i < t.len() implies is_digit(#[trigger] t[i]) by {
                assert(t[i] == s[i]);
            }
        }
        lemma_digits_zero(t);
        if digits_value(s) == 0 {
            assert forall|i: int| 0 <= i < s.len() implies #[trigger] s[i] == '0' by {
                if i < s.len() - 1 {
                    assert(t[i] == s[i]);
                }
            }
        }
        if forall|i: int| 0 <= i < s.len() ==> #[trigger] s[i] == '0' {
            assert forall|i: int| 0 <= i < t.len() implies #[trigger] t[i] == '0' by {
                assert(t[i] == s[i]);
            }
            assert(s[s.len() - 1] == '0');
        }
    }
}

/// A number of at most `n` digits times 10 to the power `-d` underflows once `d` reaches
/// `n + 150`.
pub proof fn lemma_underflows_far(m: nat, n: nat, d: int)
    requires
        m < pow10(n),
        d >= n + 150,
    ensures
        underflows(m, d),
{
    lemma_pow2_le_pow10(150);
    lemma_pow10_add(n, 150);
    lemma_pow10_mono(n + 150, d as nat);
    let a = pow10(n);
    let b = pow10(150);
    let t = pow2(150);
    vstd::arithmetic::power2::lemma_pow2_pos(150);
    lemma_pow10_pos(150);
    assert(m * t < a * b) by (nonlinear_arith)
        requires
            m < a,
            t <= b,
            t > 0,
            b > 0,
    ;
}

/// The digit character for `v`.
fn digit_to_char(v: u32) -> (r: char)
    requires
        v < 10,
    ensures
        is_digit(r),
        digit_value(r) == v,
{
    if v == 0 {
        '0'
    } else if v == 1 {
        '1'
    } else if v == 2 {
        '2'
    } else if v == 3 {
        '3'
    } else if v == 4 {
        '4'
    } else if v == 5 {
        '5'
    } else if v == 6 {
        '6'
    } else if v == 7 {
        '7'
    } else if v == 8 {
        '8'
    } else {
        '9'
    }
}

/// Twice the number written by `s` (digits, no leading zero), written the same way.
pub fn double_digits(s: &Vec<char>) -> (r: Vec<char>)
    requires
        all_digits(s@),
        s@.len() > 0,
        s@[0] != '0',
    ensures
        all_digits(r@),
        r@.len() > 0,
        r@[0] != '0',
        r@.len() <= s@.len() + 1,
        digits_value(r@) == 2 * digits_value(s@),
{
    let n = s.len();
    let mut out: Vec<char> = crate::text::subvec(s, 0, n);
    assert(s@.subrange(0, n as int) =~= s@);
    let mut carry: u32 = 0;
    let mut i: usize = n;
    assert(out@.skip(n as int) =~= Seq::<char>::empty());
    assert(s@.skip(n as int) =~= Seq::<char>::empty());
    while i > 0
        invariant
            i <= n,
            n == s@.len(),
            out@.len() == n,
            all_digits(s@),
            carry <= 1,
            forall|k: int| 0 <= k < i ==> #[trigger] out@[k] == s@[k],
            forall|k: int| i <= k < n ==> is_digit(#[trigger] out@[k]),
            digits_value(out@.skip(i as int)) + carry * pow10((n - i) as nat) == 2 * digits_value(s@.skip(i as int)),
        decreases i,
    {
        let j = i - 1;
        let d = (s[j] as u32) - ('0' as u32);
        assert(is_digit(s@[j as int]));
        let t = 2 * d + carry;
        let c = digit_to_char(t % 10);
        let ghost old_out = out@;
        out.set(j, c);
        proof {
            let k = (n - i) as nat;
            let so = s@.skip(j as int);
            let oo = out@.skip(j as int);
            assert(so =~= seq![s@[j as int]] + s@.skip(i as int));
            assert(oo =~= seq![c] + old_out.skip(i as int));
            assert(out@.skip(i as int) =~= old_out.skip(i as int));
            lemma_digits_concat(seq![s@[j as int]], s@.skip(i as int));
            lemma_digits_concat(seq![c], old_out.skip(i as int));
            lemma_single_digit(s@[j as int]);
            lemma_single_digit(c);
            assert(digit_value(s@[j as int]) == d);
            assert(digit_value(c) == t % 10);
            let vo = digits_value(old_out.skip(i as int));
            let vs = digits_value(s@.skip(i as int));
            let p = pow10(k);
            assert(pow10(k + 1) == 10 * p);
            assert((t % 10) * p + vo + (t / 10) * (10 * p) == 2 * (d * p + vs)) by (nonlinear_arith)
                requires
                    vo + carry * p == 2 * vs,
                    t == 2 * d + carry,
            ;
        }
        carry = t / 10;
        i = j;
    }
    assert(out@.skip(0) =~= out@);
    assert(s@.skip(0) =~= s@);
    if carry == 1 {
        let ghost o = out@;
        out.insert(0, '1');
        proof {
            assert(out@ =~= seq!['1'] + o);
            lemma_digits_concat(seq!['1'], o);
            lemma_single_digit('1');
            assert forall|k: int| 0 <= k < out@.len() implies is_digit(#[trigger] out@[k]) by {
                if k > 0 {
                    assert(out@[k] == o[k - 1]);
                }
            }
        }
    } else {
        proof {
            lemma_digits_lower(s@);
            let rest = out@.skip(1);
            assert(out@ =~= seq![out@[0]] + rest);
            lemma_digits_concat(seq![out@[0]], rest);
            lemma_single_digit(out@[0]);
            assert(all_digits(rest)) by {
                assert forall|k: int| 0 <= k < rest.len() implies is_digit(#[trigger] rest[k]) by {
                    assert(rest[k] == out@[k + 1]);
                }
            }
            lemma_digits_bound(rest);
            lemma_pow10_pos((n - 1) as nat);
            if out@[0] == '0' {
                assert(digit_value(out@[0]) == 0);
                let q = pow10(rest.len());
                assert(digits_value(out@) == 0 * q + digits_value(rest));
                assert(0 * q == 0) by (nonlinear_arith);
                assert(digits_value(out@) == digits_value(rest));
                assert(false);
            }
        }
    }
    out
}

/// Whether all of `s` from `from` on are `0`.
fn zeros_from(s: &Vec<char>, from: usize) -> (r: bool)
    requires
        from <= s@.len(),
    ensures
        r == (forall|i: int| from <= i < s@.len() ==> #[trigger] s@[i] == '0'),
{
    let mut i = from;
    while i < s.len()
        invariant
            from <= i <= s@.len(),
            forall|k: int| from <= k < i ==> #[trigger] s@[k] == '0',
        decreases s@.len() - i,
    {
        if s[i] != '0' {
            return false;
        }
        i = i + 1;
    }
    true
}

/// Whether the number written by the digits `dm` times 10 to the power `-d` underflows
/// (see `underflows`).
pub fn underflows_exec(dm: &Vec<char>, d: i128) -> (r: bool)
    requires
        all_digits(dm@),
    ensures
        r == underflows(digits_value(dm@), d as int),
{
    let mut k: usize = 0;
    while k < dm.len() && dm[k] == '0'
        invariant
            k <= dm@.len(),
            forall|i: int| 0 <= i < k ==> #[trigger] dm@[i] == '0',
        decreases dm@.len() - k,
    {
        k = k + 1;
    }
    if k == dm.len() {
        proof {
            lemma_digits_zero(dm@);
        }
        return true;
    }
    let sig = crate::text::subvec(dm, k, dm.len());
    proof {
        assert(dm@ =~= dm@.take(k as int) + sig@);
        assert(dm@.take(k as int) =~= zeros(k as nat));
        lemma_zeros_value(k as nat);
        lemma_digits_concat(dm@.take(k as int), sig@);
        let q = pow10(sig@.len());
        assert(0 * q == 0) by (nonlinear_arith);
        assert(digits_value(dm@) == digits_value(sig@));
        assert(all_digits(sig@)) by {
            assert forall|i: int| 0 <= i < sig@.len() implies is_digit(#[trigger] sig@[i]) by {
                assert(sig@[i] == dm@[k + i]);
            }
        }
        assert(sig@[0] == dm@[k as int]);
        lemma_digits_lower(sig@);
        lemma_pow10_pos((sig@.len() - 1) as nat);
    }
    let ghost m = digits_value(sig@);
    if d < 0 {
        return false;
    }
    let n = sig.len();
    if d >= (n as i128) + 150 {
        proof {
            lemma_digits_bound(sig@);
            lemma_underflows_far(m, n as nat, d as int);
        }
        return true;
    }
    let mut r = sig;
    let mut j: usize = 0;
    assert(pow2(0) == 1) by {
        vstd::arithmetic::power2::lemma_pow2(0);
        reveal(vstd::arithmetic::power::pow);
    }
    while j < 150
        invariant
            j <= 150,
            all_digits(r@),
            r@.len() > 0,
            r@[0] != '0',
            r@.len() <= n + j,
            digits_value(r@) == m * pow2(j as nat),
        decreases 150 - j,
    {
        let ghost before = digits_value(r@);
        r = double_digits(&r);
        proof {
            vstd::arithmetic::power2::lemma_pow2_unfold((j + 1) as nat);
            let p = pow2(j as nat);
            assert(2 * (m * p) == m * (2 * p)) by (nonlinear_arith);
        }
        j = j + 1;
    }
    let lr = r.len();
    let ghost du: nat = d as nat;
    proof {
        lemma_digits_lower(r@);
        lemma_digits_bound(r@);
    }
    if (lr as i128) < d + 1 {
        proof {
            lemma_pow10_mono(lr as nat, du as nat);
        }
        true
    } else if (lr as i128) > d + 1 {
        proof {
            lemma_pow10_mono((du + 1) as nat, (lr - 1) as nat);
            assert(pow10((du + 1) as nat) == 10 * pow10(du as nat));
            lemma_pow10_pos(du as nat);
        }
        false
    } else {
        let ghost rest = r@.skip(1);
        proof {
            assert(r@ =~= seq![r@[0]] + rest);
            lemma_digits_concat(seq![r@[0]], rest);
            lemma_single_digit(r@[0]);
            assert(all_digits(rest)) by {
                assert forall|i: int| 0 <= i < rest.len() implies is_digit(#[trigger] rest[i]) by {
                    assert(rest[i] == r@[i + 1]);
                }
            }
            lemma_digits_bound(rest);
            lemma_digits_zero(rest);
            assert(rest.len() == du);
            assert(is_digit(r@[0]));
            let h = digit_value(r@[0]);
            let p = pow10(du as nat);
            let v = digits_value(rest);
            lemma_pow10_pos(du as nat);
            assert(h >= 1);
            if h >= 2 {
                assert(h * p + v > p) by (nonlinear_arith)
                    requires
                        h >= 2,
                        p >= 1,
                ;
            } else {
                assert(h == 1);
                assert(h * p == p) by (nonlinear_arith)
                    requires
                        h == 1,
                ;
                assert(r@[0] == '1');
            }
            assert forall|i: int| 1 <= i < r@.len() implies (#[trigger] r@[i] == '0') == (rest[i - 1] == '0') by {
                assert(rest[i - 1] == r@[i]);
            }
            assert((forall|i: int| 1 <= i < r@.len() ==> #[trigger] r@[i] == '0') == (forall|i: int| 0 <= i < rest.len() ==> #[trigger] rest[i] == '0')) by {
                if forall|i: int| 1 <= i < r@.len() ==> #[trigger] r@[i] == '0' {
                    assert forall|i: int| 0 <= i < rest.len() implies #[trigger] rest[i] == '0' by {
                        assert(rest[i] == r@[i + 1]);
                    }
                }
            }
        }
        r[0] == '1' && zeros_from(&r, 1)
    }
}

} // verus!

//! Character-sequence operations that the command grammar is built from.
//!
//! Text is handled as `Vec<char>`; each operation is specified over `Seq<char>`.
use vstd::prelude::*;

verus! {

/// Unicode `White_Space` characters, the set that `str::trim` removes.
pub open spec fn is_ws(c: char) -> bool {
    ||| ('\u{9}' <= c && c <= '\u{d}')
    ||| c == ' '
    ||| c == '\u{85}'
    ||| c == '\u{a0}'
    ||| c == '\u{1680}'
    ||| ('\u{2000}' <= c && c <= '\u{200a}')
    ||| c == '\u{2028}'
    ||| c == '\u{2029}'
    ||| c == '\u{202f}'
    ||| c == '\u{205f}'
    ||| c == '\u{3000}'
}

pub open spec fn trim_start(s: Seq<char>) -> Seq<char>
    decreases s.len(),
{
    if s.len() > 0 && is_ws(s[0]) {
        trim_start(s.drop_first())
    } else {
        s
    }
}

pub open spec fn trim_end(s: Seq<char>) -> Seq<char>
    decreases s.len(),
{
    if s.len() > 0 && is_ws(s.last()) {
        trim_end(s.drop_last())
    } else {
        s
    }
}

/// `s` without leading and trailing white space.
pub open spec fn trim(s: Seq<char>) -> Seq<char> {
    trim_end(trim_start(s))
}

pub open spec fn is_digit(c: char) -> bool {
    '0' <= c && c <= '9'
}

pub open spec fn ascii_lower(c: char) -> char {
    if 'A' <= c && c <= 'Z' {
        ((c as u32) + 32) as char
    } else {
        c
    }
}

/// Equality up to ASCII case, as `str::eq_ignore_ascii_case`.
pub open spec fn eq_ignore_ascii_case(a: Seq<char>, b: Seq<char>) -> bool {
    &&& a.len() == b.len()
    &&& forall|i: int| 0 <= i < a.len() ==> ascii_lower(#[trigger] a[i]) == ascii_lower(b[i])
}

pub open spec fn starts_with(s: Seq<char>, p: Seq<char>) -> bool {
    p.len() <= s.len() && s.take(p.len() as int) == p
}

pub open spec fn ends_with(s: Seq<char>, p: Seq<char>) -> bool {
    p.len() <= s.len() && s.skip(s.len() - p.len()) == p
}

/// Index of the first `c` in `s`, or `s.len()` when there is none.
pub open spec fn first_index(s: Seq<char>, c: char) -> int
    decreases s.len(),
{
    if s.len() == 0 {
        0
    } else if s[0] == c {
        0
    } else {
        1 + first_index(s.drop_first(), c)
    }
}

/// Whether `..` starts at position `j` of `s`.
pub open spec fn dots_at(s: Seq<char>, j: int) -> bool {
    0 <= j && j + 1 < s.len() && s[j] == '.' && s[j + 1] == '.'
}

/// Index of the first `..` in `s`, or `s.len()` when there is none.
pub open spec fn first_dots(s: Seq<char>) -> int
    decreases s.len(),
{
    if s.len() < 2 {
        s.len() as int
    } else if s[0] == '.' && s[1] == '.' {
        0
    } else {
        1 + first_dots(s.drop_first())
    }
}

pub open spec fn contains_dots(s: Seq<char>) -> bool {
    first_dots(s) < s.len()
}

/// The pieces of `s` between occurrences of `c`, as `str::split` gives them.
pub open spec fn split_char(s: Seq<char>, c: char) -> Seq<Seq<char>>
    decreases s.len(),
{
    let i = first_index(s, c);
    if 0 <= i < s.len() {
        seq![s.take(i)] + split_char(s.skip(i + 1), c)
    } else {
        seq![s]
    }
}

/// The pieces of `s` between occurrences of `..`, as `str::split("..")` gives them.
pub open spec fn split_dots(s: Seq<char>) -> Seq<Seq<char>>
    decreases s.len(),
{
    let i = first_dots(s);
    if 0 <= i && i + 2 <= s.len() {
        seq![s.take(i)] + split_dots(s.skip(i + 2))
    } else {
        seq![s]
    }
}

/// `s` with every `c` removed.
pub open spec fn remove_all(s: Seq<char>, c: char) -> Seq<char>
    decreases s.len(),
{
    if s.len() == 0 {
        s
    } else if s.last() == c {
        remove_all(s.drop_last(), c)
    } else {
        remove_all(s.drop_last(), c).push(s.last())
    }
}

/// The contents of a list of character vectors.
pub open spec fn pieces(v: Seq<Vec<char>>) -> Seq<Seq<char>> {
    v.map_values(|x: Vec<char>| x@)
}

/// Lower-case mapping of `str::to_lowercase` (Unicode tables).
pub uninterp spec fn str_to_lowercase(s: Seq<char>) -> Seq<char>;

pub proof fn lemma_first_index(s: Seq<char>, c: char, k: int)
    requires
        0 <= k <= s.len(),
        forall|j: int| 0 <= j < k ==> s[j] != c,
        k == s.len() || s[k] == c,
    ensures
        first_index(s, c) == k,
    decreases s.len(),
{
    if s.len() > 0 && s[0] != c {
        lemma_first_index(s.drop_first(), c, k - 1);
    }
}

pub proof fn lemma_first_index_bounds(s: Seq<char>, c: char)
    ensures
        0 <= first_index(s, c) <= s.len(),
        forall|j: int| 0 <= j < first_index(s, c) ==> s[j] != c,
        first_index(s, c) < s.len() ==> s[first_index(s, c)] == c,
    decreases s.len(),
{
    if s.len() > 0 && s[0] != c {
        lemma_first_index_bounds(s.drop_first(), c);
        assert forall|j: int| 0 <= j < first_index(s, c) implies s[j] != c by {
            if j > 0 {
                assert(s[j] == s.drop_first()[j - 1]);
            }
        }
    }
}

pub proof fn lemma_first_dots(s: Seq<char>, k: int)
    requires
        0 <= k <= s.len(),
        forall|j: int| 0 <= j < k ==> !#[trigger] dots_at(s, j),
        k == s.len() || (k + 1 < s.len() && s[k] == '.' && s[k + 1] == '.'),
    ensures
        first_dots(s) == k,
    decreases s.len(),
{
    if s.len() >= 2 && s[0] == '.' && s[1] == '.' {
        if k > 0 {
            assert(!dots_at(s, 0));
        }
    }
    if s.len() >= 2 && !(s[0] == '.' && s[1] == '.') {
        let t = s.drop_first();
        assert forall|j: int| 0 <= j < k - 1 implies !#[trigger] dots_at(t, j) by {
            assert(!dots_at(s, j + 1));
            if j + 1 < t.len() {
                assert(t[j] == s[j + 1] && t[j + 1] == s[j + 2]);
            }
        }
        lemma_first_dots(t, k - 1);
    } else if s.len() < 2 {
        if k < s.len() {
            assert(false);
        }
    }
}

pub proof fn lemma_first_dots_bounds(s: Seq<char>)
    ensures
        0 <= first_dots(s) <= s.len(),
        first_dots(s) < s.len() ==> first_dots(s) + 1 < s.len() && s[first_dots(s)] == '.'
            && s[first_dots(s) + 1] == '.',
        forall|j: int| 0 <= j < first_dots(s) ==> !#[trigger] dots_at(s, j),
    decreases s.len(),
{
    if s.len() >= 2 && !(s[0] == '.' && s[1] == '.') {
        let t = s.drop_first();
        lemma_first_dots_bounds(t);
        assert forall|j: int| 0 <= j < first_dots(s) implies !#[trigger] dots_at(s, j) by {
            if j > 0 {
                assert(!dots_at(t, j - 1));
                if j + 1 < s.len() {
                    assert(s[j] == t[j - 1] && s[j + 1] == t[j]);
                }
            }
        }
    }
}

pub proof fn lemma_trim_start(s: Seq<char>, a: int)
    requires
        0 <= a <= s.len(),
        forall|i: int| 0 <= i < a ==> is_ws(s[i]),
        a == s.len() || !is_ws(s[a]),
    ensures
        trim_start(s) == s.skip(a),
    decreases a,
{
    if a == 0 {
        assert(s.skip(0) =~= s);
    } else {
        let t = s.drop_first();
        assert forall|i: int| 0 <= i < a - 1 implies is_ws(t[i]) by {
            assert(t[i] == s[i + 1]);
        }
        lemma_trim_start(t, a - 1);
        assert(t.skip(a - 1) =~= s.skip(a));
    }
}

pub proof fn lemma_trim_end(s: Seq<char>, b: int)
    requires
        0 <= b <= s.len(),
        forall|i: int| b <= i < s.len() ==> is_ws(s[i]),
        b == 0 || !is_ws(s[b - 1]),
    ensures
        trim_end(s) == s.take(b),
    decreases s.len() - b,
{
    if b == s.len() {
        assert(s.take(b) =~= s);
    } else {
        let t = s.drop_last();
        lemma_trim_end(t, b);
        assert(t.take(b) =~= s.take(b));
    }
}

/// Trimming is idempotent.
pub proof fn lemma_trim_of_trimmed(s: Seq<char>)
    ensures
        trim(trim(s)) == trim(s),
{
    lemma_trim_start_shape(s);
    let t = trim(s);
    let u = trim_start(s);
    lemma_trim_end_shape(u);
    if t.len() > 0 {
        assert(!is_ws(t[0]));
        assert(!is_ws(t.last()));
        lemma_trim_start(t, 0);
        assert(t.skip(0) =~= t);
        lemma_trim_end(t, t.len() as int);
        assert(t.take(t.len() as int) =~= t);
    } else {
        assert(trim(t) =~= t);
    }
}

proof fn lemma_trim_start_shape(s: Seq<char>)
    ensures
        trim_start(s).len() > 0 ==> !is_ws(trim_start(s)[0]),
    decreases s.len(),
{
    if s.len() > 0 && is_ws(s[0]) {
        lemma_trim_start_shape(s.drop_first());
    }
}

proof fn lemma_trim_end_shape(s: Seq<char>)
    ensures
        trim_end(s).len() > 0 ==> !is_ws(trim_end(s).last()),
        trim_end(s).len() > 0 ==> trim_end(s)[0] == s[0],
        trim_end(s).len() <= s.len(),
    decreases s.len(),
{
    if s.len() > 0 && is_ws(s.last()) {
        lemma_trim_end_shape(s.drop_last());
    }
}

pub fn char_is_ws(c: char) -> (r: bool)
    ensures
        r == is_ws(c),
{
    ('\u{9}' <= c && c <= '\u{d}') || c == ' ' || c == '\u{85}' || c == '\u{a0}' || c == '\u{1680}'
        || ('\u{2000}' <= c && c <= '\u{200a}') || c == '\u{2028}' || c == '\u{2029}' || c
        == '\u{202f}' || c == '\u{205f}' || c == '\u{3000}'
}

pub fn char_is_digit(c: char) -> (r: bool)
    ensures
        r == is_digit(c),
{
    '0' <= c && c <= '9'
}

pub fn char_ascii_lower(c: char) -> (r: char)
    ensures
        r == ascii_lower(c),
{
    if 'A' <= c && c <= 'Z' {
        let u = (c as u32) + 32;
        assert(u == ((c as u32) + 32) as u32);
        proof {
            assert(0x41 <= (c as u32) <= 0x5a);
        }
        char_from_ascii(u)
    } else {
        c
    }
}

fn char_from_ascii(u: u32) -> (c: char)
    requires
        u < 128,
    ensures
        c == u as char,
{
    (u as u8) as char
}

/// The characters `s[a..b]`.
pub fn subvec(s: &Vec<char>, a: usize, b: usize) -> (r: Vec<char>)
    requires
        a <= b <= s.len(),
    ensures
        r@ == s@.subrange(a as int, b as int),
{
    let mut r: Vec<char> = Vec::new();
    let mut i = a;
    while i < b
        invariant
            a <= i <= b <= s.len(),
            r@ == s@.subrange(a as int, i as int),
        decreases b - i,
    {
        r.push(s[i]);
        i = i + 1;
        assert(r@ =~= s@.subrange(a as int, i as int));
    }
    r
}

pub fn trim_chars(s: &Vec<char>) -> (r: Vec<char>)
    ensures
        r@ == trim(s@),
{
    let mut a: usize = 0;
    while a < s.len() && char_is_ws(s[a])
        invariant
            a <= s.len(),
            forall|i: int| 0 <= i < a ==> is_ws(s@[i]),
        decreases s.len() - a,
    {
        a = a + 1;
    }
    proof {
        lemma_trim_start(s@, a as int);
    }
    let mut b: usize = s.len();
    while b > a && char_is_ws(s[b - 1])
        invariant
            a <= b <= s.len(),
            forall|i: int| b <= i < s.len() ==> is_ws(s@[i]),
        decreases b,
    {
        b = b - 1;
    }
    proof {
        let t = s@.skip(a as int);
        assert forall|i: int| (b - a) <= i < t.len() implies is_ws(t[i]) by {
            assert(t[i] == s@[i + a]);
        }
        if b > a {
            assert(t[b - a - 1] == s@[b - 1]);
        }
        lemma_trim_end(t, b - a);
        assert(t.take(b - a) =~= s@.subrange(a as int, b as int));
    }
    subvec(s, a, b)
}

/// Position of the first `c` at or after `from`, or `s.len()`.
pub fn find_char(s: &Vec<char>, from: usize, c: char) -> (r: usize)
    requires
        from <= s.len(),
    ensures
        r == from + first_index(s@.skip(from as int), c),
        from <= r <= s.len(),
{
    let mut i = from;
    while i < s.len() && s[i] != c
        invariant
            from <= i <= s.len(),
            forall|j: int| from <= j < i ==> s@[j] != c,
        decreases s.len() - i,
    {
        i = i + 1;
    }
    proof {
        let t = s@.skip(from as int);
        assert forall|j: int| 0 <= j < i - from implies t[j] != c by {
            assert(t[j] == s@[j + from]);
        }
        if i < s.len() {
            assert(t[i - from] == s@[i as int]);
        }
        lemma_first_index(t, c, i - from);
    }
    i
}

/// Position of the first `..` at or after `from`, or `s.len()`.
pub fn find_dots(s: &Vec<char>, from: usize) -> (r: usize)
    requires
        from <= s.len(),
    ensures
        r == from + first_dots(s@.skip(from as int)),
        from <= r <= s.len(),
{
    let mut i = from;
    while i < s.len() && i + 1 < s.len() && !(s[i] == '.' && s[i + 1] == '.')
        invariant
            from <= i <= s.len(),
            forall|j: int| from <= j < i ==> !#[trigger] dots_at(s@, j),
        decreases s.len() - i,
    {
        i = i + 1;
    }
    let r = if i < s.len() && i + 1 < s.len() {
        i
    } else {
        s.len()
    };
    proof {
        let t = s@.skip(from as int);
        assert forall|j: int| 0 <= j < r - from implies !#[trigger] dots_at(t, j) by {
            if j + from < i {
                assert(!dots_at(s@, j + from));
            }
            if j + 1 < t.len() {
                assert(t[j] == s@[j + from] && t[j + 1] == s@[j + 1 + from]);
            }
        }
        if r < s.len() {
            assert(t[r - from] == s@[r as int] && t[r - from + 1] == s@[r + 1]);
        }
        lemma_first_dots(t, r - from);
    }
    r
}

pub fn has_char(s: &Vec<char>, c: char) -> (r: bool)
    ensures
        r == (first_index(s@, c) < s@.len()),
        r == s@.contains(c),
{
    let i = find_char(s, 0, c);
    proof {
        assert(s@.skip(0) =~= s@);
        lemma_first_index_bounds(s@, c);
    }
    i < s.len()
}

pub fn has_dots(s: &Vec<char>) -> (r: bool)
    ensures
        r == contains_dots(s@),
{
    let i = find_dots(s, 0);
    proof {
        assert(s@.skip(0) =~= s@);
    }
    i < s.len()
}

/// The pieces of `s` separated by `c`.
pub fn split_on_char(s: &Vec<char>, c: char) -> (r: Vec<Vec<char>>)
    ensures
        pieces(r@) == split_char(s@, c),
        r.len() >= 1,
{
    let mut r: Vec<Vec<char>> = Vec::new();
    let mut from: usize = 0;
    assert(s@.skip(0) =~= s@);
    loop
        invariant
            from <= s.len(),
            pieces(r@) + split_char(s@.skip(from as int), c) == split_char(s@, c),
        decreases s.len() - from,
    {
        let i = find_char(s, from, c);
        let piece = subvec(s, from, i);
        let ghost t = s@.skip(from as int);
        proof {
            lemma_first_index_bounds(t, c);
            assert(piece@ =~= t.take(i - from));
        }
        if i < s.len() {
            let ghost old_r = pieces(r@);
            let ghost old_v = r@;
            r.push(piece);
            proof {
                assert(r@ == old_v.push(piece));
                assert(pieces(r@) =~= old_r.push(piece@));
                assert(t.skip(i - from + 1) =~= s@.skip(i + 1));
                assert(split_char(t, c) == seq![t.take(i - from)] + split_char(s@.skip(i + 1), c));
                assert(old_r + split_char(t, c) =~= pieces(r@) + split_char(s@.skip(i + 1), c));
            }
            from = i + 1;
        } else {
            let ghost old_r = pieces(r@);
            let ghost old_v = r@;
            r.push(piece);
            proof {
                assert(t.take(i - from) =~= t);
                assert(split_char(t, c) == seq![t]);
                assert(r@ == old_v.push(piece));
                assert(pieces(r@) =~= old_r.push(piece@));
                assert(pieces(r@) =~= old_r + split_char(t, c));
            }
            return r;
        }
    }
}

/// The pieces of `s` separated by `..`.
pub fn split_on_dots(s: &Vec<char>) -> (r: Vec<Vec<char>>)
    ensures
        pieces(r@) == split_dots(s@),
        r.len() >= 1,
{
    let mut r: Vec<Vec<char>> = Vec::new();
    let mut from: usize = 0;
    assert(s@.skip(0) =~= s@);
    loop
        invariant
            from <= s.len(),
            pieces(r@) + split_dots(s@.skip(from as int)) == split_dots(s@),
        decreases s.len() - from,
    {
        let i = find_dots(s, from);
        let piece = subvec(s, from, i);
        let ghost t = s@.skip(from as int);
        proof {
            lemma_first_dots_bounds(t);
            assert(piece@ =~= t.take(i - from));
        }
        if i < s.len() {
            let ghost old_r = pieces(r@);
            let ghost old_v = r@;
            r.push(piece);
            proof {
                assert(r@ == old_v.push(piece));
                assert(pieces(r@) =~= old_r.push(piece@));
                assert(t.skip(i - from + 2) =~= s@.skip(i + 2));
                assert(split_dots(t) == seq![t.take(i - from)] + split_dots(s@.skip(i + 2)));
                assert(old_r + split_dots(t) =~= pieces(r@) + split_dots(s@.skip(i + 2)));
            }
            from = i + 2;
        } else {
            let ghost old_r = pieces(r@);
            let ghost old_v = r@;
            r.push(piece);
            proof {
                assert(t.take(i - from) =~= t);
                assert(split_dots(t) == seq![t]);
                assert(r@ == old_v.push(piece));
                assert(pieces(r@) =~= old_r.push(piece@));
                assert(pieces(r@) =~= old_r + split_dots(t));
            }
            return r;
        }
    }
}

/// `s` with every `c` removed.
pub fn remove_char(s: &Vec<char>, c: char) -> (r: Vec<char>)
    ensures
        r@ == remove_all(s@, c),
{
    let mut r: Vec<char> = Vec::new();
    let mut i: usize = 0;
    while i < s.len()
        invariant
            i <= s.len(),
            r@ == remove_all(s@.take(i as int), c),
        decreases s.len() - i,
    {
        let ghost prev = s@.take(i as int);
        if s[i] != c {
            r.push(s[i]);
        }
        i = i + 1;
        proof {
            let cur = s@.take(i as int);
            assert(cur.drop_last() =~= prev);
            assert(cur.last() == s@[i - 1]);
        }
    }
    assert(s@.take(s.len() as int) =~= s@);
    r
}

pub fn starts_with_chars(s: &Vec<char>, p: &Vec<char>) -> (r: bool)
    ensures
        r == starts_with(s@, p@),
{
    if p.len() > s.len() {
        return false;
    }
    let mut i: usize = 0;
    while i < p.len()
        invariant
            p.len() <= s.len(),
            i <= p.len(),
            forall|j: int| 0 <= j < i ==> s@[j] == p@[j],
        decreases p.len() - i,
    {
        if s[i] != p[i] {
            assert(s@.take(p.len() as int)[i as int] != p@[i as int]);
            return false;
        }
        i = i + 1;
    }
    assert(s@.take(p.len() as int) =~= p@);
    true
}

pub fn ends_with_char(s: &Vec<char>, c: char) -> (r: bool)
    ensures
        r == ends_with(s@, seq![c]),
        r == (s@.len() > 0 && s@.last() == c),
{
    if s.len() == 0 {
        false
    } else {
        let r = s[s.len() - 1] == c;
        proof {
            let t = s@.skip(s@.len() - 1);
            assert(t.len() == 1 && t[0] == s@.last());
            if r {
                assert(t =~= seq![c]);
            } else {
                assert(t[0] != seq![c][0]);
            }
        }
        r
    }
}

pub fn starts_with_char(s: &Vec<char>, c: char) -> (r: bool)
    ensures
        r == starts_with(s@, seq![c]),
        r == (s@.len() > 0 && s@[0] == c),
{
    if s.len() == 0 {
        false
    } else {
        let r = s[0] == c;
        proof {
            let t = s@.take(1);
            assert(t.len() == 1 && t[0] == s@[0]);
            if r {
                assert(t =~= seq![c]);
            } else {
                assert(t[0] != seq![c][0]);
            }
        }
        r
    }
}

pub fn eq_chars(a: &Vec<char>, b: &Vec<char>) -> (r: bool)
    ensures
        r == (a@ == b@),
{
    if a.len() != b.len() {
        return false;
    }
    let mut i: usize = 0;
    while i < a.len()
        invariant
            a.len() == b.len(),
            i <= a.len(),
            forall|j: int| 0 <= j < i ==> a@[j] == b@[j],
        decreases a.len() - i,
    {
        if a[i] != b[i] {
            return false;
        }
        i = i + 1;
    }
    assert(a@ =~= b@);
    true
}

pub fn eq_ignore_case_chars(a: &Vec<char>, b: &Vec<char>) -> (r: bool)
    ensures
        r == eq_ignore_ascii_case(a@, b@),
{
    if a.len() != b.len() {
        return false;
    }
    let mut i: usize = 0;
    while i < a.len()
        invariant
            a.len() == b.len(),
            i <= a.len(),
            forall|j: int| 0 <= j < i ==> ascii_lower(#[trigger] a@[j]) == ascii_lower(b@[j]),
        decreases a.len() - i,
    {
        if char_ascii_lower(a[i]) != char_ascii_lower(b[i]) {
            return false;
        }
        i = i + 1;
    }
    true
}

/// The last character dropped.
pub fn drop_last_char(s: &Vec<char>) -> (r: Vec<char>)
    requires
        s.len() > 0,
    ensures
        r@ == s@.drop_last(),
{
    subvec(s, 0, s.len() - 1)
}

/// The first `n` characters dropped.
pub fn skip_chars(s: &Vec<char>, n: usize) -> (r: Vec<char>)
    requires
        n <= s.len(),
    ensures
        r@ == s@.skip(n as int),
{
    let r = subvec(s, n, s.len());
    assert(r@ =~= s@.skip(n as int));
    r
}

/// Copies the characters of `s`, as `str::chars` yields them.
#[verifier::external_body]
pub(crate) fn chars_of(s: &str) -> (r: Vec<char>)
    ensures
        r@ == s@,
{
    s.chars().collect()
}

/// Collects characters into a `String`.
#[verifier::external_body]
pub(crate) fn string_of(v: &Vec<char>) -> (r: String)
    ensures
        r@ == v@,
{
    v.iter().collect()
}

/// Calls `str::to_lowercase` on the text of `v`: on text that is all ASCII it maps `A`-`Z` to
/// `a`-`z` and keeps every other character; beyond ASCII its result is only named.
#[verifier::external_body]
pub(crate) fn to_lowercase_chars(v: &Vec<char>) -> (r: Vec<char>)
    ensures
        r@ == str_to_lowercase(v@),
        (forall|i: int| 0 <= i < v@.len() ==> (#[trigger] v@[i] as u32) < 128) ==> r@ == v@.map_values(
            |c: char| ascii_lower(c),
        ),
{
    v.iter().collect::<String>().to_lowercase().chars().collect()
}

} // verus!

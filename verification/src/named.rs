//! Values looked up by name, kept in the order their names were first added.
use vstd::prelude::*;
use crate::text::{chars_of, eq_chars};

verus! {

/// Position of the first entry called `k`, or the number of entries.
pub open spec fn key_index<T>(s: Seq<(Seq<char>, T)>, k: Seq<char>) -> int
    decreases s.len(),
{
    if s.len() == 0 {
        0
    } else if s[0].0 == k {
        0
    } else {
        1 + key_index(s.drop_first(), k)
    }
}

/// The value of the entry called `k`.
pub open spec fn lookup<T>(s: Seq<(Seq<char>, T)>, k: Seq<char>) -> Option<T> {
    let i = key_index(s, k);
    if 0 <= i < s.len() {
        Some(s[i].1)
    } else {
        None
    }
}

/// The entries after setting `k` to `v`: an entry called `k` takes the new value, otherwise
/// the entry is added at the end.
pub open spec fn insert_entry<T>(s: Seq<(Seq<char>, T)>, k: Seq<char>, v: T) -> Seq<(Seq<char>, T)> {
    let i = key_index(s, k);
    if 0 <= i < s.len() {
        s.update(i, (k, v))
    } else {
        s.push((k, v))
    }
}

/// No two entries share a name.
pub open spec fn distinct_keys<T>(s: Seq<(Seq<char>, T)>) -> bool {
    forall|i: int, j: int| 0 <= i < j < s.len() ==> #[trigger] s[i].0 != #[trigger] s[j].0
}

pub proof fn lemma_key_index<T>(s: Seq<(Seq<char>, T)>, k: Seq<char>)
    ensures
        0 <= key_index(s, k) <= s.len(),
        key_index(s, k) < s.len() ==> s[key_index(s, k)].0 == k,
        forall|j: int| 0 <= j < key_index(s, k) ==> #[trigger] s[j].0 != k,
    decreases s.len(),
{
    if s.len() > 0 && s[0].0 != k {
        lemma_key_index(s.drop_first(), k);
        assert forall|j: int| 0 <= j < key_index(s, k) implies #[trigger] s[j].0 != k by {
            if j > 0 {
                assert(s[j] == s.drop_first()[j - 1]);
            }
        }
    }
}

pub proof fn lemma_key_index_is<T>(s: Seq<(Seq<char>, T)>, k: Seq<char>, i: int)
    requires
        0 <= i <= s.len(),
        i == s.len() || s[i].0 == k,
        forall|j: int| 0 <= j < i ==> #[trigger] s[j].0 != k,
    ensures
        key_index(s, k) == i,
    decreases s.len(),
{
    if s.len() > 0 && s[0].0 != k {
        let t = s.drop_first();
        assert forall|j: int| 0 <= j < i - 1 implies #[trigger] t[j].0 != k by {
            assert(t[j] == s[j + 1]);
        }
        lemma_key_index_is(t, k, i - 1);
    }
}

/// Reading a name gives the value last set under it; setting one name leaves the values of
/// all other names as they were; names stay distinct.
pub proof fn law_lookup_after_insert<T>(s: Seq<(Seq<char>, T)>, k: Seq<char>, v: T, other: Seq<char>)
    ensures
        lookup(insert_entry(s, k, v), k) == Some(v),
        other != k ==> lookup(insert_entry(s, k, v), other) == lookup(s, other),
        distinct_keys(s) ==> distinct_keys(insert_entry(s, k, v)),
{
    lemma_key_index(s, k);
    lemma_key_index(s, other);
    let i = key_index(s, k);
    let s2 = insert_entry(s, k, v);
    lemma_key_index_is(s2, k, i);
    if other != k {
        let j = key_index(s, other);
        if i < s.len() {
            assert forall|q: int| 0 <= q < j implies #[trigger] s2[q].0 != other by {
                if q != i {
                    assert(s2[q] == s[q]);
                }
            }
            if j < s.len() {
                assert(j != i);
                assert(s2[j] == s[j]);
            }
            lemma_key_index_is(s2, other, j);
        } else if j < s.len() {
            assert forall|q: int| 0 <= q < j implies #[trigger] s2[q].0 != other by {
                assert(s2[q] == s[q]);
            }
            assert(s2[j] == s[j]);
            lemma_key_index_is(s2, other, j);
        } else {
            assert forall|q: int| 0 <= q < s2.len() implies #[trigger] s2[q].0 != other by {
                if q < s.len() {
                    assert(s2[q] == s[q]);
                }
            }
            lemma_key_index_is(s2, other, s2.len() as int);
        }
    }
    if distinct_keys(s) {
        assert forall|p: int, q: int| 0 <= p < q < s2.len() implies #[trigger] s2[p].0 != #[trigger] s2[q].0 by {
            if i < s.len() {
                if p == i {
                    assert(s[q].0 != k);
                } else if q == i {
                    assert(s[p].0 != k);
                } else {
                    assert(s2[p] == s[p] && s2[q] == s[q]);
                }
            } else {
                if q == s.len() {
                    assert(s2[p] == s[p]);
                } else {
                    assert(s2[p] == s[p] && s2[q] == s[q]);
                }
            }
        }
    }
}

/// Entries with their values mapped by `f`.
pub open spec fn map_entries<T, U>(s: Seq<(Seq<char>, T)>, f: spec_fn(T) -> U) -> Seq<(Seq<char>, U)> {
    s.map_values(|p: (Seq<char>, T)| (p.0, f(p.1)))
}

pub proof fn lemma_key_index_map_entries<T, U>(s: Seq<(Seq<char>, T)>, f: spec_fn(T) -> U, k: Seq<char>)
    ensures
        key_index(map_entries(s, f), k) == key_index(s, k),
        lookup(map_entries(s, f), k) == match lookup(s, k) {
            Some(v) => Some(f(v)),
            None => None,
        },
    decreases s.len(),
{
    if s.len() > 0 {
        assert(map_entries(s, f).drop_first() =~= map_entries(s.drop_first(), f));
        lemma_key_index_map_entries(s.drop_first(), f, k);
    }
    lemma_key_index(s, k);
}

pub proof fn lemma_insert_map_entries<T, U>(s: Seq<(Seq<char>, T)>, f: spec_fn(T) -> U, k: Seq<char>, v: T)
    ensures
        map_entries(insert_entry(s, k, v), f) == insert_entry(map_entries(s, f), k, f(v)),
{
    lemma_key_index_map_entries(s, f, k);
    lemma_key_index(s, k);
    assert(map_entries(insert_entry(s, k, v), f) =~= insert_entry(map_entries(s, f), k, f(v)));
}

pub proof fn lemma_update_map_entries<T, U>(s: Seq<(Seq<char>, T)>, f: spec_fn(T) -> U, i: int, v: T)
    requires
        0 <= i < s.len(),
    ensures
        map_entries(s.update(i, (s[i].0, v)), f) == map_entries(s, f).update(i, (s[i].0, f(v))),
{
    assert(map_entries(s.update(i, (s[i].0, v)), f) =~= map_entries(s, f).update(i, (s[i].0, f(v))));
}

/// Values looked up by name.
pub struct NameMap<T> {
    entries: Vec<(String, T)>,
}

pub open spec fn entries_view<T>(v: Seq<(String, T)>) -> Seq<(Seq<char>, T)> {
    v.map_values(|p: (String, T)| (p.0@, p.1))
}

impl<T> View for NameMap<T> {
    type V = Seq<(Seq<char>, T)>;

    closed spec fn view(&self) -> Seq<(Seq<char>, T)> {
        entries_view(self.entries@)
    }
}

/// Position of the entry called `name`, or the number of entries.
fn find_entry<T>(v: &Vec<(String, T)>, name: &Vec<char>) -> (r: usize)
    ensures
        r == key_index(entries_view(v@), name@),
{
    let mut i: usize = 0;
    while i < v.len()
        invariant
            i <= v.len(),
            forall|j: int| 0 <= j < i ==> #[trigger] entries_view(v@)[j].0 != name@,
        decreases v.len() - i,
    {
        let key = chars_of(v[i].0.as_str());
        if eq_chars(&key, name) {
            proof {
                lemma_key_index_is(entries_view(v@), name@, i as int);
            }
            return i;
        }
        assert(entries_view(v@)[i as int].0 == v@[i as int].0@);
        i = i + 1;
    }
    proof {
        lemma_key_index_is(entries_view(v@), name@, i as int);
    }
    i
}

impl<T> NameMap<T> {
    /// No entries.
    pub fn new() -> (r: NameMap<T>)
        ensures
            r@.len() == 0,
    {
        let r = NameMap { entries: Vec::new() };
        assert(r@ =~= Seq::<(Seq<char>, T)>::empty());
        r
    }

    pub fn len(&self) -> (r: usize)
        ensures
            r == self@.len(),
    {
        self.entries.len()
    }

    /// The position of the entry called `name`, or the number of entries.
    pub fn index_of(&self, name: &str) -> (r: usize)
        ensures
            r == key_index(self@, name@),
    {
        find_entry(&self.entries, &chars_of(name))
    }

    /// The value called `name`.
    pub fn get(&self, name: &str) -> (r: Option<&T>)
        ensures
            match r {
                Some(x) => lookup(self@, name@) == Some(*x),
                None => lookup(self@, name@) is None,
            },
    {
        let i = find_entry(&self.entries, &chars_of(name));
        if i < self.entries.len() {
            Some(&self.entries[i].1)
        } else {
            None
        }
    }

    /// Sets `name` to `value`.
    pub fn insert(&mut self, name: String, value: T)
        ensures
            final(self)@ == insert_entry(old(self)@, name@, value),
    {
        let i = find_entry(&self.entries, &chars_of(name.as_str()));
        let ghost k = name@;
        let ghost old_v = self@;
        proof {
            lemma_key_index(old_v, k);
        }
        if i < self.entries.len() {
            self.entries.set(i, (name, value));
            assert(self@ =~= insert_entry(old_v, k, value));
        } else {
            self.entries.push((name, value));
            assert(self@ =~= insert_entry(old_v, k, value));
        }
    }

    /// The name and value of the `i`-th entry.
    pub fn entry(&self, i: usize) -> (r: (&String, &T))
        requires
            i < self@.len(),
        ensures
            r.0@ == self@[i as int].0,
            *r.1 == self@[i as int].1,
    {
        (&self.entries[i].0, &self.entries[i].1)
    }
}


/// The entries without the first one called `k`.
pub open spec fn remove_entry<T>(s: Seq<(Seq<char>, T)>, k: Seq<char>) -> Seq<(Seq<char>, T)> {
    let i = key_index(s, k);
    if 0 <= i < s.len() {
        s.remove(i)
    } else {
        s
    }
}

/// Removing a name from entries with distinct names leaves no entry of that name, and the
/// names distinct.
pub proof fn law_lookup_after_remove<T>(s: Seq<(Seq<char>, T)>, k: Seq<char>)
    requires
        distinct_keys(s),
    ensures
        lookup(remove_entry(s, k), k) is None,
        distinct_keys(remove_entry(s, k)),
{
    lemma_key_index(s, k);
    let i = key_index(s, k);
    let s2 = remove_entry(s, k);
    assert forall|j: int| 0 <= j < s2.len() implies #[trigger] s2[j].0 != k by {
        if i < s.len() {
            if j < i {
                assert(s2[j] == s[j]);
            } else {
                assert(s2[j] == s[j + 1]);
                assert(s[i].0 != s[j + 1].0);
            }
        }
    }
    lemma_key_index_is(s2, k, s2.len() as int);
    if i < s.len() {
        assert forall|p: int, q: int| 0 <= p < q < s2.len() implies #[trigger] s2[p].0 != #[trigger] s2[q].0 by {
            let pp = if p < i { p } else { p + 1 };
            let qq = if q < i { q } else { q + 1 };
            assert(s2[p] == s[pp]);
            assert(s2[q] == s[qq]);
        }
    }
}

impl<T> NameMap<T> {
    /// Puts `value` in the `i`-th entry, keeping its name, and returns the value it held.
    pub fn replace_value(&mut self, i: usize, value: T) -> (r: T)
        requires
            i < old(self)@.len(),
        ensures
            r == old(self)@[i as int].1,
            final(self)@ == old(self)@.update(i as int, (old(self)@[i as int].0, value)),
    {
        let (name, old_value) = self.entries.remove(i);
        self.entries.insert(i, (name, value));
        assert(self@ =~= old(self)@.update(i as int, (old(self)@[i as int].0, value)));
        old_value
    }

    /// Removes the entry called `name`, if there is one.
    pub fn remove(&mut self, name: &str)
        ensures
            final(self)@ == remove_entry(old(self)@, name@),
    {
        let i = find_entry(&self.entries, &chars_of(name));
        proof {
            lemma_key_index(old(self)@, name@);
        }
        if i < self.entries.len() {
            self.entries.remove(i);
            assert(self@ =~= old(self)@.remove(i as int));
        }
    }

    /// Takes out the `i`-th entry.
    pub fn take_at(&mut self, i: usize) -> (r: (String, T))
        requires
            i < old(self)@.len(),
        ensures
            (r.0@, r.1) == old(self)@[i as int],
            final(self)@ == old(self)@.remove(i as int),
    {
        let r = self.entries.remove(i);
        assert(self@ =~= old(self)@.remove(i as int));
        r
    }

    /// Puts an entry back at position `i`.
    pub fn put_at(&mut self, i: usize, name: String, value: T)
        requires
            i <= old(self)@.len(),
        ensures
            final(self)@ == old(self)@.insert(i as int, (name@, value)),
    {
        let ghost n = name@;
        self.entries.insert(i, (name, value));
        assert(self@ =~= old(self)@.insert(i as int, (n, value)));
    }

    /// Removes every entry.
    pub fn clear(&mut self)
        ensures
            final(self)@.len() == 0,
    {
        self.entries.clear();
        assert(self@ =~= Seq::<(Seq<char>, T)>::empty());
    }
}

} // verus!

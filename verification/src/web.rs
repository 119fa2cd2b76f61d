//! What the web interface is shown when it connects: the heads in plan order, with their
//! profiles.
use vstd::prelude::*;
use crate::named::{NameMap, lookup, insert_entry};
use crate::fixture::{Fixture, mode_channels};
use crate::stores::Layout;
use crate::target::{strings_view, copy_strings};
use crate::text::{chars_of, eq_chars};

verus! {

/// `a` comes before `b` in the order of `str`'s `Ord`: by characters, a prefix first.
pub open spec fn text_lt(a: Seq<char>, b: Seq<char>) -> bool
    decreases a.len(),
{
    if a.len() == 0 {
        b.len() > 0
    } else if b.len() == 0 {
        false
    } else if a[0] != b[0] {
        (a[0] as int) < (b[0] as int)
    } else {
        text_lt(a.drop_first(), b.drop_first())
    }
}

pub open spec fn text_le(a: Seq<char>, b: Seq<char>) -> bool {
    a == b || text_lt(a, b)
}

pub open spec fn texts_sorted(s: Seq<Seq<char>>) -> bool {
    forall|i: int, j: int| 0 <= i < j < s.len() ==> text_le(#[trigger] s[i], #[trigger] s[j])
}

proof fn lemma_text_lt_irrefl(a: Seq<char>)
    ensures
        !text_lt(a, a),
    decreases a.len(),
{
    if a.len() > 0 {
        lemma_text_lt_irrefl(a.drop_first());
    }
}

proof fn lemma_text_lt_total(a: Seq<char>, b: Seq<char>)
    ensures
        a == b || text_lt(a, b) || text_lt(b, a),
    decreases a.len(),
{
    if a.len() > 0 && b.len() > 0 {
        if a[0] == b[0] {
            lemma_text_lt_total(a.drop_first(), b.drop_first());
            if a.drop_first() == b.drop_first() {
                assert(a =~= seq![a[0]] + a.drop_first());
                assert(b =~= seq![b[0]] + b.drop_first());
            }
        }
    } else if a.len() == 0 && b.len() == 0 {
        assert(a =~= b);
    }
}

proof fn lemma_text_lt_trans(a: Seq<char>, b: Seq<char>, c: Seq<char>)
    requires
        text_lt(a, b),
        text_lt(b, c),
    ensures
        text_lt(a, c),
    decreases a.len(),
{
    if a.len() > 0 && b.len() > 0 && c.len() > 0 && a[0] == b[0] && b[0] == c[0] {
        lemma_text_lt_trans(a.drop_first(), b.drop_first(), c.drop_first());
    }
}

/// Whether `a` comes before `b` (see `text_lt`).
fn text_less(a: &Vec<char>, b: &Vec<char>) -> (r: bool)
    ensures
        r == text_lt(a@, b@),
{
    let mut i: usize = 0;
    assert(a@.skip(0) =~= a@);
    assert(b@.skip(0) =~= b@);
    assert(a@.take(0) =~= b@.take(0));
    while i < a.len() && i < b.len()
        invariant
            i <= a.len(),
            i <= b.len(),
            a@.take(i as int) == b@.take(i as int),
            text_lt(a@, b@) == text_lt(a@.skip(i as int), b@.skip(i as int)),
        decreases a.len() - i,
    {
        let ghost sa = a@.skip(i as int);
        let ghost sb = b@.skip(i as int);
        assert(sa[0] == a@[i as int]);
        assert(sb[0] == b@[i as int]);
        if a[i] != b[i] {
            return a[i] < b[i];
        }
        assert(sa.drop_first() =~= a@.skip(i + 1));
        assert(sb.drop_first() =~= b@.skip(i + 1));
        assert(a@.take(i + 1) =~= a@.take(i as int).push(a@[i as int]));
        assert(b@.take(i + 1) =~= b@.take(i as int).push(b@[i as int]));
        i = i + 1;
    }
    i < b.len()
}

/// The ids named in the rows of a plan: each once, in plan order, blanks left out.
pub open spec fn plan_ids(rows: Seq<Seq<Seq<char>>>) -> Seq<Seq<char>>
    decreases rows.len(),
{
    if rows.len() == 0 {
        Seq::empty()
    } else {
        add_new_ids(plan_ids(rows.drop_last()), rows.last())
    }
}

/// `acc` followed by the ids of `row` that are not blank and not already there.
pub open spec fn add_new_ids(acc: Seq<Seq<char>>, row: Seq<Seq<char>>) -> Seq<Seq<char>>
    decreases row.len(),
{
    if row.len() == 0 {
        acc
    } else {
        let prev = add_new_ids(acc, row.drop_last());
        let id = row.last();
        if id.len() == 0 || prev.contains(id) {
            prev
        } else {
            prev.push(id)
        }
    }
}

pub open spec fn layout_rows(l: Layout) -> Seq<Seq<Seq<char>>> {
    l.heads@.map_values(|r: Vec<String>| strings_view(r@))
}

/// The fixture ids not in the plan, in patch order.
pub open spec fn unlisted_ids(fixtures: Seq<(Seq<char>, Fixture)>, listed: Seq<Seq<char>>) -> Seq<Seq<char>>
    decreases fixtures.len(),
{
    if fixtures.len() == 0 {
        Seq::empty()
    } else {
        let prev = unlisted_ids(fixtures.drop_last(), listed);
        let id = fixtures.last().0;
        if listed.contains(id) {
            prev
        } else {
            prev.push(id)
        }
    }
}

fn contains_text(v: &Vec<String>, s: &String) -> (r: bool)
    ensures
        r == strings_view(v@).contains(s@),
{
    let key = chars_of(s.as_str());
    let mut i: usize = 0;
    while i < v.len()
        invariant
            i <= v.len(),
            key@ == s@,
            forall|j: int| 0 <= j < i ==> strings_view(v@)[j] != s@,
        decreases v.len() - i,
    {
        if eq_chars(&chars_of(v[i].as_str()), &key) {
            assert(strings_view(v@)[i as int] == s@);
            return true;
        }
        i = i + 1;
    }
    false
}

/// Inserts `x` into the sorted `v` after the entries not greater than it.
fn insert_sorted(v: &mut Vec<String>, x: String)
    requires
        texts_sorted(strings_view(old(v)@)),
    ensures
        texts_sorted(strings_view(final(v)@)),
        strings_view(final(v)@).to_multiset() == strings_view(old(v)@).to_multiset().insert(x@),
{
    let xc = chars_of(x.as_str());
    let mut k: usize = 0;
    let mut found = false;
    while k < v.len() && !found
        invariant
            k <= v.len(),
            xc@ == x@,
            v@ == old(v)@,
            texts_sorted(strings_view(v@)),
            forall|j: int| 0 <= j < k ==> text_le(#[trigger] strings_view(v@)[j], x@),
            found ==> k < v.len() && text_lt(x@, strings_view(v@)[k as int]),
        decreases v.len() - k, if found { 0int } else { 1int },
    {
        if text_less(&xc, &chars_of(v[k].as_str())) {
            found = true;
        } else {
            proof {
                lemma_text_lt_total(x@, strings_view(v@)[k as int]);
            }
            k = k + 1;
        }
    }
    let ghost before = strings_view(v@);
    proof {
        assert forall|j: int| k <= j < before.len() implies text_lt(x@, #[trigger] before[j]) by {
            if k < before.len() {
                assert(text_lt(x@, before[k as int]));
                if j > k {
                    assert(text_le(before[k as int], before[j]));
                    if before[k as int] != before[j] {
                        lemma_text_lt_trans(x@, before[k as int], before[j]);
                    }
                }
            }
        }
    }
    v.insert(k, x);
    proof {
        let after = strings_view(v@);
        assert(after =~= before.insert(k as int, x@));
        assert forall|i: int, j: int| 0 <= i < j < after.len() implies text_le(#[trigger] after[i], #[trigger] after[j]) by {
            if j < k {
                assert(after[i] == before[i] && after[j] == before[j]);
            } else if j == k {
                assert(after[i] == before[i]);
            } else if i < k {
                assert(after[i] == before[i] && after[j] == before[j - 1]);
                assert(text_le(before[i], x@));
                assert(text_lt(x@, before[j - 1]));
                if before[i] != x@ {
                    lemma_text_lt_trans(before[i], x@, before[j - 1]);
                }
            } else if i == k {
                assert(after[j] == before[j - 1]);
            } else {
                assert(after[i] == before[i - 1] && after[j] == before[j - 1]);
            }
        }
        vstd::seq_lib::to_multiset_insert(before, k as int, x@);
    }
}

/// The order the heads are shown in: the ids of the plan (see `plan_ids`), then the other
/// patched fixtures sorted by id (see `text_lt`).
pub fn ordered_head_ids(layout: Option<&Layout>, fixtures: &NameMap<Fixture>) -> (r: Vec<String>)
    ensures
        ({
            let listed = match layout {
                Some(l) => plan_ids(layout_rows(*l)),
                None => Seq::empty(),
            };
            let rest = strings_view(r@).skip(listed.len() as int);
            &&& strings_view(r@).take(listed.len() as int) == listed
            &&& listed.len() <= r@.len()
            &&& texts_sorted(rest)
            &&& rest.to_multiset() == unlisted_ids(fixtures@, listed).to_multiset()
        }),
{
    let mut ordered: Vec<String> = Vec::new();
    let ghost rows: Seq<Seq<Seq<char>>> = match layout {
        Some(l) => layout_rows(*l),
        None => Seq::empty(),
    };
    if let Some(l) = layout {
        let mut r: usize = 0;
        while r < l.heads.len()
            invariant
                r <= l.heads.len(),
                rows == layout_rows(*l),
                strings_view(ordered@) == plan_ids(rows.take(r as int)),
            decreases l.heads.len() - r,
        {
            let row = &l.heads[r];
            let ghost t = rows.take(r + 1);
            assert(t.drop_last() =~= rows.take(r as int));
            assert(t.last() == strings_view(row@));
            let ghost acc0 = strings_view(ordered@);
            let mut c: usize = 0;
            while c < row.len()
                invariant
                    c <= row.len(),
                    strings_view(ordered@) == add_new_ids(acc0, strings_view(row@).take(c as int)),
                decreases row.len() - c,
            {
                let id = &row[c];
                let ghost u = strings_view(row@).take(c + 1);
                assert(u.drop_last() =~= strings_view(row@).take(c as int));
                assert(u.last() == id@);
                let blank = chars_of(id.as_str()).len() == 0;
                if !blank && !contains_text(&ordered, id) {
                    let ghost before = strings_view(ordered@);
                    ordered.push(id.clone());
                    assert(strings_view(ordered@) =~= before.push(id@));
                }
                c = c + 1;
            }
            assert(strings_view(row@).take(c as int) =~= strings_view(row@));
            r = r + 1;
        }
        assert(rows.take(r as int) =~= rows);
    }
    let ghost listed = strings_view(ordered@);
    assert(listed == match layout {
        Some(l) => plan_ids(layout_rows(*l)),
        None => Seq::<Seq<char>>::empty(),
    });
    let mut rest: Vec<String> = Vec::new();
    let mut k: usize = 0;
    assert(strings_view(rest@) =~= Seq::<Seq<char>>::empty());
    assert(unlisted_ids(fixtures@.take(0), listed) =~= Seq::<Seq<char>>::empty());
    while k < fixtures.len()
        invariant
            k <= fixtures@.len(),
            listed == strings_view(ordered@),
            texts_sorted(strings_view(rest@)),
            strings_view(rest@).to_multiset() == unlisted_ids(fixtures@.take(k as int), listed).to_multiset(),
        decreases fixtures@.len() - k,
    {
        let (id, _) = fixtures.entry(k);
        let ghost t = fixtures@.take(k + 1);
        assert(t.drop_last() =~= fixtures@.take(k as int));
        assert(t.last().0 == id@);
        if !contains_text(&ordered, id) {
            insert_sorted(&mut rest, id.clone());
            proof {
                let p = unlisted_ids(fixtures@.take(k as int), listed);
                vstd::seq_lib::to_multiset_build(p, id@);
            }
        }
        k = k + 1;
    }
    assert(fixtures@.take(k as int) =~= fixtures@);
    let mut out = copy_strings(&ordered);
    let n = rest.len();
    let mut j: usize = 0;
    while j < n
        invariant
            j <= n,
            n == rest.len(),
            strings_view(out@) == listed + strings_view(rest@).take(j as int),
        decreases n - j,
    {
        let ghost before = strings_view(out@);
        out.push(rest[j].clone());
        assert(strings_view(out@) =~= before.push(rest@[j as int]@));
        assert(strings_view(rest@).take(j + 1) =~= strings_view(rest@).take(j as int).push(rest@[j as int]@));
        j = j + 1;
    }
    assert(strings_view(rest@).take(n as int) =~= strings_view(rest@));
    assert(strings_view(out@).take(listed.len() as int) =~= listed);
    assert(strings_view(out@).skip(listed.len() as int) =~= strings_view(rest@));
    out
}

/// A head as the web interface shows it.
#[derive(Debug, Clone, PartialEq, Eq)]
pub struct HeadInfo {
    pub id: String,
    pub name: String,
    pub address: u16,
    pub profile: String,
}

pub open spec fn head_info_view(h: HeadInfo) -> (Seq<char>, Seq<char>, u16, Seq<char>) {
    (h.id@, h.name@, h.address, h.profile@)
}

/// The heads shown for `ids`: each id of a patched fixture, with the fixture's name, address
/// and profile name.
pub open spec fn head_infos(ids: Seq<Seq<char>>, fixtures: Seq<(Seq<char>, Fixture)>) -> Seq<(Seq<char>, Seq<char>, u16, Seq<char>)>
    decreases ids.len(),
{
    if ids.len() == 0 {
        Seq::empty()
    } else {
        let prev = head_infos(ids.drop_last(), fixtures);
        match lookup(fixtures, ids.last()) {
            Some(f) => prev.push((ids.last(), f.name@, f.address, f.profile.name@)),
            None => prev,
        }
    }
}

/// The channels shown per profile name: those of the mode of the first fixture of `ids`
/// with that profile.
pub open spec fn profile_channels(ids: Seq<Seq<char>>, fixtures: Seq<(Seq<char>, Fixture)>) -> Seq<(Seq<char>, Seq<Seq<char>>)>
    decreases ids.len(),
{
    if ids.len() == 0 {
        Seq::empty()
    } else {
        let prev = profile_channels(ids.drop_last(), fixtures);
        match lookup(fixtures, ids.last()) {
            Some(f) => if lookup(prev, f.profile.name@) is None {
                insert_entry(prev, f.profile.name@, mode_channels(*f.profile, f.mode_index))
            } else {
                prev
            },
            None => prev,
        }
    }
}

/// The heads and profiles shown for `ids` (see `head_infos`, `profile_channels`).
pub fn setup_heads(ids: &Vec<String>, fixtures: &NameMap<Fixture>) -> (r: (Vec<HeadInfo>, NameMap<Vec<String>>))
    ensures
        r.0@.map_values(|h: HeadInfo| head_info_view(h)) == head_infos(strings_view(ids@), fixtures@),
        crate::named::map_entries(r.1@, |v: Vec<String>| strings_view(v@)) == profile_channels(strings_view(ids@), fixtures@),
{
    let ghost all = strings_view(ids@);
    let mut heads: Vec<HeadInfo> = Vec::new();
    let mut profiles: NameMap<Vec<String>> = NameMap::new();
    let mut i: usize = 0;
    assert(all.take(0) =~= Seq::<Seq<char>>::empty());
    assert(heads@.map_values(|h: HeadInfo| head_info_view(h)) =~= Seq::<(Seq<char>, Seq<char>, u16, Seq<char>)>::empty());
    assert(crate::named::map_entries(profiles@, |v: Vec<String>| strings_view(v@)) =~= Seq::<(Seq<char>, Seq<Seq<char>>)>::empty());
    while i < ids.len()
        invariant
            i <= ids.len(),
            all == strings_view(ids@),
            heads@.map_values(|h: HeadInfo| head_info_view(h)) == head_infos(all.take(i as int), fixtures@),
            crate::named::map_entries(profiles@, |v: Vec<String>| strings_view(v@)) == profile_channels(all.take(i as int), fixtures@),
        decreases ids.len() - i,
    {
        let ghost t = all.take(i + 1);
        assert(t.drop_last() =~= all.take(i as int));
        assert(t.last() == ids@[i as int]@);
        let id = &ids[i];
        match fixtures.get(id.as_str()) {
            Some(f) => {
                let ghost before = heads@.map_values(|h: HeadInfo| head_info_view(h));
                let h = HeadInfo { id: id.clone(), name: f.name.clone(), address: f.address, profile: f.profile.name.clone() };
                let ghost hv = head_info_view(h);
                heads.push(h);
                assert(heads@.map_values(|h: HeadInfo| head_info_view(h)) =~= before.push(hv));
                proof {
                    crate::named::lemma_key_index_map_entries(profiles@, |v: Vec<String>| strings_view(v@), f.profile.name@);
                }
                if profiles.get(f.profile.name.as_str()).is_none() {
                    let channels = if f.mode_index < f.profile.modes.len() {
                        copy_strings(&f.profile.modes[f.mode_index].channels)
                    } else {
                        Vec::new()
                    };
                    assert(strings_view(channels@) == mode_channels(*f.profile, f.mode_index));
                    let ghost pb = profiles@;
                    let ghost cv = channels;
                    profiles.insert(f.profile.name.clone(), channels);
                    proof {
                        crate::named::lemma_insert_map_entries(pb, |v: Vec<String>| strings_view(v@), f.profile.name@, cv);
                    }
                }
            },
            None => {},
        }
        i = i + 1;
    }
    assert(all.take(i as int) =~= all);
    (heads, profiles)
}

} // verus!

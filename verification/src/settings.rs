//! Key/value settings: line-oriented parsing of `key = value` configuration
//! text, a small association map with unique keys, and category filtering.
use vstd::prelude::*;
use vstd::pervasive::VecAdditionalExecFns;

use vstd::slice::slice_to_vec;
use vstd::utf8::encode_utf8;

use crate::is_ws;
use crate::text::{
    bytes_eq, contains_byte, contains_seq, contains_sub, find_byte, first_ix, lemma_first_ix,
    lemma_trim_keeps_absence, lemma_trim_pad_left, lemma_trim_pad_right, lemma_trim_props,
    lines_view, spec_trim, split_lines, split_into_lines, subvec, to_ascii_lower, to_lower, trim,
    trimmed,
};

verus! {

/// One setting: a key and its raw value.
#[derive(Debug)]
pub struct Setting {
    pub key: Vec<u8>,
    pub value: Vec<u8>,
}

impl View for Setting {
    type V = (Seq<u8>, Seq<u8>);

    open spec fn view(&self) -> (Seq<u8>, Seq<u8>) {
        (self.key@, self.value@)
    }
}

/// A mapping from setting names to raw values, with unique keys.
#[derive(Debug)]
pub struct SettingsMap {
    pub entries: Vec<Setting>,
}

impl View for SettingsMap {
    type V = Seq<(Seq<u8>, Seq<u8>)>;

    open spec fn view(&self) -> Seq<(Seq<u8>, Seq<u8>)> {
        self.entries@.map_values(|e: Setting| e@)
    }
}

/// True when some entry of `m` has key `k`.
pub open spec fn has_key(m: Seq<(Seq<u8>, Seq<u8>)>, k: Seq<u8>) -> bool {
    exists|i: int| 0 <= i < m.len() && (#[trigger] m[i]).0 == k
}

/// True when the keys of `m` are pairwise distinct.
pub open spec fn wf_entries(m: Seq<(Seq<u8>, Seq<u8>)>) -> bool {
    forall|i: int, j: int| 0 <= i < j < m.len() ==> (#[trigger] m[i]).0 != (#[trigger] m[j]).0
}

/// The value stored under `k`, if any.
pub open spec fn lookup(m: Seq<(Seq<u8>, Seq<u8>)>, k: Seq<u8>) -> Option<Seq<u8>>
    decreases m.len(),
{
    if m.len() == 0 {
        None
    } else if m[0].0 == k {
        Some(m[0].1)
    } else {
        lookup(m.drop_first(), k)
    }
}

/// Replaces the value of the first entry with key `k`, or appends a new
/// entry when `k` is absent.
pub open spec fn insert_entry(
    m: Seq<(Seq<u8>, Seq<u8>)>,
    k: Seq<u8>,
    v: Seq<u8>,
) -> Seq<(Seq<u8>, Seq<u8>)>
    decreases m.len(),
{
    if m.len() == 0 {
        seq![(k, v)]
    } else if m[0].0 == k {
        seq![(k, v)] + m.drop_first()
    } else {
        seq![m[0]] + insert_entry(m.drop_first(), k, v)
    }
}

/// What one configuration line contributes: the first `=` splits it into a
/// trimmed key and a trimmed value; a line without `=` contributes nothing.
pub open spec fn parse_line(line: Seq<u8>) -> Option<(Seq<u8>, Seq<u8>)> {
    let i = first_ix(line, 61);
    if i < line.len() {
        Some((spec_trim(line.take(i)), spec_trim(line.skip(i + 1))))
    } else {
        None
    }
}

/// The map built by inserting each line's contribution in order; on a
/// repeated key the last occurrence wins.
pub open spec fn parse_lines(lines: Seq<Seq<u8>>) -> Seq<(Seq<u8>, Seq<u8>)>
    decreases lines.len(),
{
    if lines.len() == 0 {
        Seq::empty()
    } else {
        let m = parse_lines(lines.drop_last());
        match parse_line(lines.last()) {
            Some(kv) => insert_entry(m, kv.0, kv.1),
            None => m,
        }
    }
}

/// True when the lower-cased key contains some category as a substring.
pub open spec fn key_matches(k: Seq<u8>, cats: Seq<Seq<u8>>) -> bool {
    exists|i: int| 0 <= i < cats.len() && contains_seq(to_lower(k), #[trigger] cats[i])
}

/// The entries of `m` whose keys match one of the categories.
pub open spec fn filter_entries(
    m: Seq<(Seq<u8>, Seq<u8>)>,
    cats: Seq<Seq<u8>>,
) -> Seq<(Seq<u8>, Seq<u8>)> {
    m.filter(|p: (Seq<u8>, Seq<u8>)| key_matches(p.0, cats))
}

/// The position of the first entry with key `k`.
pub proof fn find_first_key(m: Seq<(Seq<u8>, Seq<u8>)>, k: Seq<u8>) -> (j: int)
    requires
        has_key(m, k),
    ensures
        0 <= j < m.len(),
        m[j].0 == k,
        forall|t: int| 0 <= t < j ==> (#[trigger] m[t]).0 != k,
    decreases m.len(),
{
    if m[0].0 == k {
        0
    } else {
        assert(has_key(m.drop_first(), k)) by {
            let i = choose|i: int| 0 <= i < m.len() && (#[trigger] m[i]).0 == k;
            assert(m.drop_first()[i - 1].0 == k);
        }
        let j = find_first_key(m.drop_first(), k) + 1;
        assert forall|t: int| 0 <= t < j implies (#[trigger] m[t]).0 != k by {
            if t > 0 {
                assert(m.drop_first()[t - 1] == m[t]);
            }
        }
        j
    }
}

/// How `insert_entry` changes membership and well-formedness.
pub proof fn lemma_insert_entry(m: Seq<(Seq<u8>, Seq<u8>)>, k: Seq<u8>, v: Seq<u8>)
    ensures
        wf_entries(m) ==> wf_entries(insert_entry(m, k, v)),
        forall|q: Seq<u8>| has_key(insert_entry(m, k, v), q) <==> (q == k || has_key(m, q)),
{
    let out = insert_entry(m, k, v);
    if has_key(m, k) {
        let j = find_first_key(m, k);
        lemma_insert_at_index(m, k, v, j);
        assert(out == m.update(j, (k, v)));
        assert forall|q: Seq<u8>| has_key(out, q) <==> (q == k || has_key(m, q)) by {
            if has_key(out, q) {
                let i = choose|i: int| 0 <= i < out.len() && (#[trigger] out[i]).0 == q;
                if i != j {
                    assert(m[i].0 == q);
                }
            }
            if q == k {
                assert(out[j].0 == q);
            } else if has_key(m, q) {
                let i = choose|i: int| 0 <= i < m.len() && (#[trigger] m[i]).0 == q;
                assert(i != j);
                assert(out[i].0 == q);
            }
        }
        if wf_entries(m) {
            assert forall|a: int, b: int| 0 <= a < b < out.len() implies (#[trigger] out[a]).0 != (
            #[trigger] out[b]).0 by {
                assert(m[a].0 != m[b].0);
                assert(a == j ==> out[a].0 == m[a].0);
                assert(b == j ==> out[b].0 == m[b].0);
            }
        }
    } else {
        assert forall|t: int| 0 <= t < m.len() implies (#[trigger] m[t]).0 != k by {}
        lemma_insert_absent(m, k, v);
        assert(out == m.push((k, v)));
        assert forall|q: Seq<u8>| has_key(out, q) <==> (q == k || has_key(m, q)) by {
            if has_key(out, q) {
                let i = choose|i: int| 0 <= i < out.len() && (#[trigger] out[i]).0 == q;
                if i < m.len() {
                    assert(m[i].0 == q);
                }
            }
            if q == k {
                assert(out[m.len() as int].0 == q);
            } else if has_key(m, q) {
                let i = choose|i: int| 0 <= i < m.len() && (#[trigger] m[i]).0 == q;
                assert(out[i].0 == q);
            }
        }
        if wf_entries(m) {
            assert forall|a: int, b: int| 0 <= a < b < out.len() implies (#[trigger] out[a]).0 != (
            #[trigger] out[b]).0 by {
                if b < m.len() {
                    assert(m[a].0 != m[b].0);
                } else {
                    assert(out[b].0 == k);
                    assert(out[a].0 == m[a].0);
                }
            }
        }
    }
}

impl SettingsMap {
    /// Keys are pairwise distinct.
    pub open spec fn wf(&self) -> bool {
        wf_entries(self@)
    }

    /// An empty map.
    pub fn new() -> (r: SettingsMap)
        ensures
            r@ == Seq::<(Seq<u8>, Seq<u8>)>::empty(),
            r.wf(),
    {
        let r = SettingsMap { entries: Vec::new() };
        proof {
            assert(r@ =~~= Seq::<(Seq<u8>, Seq<u8>)>::empty());
        }
        r
    }

    /// Number of entries.
    pub fn len(&self) -> (r: usize)
        ensures
            r == self@.len(),
    {
        self.entries.len()
    }

    /// Inserts `key = value`: replaces the first entry with this key, or
    /// appends a new entry when the key is absent.
    pub fn insert(&mut self, key: Vec<u8>, value: Vec<u8>)
        ensures
            final(self)@ == insert_entry(old(self)@, key@, value@),
            old(self).wf() ==> final(self).wf(),
    {
        proof {
            lemma_insert_entry(old(self)@, key@, value@);
        }
        let mut i: usize = 0;
        while i < self.entries.len()
            invariant
                0 <= i <= self.entries@.len(),
                self == old(self),
                forall|t: int| 0 <= t < i ==> (#[trigger] self@[t]).0 != key@,
            decreases self.entries@.len() - i,
        {
            if bytes_eq(&self.entries[i].key, &key) {
                assert(self@[i as int].0 == key@);
                self.entries.set(i, Setting { key, value });
                proof {
                    lemma_insert_at_index(old(self)@, key@, value@, i as int);
                    assert(final(self)@ =~~= old(self)@.update(i as int, (key@, value@)));
                }
                return ;
            }
            i += 1;
        }
        self.entries.push(Setting { key, value });
        proof {
            lemma_insert_absent(old(self)@, key@, value@);
            assert(self@ =~~= old(self)@.push((key@, value@)));
        }
    }

    /// The value stored under `key`, if any.
    pub fn get<'a>(&'a self, key: &Vec<u8>) -> (r: Option<&'a Vec<u8>>)
        ensures
            match r {
                Some(v) => lookup(self@, key@) == Some(v@),
                None => lookup(self@, key@) is None,
            },
    {
        let mut i: usize = 0;
        proof {
            assert(self@.skip(0) =~~= self@);
        }
        while i < self.entries.len()
            invariant
                0 <= i <= self.entries@.len(),
                lookup(self@, key@) == lookup(self@.skip(i as int), key@),
            decreases self.entries@.len() - i,
        {
            proof {
                assert(self@.skip(i as int)[0] == self@[i as int]);
                assert(self@.skip(i as int).drop_first() =~~= self@.skip(i + 1));
            }
            if bytes_eq(&self.entries[i].key, key) {
                return Some(&self.entries[i].value);
            }
            i += 1;
        }
        proof {
            assert(self@.skip(self@.len() as int) =~~= Seq::<(Seq<u8>, Seq<u8>)>::empty());
        }
        None
    }
}

/// When `k` is absent, inserting appends.
proof fn lemma_insert_absent(m: Seq<(Seq<u8>, Seq<u8>)>, k: Seq<u8>, v: Seq<u8>)
    requires
        forall|t: int| 0 <= t < m.len() ==> (#[trigger] m[t]).0 != k,
    ensures
        insert_entry(m, k, v) == m.push((k, v)),
    decreases m.len(),
{
    if m.len() == 0 {
        assert(insert_entry(m, k, v) =~~= m.push((k, v)));
    } else {
        assert forall|t: int| 0 <= t < m.drop_first().len() implies (#[trigger] m.drop_first()[t]).0
            != k by {
            assert(m.drop_first()[t] == m[t + 1]);
        }
        lemma_insert_absent(m.drop_first(), k, v);
        assert(insert_entry(m, k, v) =~~= m.push((k, v)));
    }
}

/// When the first entry with key `k` stands at `j`, inserting updates `j`.
proof fn lemma_insert_at_index(m: Seq<(Seq<u8>, Seq<u8>)>, k: Seq<u8>, v: Seq<u8>, j: int)
    requires
        0 <= j < m.len(),
        m[j].0 == k,
        forall|t: int| 0 <= t < j ==> (#[trigger] m[t]).0 != k,
    ensures
        insert_entry(m, k, v) == m.update(j, (k, v)),
    decreases m.len(),
{
    if j == 0 {
        assert(insert_entry(m, k, v) =~~= m.update(0, (k, v)));
    } else {
        assert forall|t: int| 0 <= t < j - 1 implies (#[trigger] m.drop_first()[t]).0 != k by {
            assert(m.drop_first()[t] == m[t + 1]);
        }
        assert(m.drop_first()[j - 1] == m[j]);
        lemma_insert_at_index(m.drop_first(), k, v, j - 1);
        assert(insert_entry(m, k, v) =~~= m.update(j, (k, v)));
    }
}

/// Parses configuration lines into a settings map: each line is split on
/// its first `=`, both sides are trimmed, and the last occurrence of a
/// repeated key wins. Lines without `=` are skipped.
pub fn parse_settings_lines(lines: &Vec<Vec<u8>>) -> (m: SettingsMap)
    ensures
        m@ == parse_lines(lines_view(lines@)),
        m.wf(),
{
    let mut m = SettingsMap::new();
    let mut i: usize = 0;
    proof {
        assert(lines_view(lines@).take(0) =~~= Seq::<Seq<u8>>::empty());
    }
    while i < lines.len()
        invariant
            0 <= i <= lines@.len(),
            m@ == parse_lines(lines_view(lines@).take(i as int)),
            m.wf(),
        decreases lines@.len() - i,
    {
        let ghost lv = lines_view(lines@);
        let line = &lines[i];
        match find_byte(line, 61) {
            Some(p) => {
                let ll: usize = line.len();
                assert(p < ll);
                let key = trim(&subvec(line, 0, p));
                let value = trim(&subvec(line, p + 1, ll));
                proof {
                    assert(line@.subrange(0, p as int) =~~= line@.take(p as int));
                    assert(line@.subrange(p + 1, line@.len() as int) =~~= line@.skip(p + 1));
                }
                m.insert(key, value);
            },
            None => {},
        }
        proof {
            assert(lv.take(i + 1).drop_last() =~~= lv.take(i as int));
            assert(lv.take(i + 1).last() == lv[i as int]);
        }
        i += 1;
    }
    proof {
        assert(lines_view(lines@).take(lines@.len() as int) =~~= lines_view(lines@));
    }
    m
}

/// Parses whole configuration text, as read from a configuration file.
pub fn parse_cod_settings(content: &Vec<u8>) -> (m: SettingsMap)
    ensures
        m@ == parse_lines(split_lines(content@)),
        m.wf(),
{
    let lines = split_into_lines(content);
    parse_settings_lines(&lines)
}

/// Copies a byte string.
pub fn clone_bytes(v: &Vec<u8>) -> (r: Vec<u8>)
    ensures
        r@ == v@,
{
    let mut r: Vec<u8> = Vec::new();
    let mut i: usize = 0;
    while i < v.len()
        invariant
            0 <= i <= v@.len(),
            r@ == v@.take(i as int),
        decreases v@.len() - i,
    {
        proof {
            assert(v@.take(i as int).push(v@[i as int]) =~~= v@.take(i + 1));
        }
        r.push(v[i]);
        i += 1;
    }
    proof {
        assert(v@.take(v@.len() as int) =~~= v@);
    }
    r
}

/// True when the lower-cased key contains some category as a substring.
pub fn key_matches_categories(key: &Vec<u8>, cats: &Vec<Vec<u8>>) -> (r: bool)
    ensures
        r == key_matches(key@, lines_view(cats@)),
{
    let lower = to_ascii_lower(key);
    let mut i: usize = 0;
    while i < cats.len()
        invariant
            0 <= i <= cats@.len(),
            lower@ == to_lower(key@),
            forall|t: int| 0 <= t < i ==> !contains_seq(to_lower(key@), lines_view(cats@)[t]),
        decreases cats@.len() - i,
    {
        if contains_sub(&lower, &cats[i]) {
            assert(lines_view(cats@)[i as int] == cats@[i as int]@);
            return true;
        }
        i += 1;
    }
    false
}

/// Keeps exactly the settings whose lower-cased key contains one of the
/// category tokens as a substring.
pub fn filter_settings(m: &SettingsMap, cats: &Vec<Vec<u8>>) -> (r: SettingsMap)
    ensures
        r@ == filter_entries(m@, lines_view(cats@)),
        m.wf() ==> r.wf(),
{
    let ghost pred = |p: (Seq<u8>, Seq<u8>)| key_matches(p.0, lines_view(cats@));
    let mut out: Vec<Setting> = Vec::new();
    let mut i: usize = 0;
    proof {
        reveal(Seq::filter);
        assert(m@.take(0) =~~= Seq::<(Seq<u8>, Seq<u8>)>::empty());
        assert(out@.map_values(|e: Setting| e@) =~~= m@.take(0).filter(pred));
    }
    while i < m.entries.len()
        invariant
            0 <= i <= m.entries@.len(),
            out@.map_values(|e: Setting| e@) == m@.take(i as int).filter(pred),
            pred == (|p: (Seq<u8>, Seq<u8>)| key_matches(p.0, lines_view(cats@))),
        decreases m.entries@.len() - i,
    {
        let e = &m.entries[i];
        proof {
            reveal(Seq::filter);
            assert(m@.take(i + 1).drop_last() =~~= m@.take(i as int));
            assert(m@.take(i + 1).last() == m@[i as int]);
        }
        if key_matches_categories(&e.key, cats) {
            let copy = Setting { key: clone_bytes(&e.key), value: clone_bytes(&e.value) };
            assert(copy@ == m@[i as int]);
            out.push(copy);
            proof {
                assert(out@.map_values(|e: Setting| e@) =~~= out@.drop_last().map_values(
                    |e: Setting| e@,
                ).push(m@[i as int]));
            }
        }
        i += 1;
    }
    proof {
        assert(m@.take(m@.len() as int) =~~= m@);
    }
    let r = SettingsMap { entries: out };
    proof {
        if m.wf() {
            lemma_filter_entries_wf(m@, lines_view(cats@));
        }
    }
    r
}

/// Filtering keeps keys distinct.
pub proof fn lemma_filter_entries_wf(m: Seq<(Seq<u8>, Seq<u8>)>, cats: Seq<Seq<u8>>)
    requires
        wf_entries(m),
    ensures
        wf_entries(filter_entries(m, cats)),
    decreases m.len(),
{
    reveal(Seq::filter);
    let pred = |p: (Seq<u8>, Seq<u8>)| key_matches(p.0, cats);
    if m.len() == 0 {
    } else {
        assert(wf_entries(m.drop_last())) by {
            assert forall|i: int, j: int| 0 <= i < j < m.drop_last().len() implies (
            #[trigger] m.drop_last()[i]).0 != (#[trigger] m.drop_last()[j]).0 by {
                assert(m.drop_last()[i] == m[i]);
                assert(m.drop_last()[j] == m[j]);
            }
        }
        lemma_filter_entries_wf(m.drop_last(), cats);
        let sub = m.drop_last().filter(pred);
        if pred(m.last()) {
            let out = sub.push(m.last());
            assert forall|i: int, j: int| 0 <= i < j < out.len() implies (#[trigger] out[i]).0 != (
            #[trigger] out[j]).0 by {
                if j == out.len() - 1 {
                    m.drop_last().lemma_filter_pred(pred, i);
                    lemma_filter_member_key(m.drop_last(), cats, i);
                }
            }
        }
    }
}

/// Every key of the filtered entries is a key of the source entries.
proof fn lemma_filter_member_key(m: Seq<(Seq<u8>, Seq<u8>)>, cats: Seq<Seq<u8>>, i: int)
    requires
        0 <= i < filter_entries(m, cats).len(),
    ensures
        has_key(m, filter_entries(m, cats)[i].0),
    decreases m.len(),
{
    reveal(Seq::filter);
    let pred = |p: (Seq<u8>, Seq<u8>)| key_matches(p.0, cats);
    let out = m.filter(pred);
    if m.len() == 0 {
    } else {
        let sub = m.drop_last().filter(pred);
        if i < sub.len() {
            lemma_filter_member_key(m.drop_last(), cats, i);
            let j = choose|j: int|
                0 <= j < m.drop_last().len() && (#[trigger] m.drop_last()[j]).0 == sub[i].0;
            assert(m[j].0 == out[i].0);
        } else {
            assert(out[i] == m.last());
            assert(m[m.len() - 1].0 == out[i].0);
        }
    }
}

/// The configured category tokens settings are matched against.
pub open spec fn default_categories_view() -> Seq<Seq<u8>> {
    seq![
        encode_utf8("mouse"@),
        encode_utf8("fov"@),
        encode_utf8("brightness"@),
        encode_utf8("hdr"@),
        encode_utf8("adssensitivity"@),
        encode_utf8("gamepad"@),
        encode_utf8("sprint"@),
    ]
}

/// The configured category tokens, as bytes.
pub fn default_categories() -> (r: Vec<Vec<u8>>)
    ensures
        lines_view(r@) == default_categories_view(),
{
    let mut r: Vec<Vec<u8>> = Vec::new();
    r.push(slice_to_vec("mouse".as_bytes()));
    r.push(slice_to_vec("fov".as_bytes()));
    r.push(slice_to_vec("brightness".as_bytes()));
    r.push(slice_to_vec("hdr".as_bytes()));
    r.push(slice_to_vec("adssensitivity".as_bytes()));
    r.push(slice_to_vec("gamepad".as_bytes()));
    r.push(slice_to_vec("sprint".as_bytes()));
    proof {
        assert(lines_view(r@) =~~= default_categories_view());
    }
    r
}

/// The filter law: every key of the filtered entries matches a category
/// and occurs verbatim among the source entries; every source key that
/// matches no category is absent from the filtered entries; and every
/// source entry whose key matches is kept, key and value verbatim.
pub proof fn lemma_filter_characterizes(m: Seq<(Seq<u8>, Seq<u8>)>, cats: Seq<Seq<u8>>)
    ensures
        forall|i: int|
            0 <= i < filter_entries(m, cats).len() ==> key_matches(
                (#[trigger] filter_entries(m, cats)[i]).0,
                cats,
            ) && has_key(m, filter_entries(m, cats)[i].0),
        forall|i: int|
            0 <= i < m.len() && !key_matches((#[trigger] m[i]).0, cats) ==> !has_key(
                filter_entries(m, cats),
                m[i].0,
            ),
        forall|i: int|
            0 <= i < m.len() && key_matches((#[trigger] m[i]).0, cats) ==> filter_entries(
                m,
                cats,
            ).contains(m[i]),
{
    let pred = |p: (Seq<u8>, Seq<u8>)| key_matches(p.0, cats);
    let out = filter_entries(m, cats);
    assert forall|i: int| 0 <= i < out.len() implies key_matches(
        (#[trigger] out[i]).0,
        cats,
    ) && has_key(m, out[i].0) by {
        m.lemma_filter_pred(pred, i);
        lemma_filter_member_key(m, cats, i);
    }
    assert forall|i: int| 0 <= i < m.len() && !key_matches((#[trigger] m[i]).0, cats) implies
        !has_key(out, m[i].0) by {
        if has_key(out, m[i].0) {
            let j = choose|j: int| 0 <= j < out.len() && (#[trigger] out[j]).0 == m[i].0;
            m.lemma_filter_pred(pred, j);
        }
    }
    assert forall|i: int| 0 <= i < m.len() && key_matches((#[trigger] m[i]).0, cats) implies
        out.contains(m[i]) by {
        m.lemma_filter_contains(pred, i);
    }
}

/// True when a line holds exactly one `=` byte.
pub open spec fn exactly_one_eq(line: Seq<u8>) -> bool {
    contains_byte(line, 61) && forall|a: int, b: int|
        0 <= a < b < line.len() && #[trigger] line[a] == 61 ==> #[trigger] line[b] != 61
}

/// An entry as parsing produces it: both sides trimmed and free of `=`.
pub open spec fn entry_clean(p: (Seq<u8>, Seq<u8>)) -> bool {
    trimmed(p.0) && trimmed(p.1) && !contains_byte(p.0, 61) && !contains_byte(p.1, 61)
}

/// Inserting a clean entry keeps all entries clean.
proof fn lemma_insert_keeps_clean(m: Seq<(Seq<u8>, Seq<u8>)>, k: Seq<u8>, v: Seq<u8>)
    requires
        forall|i: int| 0 <= i < m.len() ==> entry_clean(#[trigger] m[i]),
        entry_clean((k, v)),
    ensures
        forall|i: int|
            0 <= i < insert_entry(m, k, v).len() ==> entry_clean(#[trigger] insert_entry(m, k, v)[i]),
    decreases m.len(),
{
    let out = insert_entry(m, k, v);
    if m.len() == 0 {
        assert(out[0] == (k, v));
    } else if m[0].0 == k {
        assert forall|i: int| 0 <= i < out.len() implies entry_clean(#[trigger] out[i]) by {
            if i == 0 {
                assert(out[0] == (k, v));
            } else {
                assert(out[i] == m[i]);
            }
        }
    } else {
        assert forall|i: int| 0 <= i < m.drop_first().len() implies entry_clean(
            #[trigger] m.drop_first()[i],
        ) by {
            assert(m.drop_first()[i] == m[i + 1]);
        }
        lemma_insert_keeps_clean(m.drop_first(), k, v);
        let sub = insert_entry(m.drop_first(), k, v);
        assert forall|i: int| 0 <= i < out.len() implies entry_clean(#[trigger] out[i]) by {
            if i == 0 {
                assert(out[0] == m[0]);
            } else {
                assert(out[i] == sub[i - 1]);
            }
        }
    }
}

/// What parsing one line with exactly one `=` contributes is clean.
proof fn lemma_parse_line_clean(line: Seq<u8>)
    requires
        line.len() > 0 ==> exactly_one_eq(line),
    ensures
        line.len() > 0 ==> parse_line(line) is Some && entry_clean(parse_line(line)->Some_0),
        line.len() == 0 ==> parse_line(line) is None,
{
    if line.len() > 0 {
        lemma_first_ix(line, 61);
        let i = first_ix(line, 61);
        let left = line.take(i);
        let right = line.skip(i + 1);
        assert(!contains_byte(left, 61)) by {
            if contains_byte(left, 61) {
                let t = choose|t: int| 0 <= t < left.len() && left[t] == 61;
                assert(line[t] == 61);
            }
        }
        assert(!contains_byte(right, 61)) by {
            if contains_byte(right, 61) {
                let t = choose|t: int| 0 <= t < right.len() && right[t] == 61;
                assert(line[i + 1 + t] == 61);
                assert(line[i] == 61);
            }
        }
        lemma_trim_props(left);
        lemma_trim_props(right);
        lemma_trim_keeps_absence(left, 61);
        lemma_trim_keeps_absence(right, 61);
    }
}

/// Parsing keeps every entry clean.
proof fn lemma_parse_lines_clean(lines: Seq<Seq<u8>>)
    requires
        forall|i: int| 0 <= i < lines.len() && lines[i].len() > 0 ==> exactly_one_eq(
            #[trigger] lines[i],
        ),
    ensures
        forall|i: int|
            0 <= i < parse_lines(lines).len() ==> entry_clean(#[trigger] parse_lines(lines)[i]),
    decreases lines.len(),
{
    if lines.len() > 0 {
        assert forall|i: int|
            0 <= i < lines.drop_last().len() && lines.drop_last()[i].len() > 0 implies
            exactly_one_eq(#[trigger] lines.drop_last()[i]) by {
            assert(lines.drop_last()[i] == lines[i]);
        }
        lemma_parse_lines_clean(lines.drop_last());
        assert(lines.last() == lines[lines.len() - 1]);
        lemma_parse_line_clean(lines.last());
        match parse_line(lines.last()) {
            Some(kv) => {
                lemma_insert_keeps_clean(parse_lines(lines.drop_last()), kv.0, kv.1);
            },
            None => {},
        }
    }
}

/// Parsing always yields distinct keys.
pub proof fn lemma_parse_lines_wf(lines: Seq<Seq<u8>>)
    ensures
        wf_entries(parse_lines(lines)),
    decreases lines.len(),
{
    if lines.len() > 0 {
        lemma_parse_lines_wf(lines.drop_last());
        match parse_line(lines.last()) {
            Some(kv) => {
                lemma_insert_entry(parse_lines(lines.drop_last()), kv.0, kv.1);
            },
            None => {},
        }
    }
}

/// The canonical line of a clean entry parses back to that entry.
proof fn lemma_parse_canonical(k: Seq<u8>, v: Seq<u8>)
    requires
        entry_clean((k, v)),
    ensures
        parse_line(crate::merge::canonical_line(k, v)) == Some((k, v)),
{
    let c = crate::merge::canonical_line(k, v);
    lemma_first_ix(c, 61);
    assert(c[k.len() as int + 1] == 61);
    assert(first_ix(c, 61) == k.len() + 1) by {
        let f = first_ix(c, 61);
        if f < k.len() + 1 {
            assert(c[f] == 61);
            if f < k.len() {
                assert(c[f] == k[f]);
            } else {
                assert(c[k.len() as int] == 32);
            }
        }
        if f > k.len() + 1 {
            assert(c[k.len() as int + 1] != 61);
        }
    }
    assert(c.take(k.len() as int + 1) =~~= k + seq![32u8]);
    assert(c.skip(k.len() as int + 2) =~~= seq![32u8] + v);
    lemma_trim_pad_right(k);
    lemma_trim_pad_left(v);
}

/// The lines rebuilt from a settings map, one canonical line per entry.
pub open spec fn reconstruct_lines(m: Seq<(Seq<u8>, Seq<u8>)>) -> Seq<Seq<u8>> {
    m.map_values(|p: (Seq<u8>, Seq<u8>)| crate::merge::canonical_line(p.0, p.1))
}

/// Re-parsing the reconstruction of a clean, well-formed map gives the map
/// back.
proof fn lemma_reconstruct_roundtrip(m: Seq<(Seq<u8>, Seq<u8>)>)
    requires
        wf_entries(m),
        forall|i: int| 0 <= i < m.len() ==> entry_clean(#[trigger] m[i]),
    ensures
        parse_lines(reconstruct_lines(m)) == m,
    decreases m.len(),
{
    if m.len() == 0 {
        assert(parse_lines(reconstruct_lines(m)) =~~= m);
    } else {
        let rl = reconstruct_lines(m);
        assert(rl.drop_last() =~~= reconstruct_lines(m.drop_last()));
        assert(wf_entries(m.drop_last())) by {
            assert forall|i: int, j: int| 0 <= i < j < m.drop_last().len() implies (
            #[trigger] m.drop_last()[i]).0 != (#[trigger] m.drop_last()[j]).0 by {
                assert(m.drop_last()[i] == m[i]);
                assert(m.drop_last()[j] == m[j]);
            }
        }
        assert forall|i: int| 0 <= i < m.drop_last().len() implies entry_clean(
            #[trigger] m.drop_last()[i],
        ) by {
            assert(m.drop_last()[i] == m[i]);
        }
        lemma_reconstruct_roundtrip(m.drop_last());
        assert(rl.last() == crate::merge::canonical_line(m.last().0, m.last().1));
        lemma_parse_canonical(m.last().0, m.last().1);
        assert(parse_line(rl.last()) == Some((m.last().0, m.last().1)));
        assert forall|t: int| 0 <= t < m.drop_last().len() implies (
        #[trigger] m.drop_last()[t]).0 != m.last().0 by {
            assert(m.drop_last()[t] == m[t]);
            assert(m[t].0 != m[m.len() - 1].0);
        }
        lemma_insert_absent(m.drop_last(), m.last().0, m.last().1);
        assert(parse_lines(rl) =~~= m.drop_last().push((m.last().0, m.last().1)));
        assert(m.drop_last().push((m.last().0, m.last().1)) =~~= m);
    }
}

/// The parse law: over text whose non-empty lines each hold exactly one
/// `=`, rebuilding a canonical `key = value` line for every parsed entry
/// and parsing again reproduces the parsed map exactly, keys and values
/// alike.
pub proof fn lemma_parse_reconstruct(lines: Seq<Seq<u8>>)
    requires
        forall|i: int| 0 <= i < lines.len() && lines[i].len() > 0 ==> exactly_one_eq(
            #[trigger] lines[i],
        ),
    ensures
        parse_lines(reconstruct_lines(parse_lines(lines))) == parse_lines(lines),
{
    lemma_parse_lines_clean(lines);
    lemma_parse_lines_wf(lines);
    lemma_reconstruct_roundtrip(parse_lines(lines));
}

} // verus!

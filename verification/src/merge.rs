//! In-place merge of imported settings into configuration text. For each
//! imported key the first line that, after leading whitespace, starts with
//! the key and contains an `=` is replaced wholesale by the canonical
//! `key = value` form; when no line matches, a new line is appended. The
//! match is deliberately a prefix test, as the file format has always used:
//! a key that is a prefix of a longer key can capture the longer key's line.
use vstd::prelude::*;
use vstd::pervasive::VecAdditionalExecFns;

use crate::is_ws;
use crate::settings::{clone_bytes, SettingsMap};
use crate::text::{
    contains_byte, find_byte, is_prefix, is_ws_byte, join_into_text, join_lines, lead_ws,
    lemma_lead_ws, lines_view, split_into_lines, split_lines, trim_start,
};

verus! {

/// True when a line is taken as holding `key`: after leading whitespace it
/// starts with the key's bytes, and it contains an `=` somewhere.
pub open spec fn line_matches(line: Seq<u8>, key: Seq<u8>) -> bool {
    is_prefix(key, trim_start(line)) && contains_byte(line, 61)
}

/// The canonical form a merged line is rewritten to: `key = value`.
pub open spec fn canonical_line(k: Seq<u8>, v: Seq<u8>) -> Seq<u8> {
    k + seq![32u8, 61u8, 32u8] + v
}

/// Merging one key: the first matching line is replaced by the canonical
/// line; with no match the canonical line is appended.
pub open spec fn merge_one(lines: Seq<Seq<u8>>, k: Seq<u8>, v: Seq<u8>) -> Seq<Seq<u8>>
    decreases lines.len(),
{
    if lines.len() == 0 {
        seq![canonical_line(k, v)]
    } else if line_matches(lines[0], k) {
        seq![canonical_line(k, v)] + lines.drop_first()
    } else {
        seq![lines[0]] + merge_one(lines.drop_first(), k, v)
    }
}

/// Merging a whole section, key by key in order.
pub open spec fn merge_entries(
    lines: Seq<Seq<u8>>,
    es: Seq<(Seq<u8>, Seq<u8>)>,
) -> Seq<Seq<u8>>
    decreases es.len(),
{
    if es.len() == 0 {
        lines
    } else {
        merge_entries(merge_one(lines, es[0].0, es[0].1), es.drop_first())
    }
}

/// A key in canonical position: it does not begin with whitespace.
pub open spec fn key_ok(k: Seq<u8>) -> bool {
    k.len() > 0 ==> !is_ws(k[0])
}

/// No key of `es` is a prefix of a different entry's key.
pub open spec fn entries_prefix_free(es: Seq<(Seq<u8>, Seq<u8>)>) -> bool {
    forall|i: int, j: int|
        0 <= i < es.len() && 0 <= j < es.len() && i != j ==> !is_prefix(
            (#[trigger] es[i]).0,
            (#[trigger] es[j]).0,
        )
}

/// Every key of `es` is in canonical position.
pub open spec fn entries_keys_ok(es: Seq<(Seq<u8>, Seq<u8>)>) -> bool {
    forall|i: int| 0 <= i < es.len() ==> key_ok((#[trigger] es[i]).0)
}

/// True when the canonical line for `(k, v)` stands at `j`, no earlier line
/// matches `k`, and that line itself matches `k`.
pub open spec fn settled_at(L: Seq<Seq<u8>>, k: Seq<u8>, v: Seq<u8>, j: int) -> bool {
    &&& 0 <= j < L.len()
    &&& L[j] == canonical_line(k, v)
    &&& line_matches(L[j], k)
    &&& forall|t: int| 0 <= t < j ==> !line_matches(#[trigger] L[t], k)
}

/// A canonical line matches its own key.
pub proof fn lemma_canonical_self_match(k: Seq<u8>, v: Seq<u8>)
    requires
        key_ok(k),
    ensures
        line_matches(canonical_line(k, v), k),
{
    let c = canonical_line(k, v);
    assert(c[k.len() as int + 1] == 61);
    assert(contains_byte(c, 61));
    if k.len() == 0 {
        assert(is_ws(c[0]));
        assert(c.drop_first() =~~= seq![61u8, 32u8] + v);
        assert(!is_ws(c.drop_first()[0]));
        assert(lead_ws(c.drop_first()) == 0);
        assert(lead_ws(c) == 1);
        assert(k =~~= trim_start(c).subrange(0, 0));
    } else {
        assert(c[0] == k[0]);
        assert(lead_ws(c) == 0);
        assert(trim_start(c) =~~= c);
        assert(k =~~= c.subrange(0, k.len() as int));
    }
}

/// A canonical line for one key never matches a different, prefix-free key.
pub proof fn lemma_canonical_cross_no_match(
    k: Seq<u8>,
    k2: Seq<u8>,
    v2: Seq<u8>,
)
    requires
        key_ok(k2),
        k != k2,
        !is_prefix(k, k2),
        !is_prefix(k2, k),
    ensures
        !line_matches(canonical_line(k2, v2), k),
{
    let c = canonical_line(k2, v2);
    if k2.len() == 0 {
        assert(is_prefix(k2, k)) by {
            assert(k2 =~~= k.subrange(0, 0));
        }
    } else {
        assert(c[0] == k2[0]);
        assert(lead_ws(c) == 0);
        assert(trim_start(c) =~~= c);
        if line_matches(c, k) {
            if k.len() <= k2.len() {
                assert(is_prefix(k, k2)) by {
                    assert(k =~~= c.subrange(0, k.len() as int));
                    assert(c.subrange(0, k.len() as int) =~~= k2.subrange(0, k.len() as int));
                }
            } else {
                assert(is_prefix(k2, k)) by {
                    assert(k =~~= c.subrange(0, k.len() as int));
                    assert(k2 =~~= k.subrange(0, k2.len() as int));
                }
            }
        }
    }
}

/// When the first matching line stands at `j`, merging updates `j`.
proof fn lemma_merge_at_index(L: Seq<Seq<u8>>, k: Seq<u8>, v: Seq<u8>, j: int)
    requires
        0 <= j < L.len(),
        line_matches(L[j], k),
        forall|t: int| 0 <= t < j ==> !line_matches(#[trigger] L[t], k),
    ensures
        merge_one(L, k, v) == L.update(j, canonical_line(k, v)),
    decreases L.len(),
{
    if j == 0 {
        assert(merge_one(L, k, v) =~~= L.update(0, canonical_line(k, v)));
    } else {
        assert forall|t: int| 0 <= t < j - 1 implies !line_matches(
            #[trigger] L.drop_first()[t],
            k,
        ) by {
            assert(L.drop_first()[t] == L[t + 1]);
        }
        assert(L.drop_first()[j - 1] == L[j]);
        lemma_merge_at_index(L.drop_first(), k, v, j - 1);
        assert(merge_one(L, k, v) =~~= L.update(j, canonical_line(k, v)));
    }
}

/// When no line matches, merging appends the canonical line and leaves
/// every existing line unchanged. This is the missing-key law: importing a
/// key absent from the file adds exactly one `key = value` line at the end.
pub proof fn lemma_missing_key_appends(L: Seq<Seq<u8>>, k: Seq<u8>, v: Seq<u8>)
    requires
        forall|t: int| 0 <= t < L.len() ==> !line_matches(#[trigger] L[t], k),
    ensures
        merge_one(L, k, v) == L.push(canonical_line(k, v)),
    decreases L.len(),
{
    if L.len() == 0 {
        assert(merge_one(L, k, v) =~~= L.push(canonical_line(k, v)));
    } else {
        assert forall|t: int| 0 <= t < L.drop_first().len() implies !line_matches(
            #[trigger] L.drop_first()[t],
            k,
        ) by {
            assert(L.drop_first()[t] == L[t + 1]);
        }
        lemma_missing_key_appends(L.drop_first(), k, v);
        assert(merge_one(L, k, v) =~~= L.push(canonical_line(k, v)));
    }
}

/// The missing-key law for a whole section: when no key of the section
/// matches any line of the file, and the keys are prefix-free and in
/// canonical position, merging appends exactly one canonical line per
/// key, in section order, and alters no existing line.
pub proof fn lemma_absent_section_appends_in_order(
    L: Seq<Seq<u8>>,
    es: Seq<(Seq<u8>, Seq<u8>)>,
)
    requires
        forall|t: int, i: int|
            0 <= t < es.len() && 0 <= i < L.len() ==> !line_matches(
                #[trigger] L[i],
                (#[trigger] es[t]).0,
            ),
        entries_prefix_free(es),
        entries_keys_ok(es),
    ensures
        merge_entries(L, es) == L + es.map_values(
            |p: (Seq<u8>, Seq<u8>)| canonical_line(p.0, p.1),
        ),
    decreases es.len(),
{
    let canon = |p: (Seq<u8>, Seq<u8>)| canonical_line(p.0, p.1);
    if es.len() == 0 {
        assert(merge_entries(L, es) =~~= L + es.map_values(canon));
    } else {
        let c0 = canonical_line(es[0].0, es[0].1);
        assert forall|i: int| 0 <= i < L.len() implies !line_matches(#[trigger] L[i], es[0].0) by {}
        lemma_missing_key_appends(L, es[0].0, es[0].1);
        let l1 = L.push(c0);
        let tail = es.drop_first();
        assert forall|t: int, i: int|
            0 <= t < tail.len() && 0 <= i < l1.len() implies !line_matches(
                #[trigger] l1[i],
                (#[trigger] tail[t]).0,
            ) by {
            assert(tail[t] == es[t + 1]);
            if i < L.len() {
                assert(l1[i] == L[i]);
            } else {
                assert(l1[i] == c0);
                assert(es[t + 1].0 != es[0].0) by {
                    if es[t + 1].0 == es[0].0 {
                        assert(is_prefix(es[t + 1].0, es[0].0)) by {
                            assert(es[t + 1].0 =~~= es[0].0.subrange(0, es[0].0.len() as int));
                        }
                    }
                }
                lemma_canonical_cross_no_match(es[t + 1].0, es[0].0, es[0].1);
            }
        }
        assert(entries_prefix_free(tail) && entries_keys_ok(tail)) by {
            assert forall|a: int, b: int|
                0 <= a < tail.len() && 0 <= b < tail.len() && a != b implies !is_prefix(
                (#[trigger] tail[a]).0,
                (#[trigger] tail[b]).0,
            ) by {
                assert(tail[a] == es[a + 1]);
                assert(tail[b] == es[b + 1]);
            }
            assert forall|t: int| 0 <= t < tail.len() implies key_ok((#[trigger] tail[t]).0) by {
                assert(tail[t] == es[t + 1]);
            }
        }
        lemma_absent_section_appends_in_order(l1, tail);
        assert(tail.map_values(canon) =~~= es.map_values(canon).drop_first());
        assert(l1 + es.map_values(canon).drop_first() =~~= L + es.map_values(canon)) by {
            assert(es.map_values(canon)[0] == c0);
        }
    }
}

/// A settled key's merge is a no-op.
proof fn lemma_settled_merge_noop(L: Seq<Seq<u8>>, k: Seq<u8>, v: Seq<u8>, j: int)
    requires
        settled_at(L, k, v, j),
    ensures
        merge_one(L, k, v) == L,
    decreases L.len(),
{
    if j == 0 {
        assert(merge_one(L, k, v) =~~= L);
    } else {
        assert(!line_matches(L[0], k));
        assert(settled_at(L.drop_first(), k, v, j - 1)) by {
            assert(L.drop_first()[j - 1] == L[j]);
            assert forall|t: int| 0 <= t < j - 1 implies !line_matches(
                #[trigger] L.drop_first()[t],
                k,
            ) by {
                assert(L.drop_first()[t] == L[t + 1]);
            }
        }
        lemma_settled_merge_noop(L.drop_first(), k, v, j - 1);
        assert(merge_one(L, k, v) =~~= L);
    }
}

/// Merging a key settles it.
proof fn lemma_merge_establishes(L: Seq<Seq<u8>>, k: Seq<u8>, v: Seq<u8>) -> (j: int)
    requires
        key_ok(k),
    ensures
        settled_at(merge_one(L, k, v), k, v, j),
    decreases L.len(),
{
    lemma_canonical_self_match(k, v);
    if L.len() == 0 {
        assert(merge_one(L, k, v)[0] == canonical_line(k, v));
        0
    } else if line_matches(L[0], k) {
        assert(merge_one(L, k, v)[0] == canonical_line(k, v));
        0
    } else {
        let out = merge_one(L, k, v);
        let sub = merge_one(L.drop_first(), k, v);
        let j0 = lemma_merge_establishes(L.drop_first(), k, v);
        assert(out[j0 + 1] == sub[j0]);
        assert forall|t: int| 0 <= t < j0 + 1 implies !line_matches(#[trigger] out[t], k) by {
            if t > 0 {
                assert(out[t] == sub[t - 1]);
            }
        }
        j0 + 1
    }
}

/// Merging a different, prefix-free key preserves a settled key.
proof fn lemma_merge_preserves_settled(
    L: Seq<Seq<u8>>,
    k: Seq<u8>,
    v: Seq<u8>,
    j: int,
    k2: Seq<u8>,
    v2: Seq<u8>,
) -> (j2: int)
    requires
        settled_at(L, k, v, j),
        key_ok(k),
        key_ok(k2),
        k != k2,
        !is_prefix(k, k2),
        !is_prefix(k2, k),
    ensures
        settled_at(merge_one(L, k2, v2), k, v, j2),
    decreases L.len(),
{
    let out = merge_one(L, k2, v2);
    lemma_canonical_cross_no_match(k, k2, v2);
    if line_matches(L[0], k2) {
        assert(j != 0) by {
            if j == 0 {
                lemma_canonical_cross_no_match(k2, k, v);
            }
        }
        assert(out[j] == L.drop_first()[j - 1]);
        assert(out[j] == L[j]);
        assert forall|t: int| 0 <= t < j implies !line_matches(#[trigger] out[t], k) by {
            if t > 0 {
                assert(out[t] == L[t]);
            }
        }
        j
    } else if j == 0 {
        assert(out[0] == L[0]);
        0
    } else {
        assert(settled_at(L.drop_first(), k, v, j - 1)) by {
            assert(L.drop_first()[j - 1] == L[j]);
            assert forall|t: int| 0 <= t < j - 1 implies !line_matches(
                #[trigger] L.drop_first()[t],
                k,
            ) by {
                assert(L.drop_first()[t] == L[t + 1]);
            }
        }
        let j2 = lemma_merge_preserves_settled(L.drop_first(), k, v, j - 1, k2, v2) + 1;
        let sub = merge_one(L.drop_first(), k2, v2);
        assert(out[j2] == sub[j2 - 1]);
        assert forall|t: int| 0 <= t < j2 implies !line_matches(#[trigger] out[t], k) by {
            if t > 0 {
                assert(out[t] == sub[t - 1]);
            }
        }
        j2
    }
}

/// A settled key stays settled through a run of merges of other keys.
proof fn lemma_settled_through_run(
    M: Seq<Seq<u8>>,
    es: Seq<(Seq<u8>, Seq<u8>)>,
    k: Seq<u8>,
    v: Seq<u8>,
    j: int,
) -> (j2: int)
    requires
        settled_at(M, k, v, j),
        key_ok(k),
        entries_keys_ok(es),
        forall|t: int|
            0 <= t < es.len() ==> (#[trigger] es[t]).0 != k && !is_prefix(es[t].0, k)
                && !is_prefix(k, es[t].0),
    ensures
        settled_at(merge_entries(M, es), k, v, j2),
    decreases es.len(),
{
    if es.len() == 0 {
        j
    } else {
        let j1 = lemma_merge_preserves_settled(M, k, v, j, es[0].0, es[0].1);
        let M1 = merge_one(M, es[0].0, es[0].1);
        assert forall|t: int|
            0 <= t < es.drop_first().len() implies (#[trigger] es.drop_first()[t]).0 != k
                && !is_prefix(es.drop_first()[t].0, k) && !is_prefix(
                k,
                es.drop_first()[t].0,
            ) by {
            assert(es.drop_first()[t] == es[t + 1]);
        }
        assert(entries_keys_ok(es.drop_first())) by {
            assert forall|t: int| 0 <= t < es.drop_first().len() implies key_ok(
                (#[trigger] es.drop_first()[t]).0,
            ) by {
                assert(es.drop_first()[t] == es[t + 1]);
            }
        }
        lemma_settled_through_run(M1, es.drop_first(), k, v, j1)
    }
}

/// After a full merge pass, every imported key is settled.
proof fn lemma_settled_after_pass(
    L: Seq<Seq<u8>>,
    es: Seq<(Seq<u8>, Seq<u8>)>,
    i: int,
) -> (j: int)
    requires
        entries_prefix_free(es),
        entries_keys_ok(es),
        0 <= i < es.len(),
    ensures
        settled_at(merge_entries(L, es), es[i].0, es[i].1, j),
    decreases es.len(),
{
    let L1 = merge_one(L, es[0].0, es[0].1);
    let tail = es.drop_first();
    assert(entries_keys_ok(tail) && entries_prefix_free(tail)) by {
        assert forall|t: int| 0 <= t < tail.len() implies key_ok((#[trigger] tail[t]).0) by {
            assert(tail[t] == es[t + 1]);
        }
        assert forall|a: int, b: int|
            0 <= a < tail.len() && 0 <= b < tail.len() && a != b implies !is_prefix(
            (#[trigger] tail[a]).0,
            (#[trigger] tail[b]).0,
        ) by {
            assert(tail[a] == es[a + 1]);
            assert(tail[b] == es[b + 1]);
        }
    }
    if i == 0 {
        let j0 = lemma_merge_establishes(L, es[0].0, es[0].1);
        assert forall|t: int|
            0 <= t < tail.len() implies (#[trigger] tail[t]).0 != es[0].0 && !is_prefix(
                tail[t].0,
                es[0].0,
            ) && !is_prefix(es[0].0, tail[t].0) by {
            assert(tail[t] == es[t + 1]);
            if tail[t].0 == es[0].0 {
                assert(is_prefix(es[t + 1].0, es[0].0)) by {
                    assert(es[t + 1].0 =~~= es[0].0.subrange(0, es[0].0.len() as int));
                }
            }
        }
        lemma_settled_through_run(L1, tail, es[0].0, es[0].1, j0)
    } else {
        assert(tail[i - 1] == es[i]);
        lemma_settled_after_pass(L1, tail, i - 1)
    }
}

/// A merge pass in which every key's merge is a no-op changes nothing.
proof fn lemma_pass_noop(M: Seq<Seq<u8>>, es: Seq<(Seq<u8>, Seq<u8>)>)
    requires
        forall|t: int|
            0 <= t < es.len() ==> merge_one(M, (#[trigger] es[t]).0, es[t].1) == M,
    ensures
        merge_entries(M, es) == M,
    decreases es.len(),
{
    if es.len() > 0 {
        assert(merge_one(M, es[0].0, es[0].1) == M);
        assert forall|t: int|
            0 <= t < es.drop_first().len() implies merge_one(
                M,
                (#[trigger] es.drop_first()[t]).0,
                es.drop_first()[t].1,
            ) == M by {
            assert(es.drop_first()[t] == es[t + 1]);
        }
        lemma_pass_noop(M, es.drop_first());
    }
}

/// The idempotence law: merging the same section twice gives the same lines
/// as merging it once, provided no key begins with whitespace and no key is
/// a prefix of a different key. (With a prefix pair such as `a` and `ab`,
/// the prefix match makes the second pass reassign lines, so the law is
/// stated only for prefix-free sections.)
pub proof fn lemma_import_idempotent(L: Seq<Seq<u8>>, es: Seq<(Seq<u8>, Seq<u8>)>)
    requires
        entries_prefix_free(es),
        entries_keys_ok(es),
    ensures
        merge_entries(merge_entries(L, es), es) == merge_entries(L, es),
{
    let M = merge_entries(L, es);
    assert forall|t: int|
        0 <= t < es.len() implies merge_one(M, (#[trigger] es[t]).0, es[t].1) == M by {
        let j = lemma_settled_after_pass(L, es, t);
        lemma_settled_merge_noop(M, es[t].0, es[t].1, j);
    }
    lemma_pass_noop(M, es);
}

/// True when the line matches the key as [`line_matches`] describes.
pub fn line_matches_exec(line: &Vec<u8>, key: &Vec<u8>) -> (r: bool)
    ensures
        r == line_matches(line@, key@),
{
    proof {
        lemma_lead_ws(line@);
    }
    match find_byte(line, 61) {
        None => {
            return false;
        },
        Some(_) => {},
    }
    let mut a: usize = 0;
    while a < line.len() && is_ws_byte(line[a])
        invariant
            0 <= a <= line@.len(),
            forall|j: int| 0 <= j < a ==> is_ws(line@[j]),
        decreases line.len() - a,
    {
        a += 1;
    }
    assert(a == lead_ws(line@)) by {
        lemma_lead_ws(line@);
        if a < lead_ws(line@) {
            assert(is_ws(line@[a as int]));
        }
        if a > lead_ws(line@) {
            assert(is_ws(line@[lead_ws(line@)]));
        }
    }
    let ll: usize = line.len();
    let rest_len: usize = ll - a;
    if key.len() > rest_len {
        return false;
    }
    let mut i: usize = 0;
    while i < key.len()
        invariant
            0 <= i <= key@.len(),
            key@.len() <= line@.len() - a,
            a == lead_ws(line@),
            0 <= a <= line@.len(),
            ll == line@.len(),
            forall|j: int| 0 <= j < i ==> key@[j] == line@[a + j],
        decreases key.len() - i,
    {
        if key[i] != line[a + i] {
            assert(key@[i as int] != trim_start(line@)[i as int]);
            return false;
        }
        i += 1;
    }
    assert(key@ =~~= trim_start(line@).subrange(0, key@.len() as int));
    true
}

/// Builds the canonical `key = value` line.
pub fn canonical_line_exec(k: &Vec<u8>, v: &Vec<u8>) -> (r: Vec<u8>)
    ensures
        r@ == canonical_line(k@, v@),
{
    let mut r = clone_bytes(k);
    r.push(32);
    r.push(61);
    r.push(32);
    let mut i: usize = 0;
    while i < v.len()
        invariant
            0 <= i <= v@.len(),
            r@ == k@ + seq![32u8, 61u8, 32u8] + v@.take(i as int),
        decreases v.len() - i,
    {
        proof {
            assert((k@ + seq![32u8, 61u8, 32u8] + v@.take(i as int)).push(v@[i as int]) =~~= k@
                + seq![32u8, 61u8, 32u8] + v@.take(i + 1));
        }
        r.push(v[i]);
        i += 1;
    }
    proof {
        assert(v@.take(v@.len() as int) =~~= v@);
    }
    r
}

/// Merges one `key = value` pair into the lines, replacing the first
/// matching line or appending a canonical line.
pub fn apply_setting(lines: &mut Vec<Vec<u8>>, key: &Vec<u8>, value: &Vec<u8>)
    ensures
        lines_view(final(lines)@) == merge_one(lines_view(old(lines)@), key@, value@),
{
    let mut i: usize = 0;
    while i < lines.len()
        invariant
            0 <= i <= lines@.len(),
            lines == old(lines),
            forall|t: int| 0 <= t < i ==> !line_matches(lines_view(lines@)[t], key@),
        decreases lines@.len() - i,
    {
        assert(lines_view(lines@)[i as int] == lines@[i as int]@);
        if line_matches_exec(&lines[i], key) {
            let c = canonical_line_exec(key, value);
            lines.set(i, c);
            proof {
                lemma_merge_at_index(lines_view(old(lines)@), key@, value@, i as int);
                assert(lines_view(lines@) =~~= lines_view(old(lines)@).update(
                    i as int,
                    canonical_line(key@, value@),
                ));
            }
            return ;
        }
        i += 1;
    }
    let c = canonical_line_exec(key, value);
    lines.push(c);
    proof {
        lemma_missing_key_appends(lines_view(old(lines)@), key@, value@);
        assert(lines_view(lines@) =~~= lines_view(old(lines)@).push(
            canonical_line(key@, value@),
        ));
    }
}

/// Copies a list of lines.
fn clone_lines(lines: &Vec<Vec<u8>>) -> (r: Vec<Vec<u8>>)
    ensures
        lines_view(r@) == lines_view(lines@),
{
    let mut r: Vec<Vec<u8>> = Vec::new();
    let mut i: usize = 0;
    while i < lines.len()
        invariant
            0 <= i <= lines@.len(),
            r@.len() == i,
            forall|t: int| 0 <= t < i ==> #[trigger] r@[t]@ == lines@[t]@,
        decreases lines.len() - i,
    {
        r.push(clone_bytes(&lines[i]));
        i += 1;
    }
    proof {
        assert(lines_view(r@) =~~= lines_view(lines@));
    }
    r
}

/// Compares two lists of lines for equality.
fn lines_equal(a: &Vec<Vec<u8>>, b: &Vec<Vec<u8>>) -> (r: bool)
    ensures
        r == (lines_view(a@) == lines_view(b@)),
{
    if a.len() != b.len() {
        assert(lines_view(a@).len() != lines_view(b@).len());
        return false;
    }
    let mut i: usize = 0;
    while i < a.len()
        invariant
            0 <= i <= a@.len(),
            a@.len() == b@.len(),
            forall|t: int| 0 <= t < i ==> #[trigger] a@[t]@ == b@[t]@,
        decreases a.len() - i,
    {
        if !crate::text::bytes_eq(&a[i], &b[i]) {
            assert(lines_view(a@)[i as int] != lines_view(b@)[i as int]);
            return false;
        }
        i += 1;
    }
    assert(lines_view(a@) =~~= lines_view(b@));
    true
}

/// Merges every setting of a section into the lines, in section order.
/// Returns whether some line actually changed: when merging leaves every
/// line exactly as it was, the caller must not rewrite the file.
pub fn merge_section(lines: &mut Vec<Vec<u8>>, section: &SettingsMap) -> (changed: bool)
    ensures
        lines_view(final(lines)@) == merge_entries(lines_view(old(lines)@), section@),
        changed == (lines_view(final(lines)@) != lines_view(old(lines)@)),
{
    let before = clone_lines(lines);
    let mut i: usize = 0;
    proof {
        assert(section@.skip(0) =~~= section@);
    }
    while i < section.entries.len()
        invariant
            0 <= i <= section.entries@.len(),
            merge_entries(lines_view(old(lines)@), section@) == merge_entries(
                lines_view(lines@),
                section@.skip(i as int),
            ),
        decreases section.entries@.len() - i,
    {
        let ghost pre = lines_view(lines@);
        let ghost rest = section@.skip(i as int);
        assert(section@[i as int] == section.entries@[i as int]@);
        apply_setting(lines, &section.entries[i].key, &section.entries[i].value);
        proof {
            assert(rest[0] == section@[i as int]);
            assert(rest.drop_first() =~~= section@.skip(i + 1));
            assert(merge_entries(pre, rest) == merge_entries(
                merge_one(pre, rest[0].0, rest[0].1),
                rest.drop_first(),
            ));
        }
        i += 1;
    }
    proof {
        assert(section@.skip(section@.len() as int) =~~= Seq::<(Seq<u8>, Seq<u8>)>::empty());
    }
    !lines_equal(&before, lines)
}

/// Merges a section into whole configuration text: the text is split into
/// lines, every setting is merged, and the lines are joined with single
/// line feeds. The flag says whether some line actually changed; the
/// caller rewrites the file only then, so a merge with zero applied
/// changes never touches the file.
pub fn import_into_content(content: &Vec<u8>, section: &SettingsMap) -> (r: (Vec<u8>, bool))
    ensures
        r.0@ == join_lines(merge_entries(split_lines(content@), section@)),
        r.1 == (merge_entries(split_lines(content@), section@) != split_lines(content@)),
{
    let mut lines = split_into_lines(content);
    let changed = merge_section(&mut lines, section);
    (join_into_text(&lines), changed)
}

} // verus!

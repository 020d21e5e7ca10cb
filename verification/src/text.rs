//! Byte-string utilities: comparison, prefix and suffix tests, substring
//! search, ASCII lower-casing, whitespace trimming, line splitting and
//! joining. All configuration text is handled as sequences of bytes.
use vstd::prelude::*;

use crate::is_ws;

verus! {

/// True when `p` is a prefix of `s`.
pub open spec fn is_prefix(p: Seq<u8>, s: Seq<u8>) -> bool {
    p.len() <= s.len() && p == s.subrange(0, p.len() as int)
}

/// True when `p` is a suffix of `s`.
pub open spec fn is_suffix(p: Seq<u8>, s: Seq<u8>) -> bool {
    p.len() <= s.len() && p == s.subrange(s.len() - p.len(), s.len() as int)
}

/// True when `n` occurs contiguously somewhere in `h`.
pub open spec fn contains_seq(h: Seq<u8>, n: Seq<u8>) -> bool {
    exists|i: int| 0 <= i && i + n.len() <= h.len() && n == #[trigger] h.subrange(i, i + n.len())
}

/// ASCII lower-casing of a single byte.
pub open spec fn lower_byte(b: u8) -> u8 {
    if 65 <= b <= 90 {
        (b + 32) as u8
    } else {
        b
    }
}

/// ASCII lower-casing of a byte string. Bytes outside `A`..`Z` pass
/// through unchanged, so non-ASCII letters keep their case; configuration
/// keys and the category tokens are ASCII, where this agrees with Unicode
/// lower-casing.
pub open spec fn to_lower(s: Seq<u8>) -> Seq<u8> {
    s.map_values(|b: u8| lower_byte(b))
}

/// Number of leading whitespace bytes.
pub open spec fn lead_ws(s: Seq<u8>) -> int
    decreases s.len(),
{
    if s.len() > 0 && is_ws(s[0]) {
        1 + lead_ws(s.drop_first())
    } else {
        0
    }
}

/// Number of trailing whitespace bytes.
pub open spec fn tail_ws(s: Seq<u8>) -> int
    decreases s.len(),
{
    if s.len() > 0 && is_ws(s.last()) {
        1 + tail_ws(s.drop_last())
    } else {
        0
    }
}

/// `s` with leading whitespace removed.
pub open spec fn trim_start(s: Seq<u8>) -> Seq<u8> {
    s.skip(lead_ws(s))
}

/// `s` with leading and trailing whitespace removed. Only the ASCII
/// whitespace bytes of [`is_ws`] count; non-ASCII whitespace is kept.
pub open spec fn spec_trim(s: Seq<u8>) -> Seq<u8> {
    if lead_ws(s) == s.len() {
        Seq::empty()
    } else {
        s.subrange(lead_ws(s), s.len() - tail_ws(s))
    }
}

/// Index of the first occurrence of `b` in `s`, or `s.len()` if absent.
pub open spec fn first_ix(s: Seq<u8>, b: u8) -> int
    decreases s.len(),
{
    if s.len() == 0 {
        0
    } else if s[0] == b {
        0
    } else {
        1 + first_ix(s.drop_first(), b)
    }
}

/// True when `b` occurs in `s`.
pub open spec fn contains_byte(s: Seq<u8>, b: u8) -> bool {
    exists|i: int| 0 <= i < s.len() && s[i] == b
}

/// The view of a vector of byte strings as a sequence of byte sequences.
pub open spec fn lines_view(ls: Seq<Vec<u8>>) -> Seq<Seq<u8>> {
    ls.map_values(|l: Vec<u8>| l@)
}

/// Removes one carriage return from the end of a line body, if present.
pub open spec fn strip_cr(p: Seq<u8>) -> Seq<u8> {
    if p.len() > 0 && p.last() == 13 {
        p.drop_last()
    } else {
        p
    }
}

/// Splits text into lines at each line feed, dropping a carriage return
/// that immediately precedes a line feed; a final line terminator does not
/// open an extra empty line.
pub open spec fn split_lines(s: Seq<u8>) -> Seq<Seq<u8>>
    decreases s.len(),
    via split_lines_dec
{
    if s.len() == 0 {
        Seq::empty()
    } else {
        let i = first_ix(s, 10);
        if i < s.len() {
            seq![strip_cr(s.take(i))] + split_lines(s.skip(i + 1))
        } else {
            seq![s]
        }
    }
}

#[via_fn]
proof fn split_lines_dec(s: Seq<u8>) {
    lemma_first_ix(s, 10);
}

/// Joins lines with a single line feed between adjacent lines.
pub open spec fn join_lines(ls: Seq<Seq<u8>>) -> Seq<u8>
    decreases ls.len(),
{
    if ls.len() == 0 {
        Seq::empty()
    } else if ls.len() == 1 {
        ls[0]
    } else {
        ls[0] + seq![10u8] + join_lines(ls.drop_first())
    }
}

/// `first_ix` points at the first occurrence of `b`, and equals the length
/// exactly when `b` is absent.
pub proof fn lemma_first_ix(s: Seq<u8>, b: u8)
    ensures
        0 <= first_ix(s, b) <= s.len(),
        first_ix(s, b) < s.len() ==> s[first_ix(s, b)] == b,
        forall|j: int| 0 <= j < first_ix(s, b) ==> s[j] != b,
        (first_ix(s, b) == s.len()) <==> !contains_byte(s, b),
    decreases s.len(),
{
    if s.len() == 0 {
    } else if s[0] == b {
    } else {
        lemma_first_ix(s.drop_first(), b);
        let i = first_ix(s, b);
        assert forall|j: int| 0 <= j < i implies s[j] != b by {
            if j > 0 {
                assert(s.drop_first()[j - 1] == s[j]);
            }
        }
        if i == s.len() {
            assert forall|j: int| 0 <= j < s.len() implies s[j] != b by {}
        } else {
            assert(s.drop_first()[i - 1] == s[i]);
        }
    }
}

/// `lead_ws` counts exactly the leading whitespace bytes.
pub proof fn lemma_lead_ws(s: Seq<u8>)
    ensures
        0 <= lead_ws(s) <= s.len(),
        forall|j: int| 0 <= j < lead_ws(s) ==> is_ws(s[j]),
        lead_ws(s) < s.len() ==> !is_ws(s[lead_ws(s)]),
    decreases s.len(),
{
    if s.len() > 0 && is_ws(s[0]) {
        lemma_lead_ws(s.drop_first());
        assert forall|j: int| 0 <= j < lead_ws(s) implies is_ws(s[j]) by {
            if j > 0 {
                assert(s.drop_first()[j - 1] == s[j]);
            }
        }
        if lead_ws(s) < s.len() {
            assert(s.drop_first()[lead_ws(s) - 1] == s[lead_ws(s)]);
        }
    }
}

/// `tail_ws` counts exactly the trailing whitespace bytes.
pub proof fn lemma_tail_ws(s: Seq<u8>)
    ensures
        0 <= tail_ws(s) <= s.len(),
        forall|j: int| s.len() - tail_ws(s) <= j < s.len() ==> is_ws(s[j]),
        tail_ws(s) < s.len() ==> !is_ws(s[s.len() - tail_ws(s) - 1]),
    decreases s.len(),
{
    if s.len() > 0 && is_ws(s.last()) {
        lemma_tail_ws(s.drop_last());
        assert forall|j: int| s.len() - tail_ws(s) <= j < s.len() implies is_ws(s[j]) by {
            if j < s.len() - 1 {
                assert(s.drop_last()[j] == s[j]);
            }
        }
        if tail_ws(s) < s.len() {
            assert(s.drop_last()[s.len() - tail_ws(s) - 1] == s[s.len() - tail_ws(s) - 1]);
        }
    }
}

/// Appending one more line extends a join by a line feed and that line.
pub proof fn lemma_join_push(ls: Seq<Seq<u8>>, x: Seq<u8>)
    ensures
        ls.len() == 0 ==> join_lines(ls.push(x)) == x,
        ls.len() > 0 ==> join_lines(ls.push(x)) == join_lines(ls) + seq![10u8] + x,
    decreases ls.len(),
{
    if ls.len() == 0 {
        assert(ls.push(x)[0] == x);
        assert(join_lines(ls.push(x)) == x);
    } else if ls.len() == 1 {
        let p = ls.push(x);
        assert(p.drop_first() =~~= seq![x]);
        assert(join_lines(seq![x]) == x);
        assert(join_lines(p) == p[0] + seq![10u8] + join_lines(p.drop_first()));
    } else {
        lemma_join_push(ls.drop_first(), x);
        assert(ls.push(x).drop_first() =~~= ls.drop_first().push(x));
        assert(join_lines(ls) + seq![10u8] + x =~= ls[0] + seq![10u8] + (join_lines(
            ls.drop_first(),
        ) + seq![10u8] + x));
    }
}

/// True when a byte string carries no surrounding whitespace.
pub open spec fn trimmed(s: Seq<u8>) -> bool {
    s.len() > 0 ==> !is_ws(s[0]) && !is_ws(s.last())
}

/// Appending does not move the leading-whitespace boundary when the left
/// part holds a non-whitespace byte.
pub proof fn lemma_lead_ws_append(s: Seq<u8>, t: Seq<u8>)
    requires
        lead_ws(s) < s.len(),
    ensures
        lead_ws(s + t) == lead_ws(s),
    decreases s.len(),
{
    if s.len() > 0 && is_ws(s[0]) {
        assert((s + t)[0] == s[0]);
        assert((s + t).drop_first() =~~= s.drop_first() + t);
        lemma_lead_ws_append(s.drop_first(), t);
    } else {
        assert((s + t)[0] == s[0]);
    }
}

/// Prepending does not move the trailing-whitespace boundary when the
/// right part holds a non-whitespace byte.
pub proof fn lemma_tail_ws_prepend(t: Seq<u8>, s: Seq<u8>)
    requires
        tail_ws(s) < s.len(),
    ensures
        tail_ws(t + s) == tail_ws(s),
    decreases s.len(),
{
    if s.len() > 0 && is_ws(s.last()) {
        assert((t + s).last() == s.last());
        assert((t + s).drop_last() =~~= t + s.drop_last());
        lemma_tail_ws_prepend(t, s.drop_last());
    } else {
        assert((t + s).last() == s.last());
    }
}

/// A trimmed string has no leading or trailing whitespace, and every one
/// of its bytes comes from the source string.
pub proof fn lemma_trim_props(s: Seq<u8>)
    ensures
        trimmed(spec_trim(s)),
        forall|t: int|
            0 <= t < spec_trim(s).len() ==> #[trigger] spec_trim(s)[t] == s[lead_ws(s) + t],
{
    lemma_lead_ws(s);
    lemma_tail_ws(s);
    if lead_ws(s) < s.len() {
        assert(!is_ws(s[lead_ws(s)]));
        if s.len() - tail_ws(s) - 1 < lead_ws(s) {
            assert(is_ws(s[lead_ws(s)]));
        }
        assert(spec_trim(s)[0] == s[lead_ws(s)]);
        assert(spec_trim(s).last() == s[s.len() - tail_ws(s) - 1]);
        assert(!is_ws(s[s.len() - tail_ws(s) - 1]));
    }
}

/// Trimming an already trimmed string padded by one trailing space gives
/// the string back.
pub proof fn lemma_trim_pad_right(k: Seq<u8>)
    requires
        trimmed(k),
    ensures
        spec_trim(k + seq![32u8]) == k,
{
    let p = k + seq![32u8];
    if k.len() == 0 {
        assert(p =~~= seq![32u8]);
        assert(is_ws(p[0]));
        assert(p.drop_first() =~~= Seq::<u8>::empty());
        assert(lead_ws(Seq::<u8>::empty()) == 0);
        assert(lead_ws(p) == 1);
        assert(spec_trim(p) =~~= k);
    } else {
        assert(p[0] == k[0]);
        assert(lead_ws(k) == 0);
        lemma_lead_ws_append(k, seq![32u8]);
        assert(lead_ws(p) == 0);
        assert(p.last() == 32);
        assert(p.drop_last() =~~= k);
        assert(tail_ws(k) == 0) by {
            if k.len() > 0 && is_ws(k.last()) {
                assert(false);
            }
        }
        assert(tail_ws(p) == 1 + tail_ws(k));
        assert(spec_trim(p) =~~= k);
    }
}

/// Trimming an already trimmed string padded by one leading space gives
/// the string back.
pub proof fn lemma_trim_pad_left(v: Seq<u8>)
    requires
        trimmed(v),
    ensures
        spec_trim(seq![32u8] + v) == v,
{
    let p = seq![32u8] + v;
    if v.len() == 0 {
        assert(p =~~= seq![32u8]);
        assert(is_ws(p[0]));
        assert(p.drop_first() =~~= Seq::<u8>::empty());
        assert(lead_ws(Seq::<u8>::empty()) == 0);
        assert(lead_ws(p) == 1);
        assert(spec_trim(p) =~~= v);
    } else {
        assert(p.last() == v.last());
        assert(tail_ws(v) == 0) by {
            if v.len() > 0 && is_ws(v.last()) {
                assert(false);
            }
        }
        lemma_tail_ws_prepend(seq![32u8], v);
        assert(tail_ws(p) == 0);
        assert(is_ws(p[0]));
        assert(p.drop_first() =~~= v);
        assert(lead_ws(v) == 0);
        assert(lead_ws(p) == 1);
        assert(spec_trim(p) =~~= v);
    }
}

/// A byte absent from a string is absent from its trimmed form.
pub proof fn lemma_trim_keeps_absence(s: Seq<u8>, b: u8)
    requires
        !contains_byte(s, b),
    ensures
        !contains_byte(spec_trim(s), b),
{
    lemma_trim_props(s);
    lemma_lead_ws(s);
    lemma_tail_ws(s);
    if contains_byte(spec_trim(s), b) {
        let t = choose|t: int| 0 <= t < spec_trim(s).len() && spec_trim(s)[t] == b;
        assert(s[lead_ws(s) + t] == b);
    }
}

/// True for the whitespace bytes recognized by [`is_ws`].
pub fn is_ws_byte(b: u8) -> (r: bool)
    ensures
        r == is_ws(b),
{
    b == 32 || b == 9 || b == 10 || b == 11 || b == 12 || b == 13
}

/// Compares two byte strings for equality.
pub fn bytes_eq(a: &Vec<u8>, b: &Vec<u8>) -> (r: bool)
    ensures
        r == (a@ == b@),
{
    if a.len() != b.len() {
        assert(a@ != b@);
        return false;
    }
    let mut i: usize = 0;
    while i < a.len()
        invariant
            0 <= i <= a.len(),
            a.len() == b.len(),
            forall|j: int| 0 <= j < i ==> a@[j] == b@[j],
        decreases a.len() - i,
    {
        if a[i] != b[i] {
            return false;
        }
        i += 1;
    }
    assert(a@ =~= b@);
    true
}

/// True when `s` starts with `p`.
pub fn starts_with(s: &Vec<u8>, p: &Vec<u8>) -> (r: bool)
    ensures
        r == is_prefix(p@, s@),
{
    if p.len() > s.len() {
        return false;
    }
    let mut i: usize = 0;
    while i < p.len()
        invariant
            0 <= i <= p.len(),
            p.len() <= s.len(),
            forall|j: int| 0 <= j < i ==> p@[j] == s@[j],
        decreases p.len() - i,
    {
        if p[i] != s[i] {
            assert(p@ != s@.subrange(0, p@.len() as int));
            return false;
        }
        i += 1;
    }
    assert(p@ =~= s@.subrange(0, p@.len() as int));
    true
}

/// True when `s` ends with `p`.
pub fn ends_with(s: &Vec<u8>, p: &Vec<u8>) -> (r: bool)
    ensures
        r == is_suffix(p@, s@),
{
    if p.len() > s.len() {
        return false;
    }
    let off: usize = s.len() - p.len();
    let mut i: usize = 0;
    while i < p.len()
        invariant
            0 <= i <= p.len(),
            p.len() <= s.len(),
            off == s.len() - p.len(),
            forall|j: int| 0 <= j < i ==> p@[j] == s@[off + j],
        decreases p.len() - i,
    {
        if p[i] != s[off + i] {
            assert(p@[i as int] != s@.subrange(s@.len() - p@.len(), s@.len() as int)[i as int]);
            return false;
        }
        i += 1;
    }
    assert(p@ =~= s@.subrange(s@.len() - p@.len(), s@.len() as int));
    true
}

/// True when the bytes of `n` occur at position `i` of `h`.
fn match_at(h: &Vec<u8>, n: &Vec<u8>, i: usize) -> (r: bool)
    requires
        i + n@.len() <= h@.len(),
    ensures
        r == (n@ == h@.subrange(i as int, i as int + n@.len())),
{
    let hl: usize = h.len();
    let mut j: usize = 0;
    while j < n.len()
        invariant
            0 <= j <= n.len(),
            i + n@.len() <= h@.len(),
            hl == h@.len(),
            forall|t: int| 0 <= t < j ==> n@[t] == h@[i + t],
        decreases n.len() - j,
    {
        assert(i + j < h@.len());
        if n[j] != h[i + j] {
            assert(n@[j as int] != h@.subrange(i as int, i as int + n@.len())[j as int]);
            return false;
        }
        j += 1;
    }
    assert(n@ =~= h@.subrange(i as int, i as int + n@.len()));
    true
}

/// True when `n` occurs contiguously somewhere in `h`.
pub fn contains_sub(h: &Vec<u8>, n: &Vec<u8>) -> (r: bool)
    ensures
        r == contains_seq(h@, n@),
{
    if n.len() > h.len() {
        return false;
    }
    if n.len() == 0 {
        assert(contains_seq(h@, n@)) by {
            assert(n@ =~= h@.subrange(0, 0 + n@.len() as int));
        }
        return true;
    }
    let hl: usize = h.len();
    let last: usize = hl - n.len();
    let mut i: usize = 0;
    while i <= last
        invariant
            0 <= i <= last + 1,
            0 < n@.len() <= h@.len(),
            last == h@.len() - n@.len(),
            hl == h@.len(),
            forall|t: int| 0 <= t < i ==> n@ != #[trigger] h@.subrange(t, t + n@.len()),
        decreases last + 1 - i,
    {
        if match_at(h, n, i) {
            assert(contains_seq(h@, n@)) by {
                assert(0 <= i as int && i as int + n@.len() <= h@.len() && n@ == h@.subrange(
                    i as int,
                    i as int + n@.len(),
                ));
            }
            return true;
        }
        i += 1;
    }
    false
}

/// ASCII lower-casing of a byte string.
pub fn to_ascii_lower(s: &Vec<u8>) -> (r: Vec<u8>)
    ensures
        r@ == to_lower(s@),
{
    let mut r: Vec<u8> = Vec::new();
    let mut i: usize = 0;
    while i < s.len()
        invariant
            0 <= i <= s.len(),
            r@.len() == i,
            forall|j: int| 0 <= j < i ==> r@[j] == lower_byte(s@[j]),
        decreases s.len() - i,
    {
        let b = s[i];
        if 65 <= b && b <= 90 {
            r.push(b + 32);
        } else {
            r.push(b);
        }
        i += 1;
    }
    assert(r@ =~= to_lower(s@));
    r
}

/// Index of the first occurrence of `b` in `s`, if any.
pub fn find_byte(s: &Vec<u8>, b: u8) -> (r: Option<usize>)
    ensures
        match r {
            Some(i) => i == first_ix(s@, b) && i < s@.len() && s@[i as int] == b,
            None => first_ix(s@, b) == s@.len() && !contains_byte(s@, b),
        },
{
    proof {
        lemma_first_ix(s@, b);
    }
    let mut i: usize = 0;
    while i < s.len()
        invariant
            0 <= i <= s.len(),
            forall|j: int| 0 <= j < i ==> s@[j] != b,
            0 <= first_ix(s@, b) <= s@.len(),
            first_ix(s@, b) < s@.len() ==> s@[first_ix(s@, b)] == b,
            forall|j: int| 0 <= j < first_ix(s@, b) ==> s@[j] != b,
            (first_ix(s@, b) == s@.len()) <==> !contains_byte(s@, b),
        decreases s.len() - i,
    {
        if s[i] == b {
            return Some(i);
        }
        i += 1;
    }
    assert(!contains_byte(s@, b));
    None
}

/// Copies the bytes of `s` from `from` (inclusive) to `to` (exclusive).
pub fn subvec(s: &Vec<u8>, from: usize, to: usize) -> (r: Vec<u8>)
    requires
        0 <= from <= to <= s@.len(),
    ensures
        r@ == s@.subrange(from as int, to as int),
{
    let mut r: Vec<u8> = Vec::new();
    let mut i: usize = from;
    while i < to
        invariant
            from <= i <= to <= s@.len(),
            r@.len() == i - from,
            forall|j: int| 0 <= j < r@.len() ==> r@[j] == s@[from + j],
        decreases to - i,
    {
        r.push(s[i]);
        i += 1;
    }
    assert(r@ =~= s@.subrange(from as int, to as int));
    r
}

/// Removes leading and trailing whitespace.
pub fn trim(s: &Vec<u8>) -> (r: Vec<u8>)
    ensures
        r@ == spec_trim(s@),
{
    proof {
        lemma_lead_ws(s@);
        lemma_tail_ws(s@);
    }
    let mut a: usize = 0;
    while a < s.len() && is_ws_byte(s[a])
        invariant
            0 <= a <= s.len(),
            forall|j: int| 0 <= j < a ==> is_ws(s@[j]),
        decreases s.len() - a,
    {
        a += 1;
    }
    assert(a == lead_ws(s@)) by {
        lemma_lead_ws(s@);
        if a < lead_ws(s@) {
            assert(is_ws(s@[a as int]));
        }
        if a > lead_ws(s@) {
            assert(is_ws(s@[lead_ws(s@)]));
        }
    }
    if a == s.len() {
        let r: Vec<u8> = Vec::new();
        assert(r@ =~= spec_trim(s@));
        return r;
    }
    let mut b: usize = s.len();
    while b > a && is_ws_byte(s[b - 1])
        invariant
            a <= b <= s.len(),
            forall|j: int| b <= j < s@.len() ==> is_ws(s@[j]),
        decreases b,
    {
        b -= 1;
    }
    assert(b == s@.len() - tail_ws(s@)) by {
        lemma_tail_ws(s@);
        lemma_lead_ws(s@);
        if b < s@.len() - tail_ws(s@) {
            assert(is_ws(s@[s@.len() - tail_ws(s@) - 1]));
        }
        if b > s@.len() - tail_ws(s@) {
            assert(is_ws(s@[b - 1]));
        }
    }
    subvec(s, a, b)
}

/// Splits text into lines as [`split_lines`] describes.
pub fn split_into_lines(content: &Vec<u8>) -> (r: Vec<Vec<u8>>)
    ensures
        lines_view(r@) == split_lines(content@),
{
    let mut lines: Vec<Vec<u8>> = Vec::new();
    let mut pos: usize = 0;
    proof {
        assert(content@.skip(0) =~= content@);
        assert(lines_view(lines@) + split_lines(content@) =~~= split_lines(content@));
    }
    while pos < content.len()
        invariant
            0 <= pos <= content@.len(),
            split_lines(content@) == lines_view(lines@) + split_lines(content@.skip(pos as int)),
        decreases content.len() - pos,
    {
        let ghost rest = content@.skip(pos as int);
        let mut j: usize = pos;
        while j < content.len() && content[j] != 10
            invariant
                pos <= j <= content@.len(),
                forall|t: int| pos <= t < j ==> content@[t] != 10,
            decreases content.len() - j,
        {
            j += 1;
        }
        proof {
            lemma_first_ix(rest, 10);
            assert forall|t: int| 0 <= t < j - pos implies rest[t] != 10 by {
                assert(rest[t] == content@[pos + t]);
            }
            if j < content.len() {
                assert(rest[j - pos] == content@[j as int]);
            }
            assert(first_ix(rest, 10) == j - pos) by {
                if first_ix(rest, 10) < j - pos {
                    assert(rest[first_ix(rest, 10)] == 10);
                }
                if first_ix(rest, 10) > j - pos && j < content.len() {
                    assert(rest[j - pos] != 10);
                }
                if j == content.len() {
                    assert(first_ix(rest, 10) <= rest.len());
                }
            }
        }
        if j < content.len() {
            let mut end: usize = j;
            if j > pos && content[j - 1] == 13 {
                end = j - 1;
            }
            let piece = subvec(content, pos, end);
            proof {
                assert(rest.take(j - pos) =~= content@.subrange(pos as int, j as int));
                assert(strip_cr(rest.take(j - pos)) =~= content@.subrange(
                    pos as int,
                    end as int,
                ));
                assert(rest.skip(j - pos + 1) =~= content@.skip(j + 1));
                assert(split_lines(rest) == seq![piece@] + split_lines(content@.skip(j + 1)));
            }
            lines.push(piece);
            proof {
                assert(lines_view(lines@) =~= lines_view(lines@.drop_last()) + seq![
                    content@.subrange(pos as int, end as int),
                ]);
                assert(lines_view(lines@) + split_lines(content@.skip(j + 1)) =~= (lines_view(
                    lines@.drop_last(),
                ) + split_lines(rest)));
            }
            pos = j + 1;
        } else {
            let piece = subvec(content, pos, content.len());
            proof {
                assert(rest =~= content@.subrange(pos as int, content@.len() as int));
                assert(split_lines(rest) == seq![piece@]);
            }
            lines.push(piece);
            proof {
                assert(lines_view(lines@) =~= lines_view(lines@.drop_last()) + seq![piece@]);
                assert(split_lines(content@.skip(content@.len() as int)) =~= Seq::<
                    Seq<u8>,
                >::empty());
                assert(lines_view(lines@) + split_lines(content@.skip(content@.len() as int))
                    =~= lines_view(lines@.drop_last()) + split_lines(rest));
            }
            pos = content.len();
        }
    }
    proof {
        assert(content@.skip(pos as int) =~= Seq::<u8>::empty());
        assert(split_lines(content@) =~= lines_view(lines@) + split_lines(
            content@.skip(pos as int),
        ));
        assert(lines_view(lines@) + Seq::<Seq<u8>>::empty() =~= lines_view(lines@));
    }
    lines
}

/// Joins lines with a single line feed between adjacent lines.
pub fn join_into_text(lines: &Vec<Vec<u8>>) -> (r: Vec<u8>)
    ensures
        r@ == join_lines(lines_view(lines@)),
{
    let mut r: Vec<u8> = Vec::new();
    let mut i: usize = 0;
    while i < lines.len()
        invariant
            0 <= i <= lines@.len(),
            r@ == join_lines(lines_view(lines@).take(i as int)),
        decreases lines.len() - i,
    {
        if i > 0 {
            r.push(10);
        }
        let mut k: usize = 0;
        let line = &lines[i];
        while k < line.len()
            invariant
                0 <= k <= line@.len(),
                i < lines@.len(),
                line@ == lines@[i as int]@,
                i > 0 ==> r@ == join_lines(lines_view(lines@).take(i as int)) + seq![10u8]
                    + line@.take(k as int),
                i == 0 ==> r@ == line@.take(k as int),
            decreases line.len() - k,
        {
            proof {
                assert(line@.take(k as int).push(line@[k as int]) =~= line@.take(k + 1));
            }
            r.push(line[k]);
            k += 1;
        }
        proof {
            assert(line@.take(line@.len() as int) =~= line@);
            lemma_join_push(lines_view(lines@).take(i as int), line@);
            assert(lines_view(lines@).take(i as int).push(line@) =~= lines_view(lines@).take(
                i + 1,
            ));
        }
        i += 1;
    }
    proof {
        assert(lines_view(lines@).take(lines@.len() as int) =~= lines_view(lines@));
    }
    r
}

} // verus!

//! The days for which a camera has archived footage: the UTC days of its segments' times,
//! and the days that segment file names of the form `seg_YYYYMMDD_HHMMSS.ts` record.
use vstd::prelude::*;
use vstd::utf8::{
    decode_utf8, encode_utf8, encode_utf8_decode_utf8, encode_utf8_valid_utf8, is_char_boundary,
    is_char_boundary_iff_not_is_continuation_byte, is_char_boundary_start_end_of_seq,
    length_of_first_scalar, pop_first_scalar, valid_utf8,
};
use vstd::string::StringSliceAdditionalSpecFns;
use crate::clock::{earliest_timestamp, latest_timestamp};
use crate::order::segments_view;
use crate::recorder::{is_segment_file_name, option_view, segment_file_name, strings_view};
use crate::text::{push_char, push_str, string_of};

verus! {

/// `a` comes before `b` in byte-wise lexicographic order (the order of `str`).
pub open spec fn bytes_before(a: Seq<u8>, b: Seq<u8>) -> bool
    decreases a.len(),
{
    if b.len() == 0 {
        false
    } else if a.len() == 0 {
        true
    } else if a[0] != b[0] {
        a[0] < b[0]
    } else {
        bytes_before(a.skip(1), b.skip(1))
    }
}

/// The order of strings: that of their UTF-8 bytes.
pub open spec fn text_before(a: Seq<char>, b: Seq<char>) -> bool {
    bytes_before(encode_utf8(a), encode_utf8(b))
}

proof fn lemma_bytes_before_irreflexive(a: Seq<u8>)
    ensures
        !bytes_before(a, a),
    decreases a.len(),
{
    if a.len() > 0 {
        lemma_bytes_before_irreflexive(a.skip(1));
    }
}

proof fn lemma_bytes_before_transitive(a: Seq<u8>, b: Seq<u8>, c: Seq<u8>)
    requires
        bytes_before(a, b),
        bytes_before(b, c),
    ensures
        bytes_before(a, c),
    decreases a.len(),
{
    if a.len() > 0 && b.len() > 0 && c.len() > 0 && a[0] == b[0] && b[0] == c[0] {
        lemma_bytes_before_transitive(a.skip(1), b.skip(1), c.skip(1));
    }
}

proof fn lemma_bytes_before_total(a: Seq<u8>, b: Seq<u8>)
    requires
        a != b,
    ensures
        bytes_before(a, b) || bytes_before(b, a),
    decreases a.len(),
{
    if a.len() > 0 && b.len() > 0 && a[0] == b[0] {
        if a.skip(1) == b.skip(1) {
            assert(a =~= seq![a[0]] + a.skip(1));
            assert(b =~= seq![b[0]] + b.skip(1));
        }
        lemma_bytes_before_total(a.skip(1), b.skip(1));
    } else if a.len() == 0 && b.len() == 0 {
        assert(a =~= b);
    }
}

/// Strings in their order: ascending and without repeats.
pub open spec fn strictly_ascending(v: Seq<Seq<char>>) -> bool {
    forall|i: int, j: int| 0 <= i < j < v.len() ==> text_before(#[trigger] v[i], #[trigger] v[j])
}

/// Whether `a` comes before `b`, byte by byte.
fn bytes_less(a: &[u8], b: &[u8]) -> (r: bool)
    ensures
        r == bytes_before(a@, b@),
{
    let mut k: usize = 0;
    assert(a@.skip(0) =~= a@);
    assert(b@.skip(0) =~= b@);
    while k < a.len() && k < b.len() && a[k] == b[k]
        invariant
            k <= a@.len(),
            k <= b@.len(),
            bytes_before(a@, b@) == bytes_before(a@.skip(k as int), b@.skip(k as int)),
        decreases a.len() - k,
    {
        proof {
            assert(a@.skip(k as int).skip(1) =~= a@.skip(k + 1));
            assert(b@.skip(k as int).skip(1) =~= b@.skip(k + 1));
        }
        k = k + 1;
    }
    if k < a.len() && k < b.len() {
        a[k] < b[k]
    } else {
        k < b.len()
    }
}

/// A valid UTF-8 sequence whose first `n` bytes are ASCII has a character boundary at `n`.
proof fn lemma_ascii_prefix_boundary(b: Seq<u8>, n: int)
    requires
        valid_utf8(b),
        0 <= n <= b.len(),
        forall|i: int| 0 <= i < n ==> #[trigger] b[i] < 128,
    ensures
        is_char_boundary(b, n),
    decreases n,
{
    if n > 0 {
        assert(b[0] < 128);
        assert(length_of_first_scalar(b) == 1);
        let p = pop_first_scalar(b);
        assert(p =~= b.subrange(1, b.len() as int));
        assert(valid_utf8(p));
        assert forall|i: int| 0 <= i < n - 1 implies #[trigger] p[i] < 128 by {
            assert(p[i] == b[i + 1]);
        }
        lemma_ascii_prefix_boundary(p, n - 1);
        assert(is_char_boundary(b, n) == is_char_boundary(p, n - 1));
    }
}

/// Two strings neither of which comes before the other are the same string.
proof fn lemma_text_order_equal(a: Seq<char>, b: Seq<char>)
    requires
        !text_before(a, b),
        !text_before(b, a),
    ensures
        a == b,
{
    if encode_utf8(a) != encode_utf8(b) {
        lemma_bytes_before_total(encode_utf8(a), encode_utf8(b));
    }
    encode_utf8_decode_utf8(a);
    encode_utf8_decode_utf8(b);
}

/// Whether date text parses with a chrono format (`NaiveDate::parse_from_str(text,
/// format).is_ok()`): a function of the text and the format alone.
pub uninterp spec fn date_text_parses(text: Seq<char>, format: Seq<char>) -> bool;

/// `chrono::NaiveDate::parse_from_str(text, format).is_ok()`: whether `text` is a calendar
/// date written as `format` prescribes. The verdict is named `date_text_parses`; nothing
/// more of it is stated.
#[verifier::external_body]
fn parses_as_date(text: &str, format: &str) -> (r: bool)
    ensures
        r == date_text_parses(text@, format@),
{
    chrono::NaiveDate::parse_from_str(text, format).is_ok()
}

/// The bytes of `seg_`.
pub open spec fn seg_prefix_bytes() -> Seq<u8> {
    seq![115u8, 101u8, 103u8, 95u8]
}

/// A file name that may carry a date: it begins with `seg_` and has at least 12 bytes.
pub open spec fn dated_name(b: Seq<u8>) -> bool {
    b.len() >= 12 && b.take(4) == seg_prefix_bytes()
}

/// The text of the eight bytes after `seg_` of a file name.
pub open spec fn date_part(name: Seq<char>) -> Seq<char> {
    decode_utf8(encode_utf8(name).subrange(4, 12))
}

/// Whether chrono reads the date part of a file name as a date in the format `%Y%m%d`.
pub open spec fn date_part_parses(name: Seq<char>) -> bool {
    date_text_parses(date_part(name), "%Y%m%d"@)
}

/// The day a file name records, as `YYYY-MM-DD`, given whether its date part parses
/// (`parses`): for a dated name whose date part parses, those eight bytes with `-` after
/// the fourth and the sixth.
pub open spec fn name_day(name: Seq<char>, parses: bool) -> Option<Seq<char>> {
    let b = encode_utf8(name);
    if dated_name(b) && parses {
        Some(
            decode_utf8(b.subrange(4, 8)) + seq!['-'] + decode_utf8(b.subrange(8, 10)) + seq!['-']
                + decode_utf8(b.subrange(10, 12)),
        )
    } else {
        None
    }
}

/// The day a segment file name `seg_YYYYMMDD...` records, when its date part parses.
pub open spec fn archive_date(name: Seq<char>) -> Option<Seq<char>> {
    name_day(name, date_part_parses(name))
}

/// Taking the date bytes of a file name apart stays on character boundaries, given whether
/// its date part parses: byte 12 of a dated name, and bytes 8 and 10 when it parses.
pub open spec fn name_sliceable(name: Seq<char>, parses: bool) -> bool {
    let b = encode_utf8(name);
    dated_name(b) ==> {
        &&& is_char_boundary(b, 12)
        &&& parses ==> is_char_boundary(b, 8) && is_char_boundary(b, 10)
    }
}

/// Taking the date bytes of a file name apart stays on character boundaries.
pub open spec fn archive_name_sliceable(name: Seq<char>) -> bool {
    name_sliceable(name, date_part_parses(name))
}

/// Whether the date part of a name is read at all: the name is dated and byte 12 is a
/// character boundary.
pub open spec fn date_part_readable(name: Seq<char>) -> bool {
    let b = encode_utf8(name);
    dated_name(b) && is_char_boundary(b, 12)
}

/// A boundary of `b` at `start + k` is a boundary of `b[start..]` at `k`, for valid UTF-8
/// with a boundary at `start`.
proof fn lemma_boundary_in_suffix(b: Seq<u8>, t: Seq<u8>, start: int, k: int)
    requires
        valid_utf8(b),
        valid_utf8(t),
        0 <= start <= b.len(),
        t == b.subrange(start, b.len() as int),
        0 <= k <= t.len(),
        is_char_boundary(b, start + k),
    ensures
        is_char_boundary(t, k),
{
    if k == t.len() {
        is_char_boundary_start_end_of_seq(t);
    } else {
        is_char_boundary_iff_not_is_continuation_byte(b, start + k);
        is_char_boundary_iff_not_is_continuation_byte(t, k);
        assert(t[k] == b[start + k]);
    }
}

/// The day a file name records, given whether its date part parses (`None` inside when it
/// records none); the outer `None` stands where taking the name apart would cut a
/// character.
fn name_day_checked(name: &str, parses: bool) -> (r: Option<Option<String>>)
    ensures
        r is None <==> !name_sliceable(name@, parses),
        r matches Some(x) ==> option_view(x) == name_day(name@, parses),
{
    let b = name.as_bytes();
    let ghost bv = encode_utf8(name@);
    assert(b@ == bv);
    proof {
        encode_utf8_valid_utf8(name@);
    }
    if b.len() < 12 || b[0] != 115 || b[1] != 101 || b[2] != 103 || b[3] != 95 {
        assert(!dated_name(bv)) by {
            if bv.len() >= 12 {
                assert(bv.take(4)[0] == bv[0]);
                assert(bv.take(4)[1] == bv[1]);
                assert(bv.take(4)[2] == bv[2]);
                assert(bv.take(4)[3] == bv[3]);
            }
        }
        return Some(None);
    }
    assert(bv.take(4) =~= seg_prefix_bytes());
    if !name.is_char_boundary(12) {
        return None;
    }
    if !parses {
        return Some(None);
    }
    if !name.is_char_boundary(8) || !name.is_char_boundary(10) {
        return None;
    }
    proof {
        lemma_ascii_prefix_boundary(bv, 4);
    }
    let (_, tail) = name.split_at(4);
    let ghost tb = tail.spec_bytes();
    proof {
        encode_utf8_valid_utf8(tail@);
        lemma_boundary_in_suffix(bv, tb, 4, 8);
    }
    let (date, _) = tail.split_at(8);
    let ghost db = date.spec_bytes();
    proof {
        assert(db =~= bv.subrange(4, 12));
        encode_utf8_valid_utf8(date@);
        is_char_boundary_iff_not_is_continuation_byte(bv, 8);
        is_char_boundary_iff_not_is_continuation_byte(db, 4);
        assert(db[4] == bv[8]);
    }
    let (year, rest) = date.split_at(4);
    let ghost rb = rest.spec_bytes();
    proof {
        encode_utf8_valid_utf8(rest@);
        is_char_boundary_iff_not_is_continuation_byte(bv, 10);
        is_char_boundary_iff_not_is_continuation_byte(rb, 2);
        assert(rb[2] == bv[10]);
    }
    let (month, day) = rest.split_at(2);
    proof {
        assert(year.spec_bytes() =~= bv.subrange(4, 8));
        assert(month.spec_bytes() =~= bv.subrange(8, 10));
        assert(day.spec_bytes() =~= bv.subrange(10, 12));
        encode_utf8_decode_utf8(year@);
        encode_utf8_decode_utf8(month@);
        encode_utf8_decode_utf8(day@);
    }
    let mut out = string_of(year);
    push_char(&mut out, '-');
    push_str(&mut out, month);
    push_char(&mut out, '-');
    push_str(&mut out, day);
    Some(Some(out))
}

/// Whether the date part of a file name parses as `%Y%m%d`, read where it is read at all
/// (`false` for any other name).
fn date_part_verdict(name: &str) -> (r: bool)
    ensures
        date_part_readable(name@) ==> r == date_part_parses(name@),
{
    let b = name.as_bytes();
    let ghost bv = encode_utf8(name@);
    assert(b@ == bv);
    proof {
        encode_utf8_valid_utf8(name@);
    }
    if b.len() < 12 || b[0] != 115 || b[1] != 101 || b[2] != 103 || b[3] != 95 {
        assert(!dated_name(bv)) by {
            if bv.len() >= 12 {
                assert(bv.take(4)[0] == bv[0]);
                assert(bv.take(4)[1] == bv[1]);
                assert(bv.take(4)[2] == bv[2]);
                assert(bv.take(4)[3] == bv[3]);
            }
        }
        return false;
    }
    assert(bv.take(4) =~= seg_prefix_bytes());
    if !name.is_char_boundary(12) {
        return false;
    }
    proof {
        lemma_ascii_prefix_boundary(bv, 4);
    }
    let (_, tail) = name.split_at(4);
    let ghost tb = tail.spec_bytes();
    proof {
        encode_utf8_valid_utf8(tail@);
        lemma_boundary_in_suffix(bv, tb, 4, 8);
    }
    let (date, _) = tail.split_at(8);
    proof {
        assert(date.spec_bytes() =~= bv.subrange(4, 12));
        encode_utf8_decode_utf8(date@);
    }
    parses_as_date(date, "%Y%m%d")
}

/// Adds `s` to an ascending list of strings, unless it is already there.
fn insert_ascending(v: &mut Vec<String>, s: String)
    requires
        strictly_ascending(strings_view(old(v)@)),
    ensures
        strictly_ascending(strings_view(final(v)@)),
        forall|d: Seq<char>| #[trigger] strings_view(final(v)@).contains(d) <==> (strings_view(
            old(v)@,
        ).contains(d) || d == s@),
{
    let ghost old_v = strings_view(v@);
    let mut p: usize = 0;
    while p < v.len() && bytes_less(v[p].as_str().as_bytes(), s.as_str().as_bytes())
        invariant
            old_v == strings_view(v@),
            strictly_ascending(old_v),
            p <= v@.len(),
            forall|k: int| 0 <= k < p ==> text_before(#[trigger] old_v[k], s@),
        decreases v.len() - p,
    {
        p = p + 1;
    }
    if p < v.len() && !bytes_less(s.as_str().as_bytes(), v[p].as_str().as_bytes()) {
        proof {
            lemma_text_order_equal(old_v[p as int], s@);
            assert forall|d: Seq<char>| #[trigger] old_v.contains(d) <==> (old_v.contains(d) || d == s@) by {
                if d == s@ {
                    assert(old_v[p as int] == d);
                }
            }
        }
        return;
    }
    let ghost sv = s@;
    v.insert(p, s);
    proof {
        let nv = strings_view(v@);
        assert(nv =~= old_v.insert(p as int, sv));
        assert forall|i: int, j: int| 0 <= i < j < nv.len() implies text_before(#[trigger] nv[i], #[trigger] nv[j]) by {
            if j < p {
                assert(nv[i] == old_v[i] && nv[j] == old_v[j]);
            } else if j == p {
                assert(nv[i] == old_v[i]);
            } else if i < p {
                assert(nv[i] == old_v[i] && nv[j] == old_v[j - 1]);
                assert(text_before(old_v[i], sv));
                if j - 1 > p {
                    assert(text_before(old_v[p as int], old_v[j - 1]));
                    lemma_bytes_before_transitive(encode_utf8(sv), encode_utf8(old_v[p as int]), encode_utf8(old_v[j - 1]));
                }
                lemma_bytes_before_transitive(encode_utf8(old_v[i]), encode_utf8(sv), encode_utf8(old_v[j - 1]));
            } else if i == p {
                assert(nv[j] == old_v[j - 1]);
                if j - 1 > p {
                    assert(text_before(old_v[p as int], old_v[j - 1]));
                    lemma_bytes_before_transitive(encode_utf8(sv), encode_utf8(old_v[p as int]), encode_utf8(old_v[j - 1]));
                }
            } else {
                assert(nv[i] == old_v[i - 1] && nv[j] == old_v[j - 1]);
            }
        }
        assert forall|d: Seq<char>| #[trigger] nv.contains(d) <==> (old_v.contains(d) || d == sv) by {
            if nv.contains(d) {
                let k = choose|k: int| 0 <= k < nv.len() && nv[k] == d;
                if k < p {
                    assert(old_v[k] == d);
                } else if k > p {
                    assert(old_v[k - 1] == d);
                }
            }
            if old_v.contains(d) {
                let k = choose|k: int| 0 <= k < old_v.len() && old_v[k] == d;
                if k < p {
                    assert(nv[k] == d);
                } else {
                    assert(nv[k + 1] == d);
                }
            }
            if d == sv {
                assert(nv[p as int] == d);
            }
        }
    }
}

/// Listing law: an ascending list without repeats is determined by what it holds, so the
/// list of archive days is the only such list of those days.
pub proof fn lemma_ascending_unique(a: Seq<Seq<char>>, b: Seq<Seq<char>>)
    requires
        strictly_ascending(a),
        strictly_ascending(b),
        forall|d: Seq<char>| #![trigger a.contains(d)] #![trigger b.contains(d)] a.contains(d) <==> b.contains(d),
    ensures
        a == b,
    decreases a.len() + b.len(),
{
    if a.len() == 0 || b.len() == 0 {
        if a.len() > 0 {
            assert(a.contains(a[0]));
            assert(b.contains(a[0]));
            assert(false);
        }
        if b.len() > 0 {
            assert(b.contains(b[0]));
            assert(a.contains(b[0]));
            assert(false);
        }
        assert(a =~= b);
    } else {
        assert(a.contains(a[0]));
        assert(b.contains(b[0]));
        let k = choose|k: int| 0 <= k < b.len() && b[k] == a[0];
        let m = choose|m: int| 0 <= m < a.len() && a[m] == b[0];
        if k > 0 && m > 0 {
            assert(text_before(b[0], b[k]));
            assert(text_before(a[0], a[m]));
            lemma_bytes_before_transitive(encode_utf8(a[0]), encode_utf8(b[0]), encode_utf8(a[0]));
            lemma_bytes_before_irreflexive(encode_utf8(a[0]));
        }
        if k > 0 && m == 0 {
            assert(text_before(b[0], b[k]));
            lemma_bytes_before_irreflexive(encode_utf8(a[0]));
        }
        if k == 0 && m > 0 {
            assert(text_before(a[0], a[m]));
            lemma_bytes_before_irreflexive(encode_utf8(a[0]));
        }
        assert(a[0] == b[0]);
        let a1 = a.drop_first();
        let b1 = b.drop_first();
        assert forall|d: Seq<char>| #![trigger a1.contains(d)] #![trigger b1.contains(d)] a1.contains(d) <==> b1.contains(d) by {
            if a1.contains(d) {
                let i = choose|i: int| 0 <= i < a1.len() && a1[i] == d;
                assert(a[i + 1] == d);
                assert(text_before(a[0], a[i + 1]));
                lemma_bytes_before_irreflexive(encode_utf8(d));
                assert(a.contains(d));
                let j = choose|j: int| 0 <= j < b.len() && b[j] == d;
                assert(j != 0);
                assert(b1[j - 1] == d);
            }
            if b1.contains(d) {
                let i = choose|i: int| 0 <= i < b1.len() && b1[i] == d;
                assert(b[i + 1] == d);
                assert(text_before(b[0], b[i + 1]));
                lemma_bytes_before_irreflexive(encode_utf8(d));
                assert(b.contains(d));
                let j = choose|j: int| 0 <= j < a.len() && a[j] == d;
                assert(j != 0);
                assert(a1[j - 1] == d);
            }
        }
        lemma_ascending_unique(a1, b1);
        assert(a =~= seq![a[0]] + a1);
        assert(b =~= seq![b[0]] + b1);
    }
}

/// Name for the text that chrono writes for the UTC calendar day of Unix time `t`
/// (`DateTime::from_timestamp(t, 0)`, then `date_naive().to_string()`): `YYYY-MM-DD` for the
/// years 0 to 9999.
pub uninterp spec fn utc_day_text(t: i64) -> Seq<char>;

/// The UTC calendar day of Unix time `t` as chrono writes it, or `None` where `t` lies
/// outside the range of `DateTime<Utc>`.
pub open spec fn utc_day_of(t: i64) -> Option<Seq<char>> {
    if earliest_timestamp() <= t <= latest_timestamp() {
        Some(utc_day_text(t))
    } else {
        None
    }
}

/// `chrono::DateTime::from_timestamp(t, 0)` and, for the date-time it gives, the text of
/// its UTC date (`date_naive().to_string()`). `from_timestamp` gives a date-time exactly
/// when `t` lies between the earliest and the latest time `DateTime<Utc>` holds; the text
/// of the day is named `utc_day_text` and nothing more of it is stated.
#[verifier::external_body]
fn utc_day(t: i64) -> (r: Option<String>)
    ensures
        r is Some <==> earliest_timestamp() <= t <= latest_timestamp(),
        r matches Some(s) ==> s@ == utc_day_text(t),
{
    match chrono::DateTime::from_timestamp(t, 0) {
        Some(dt) => Some(dt.date_naive().to_string()),
        None => None,
    }
}

/// The views of a list of optional strings.
pub open spec fn days_view(v: Seq<Option<String>>) -> Seq<Option<Seq<char>>> {
    v.map_values(|o: Option<String>| option_view(o))
}

/// Segment `i` (a `.ts` file) has footage of day `d`, given the UTC days of the segments'
/// times (`days`) and whether their date parts parse (`verdicts`): its time falls on `d`,
/// or its name records `d`.
pub open spec fn footage_given_at(
    segs: Seq<(i64, Seq<char>)>,
    days: Seq<Option<Seq<char>>>,
    verdicts: Seq<bool>,
    i: int,
    d: Seq<char>,
) -> bool {
    &&& segment_file_name(segs[i].1)
    &&& (days[i] == Some(d) || name_day(segs[i].1, verdicts[i]) == Some(d))
}

/// One of the first `n` segments has footage of day `d` (given days and verdicts).
pub open spec fn footage_given_before(
    segs: Seq<(i64, Seq<char>)>,
    days: Seq<Option<Seq<char>>>,
    verdicts: Seq<bool>,
    n: int,
    d: Seq<char>,
) -> bool {
    exists|i: int| 0 <= i < n && #[trigger] footage_given_at(segs, days, verdicts, i, d)
}

/// The names of the `.ts` segments can be taken apart (given verdicts).
pub open spec fn names_sliceable_given(segs: Seq<(i64, Seq<char>)>, verdicts: Seq<bool>) -> bool {
    forall|i: int|
        0 <= i < segs.len() && segment_file_name(segs[i].1) ==> #[trigger] name_sliceable(
            segs[i].1,
            verdicts[i],
        )
}

/// Segment `i` (a `.ts` file) has footage of day `d`: its time falls on `d` in UTC, or its
/// name `seg_YYYYMMDD...` records `d`.
pub open spec fn footage_at(segs: Seq<(i64, Seq<char>)>, i: int, d: Seq<char>) -> bool {
    &&& segment_file_name(segs[i].1)
    &&& (utc_day_of(segs[i].0) == Some(d) || archive_date(segs[i].1) == Some(d))
}

/// Some segment of `segs` has footage of day `d`.
pub open spec fn footage_day(segs: Seq<(i64, Seq<char>)>, d: Seq<char>) -> bool {
    exists|i: int| 0 <= i < segs.len() && #[trigger] footage_at(segs, i, d)
}

/// The names of the `.ts` segments can be taken apart.
pub open spec fn names_sliceable(segs: Seq<(i64, Seq<char>)>) -> bool {
    forall|i: int|
        0 <= i < segs.len() && segment_file_name(segs[i].1) ==> #[trigger] archive_name_sliceable(
            segs[i].1,
        )
}

proof fn lemma_footage_step(
    segs: Seq<(i64, Seq<char>)>,
    days: Seq<Option<Seq<char>>>,
    verdicts: Seq<bool>,
    n: int,
    d: Seq<char>,
)
    requires
        0 <= n,
    ensures
        footage_given_before(segs, days, verdicts, n + 1, d) <==> (footage_given_before(
            segs,
            days,
            verdicts,
            n,
            d,
        ) || footage_given_at(segs, days, verdicts, n, d)),
{
    if footage_given_before(segs, days, verdicts, n + 1, d) {
        let k = choose|k: int| 0 <= k < n + 1 && #[trigger] footage_given_at(segs, days, verdicts, k, d);
        if k < n {
            assert(footage_given_before(segs, days, verdicts, n, d));
        }
    }
    if footage_given_before(segs, days, verdicts, n, d) {
        let k = choose|k: int| 0 <= k < n && #[trigger] footage_given_at(segs, days, verdicts, k, d);
        assert(footage_given_before(segs, days, verdicts, n + 1, d));
    }
    if footage_given_at(segs, days, verdicts, n, d) {
        assert(footage_given_before(segs, days, verdicts, n + 1, d));
    }
}

/// The days for which the segments of a camera (time and file name of each) hold footage,
/// given the UTC day of each segment's time (`utc_days`, `None` where there is none) and
/// whether the date part of each name parses (`verdicts`): every day on which the time of a
/// `.ts` segment falls, and every day that a `.ts` segment named `seg_YYYYMMDD...` records,
/// as `YYYY-MM-DD`, in ascending order without repeats. `None` where taking a name apart
/// would cut a character.
pub fn archive_days_given(
    segments: &Vec<(i64, String)>,
    utc_days: &Vec<Option<String>>,
    verdicts: &Vec<bool>,
) -> (r: Option<Vec<String>>)
    requires
        utc_days@.len() == segments@.len(),
        verdicts@.len() == segments@.len(),
    ensures
        r is None <==> !names_sliceable_given(segments_view(segments@), verdicts@),
        r matches Some(days) ==> {
            &&& strictly_ascending(strings_view(days@))
            &&& forall|d: Seq<char>| #[trigger] strings_view(days@).contains(d) <==> footage_given_before(
                segments_view(segments@),
                days_view(utc_days@),
                verdicts@,
                segments@.len() as int,
                d,
            )
        },
{
    let ghost sv = segments_view(segments@);
    let ghost dv = days_view(utc_days@);
    let mut days: Vec<String> = Vec::new();
    for i in 0..segments.len()
        invariant
            sv == segments_view(segments@),
            dv == days_view(utc_days@),
            utc_days@.len() == segments@.len(),
            verdicts@.len() == segments@.len(),
            strictly_ascending(strings_view(days@)),
            forall|k: int|
                0 <= k < i && segment_file_name(sv[k].1) ==> #[trigger] name_sliceable(
                    sv[k].1,
                    verdicts@[k],
                ),
            forall|d: Seq<char>| #[trigger] strings_view(days@).contains(d) <==> footage_given_before(
                sv,
                dv,
                verdicts@,
                i as int,
                d,
            ),
    {
        let ghost before = strings_view(days@);
        let name = segments[i].1.as_str();
        assert(name@ == sv[i as int].1);
        assert(dv[i as int] == option_view(utc_days@[i as int]));
        if is_segment_file_name(name) {
            match &utc_days[i] {
                Some(day) => {
                    insert_ascending(&mut days, day.clone());
                },
                None => {},
            }
            let ghost mid = strings_view(days@);
            match name_day_checked(name, verdicts[i]) {
                None => {
                    assert(!name_sliceable(sv[i as int].1, verdicts@[i as int]));
                    return None;
                },
                Some(Some(x)) => {
                    insert_ascending(&mut days, x);
                },
                Some(None) => {},
            }
            proof {
                assert forall|d: Seq<char>| #[trigger] strings_view(days@).contains(d) <==> footage_given_before(
                    sv,
                    dv,
                    verdicts@,
                    i + 1,
                    d,
                ) by {
                    lemma_footage_step(sv, dv, verdicts@, i as int, d);
                }
            }
        } else {
            proof {
                assert forall|d: Seq<char>| #[trigger] strings_view(days@).contains(d) <==> footage_given_before(
                    sv,
                    dv,
                    verdicts@,
                    i + 1,
                    d,
                ) by {
                    lemma_footage_step(sv, dv, verdicts@, i as int, d);
                }
            }
        }
    }
    Some(days)
}

/// Reading a name with the true verdict of its date part, where that part is read at all,
/// gives what reading it with the verdict chrono gives would.
proof fn lemma_verdict_agrees(name: Seq<char>, v: bool)
    requires
        date_part_readable(name) ==> v == date_part_parses(name),
    ensures
        name_sliceable(name, v) == archive_name_sliceable(name),
        name_sliceable(name, v) ==> name_day(name, v) == archive_date(name),
{
}

/// The days for which the segments of a camera (time and file name of each) hold footage:
/// every UTC calendar day on which the time of a `.ts` segment falls, and every day that a
/// `.ts` segment named `seg_YYYYMMDD...` records (its eight bytes after `seg_` parse as a
/// date), as `YYYY-MM-DD`, in ascending order without repeats. `None` where taking a name
/// apart would cut a character.
pub fn archive_dates_checked(segments: &Vec<(i64, String)>) -> (r: Option<Vec<String>>)
    ensures
        r is None <==> !names_sliceable(segments_view(segments@)),
        r matches Some(days) ==> {
            &&& strictly_ascending(strings_view(days@))
            &&& forall|d: Seq<char>| #[trigger] strings_view(days@).contains(d) <==> footage_day(
                segments_view(segments@),
                d,
            )
        },
{
    let ghost sv = segments_view(segments@);
    let mut utc_days: Vec<Option<String>> = Vec::new();
    let mut verdicts: Vec<bool> = Vec::new();
    for i in 0..segments.len()
        invariant
            sv == segments_view(segments@),
            utc_days@.len() == i,
            verdicts@.len() == i,
            forall|k: int| 0 <= k < i ==> #[trigger] days_view(utc_days@)[k] == utc_day_of(sv[k].0),
            forall|k: int|
                0 <= k < i ==> (date_part_readable(sv[k].1) ==> #[trigger] verdicts@[k]
                    == date_part_parses(sv[k].1)),
    {
        let day = utc_day(segments[i].0);
        let v = date_part_verdict(segments[i].1.as_str());
        let ghost before = utc_days@;
        let ghost dview = option_view(day);
        utc_days.push(day);
        verdicts.push(v);
        assert(days_view(utc_days@) =~= days_view(before).push(dview));
    }
    let r = archive_days_given(segments, &utc_days, &verdicts);
    proof {
        let dv = days_view(utc_days@);
        let n = segments@.len() as int;
        assert forall|k: int| 0 <= k < n implies name_sliceable(sv[k].1, verdicts@[k])
            == archive_name_sliceable(sv[k].1) && (name_sliceable(sv[k].1, verdicts@[k]) ==> name_day(
            sv[k].1,
            verdicts@[k],
        ) == archive_date(sv[k].1)) && dv[k] == utc_day_of(sv[k].0) by {
            assert(verdicts@[k] == verdicts@[k]);
            lemma_verdict_agrees(sv[k].1, verdicts@[k]);
        }
        if names_sliceable_given(sv, verdicts@) != names_sliceable(sv) {
            if names_sliceable_given(sv, verdicts@) {
                let k = choose|k: int| 0 <= k < n && segment_file_name(sv[k].1) && !#[trigger] archive_name_sliceable(sv[k].1);
                assert(name_sliceable(sv[k].1, verdicts@[k]));
            } else {
                let k = choose|k: int| 0 <= k < n && segment_file_name(sv[k].1) && !#[trigger] name_sliceable(sv[k].1, verdicts@[k]);
                assert(archive_name_sliceable(sv[k].1));
            }
        }
        if r is Some {
            assert forall|d: Seq<char>| footage_given_before(sv, dv, verdicts@, n, d) <==> #[trigger] footage_day(sv, d) by {
                if footage_given_before(sv, dv, verdicts@, n, d) {
                    let k = choose|k: int| 0 <= k < n && #[trigger] footage_given_at(sv, dv, verdicts@, k, d);
                    assert(name_sliceable(sv[k].1, verdicts@[k]));
                    assert(footage_at(sv, k, d));
                }
                if footage_day(sv, d) {
                    let k = choose|k: int| 0 <= k < n && #[trigger] footage_at(sv, k, d);
                    assert(name_sliceable(sv[k].1, verdicts@[k]));
                    assert(footage_given_at(sv, dv, verdicts@, k, d));
                }
            }
        }
    }
    r
}

/// The days for which the segments of a camera (time and file name of each) hold footage:
/// every UTC calendar day on which the time of a `.ts` segment falls, and every day that a
/// `.ts` segment named `seg_YYYYMMDD...` records, as `YYYY-MM-DD`, in ascending order
/// without repeats.
pub fn archive_dates(segments: &Vec<(i64, String)>) -> (days: Vec<String>)
    requires
        names_sliceable(segments_view(segments@)),
    ensures
        strictly_ascending(strings_view(days@)),
        forall|d: Seq<char>| #[trigger] strings_view(days@).contains(d) <==> footage_day(
            segments_view(segments@),
            d,
        ),
{
    match archive_dates_checked(segments) {
        Some(days) => days,
        None => Vec::new(),
    }
}

} // verus!

//! Byte-delimited record scanning.
//!
//! A record is `<key>;<value>\n`: the key bytes up to the first `;`, then a
//! fixed-point value, then the terminator. [`spec_scan`] gives the meaning
//! of a byte window as either its full record sequence or the offset of the
//! first malformed record. The executable scanner locates the separator
//! with a vectorized byte search and computes indices only; it never copies
//! or allocates.

use vstd::prelude::*;
use crate::fixed::{
    spec_parse_value, parse_temperature, lemma_parse_value_shape, lemma_parse_value_extend,
    lemma_parse_value_restrict,
};

verus! {

/// The key/value separator byte, `;`.
pub const SEP: u8 = 59;

/// The record terminator byte, `\n`.
pub const TERM: u8 = 10;

/// Index of the first occurrence of `b` in `s[lo..hi]`, if any.
pub open spec fn first_in(s: Seq<u8>, lo: int, hi: int, b: u8) -> Option<int>
    decreases hi - lo,
{
    if lo >= hi {
        None
    } else if s[lo] == b {
        Some(lo)
    } else {
        first_in(s, lo + 1, hi, b)
    }
}

/// What a found index means: the byte matches and no earlier byte does.
pub proof fn lemma_first_in_char(s: Seq<u8>, lo: int, hi: int, b: u8)
    ensures
        match first_in(s, lo, hi, b) {
            Some(i) => lo <= i < hi && s[i] == b
                && forall|x: int| lo <= x < i ==> s[x] != b,
            None => forall|x: int| lo <= x < hi ==> s[x] != b,
        },
    decreases hi - lo,
{
    if lo < hi && s[lo] != b {
        lemma_first_in_char(s, lo + 1, hi, b);
    }
}

/// The converse: a matching byte with no earlier match is the result.
pub proof fn lemma_first_in_from(s: Seq<u8>, lo: int, hi: int, b: u8, i: int)
    requires
        lo <= i < hi,
        s[i] == b,
        forall|x: int| lo <= x < i ==> s[x] != b,
    ensures
        first_in(s, lo, hi, b) == Some(i),
    decreases hi - lo,
{
    if lo < i {
        lemma_first_in_from(s, lo + 1, hi, b, i);
    }
}

/// No matching byte in the window means no result.
pub proof fn lemma_first_in_none(s: Seq<u8>, lo: int, hi: int, b: u8)
    requires
        forall|x: int| lo <= x < hi ==> s[x] != b,
    ensures
        first_in(s, lo, hi, b) is None,
    decreases hi - lo,
{
    if lo < hi {
        lemma_first_in_none(s, lo + 1, hi, b);
    }
}

/// A found index stays the result when the window is grown or shrunk
/// around it.
pub proof fn lemma_first_in_window(s: Seq<u8>, lo: int, hi: int, hi2: int, b: u8)
    requires
        first_in(s, lo, hi, b) is Some,
        first_in(s, lo, hi, b)->0 < hi2,
    ensures
        first_in(s, lo, hi2, b) == first_in(s, lo, hi, b),
{
    let i = first_in(s, lo, hi, b)->0;
    lemma_first_in_char(s, lo, hi, b);
    lemma_first_in_from(s, lo, hi2, b, i);
}

/// The parsed triple behind a successful record parse.
pub open spec fn rec_of(r: Option<(Seq<u8>, int, int)>) -> (Seq<u8>, int, int) {
    r->0
}

/// One record at `pos` within `s[..end]`: its key bytes, scaled value, and
/// the index just past its terminator; or `None` when the record is
/// malformed (no separator, a terminator before the separator, a value of
/// an unsupported shape, or a missing terminator).
pub open spec fn spec_rec_at(s: Seq<u8>, pos: int, end: int) -> Option<(Seq<u8>, int, int)> {
    match first_in(s, pos, end, SEP) {
        None => None,
        Some(sep) => {
            if first_in(s, pos, sep, TERM) is Some {
                None
            } else {
                match spec_parse_value(s, sep + 1, end) {
                    None => None,
                    Some((v, t)) => {
                        if t < end && s[t] == TERM {
                            Some((s.subrange(pos, sep), v, t + 1))
                        } else {
                            None
                        }
                    },
                }
            }
        },
    }
}

/// Shape of a parsed record: it spans at least five bytes, stays in the
/// window, carries a value in range, and holds no terminator before its
/// final byte.
pub proof fn lemma_rec_at_shape(s: Seq<u8>, pos: int, end: int)
    requires
        pos <= end,
        spec_rec_at(s, pos, end) is Some,
    ensures
        pos + 5 <= rec_of(spec_rec_at(s, pos, end)).2 <= end,
        crate::agg::VAL_MIN as int <= rec_of(spec_rec_at(s, pos, end)).1 <= crate::agg::VAL_MAX as int,
        forall|x: int| pos <= x < rec_of(spec_rec_at(s, pos, end)).2 - 1 ==> s[x] != TERM,
        s[rec_of(spec_rec_at(s, pos, end)).2 - 1] == TERM,
{
    let sep = first_in(s, pos, end, SEP)->0;
    lemma_first_in_char(s, pos, end, SEP);
    lemma_first_in_char(s, pos, sep, TERM);
    lemma_parse_value_shape(s, sep + 1, end);
    let t = spec_parse_value(s, sep + 1, end)->Some_0.1;
    assert forall|x: int| pos <= x < t implies s[x] != TERM by {
        if x < sep {
        } else if x == sep {
        } else {
            assert(s[x] == 45u8 || s[x] == 46u8 || crate::fixed::is_digit(s[x]));
        }
    }
}

/// A record parsed in a window is parsed the same in any larger window.
pub proof fn lemma_rec_at_extend(s: Seq<u8>, pos: int, end: int, end2: int)
    requires
        pos <= end <= end2,
        spec_rec_at(s, pos, end) is Some,
    ensures
        spec_rec_at(s, pos, end2) == spec_rec_at(s, pos, end),
{
    let sep = first_in(s, pos, end, SEP)->0;
    lemma_first_in_char(s, pos, end, SEP);
    lemma_first_in_window(s, pos, end, end2, SEP);
    lemma_parse_value_shape(s, sep + 1, end);
    lemma_parse_value_extend(s, sep + 1, end, end2);
}

/// A record parsed in a window is parsed the same in any window that still
/// contains it.
pub proof fn lemma_rec_at_restrict(s: Seq<u8>, pos: int, end: int, end2: int)
    requires
        pos <= end,
        spec_rec_at(s, pos, end) is Some,
        rec_of(spec_rec_at(s, pos, end)).2 <= end2 <= end,
    ensures
        spec_rec_at(s, pos, end2) == spec_rec_at(s, pos, end),
{
    let sep = first_in(s, pos, end, SEP)->0;
    lemma_first_in_char(s, pos, end, SEP);
    lemma_parse_value_shape(s, sep + 1, end);
    let t = spec_parse_value(s, sep + 1, end)->Some_0.1;
    lemma_first_in_window(s, pos, end, end2, SEP);
    lemma_parse_value_restrict(s, sep + 1, end, end2);
}

/// The meaning of a byte window: all its records, or the offset of the
/// first malformed one.
pub enum ScanRes {
    /// Every record parsed; the keys and values in input order.
    Recs(Seq<(Seq<u8>, int)>),
    /// Parsing failed at the record starting at this offset.
    Fail(int),
}

/// Scan the window `s[pos..end]` record by record.
pub open spec fn spec_scan(s: Seq<u8>, pos: int, end: int) -> ScanRes
    decreases end - pos,
{
    if pos >= end {
        ScanRes::Recs(Seq::empty())
    } else {
        match spec_rec_at(s, pos, end) {
            None => ScanRes::Fail(pos),
            Some((k, v, nxt)) => {
                if pos < nxt <= end {
                    match spec_scan(s, nxt, end) {
                        ScanRes::Recs(rs) => ScanRes::Recs(seq![(k, v)] + rs),
                        ScanRes::Fail(o) => ScanRes::Fail(o),
                    }
                } else {
                    ScanRes::Fail(pos)
                }
            },
        }
    }
}

/// Prefix a record sequence onto a scan outcome.
pub open spec fn scan_prepend(rs: Seq<(Seq<u8>, int)>, sr: ScanRes) -> ScanRes {
    match sr {
        ScanRes::Recs(r) => ScanRes::Recs(rs + r),
        ScanRes::Fail(o) => ScanRes::Fail(o),
    }
}

/// A fully parsed window followed by more bytes scans as its records
/// prefixed onto the scan of the rest.
pub proof fn lemma_scan_extend(s: Seq<u8>, lo: int, m: int, hi: int)
    requires
        lo <= m <= hi,
        spec_scan(s, lo, m) is Recs,
    ensures
        spec_scan(s, lo, hi) == scan_prepend(spec_scan(s, lo, m)->Recs_0, spec_scan(s, m, hi)),
    decreases m - lo,
{
    if lo >= m {
        assert(spec_scan(s, lo, m)->Recs_0 =~= Seq::<(Seq<u8>, int)>::empty());
        match spec_scan(s, m, hi) {
            ScanRes::Recs(r) => {
                assert(Seq::<(Seq<u8>, int)>::empty() + r =~= r);
            },
            ScanRes::Fail(_) => {},
        }
    } else {
        let (k, v, nxt) = spec_rec_at(s, lo, m)->0;
        lemma_rec_at_shape(s, lo, m);
        lemma_rec_at_extend(s, lo, m, hi);
        lemma_scan_extend(s, nxt, m, hi);
        let r1 = spec_scan(s, nxt, m)->Recs_0;
        match spec_scan(s, m, hi) {
            ScanRes::Recs(r2) => {
                assert(seq![(k, v)] + (r1 + r2) =~= (seq![(k, v)] + r1) + r2);
            },
            ScanRes::Fail(_) => {},
        }
    }
}

/// A fully parsed window splits at any inner terminator boundary: both
/// sides parse, and their records concatenate to the whole.
pub proof fn lemma_scan_split(s: Seq<u8>, lo: int, m: int, hi: int)
    requires
        lo <= m <= hi,
        spec_scan(s, lo, hi) is Recs,
        m == lo || m == hi || s[m - 1] == TERM,
    ensures
        spec_scan(s, lo, m) is Recs,
        spec_scan(s, m, hi) is Recs,
        spec_scan(s, lo, hi)->Recs_0
            == spec_scan(s, lo, m)->Recs_0 + spec_scan(s, m, hi)->Recs_0,
    decreases m - lo,
{
    if m <= lo {
        assert(spec_scan(s, lo, m)->Recs_0 =~= Seq::<(Seq<u8>, int)>::empty());
        assert(spec_scan(s, lo, hi)->Recs_0
            =~= Seq::<(Seq<u8>, int)>::empty() + spec_scan(s, m, hi)->Recs_0);
    } else {
        // lo < m <= hi, and the window is nonempty
        let (k, v, nxt) = spec_rec_at(s, lo, hi)->0;
        lemma_rec_at_shape(s, lo, hi);
        if nxt > m {
            // m would fall strictly inside the first record, but the only
            // terminator in it is its last byte
            assert(m == hi || s[m - 1] == TERM);
            assert(m - 1 < nxt - 1);
            assert(s[m - 1] != TERM);
            assert(false);
        }
        lemma_rec_at_restrict(s, lo, hi, m);
        lemma_scan_split(s, nxt, m, hi);
        let r1 = spec_scan(s, nxt, m)->Recs_0;
        let r2 = spec_scan(s, m, hi)->Recs_0;
        assert(spec_scan(s, nxt, hi)->Recs_0 == r1 + r2);
        assert(spec_scan(s, lo, m) is Recs);
        assert(spec_scan(s, lo, m)->Recs_0 == seq![(k, v)] + r1);
        assert((seq![(k, v)] + (r1 + r2)) =~= (seq![(k, v)] + r1) + r2);
    }
}

/// A record malformed in a window whose last byte is a terminator stays
/// malformed when the window grows: nothing past an aligned boundary can
/// complete it.
pub proof fn lemma_rec_fail_extend(s: Seq<u8>, o: int, m: int, hi: int)
    requires
        o < m <= hi,
        m == hi || s[m - 1] == TERM,
        spec_rec_at(s, o, m) is None,
    ensures
        spec_rec_at(s, o, hi) is None,
{
    if m == hi {
    } else if spec_rec_at(s, o, hi) is Some {
        lemma_first_in_char(s, o, m, SEP);
        lemma_first_in_char(s, o, hi, SEP);
        let sep2 = first_in(s, o, hi, SEP)->0;
        match first_in(s, o, m, SEP) {
            None => {
                // every byte before the separator found in the larger
                // window includes the terminator at m - 1
                assert(sep2 >= m);
                lemma_first_in_char(s, o, sep2, TERM);
                if first_in(s, o, sep2, TERM) is None {
                    assert(s[m - 1] != TERM);
                }
                assert(spec_rec_at(s, o, hi) is None);
            },
            Some(sep) => {
                assert(sep < m);
                lemma_first_in_window(s, o, m, hi, SEP);
                assert(sep2 == sep);
                if first_in(s, o, sep, TERM) is Some {
                } else {
                    // the value parse succeeded in the larger window
                    let t2 = rec_of(spec_rec_at(s, o, hi)).2 - 1;
                    lemma_parse_value_shape(s, sep + 1, hi);
                    assert(spec_parse_value(s, sep + 1, hi)->Some_0.1 == t2);
                    if t2 < m {
                        // the whole value fits in the small window too
                        lemma_parse_value_restrict(s, sep + 1, hi, m);
                        assert(spec_rec_at(s, o, m) is Some);
                    } else {
                        // the terminator at m - 1 would have to be a value
                        // byte, which the shapes exclude
                        assert(sep + 1 <= m - 1 < t2);
                        assert(s[m - 1] == 45u8 || s[m - 1] == 46u8 || crate::fixed::is_digit(
                            s[m - 1],
                        ));
                    }
                }
            },
        }
    }
}

/// A scan that fails in a window whose end is an aligned boundary fails at
/// the same offset in any larger window.
pub proof fn lemma_scan_fail_extend(s: Seq<u8>, lo: int, m: int, hi: int, o: int)
    requires
        lo <= m <= hi,
        m == hi || s[m - 1] == TERM,
        spec_scan(s, lo, m) == ScanRes::Fail(o),
    ensures
        spec_scan(s, lo, hi) == ScanRes::Fail(o),
    decreases m - lo,
{
    match spec_rec_at(s, lo, m) {
        None => {
            lemma_rec_fail_extend(s, lo, m, hi);
        },
        Some((k, v, nxt)) => {
            lemma_rec_at_shape(s, lo, m);
            lemma_rec_at_extend(s, lo, m, hi);
            lemma_scan_fail_extend(s, nxt, m, hi, o);
        },
    }
}

/// Relies on `memchr::memchr`: returns the index of the first occurrence
/// of `needle` in `haystack`, or `None` when it does not occur; a returned
/// index is less than `haystack.len()`.
#[verifier::external_body]
pub(crate) fn find_byte(haystack: &[u8], needle: u8) -> (r: Option<usize>)
    ensures
        match r {
            Some(i) => (i as int) < haystack@.len() && haystack@[i as int] == needle
                && forall|x: int| 0 <= x < i ==> haystack@[x] != needle,
            None => forall|x: int| 0 <= x < haystack@.len() ==> haystack@[x] != needle,
        },
{
    memchr::memchr(needle, haystack)
}

/// Locate and decode the record starting at `pos` in `input[..end]`.
///
/// Returns the separator index, the scaled value, and the index just past
/// the terminator; `None` when the record is malformed.
pub fn next_record(input: &[u8], pos: usize, end: usize) -> (r: Option<(usize, i64, usize)>)
    requires
        pos < end <= input@.len(),
    ensures
        match r {
            Some((sep, v, nxt)) => {
                &&& spec_rec_at(input@, pos as int, end as int)
                    == Some((input@.subrange(pos as int, sep as int), v as int, nxt as int))
                &&& pos <= sep < end
                &&& pos < nxt <= end
            },
            None => spec_rec_at(input@, pos as int, end as int) is None,
        },
{
    let window: &[u8] = vstd::slice::slice_subrange(input, pos, end);
    let sep_rel: Option<usize> = find_byte(window, SEP);
    match sep_rel {
        None => {
            proof {
                assert forall|x: int| pos <= x < end implies input@[x] != SEP by {
                    assert(window@[x - pos] != SEP);
                }
                lemma_first_in_none(input@, pos as int, end as int, SEP);
            }
            None
        },
        Some(rel) => {
            let sep: usize = pos + rel;
            proof {
                assert(input@[sep as int] == SEP);
                assert forall|x: int| pos <= x < sep implies input@[x] != SEP by {
                    assert(window@[x - pos] != SEP);
                }
                lemma_first_in_from(input@, pos as int, end as int, SEP, sep as int);
            }
            let keypart: &[u8] = vstd::slice::slice_subrange(input, pos, sep);
            match find_byte(keypart, TERM) {
                Some(bad) => {
                    proof {
                        assert(input@[pos + bad] == TERM);
                        lemma_first_in_char(input@, pos as int, sep as int, TERM);
                        if first_in(input@, pos as int, sep as int, TERM) is None {
                            assert(input@[pos + bad] != TERM);
                        }
                    }
                    None
                },
                None => {
                    proof {
                        assert forall|x: int| pos <= x < sep implies input@[x] != TERM by {
                            assert(keypart@[x - pos] != TERM);
                        }
                        lemma_first_in_none(input@, pos as int, sep as int, TERM);
                    }
                    match parse_temperature(input, sep + 1, end) {
                        None => None,
                        Some((v, t)) => {
                            if t < end && input[t] == TERM {
                                proof {
                                    lemma_parse_value_shape(input@, sep as int + 1, end as int);
                                }
                                Some((sep, v, t + 1))
                            } else {
                                None
                            }
                        },
                    }
                },
            }
        },
    }
}

} // verus!

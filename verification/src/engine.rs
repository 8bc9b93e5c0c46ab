//! The aggregation engine: workers, merger, and the run itself.
//!
//! A worker scans one byte segment record by record, folding each value
//! into its private table. The merger combines worker tables keywise. The
//! run plans the segments, drives one worker per segment, merges, and
//! reports. Its result is a function of the input bytes and the capacity
//! alone: the worker count never shows in the output.

use vstd::prelude::*;
use crate::RunError;
use crate::agg::{
    aggregate, obs_join, rec_inv, rec_add0, rec_join0, rec_one, rec_zero, upd_obs,
    lemma_aggregate_from_push, lemma_aggregate_from_concat, lemma_join_aggregate,
    lemma_aggregate_from_finite, lemma_aggregate_from_dom_sub, Obsv,
};
use crate::scan::{
    spec_scan, ScanRes, next_record, TERM,
    lemma_rec_at_shape, lemma_rec_at_restrict, lemma_scan_extend, lemma_scan_split,
    lemma_scan_fail_extend, find_byte,
};
use crate::table::FixedSizeMap;

verus! {

/// The records of the window `s[lo..hi]`, when it scans cleanly.
pub open spec fn recs_in(s: Seq<u8>, lo: int, hi: int) -> Seq<Obsv> {
    spec_scan(s, lo, hi)->Recs_0
}

/// Number of distinct keys among the records of a window.
pub open spec fn distinct_in(s: Seq<u8>, lo: int, hi: int) -> int {
    aggregate(recs_in(s, lo, hi)).dom().len() as int
}

/// Scan one segment into a fresh table: the worker.
///
/// Succeeds exactly when the segment parses and its distinct keys fit the
/// capacity; the table then holds precisely the segment's aggregation.
pub fn scan_segment(input: &[u8], start: usize, end: usize, capacity: usize) -> (r: Result<
    FixedSizeMap,
    RunError,
>)
    requires
        start <= end <= input@.len(),
        capacity >= 1,
    ensures
        (r is Ok) <==> (spec_scan(input@, start as int, end as int) is Recs
            && distinct_in(input@, start as int, end as int) <= capacity),
        match r {
            Ok(t) => {
                &&& t.inv()
                &&& t.cap() == capacity
                &&& t@ == aggregate(recs_in(input@, start as int, end as int))
                &&& t@.dom().finite()
                &&& forall|k: Seq<u8>| #[trigger] t@.contains_key(k) ==> rec_inv(t@[k])
                    && 5 * t@[k].num <= end - start
            },
            Err(e) => match e {
                RunError::MalformedRecord { offset } => {
                    &&& spec_scan(input@, start as int, end as int)
                        == ScanRes::Fail(offset as int)
                    &&& start <= offset < end
                },
                RunError::CapacityExceeded { key, distinct } => {
                    &&& distinct == capacity
                    &&& exists|p: int|
                        start < p <= end && input@[p - 1] == TERM
                            && #[trigger] spec_scan(input@, start as int, p) is Recs
                            && aggregate(recs_in(input@, start as int, p)).dom().finite()
                            && aggregate(recs_in(input@, start as int, p)).dom().len()
                                > capacity
                },
                RunError::IOFailure => false,
            },
        },
{
    let mut table = FixedSizeMap::new(capacity);
    let mut pos: usize = start;
    let ghost s = input@;
    while pos < end
        invariant
            start <= pos <= end <= s.len(),
            s == input@,
            capacity >= 1,
            table.inv(),
            table.cap() == capacity,
            spec_scan(s, start as int, pos as int) is Recs,
            table@ == aggregate(recs_in(s, start as int, pos as int)),
            forall|k: Seq<u8>| #[trigger] table@.contains_key(k) ==> rec_inv(table@[k])
                && 5 * table@[k].num <= pos - start,
        decreases end - pos,
    {
        let ghost rs = recs_in(s, start as int, pos as int);
        match next_record(input, pos, end) {
            None => {
                proof {
                    assert(spec_scan(s, pos as int, end as int) == ScanRes::Fail(pos as int));
                    lemma_scan_extend(s, start as int, pos as int, end as int);
                }
                return Err(RunError::MalformedRecord { offset: pos });
            },
            Some((sep, v, nxt)) => {
                let ghost key = s.subrange(pos as int, sep as int);
                let ghost rec = (key, v as int);
                proof {
                    lemma_rec_at_shape(s, pos as int, end as int);
                    lemma_rec_at_restrict(s, pos as int, end as int, nxt as int);
                    // the single record scans as itself
                    assert(spec_scan(s, nxt as int, nxt as int) == ScanRes::Recs(
                        Seq::<Obsv>::empty(),
                    ));
                    assert(spec_scan(s, pos as int, nxt as int) == ScanRes::Recs(
                        seq![rec] + Seq::<Obsv>::empty(),
                    ));
                    lemma_scan_extend(s, start as int, pos as int, nxt as int);
                    assert(recs_in(s, start as int, nxt as int) =~= rs.push(rec));
                    lemma_aggregate_from_push(Map::empty(), rs, rec);
                }
                let keyb: &[u8] = vstd::slice::slice_subrange(input, pos, sep);
                match table.get_or_insert(keyb) {
                    None => {
                        let owned: Vec<u8> = vstd::slice::slice_to_vec(keyb);
                        proof {
                            // the prefix through this record already holds
                            // more distinct keys than the table has slots
                            let m0 = aggregate(rs);
                            let m1 = aggregate(rs.push(rec));
                            assert(m1 == upd_obs(m0, key, v as int));
                            assert(!m0.contains_key(key));
                            table.lemma_dom_len();
                            assert(m1.dom() =~= m0.dom().insert(key));
                            assert(m1.dom().len() == m0.dom().len() + 1);
                            assert(s[nxt - 1] == TERM);
                            assert(spec_scan(s, start as int, nxt as int) is Recs);
                            assert(recs_in(s, start as int, nxt as int) == rs.push(rec));
                            assert(aggregate(recs_in(s, start as int, nxt as int)).dom().len()
                                > capacity);
                            assert(aggregate(recs_in(s, start as int, nxt as int)).dom().finite());
                            // and if the whole segment parses, its distinct
                            // count exceeds the capacity as well
                            if spec_scan(s, start as int, end as int) is Recs {
                                lemma_scan_split(s, start as int, nxt as int, end as int);
                                let pre = recs_in(s, start as int, nxt as int);
                                let suf = recs_in(s, nxt as int, end as int);
                                let whole = recs_in(s, start as int, end as int);
                                assert(whole == pre + suf);
                                lemma_aggregate_from_concat(Map::empty(), pre, suf);
                                assert forall|k: Seq<u8>|
                                    aggregate(pre).contains_key(k)
                                    implies #[trigger] aggregate(whole).contains_key(k) by {
                                    crate::agg::lemma_aggregate_from_mono(aggregate(pre), suf, k);
                                }
                                lemma_aggregate_from_finite(Map::empty(), whole);
                                vstd::set_lib::lemma_len_subset(
                                    aggregate(pre).dom(),
                                    aggregate(whole).dom(),
                                );
                            }
                        }
                        return Err(RunError::CapacityExceeded {
                            key: owned,
                            distinct: capacity,
                        });
                    },
                    Some(idx) => {
                        proof {
                            let m0 = aggregate(rs);
                            if m0.contains_key(key) {
                                assert(rec_inv(m0[key]));
                                assert(table.rec_at(idx as int) == m0[key]);
                                assert(5 * m0[key].num <= pos - start);
                            } else {
                                assert(table.rec_at(idx as int) == rec_zero());
                            }
                            assert(table.rec_at(idx as int).num < u64::MAX);
                        }
                        let ghost before = table;
                        table.fold(idx, v);
                        proof {
                            // the fold step is exactly one observation-map
                            // update, whether the key is fresh or not
                            let m0 = aggregate(rs);
                            if m0.contains_key(key) {
                                assert(before@ == m0);
                                assert(before.rec_at(idx as int) == m0[key]);
                                assert(m0[key].num >= 1);
                                assert(table@ =~= upd_obs(m0, key, v as int));
                            } else {
                                assert(before@ == m0.insert(key, rec_zero()));
                                assert(before.rec_at(idx as int) == rec_zero());
                                assert(rec_add0(rec_zero(), v as int) == rec_one(v as int));
                                assert(table@ =~= upd_obs(m0, key, v as int));
                            }
                            assert(table@ == aggregate(rs.push(rec)));
                            // per-key validity and the count bound step
                            assert forall|k: Seq<u8>| #[trigger] table@.contains_key(k)
                                implies rec_inv(table@[k])
                                    && 5 * table@[k].num <= nxt - start by {
                                crate::agg::lemma_rec_one_inv(v as int);
                                if k == key {
                                    if m0.contains_key(key) {
                                        crate::agg::lemma_rec_add_inv(m0[key], v as int);
                                        assert(5 * m0[key].num <= pos - start);
                                    }
                                    assert(nxt - pos >= 5);
                                } else {
                                    assert(before@.contains_key(k));
                                    assert(table@[k] == m0[k]);
                                }
                            }
                        }
                        pos = nxt;
                    },
                }
            },
        }
    }
    proof {
        table.lemma_dom_len();
        assert(table.count_occ(table.cap()) <= table.cap()) by {
            table.lemma_count_le(table.cap());
        }
    }
    Ok(table)
}

/// Merge one worker's table into the accumulating table: the merger.
///
/// On success the accumulator's view is the keywise join of the two views.
/// It fails exactly by capacity, when the joined key set outgrows the
/// accumulator's slots.
pub fn absorb(dst: &mut FixedSizeMap, src: &FixedSizeMap) -> (r: Result<(), RunError>)
    requires
        old(dst).inv(),
        src.inv(),
        forall|k: Seq<u8>| #[trigger] src@.contains_key(k) ==> rec_inv(src@[k])
            && src@[k].num < u64::MAX,
        forall|k: Seq<u8>| #[trigger] old(dst)@.contains_key(k) ==> rec_inv(old(dst)@[k]),
        forall|k: Seq<u8>| old(dst)@.contains_key(k) && #[trigger] src@.contains_key(k)
            ==> old(dst)@[k].num + src@[k].num < u64::MAX,
    ensures
        final(dst).inv(),
        final(dst).cap() == old(dst).cap(),
        match r {
            Ok(u) => {
                &&& final(dst)@ == obs_join(old(dst)@, src@)
                &&& forall|k: Seq<u8>| #[trigger] final(dst)@.contains_key(k)
                    ==> rec_inv(final(dst)@[k])
            },
            Err(e) => match e {
                RunError::CapacityExceeded { key, distinct } => {
                    &&& distinct == old(dst).cap()
                    &&& obs_join(old(dst)@, src@).dom().finite()
                    &&& obs_join(old(dst)@, src@).dom().len() > old(dst).cap()
                },
                _ => false,
            },
        },
{
    let cap_d: usize = dst.entries.len();
    let cap_s: usize = src.entries.len();
    let mut i: usize = 0;
    proof {
        src.lemma_pview_zero();
        assert(dst@ =~= obs_join(old(dst)@, src.pview(0)));
    }
    while i < cap_s
        invariant
            dst.inv(),
            src.inv(),
            dst.cap() == old(dst).cap(),
            cap_d == dst.cap(),
            cap_s == src.cap(),
            i <= cap_s,
            old(dst).inv(),
            dst@ == obs_join(old(dst)@, src.pview(i as int)),
            forall|k: Seq<u8>| #[trigger] src@.contains_key(k) ==> rec_inv(src@[k])
                && src@[k].num < u64::MAX,
            forall|k: Seq<u8>| #[trigger] old(dst)@.contains_key(k) ==> rec_inv(old(dst)@[k]),
            forall|k: Seq<u8>| old(dst)@.contains_key(k) && #[trigger] src@.contains_key(k)
                ==> old(dst)@[k].num + src@[k].num < u64::MAX,
            forall|k: Seq<u8>| #[trigger] dst@.contains_key(k) ==> rec_inv(dst@[k]),
        decreases cap_s - i,
    {
        let e = src.entries[i];
        if e.used {
            let ghost key = src.key_at(i as int);
            let ghost m = src.rec_at(i as int);
            proof {
                assert(src.slot_inv(i as int));
                src.lemma_view_at(i as int);
                assert(src@[key] == m);
                // the slot's key is not among the slots already walked
                if src.pview(i as int).contains_key(key) {
                    let j = src.pslot_of(key, i as int);
                    assert(src.key_at(j) == src.key_at(i as int));
                    assert(false);
                }
            }
            let keyb: &[u8] = vstd::slice::slice_subrange(
                src.names.as_slice(),
                e.key.start,
                e.key.end,
            );
            let ghost dstpre = *dst;
            let ghost cur = dst@;
            match dst.get_or_insert(keyb) {
                None => {
                    let owned: Vec<u8> = vstd::slice::slice_to_vec(keyb);
                    proof {
                        broadcast use vstd::set::axiom_set_union_finite;
                        broadcast use vstd::set::axiom_set_insert_finite;

                        let joinall = obs_join(old(dst)@, src@);
                        old(dst).lemma_dom_len();
                        src.lemma_dom_len();
                        dstpre.lemma_dom_len();
                        assert(joinall.dom() =~= old(dst)@.dom().union(src@.dom()));
                        assert(joinall.dom().finite());
                        assert(joinall.contains_key(key));
                        assert forall|k: Seq<u8>| #[trigger] cur.dom().insert(key).contains(k)
                            implies joinall.dom().contains(k) by {
                            if k != key {
                                assert(cur.contains_key(k));
                                if src.pview(i as int).contains_key(k) {
                                    let j = src.pslot_of(k, i as int);
                                    src.lemma_view_at(j);
                                }
                            }
                        }
                        assert(!cur.dom().contains(key));
                        assert(cur.dom().insert(key).len() == cur.dom().len() + 1);
                        vstd::set_lib::lemma_len_subset(cur.dom().insert(key), joinall.dom());
                    }
                    return Err(RunError::CapacityExceeded { key: owned, distinct: cap_d });
                },
                Some(idx) => {
                    proof {
                        // what the accumulator holds for this key is what it
                        // held before the merge began
                        if cur.contains_key(key) {
                            assert(cur[key] == old(dst)@[key]);
                            assert(dst.rec_at(idx as int) == cur[key]);
                        } else {
                            assert(dst.rec_at(idx as int) == rec_zero());
                            assert(!old(dst)@.contains_key(key));
                        }
                        assert(rec_inv(m));
                        assert(dst.rec_at(idx as int).num + m.num < u64::MAX);
                    }
                    let ghost before = *dst;
                    dst.merge_at(idx, &e.value);
                    proof {
                        src.lemma_pview_step(i as int + 1);
                        let pv1 = src.pview(i as int + 1);
                        assert(pv1 == src.pview(i as int).insert(key, m));
                        assert forall|k: Seq<u8>| #![auto] true implies
                            (dst@.contains_key(k) == obs_join(old(dst)@, pv1).contains_key(k))
                            && (dst@.contains_key(k)
                                ==> dst@[k] == obs_join(old(dst)@, pv1)[k]) by {
                            if k == key {
                                if cur.contains_key(key) {
                                    assert(dst@[k] == rec_join0(cur[key], m));
                                    assert(cur[key].num >= 1);
                                } else {
                                    assert(dst@[k] == rec_join0(rec_zero(), m));
                                }
                            }
                        }
                        assert(dst@ =~= obs_join(old(dst)@, pv1));
                        // every stored aggregate stays valid
                        assert forall|k: Seq<u8>| #[trigger] dst@.contains_key(k)
                            implies rec_inv(dst@[k]) by {
                            if k == key {
                                if cur.contains_key(key) {
                                    crate::agg::lemma_rec_join_inv(cur[key], m);
                                }
                            } else {
                                assert(cur.contains_key(k) && dst@[k] == cur[k]);
                            }
                        }
                    }
                },
            }
        } else {
            proof {
                src.lemma_pview_step(i as int + 1);
            }
        }
        i = i + 1;
    }
    proof {
        src.lemma_pview_full();
    }
    Ok(())
}

/// Divide `[0, input.len())` into `n` contiguous segments whose inner
/// boundaries sit just past a record terminator, so no record straddles
/// two segments. Returns the `n + 1` boundary offsets.
pub fn plan_segments(input: &[u8], n: usize) -> (r: Vec<usize>)
    requires
        1 <= n,
    ensures
        r@.len() == n + 1,
        r@[0] == 0,
        r@[n as int] == input@.len(),
        forall|i: int| 0 <= i < n ==> #[trigger] r@[i] <= r@[i + 1],
        forall|i: int| 0 <= i <= n ==> #[trigger] r@[i] <= input@.len(),
        forall|i: int| 1 <= i < n ==> #[trigger] r@[i] == input@.len()
            || input@[r@[i] - 1] == TERM,
{
    let len: usize = input.len();
    let seg: usize = len / n;
    let mut b: Vec<usize> = Vec::new();
    b.push(0);
    let mut i: usize = 1;
    while i < n
        invariant
            1 <= i <= n,
            n >= 1,
            b@.len() == i,
            b@[0] == 0,
            len == input@.len(),
            seg == len as int / n as int,
            forall|j: int| 0 <= j < i ==> #[trigger] b@[j] <= len,
            forall|j: int| 0 <= j < i - 1 ==> #[trigger] b@[j] <= b@[j + 1],
            forall|j: int| 1 <= j < i ==> #[trigger] b@[j] == len || input@[b@[j] - 1] == TERM,
        decreases n - i,
    {
        let prev: usize = b[i - 1];
        proof {
            vstd::arithmetic::div_mod::lemma_fundamental_div_mod(len as int, n as int);
            assert((len as int / n as int) * (i as int) <= len as int) by (nonlinear_arith)
                requires
                    len as int == (n as int) * (len as int / n as int) + (len as int % n as int),
                    0 <= len as int % n as int,
                    0 <= len as int / n as int,
                    1 <= i as int <= n as int;
        }
        let cand: usize = seg * i;
        let from: usize = if cand > prev {
            cand
        } else {
            prev
        };
        let rest: &[u8] = vstd::slice::slice_subrange(input, from, len);
        let boundary: usize = match find_byte(rest, TERM) {
            Some(rel) => {
                proof {
                    assert(input@[from + rel] == TERM);
                }
                from + rel + 1
            },
            None => len,
        };
        b.push(boundary);
        i = i + 1;
    }
    b.push(len);
    b
}

/// Run the engine over an input buffer: plan `workers` segments, scan each
/// with a private table, merge the tables, and render the summary.
///
/// The outcome is a function of the input bytes and the capacity alone:
/// any two worker counts yield the same result, byte for byte. Success
/// comes exactly when the whole input parses and its distinct keys fit the
/// capacity; the summary then renders the input's aggregation, in which
/// every key has seen at least one record and `min * num <= total <= max *
/// num`.
pub fn solve(input: &[u8], workers: usize, capacity: usize) -> (r: Result<Vec<u8>, RunError>)
    requires
        workers >= 1,
        capacity >= 1,
    ensures
        (r is Ok) <==> (spec_scan(input@, 0, input@.len() as int) is Recs
            && distinct_in(input@, 0, input@.len() as int) <= capacity),
        (match r {
            Ok(out) => {
                &&& out@ == crate::report::spec_output_of(
                    aggregate(recs_in(input@, 0, input@.len() as int)),
                )
                &&& crate::report::strict_sorted(crate::report::sorted_keys_of(
                    aggregate(recs_in(input@, 0, input@.len() as int)),
                ))
                &&& crate::report::sorted_keys_of(
                    aggregate(recs_in(input@, 0, input@.len() as int)),
                ).to_set() == aggregate(recs_in(input@, 0, input@.len() as int)).dom()
                &&& forall|k: Seq<u8>|
                    #[trigger] aggregate(recs_in(input@, 0, input@.len() as int)).contains_key(k)
                        ==> rec_inv(aggregate(recs_in(input@, 0, input@.len() as int))[k])
            },
            Err(e) => match e {
                RunError::MalformedRecord { offset } => spec_scan(input@, 0, input@.len() as int)
                    == ScanRes::Fail(offset as int),
                RunError::CapacityExceeded { key, distinct } => spec_scan(
                    input@,
                    0,
                    input@.len() as int,
                ) is Recs ==> distinct_in(input@, 0, input@.len() as int) > capacity,
                RunError::IOFailure => false,
            },
        }),
{
    let ghost s = input@;
    let len: usize = input.len();
    let b = plan_segments(input, workers);
    let mut merged = FixedSizeMap::new(capacity);
    let mut w: usize = 0;
    proof {
        assert(spec_scan(s, 0, 0) == ScanRes::Recs(Seq::<Obsv>::empty()));
        assert(merged@ =~= aggregate(recs_in(s, 0, 0)));
    }
    while w < workers
        invariant
            w <= workers,
            workers >= 1,
            capacity >= 1,
            len == s.len(),
            s == input@,
            b@.len() == workers + 1,
            b@[0] == 0,
            b@[workers as int] == len,
            forall|i: int| 0 <= i < workers ==> #[trigger] b@[i] <= b@[i + 1],
            forall|i: int| 0 <= i <= workers ==> #[trigger] b@[i] <= len,
            forall|i: int| 1 <= i < workers ==> #[trigger] b@[i] == len
                || s[b@[i] - 1] == TERM,
            merged.inv(),
            merged.cap() == capacity,
            spec_scan(s, 0, b@[w as int] as int) is Recs,
            merged@ == aggregate(recs_in(s, 0, b@[w as int] as int)),
            forall|k: Seq<u8>| #[trigger] merged@.contains_key(k) ==> rec_inv(merged@[k])
                && 5 * merged@[k].num <= b@[w as int],
        decreases workers - w,
    {
        let start: usize = b[w];
        let end_seg: usize = b[w + 1];
        let ghost acc = recs_in(s, 0, start as int);
        match scan_segment(input, start, end_seg, capacity) {
            Err(e) => {
                proof {
                    // an inner boundary is terminator-aligned or the very end
                    assert(end_seg as int == len as int || s[end_seg - 1] == TERM) by {
                        if w + 1 < workers {
                            assert(b@[w as int + 1] == len || s[b@[w as int + 1] - 1] == TERM);
                        }
                    }
                    match &e {
                        RunError::MalformedRecord { offset } => {
                            lemma_scan_fail_extend(
                                s,
                                start as int,
                                end_seg as int,
                                len as int,
                                *offset as int,
                            );
                            lemma_scan_extend(s, 0, start as int, len as int);
                        },
                        RunError::CapacityExceeded { .. } => {
                            let p = choose|p: int|
                                start < p <= end_seg && s[p - 1] == TERM
                                    && #[trigger] spec_scan(s, start as int, p) is Recs
                                    && aggregate(recs_in(s, start as int, p)).dom().finite()
                                    && aggregate(recs_in(s, start as int, p)).dom().len()
                                        > capacity;
                            let rsp = recs_in(s, start as int, p);
                            lemma_scan_extend(s, 0, start as int, p);
                            assert(spec_scan(s, 0, p) is Recs);
                            assert(recs_in(s, 0, p) == acc + rsp);
                            if spec_scan(s, 0, len as int) is Recs {
                                lemma_scan_split(s, 0, p, len as int);
                                let pre = recs_in(s, 0, p);
                                let whole = recs_in(s, 0, len as int);
                                lemma_aggregate_from_concat(Map::empty(), acc, rsp);
                                assert forall|k: Seq<u8>|
                                    aggregate(rsp).contains_key(k)
                                    implies #[trigger] aggregate(pre).contains_key(k) by {
                                    lemma_aggregate_from_dom_sub(aggregate(acc), rsp, k);
                                }
                                lemma_aggregate_from_finite(Map::empty(), pre);
                                vstd::set_lib::lemma_len_subset(
                                    aggregate(rsp).dom(),
                                    aggregate(pre).dom(),
                                );
                                assert forall|k: Seq<u8>|
                                    aggregate(pre).contains_key(k)
                                    implies #[trigger] aggregate(whole).contains_key(k) by {
                                    assert(whole.subrange(0, pre.len() as int) =~= pre);
                                    crate::agg::lemma_aggregate_prefix_dom(
                                        whole,
                                        pre.len() as int,
                                        k,
                                    );
                                }
                                lemma_aggregate_from_finite(Map::empty(), whole);
                                vstd::set_lib::lemma_len_subset(
                                    aggregate(pre).dom(),
                                    aggregate(whole).dom(),
                                );
                            }
                        },
                        RunError::IOFailure => {},
                    }
                }
                return Err(e);
            },
            Ok(t) => {
                let ghost segr = recs_in(s, start as int, end_seg as int);
                proof {
                    lemma_scan_extend(s, 0, start as int, end_seg as int);
                    assert(spec_scan(s, 0, end_seg as int) is Recs);
                    assert(recs_in(s, 0, end_seg as int) == acc + segr);
                    // per-key count sums stay below the limit: five bytes
                    // per record, and the windows are disjoint
                    assert forall|k: Seq<u8>|
                        merged@.contains_key(k) && #[trigger] t@.contains_key(k)
                        implies merged@[k].num + t@[k].num < u64::MAX by {
                        assert(5 * merged@[k].num <= b@[w as int]);
                        assert(5 * t@[k].num <= end_seg - start);
                    }
                }
                let ghost m1 = merged@;
                match absorb(&mut merged, &t) {
                    Err(e2) => {
                        proof {
                            lemma_join_aggregate(m1, segr);
                            lemma_aggregate_from_concat(Map::empty(), acc, segr);
                            assert(obs_join(m1, t@) == aggregate(recs_in(s, 0, end_seg as int)));
                            if spec_scan(s, 0, len as int) is Recs {
                                assert(end_seg as int == len as int
                                    || s[end_seg - 1] == TERM) by {
                                    if w + 1 < workers {
                                        assert(b@[w as int + 1] == len
                                            || s[b@[w as int + 1] - 1] == TERM);
                                    }
                                }
                                lemma_scan_split(s, 0, end_seg as int, len as int);
                                let pre = recs_in(s, 0, end_seg as int);
                                let whole = recs_in(s, 0, len as int);
                                assert forall|k: Seq<u8>|
                                    aggregate(pre).contains_key(k)
                                    implies #[trigger] aggregate(whole).contains_key(k) by {
                                    assert(whole.subrange(0, pre.len() as int) =~= pre);
                                    crate::agg::lemma_aggregate_prefix_dom(
                                        whole,
                                        pre.len() as int,
                                        k,
                                    );
                                }
                                lemma_aggregate_from_finite(Map::empty(), whole);
                                vstd::set_lib::lemma_len_subset(
                                    aggregate(pre).dom(),
                                    aggregate(whole).dom(),
                                );
                            }
                        }
                        return Err(e2);
                    },
                    Ok(u) => {
                        proof {
                            lemma_join_aggregate(m1, segr);
                            lemma_aggregate_from_concat(Map::empty(), acc, segr);
                            assert(merged@ == aggregate(recs_in(s, 0, end_seg as int)));
                            assert forall|k: Seq<u8>| #[trigger] merged@.contains_key(k)
                                implies rec_inv(merged@[k])
                                    && 5 * merged@[k].num <= b@[w as int + 1] by {
                                if m1.contains_key(k) && t@.contains_key(k) {
                                    assert(merged@[k].num == m1[k].num + t@[k].num);
                                } else if m1.contains_key(k) {
                                    assert(merged@[k] == m1[k]);
                                } else {
                                    assert(merged@[k] == t@[k]);
                                }
                            }
                        }
                    },
                }
            },
        }
        w = w + 1;
    }
    proof {
        merged.lemma_dom_len();
        merged.lemma_count_le(merged.cap());
    }
    let out = crate::report::report(&merged);
    Ok(out)
}

/// Re-ordering the input records does not change the summary: the output
/// depends only on the multiset of (key, value) records, because sum,
/// count, min and max are commutative and associative.
pub proof fn lemma_reorder_output(rs1: Seq<Obsv>, rs2: Seq<Obsv>)
    requires
        rs1.to_multiset() == rs2.to_multiset(),
    ensures
        crate::report::spec_output_of(aggregate(rs1))
            == crate::report::spec_output_of(aggregate(rs2)),
{
    crate::agg::lemma_aggregate_permutation(rs1, rs2);
}

} // verus!

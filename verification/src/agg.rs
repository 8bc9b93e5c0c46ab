//! Running aggregates and their mathematical model.
//!
//! A [`Record`] carries the running total, count, minimum and maximum of the
//! scaled values observed for one key. Values are decimals scaled by 10 and
//! stored as signed integers, so accumulation is exact. The ghost model
//! [`RecordModel`] mirrors the fields over `int`/`nat`, and an observation
//! map (`Obs`) from key bytes to models gives the meaning of a whole run:
//! [`aggregate`] folds a sequence of records into such a map.

use vstd::prelude::*;
use vstd::seq_lib::{commutative_foldl, lemma_fold_left_permutation};

verus! {

/// Smallest scaled value a record can carry (`-999.9`).
pub const VAL_MIN: i64 = -9999;

/// Largest scaled value a record can carry (`999.9`).
pub const VAL_MAX: i64 = 9999;

/// Mathematical view of a running aggregate.
pub ghost struct RecordModel {
    pub total: int,
    pub min: int,
    pub max: int,
    pub num: nat,
}

/// Running aggregate for one key: exact scaled total, extrema, and count.
#[derive(Copy, Clone, Debug)]
pub struct Record {
    pub total: i128,
    pub min: i64,
    pub max: i64,
    pub num: u64,
}

impl View for Record {
    type V = RecordModel;

    open spec fn view(&self) -> RecordModel {
        RecordModel {
            total: self.total as int,
            min: self.min as int,
            max: self.max as int,
            num: self.num as nat,
        }
    }
}

/// The identity aggregate: nothing observed yet.
pub open spec fn rec_zero() -> RecordModel {
    RecordModel { total: 0, min: i64::MAX as int, max: i64::MIN as int, num: 0 }
}

/// The aggregate of a single observation.
pub open spec fn rec_one(v: int) -> RecordModel {
    RecordModel { total: v, min: v, max: v, num: 1 }
}

/// Folding one more observation into an aggregate that has seen at least one.
pub open spec fn rec_add(a: RecordModel, v: int) -> RecordModel {
    RecordModel {
        total: a.total + v,
        min: vstd::math::min(a.min, v),
        max: vstd::math::max(a.max, v),
        num: a.num + 1,
    }
}

/// Folding an observation into any aggregate, the identity included.
pub open spec fn rec_add0(a: RecordModel, v: int) -> RecordModel {
    if a.num == 0 {
        rec_one(v)
    } else {
        rec_add(a, v)
    }
}

/// Pointwise combination of two aggregates of the same key: totals and
/// counts sum, extrema combine by min/max.
pub open spec fn rec_join(a: RecordModel, b: RecordModel) -> RecordModel {
    RecordModel {
        total: a.total + b.total,
        min: vstd::math::min(a.min, b.min),
        max: vstd::math::max(a.max, b.max),
        num: a.num + b.num,
    }
}

/// Validity of a materialized aggregate: at least one observation, extrema
/// within the value range, and the total between `min * num` and `max * num`
/// (which is exactly `min <= total / num <= max`).
pub open spec fn rec_inv(a: RecordModel) -> bool {
    &&& 1 <= a.num
    &&& VAL_MIN as int <= a.min <= a.max <= VAL_MAX as int
    &&& a.min * a.num <= a.total <= a.max * a.num
}

/// Combining into any aggregate, the identity included.
pub open spec fn rec_join0(a: RecordModel, b: RecordModel) -> RecordModel {
    if a.num == 0 {
        b
    } else {
        rec_join(a, b)
    }
}

/// A single observation in range is a valid aggregate.
pub proof fn lemma_rec_one_inv(v: int)
    requires
        VAL_MIN as int <= v <= VAL_MAX as int,
    ensures
        rec_inv(rec_one(v)),
{
}

/// Folding an observation in range preserves validity.
pub proof fn lemma_rec_add_inv(a: RecordModel, v: int)
    requires
        rec_inv(a),
        VAL_MIN as int <= v <= VAL_MAX as int,
    ensures
        rec_inv(rec_add(a, v)),
{
    let b = rec_add(a, v);
    assert(b.min * b.num <= b.total <= b.max * b.num) by (nonlinear_arith)
        requires
            a.min * a.num <= a.total <= a.max * a.num,
            b.min <= a.min,
            b.min <= v,
            a.max <= b.max,
            v <= b.max,
            b.total == a.total + v,
            b.num == a.num + 1,
            a.num >= 0;
}

/// Combining two valid aggregates yields a valid aggregate.
pub proof fn lemma_rec_join_inv(a: RecordModel, b: RecordModel)
    requires
        rec_inv(a),
        rec_inv(b),
    ensures
        rec_inv(rec_join(a, b)),
{
    let c = rec_join(a, b);
    assert(c.min * c.num <= c.total <= c.max * c.num) by (nonlinear_arith)
        requires
            a.min * a.num <= a.total <= a.max * a.num,
            b.min * b.num <= b.total <= b.max * b.num,
            c.min <= a.min,
            c.min <= b.min,
            a.max <= c.max,
            b.max <= c.max,
            c.total == a.total + b.total,
            c.num == a.num + b.num,
            a.num >= 0,
            b.num >= 0;
}

/// An observation map: what a run has seen, per key.
pub type Obs = Map<Seq<u8>, RecordModel>;

/// One parsed record: key bytes and scaled value.
pub type Obsv = (Seq<u8>, int);

/// Fold one record into an observation map.
pub open spec fn upd_obs(m: Obs, k: Seq<u8>, v: int) -> Obs {
    if m.contains_key(k) {
        m.insert(k, rec_add(m[k], v))
    } else {
        m.insert(k, rec_one(v))
    }
}

/// The fold step as a closure value, shared by every fold below.
pub open spec fn obs_step() -> spec_fn(Obs, Obsv) -> Obs {
    |m: Obs, r: Obsv| upd_obs(m, r.0, r.1)
}

/// Fold a record sequence into an observation map, starting from `m`.
pub open spec fn aggregate_from(m: Obs, rs: Seq<Obsv>) -> Obs {
    rs.fold_left(m, obs_step())
}

/// The observation map of a record sequence.
pub open spec fn aggregate(rs: Seq<Obsv>) -> Obs {
    aggregate_from(Map::empty(), rs)
}

/// Keywise join of two observation maps.
pub open spec fn obs_join(m1: Obs, m2: Obs) -> Obs {
    Map::new(
        |k: Seq<u8>| m1.contains_key(k) || m2.contains_key(k),
        |k: Seq<u8>|
            if m1.contains_key(k) && m2.contains_key(k) {
                rec_join(m1[k], m2[k])
            } else if m1.contains_key(k) {
                m1[k]
            } else {
                m2[k]
            },
    )
}

/// Every value of the sequence lies in the supported scaled range.
pub open spec fn recs_ok(rs: Seq<Obsv>) -> bool {
    forall|i: int| 0 <= i < rs.len() ==> VAL_MIN as int <= #[trigger] rs[i].1 <= VAL_MAX as int
}

/// The fold step treats any two records interchangeably: folding them in
/// either order leaves the same map.
pub proof fn lemma_obs_step_commutes()
    ensures
        commutative_foldl(obs_step()),
{
    assert forall|x: Obsv, y: Obsv, m: Obs| #[trigger]
        obs_step()(obs_step()(m, x), y) == obs_step()(obs_step()(m, y), x) by {
        let mxy = obs_step()(obs_step()(m, x), y);
        let myx = obs_step()(obs_step()(m, y), x);
        assert(mxy =~= myx);
    }
}

/// Appending one record folds it into the map of the rest.
pub proof fn lemma_aggregate_from_push(m: Obs, rs: Seq<Obsv>, r: Obsv)
    ensures
        aggregate_from(m, rs.push(r)) == upd_obs(aggregate_from(m, rs), r.0, r.1),
{
    assert(rs.push(r).drop_last() =~= rs);
    assert(rs.push(r).last() == r);
}

/// Folding a concatenation folds the two halves in turn.
pub proof fn lemma_aggregate_from_concat(m: Obs, rs1: Seq<Obsv>, rs2: Seq<Obsv>)
    ensures
        aggregate_from(m, rs1 + rs2) == aggregate_from(aggregate_from(m, rs1), rs2),
{
    let s = rs1 + rs2;
    s.lemma_fold_left_split(m, obs_step(), rs1.len() as int);
    assert(s.subrange(0, rs1.len() as int) =~= rs1);
    assert(s.subrange(rs1.len() as int, s.len() as int) =~= rs2);
}

/// Joining commutes with one fold step on the right operand.
proof fn lemma_join_step(m1: Obs, m2: Obs, r: Obsv)
    ensures
        obs_join(m1, upd_obs(m2, r.0, r.1)) == upd_obs(obs_join(m1, m2), r.0, r.1),
{
    assert(obs_join(m1, upd_obs(m2, r.0, r.1)) =~= upd_obs(obs_join(m1, m2), r.0, r.1));
}

/// Joining a map with the map of a record sequence is the same as folding
/// the sequence into it: the merger and the single-table run agree.
pub proof fn lemma_join_aggregate(m1: Obs, rs: Seq<Obsv>)
    ensures
        obs_join(m1, aggregate(rs)) == aggregate_from(m1, rs),
    decreases rs.len(),
{
    if rs.len() == 0 {
        assert(obs_join(m1, aggregate(rs)) =~= m1);
    } else {
        let rest = rs.drop_last();
        let r = rs.last();
        lemma_join_aggregate(m1, rest);
        lemma_aggregate_from_push(Map::empty(), rest, r);
        lemma_aggregate_from_push(m1, rest, r);
        assert(rest.push(r) =~= rs);
        lemma_join_step(m1, aggregate(rest), r);
    }
}

/// A key present in the starting map stays present through any fold.
pub proof fn lemma_aggregate_from_mono(m: Obs, rs: Seq<Obsv>, k: Seq<u8>)
    requires
        m.contains_key(k),
    ensures
        aggregate_from(m, rs).contains_key(k),
    decreases rs.len(),
{
    if rs.len() > 0 {
        lemma_aggregate_from_mono(m, rs.drop_last(), k);
        assert(rs.drop_last().push(rs.last()) =~= rs);
        lemma_aggregate_from_push(m, rs.drop_last(), rs.last());
    }
}

/// The keys of a prefix's map are among the keys of the whole sequence's map.
pub proof fn lemma_aggregate_prefix_dom(rs: Seq<Obsv>, n: int, k: Seq<u8>)
    requires
        0 <= n <= rs.len(),
        aggregate(rs.subrange(0, n)).contains_key(k),
    ensures
        aggregate(rs).contains_key(k),
{
    let pre = rs.subrange(0, n);
    let suf = rs.subrange(n, rs.len() as int);
    assert(pre + suf =~= rs);
    lemma_aggregate_from_concat(Map::empty(), pre, suf);
    lemma_aggregate_from_mono(aggregate(pre), suf, k);
}

/// Folding keeps the domain finite.
pub proof fn lemma_aggregate_from_finite(m: Obs, rs: Seq<Obsv>)
    requires
        m.dom().finite(),
    ensures
        aggregate_from(m, rs).dom().finite(),
    decreases rs.len(),
{
    if rs.len() > 0 {
        lemma_aggregate_from_finite(m, rs.drop_last());
        assert(rs.drop_last().push(rs.last()) =~= rs);
        lemma_aggregate_from_push(m, rs.drop_last(), rs.last());
    }
}

/// A key of a sequence's own map is a key of any fold of that sequence.
pub proof fn lemma_aggregate_from_dom_sub(m: Obs, rs: Seq<Obsv>, k: Seq<u8>)
    requires
        aggregate(rs).contains_key(k),
    ensures
        aggregate_from(m, rs).contains_key(k),
    decreases rs.len(),
{
    if rs.len() > 0 {
        let rest = rs.drop_last();
        let r = rs.last();
        assert(rest.push(r) =~= rs);
        lemma_aggregate_from_push(Map::empty(), rest, r);
        lemma_aggregate_from_push(m, rest, r);
        if k != r.0 {
            lemma_aggregate_from_dom_sub(m, rest, k);
        }
    }
}

/// Two record sequences with the same multiset of records have the same
/// observation map: re-ordering the input records does not change the result.
pub proof fn lemma_aggregate_permutation(rs1: Seq<Obsv>, rs2: Seq<Obsv>)
    requires
        rs1.to_multiset() == rs2.to_multiset(),
    ensures
        aggregate(rs1) == aggregate(rs2),
{
    lemma_obs_step_commutes();
    lemma_fold_left_permutation(rs1, rs2, obs_step(), Map::<Seq<u8>, RecordModel>::empty());
}

} // verus!

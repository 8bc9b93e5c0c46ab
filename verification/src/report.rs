//! The reporter: sorted, rendered output.
//!
//! Keys are ordered byte-lexicographically, then every entry is rendered as
//! `key=min/avg/max` with one decimal digit each, the entries joined by
//! `, ` and wrapped in `{...}` with a trailing newline. The average is the
//! total over the count rounded half away from zero. The output of a map is
//! a pure function of the map: the sorted key sequence is unique.

use vstd::prelude::*;
use crate::agg::{RecordModel, Obs, rec_inv, VAL_MIN, VAL_MAX};
use crate::fixed::{spec_render_fixed, round_half_away, render_fixed, avg_scaled};
use crate::table::FixedSizeMap;

verus! {

/// Byte-lexicographic strict order on byte strings.
pub open spec fn lex_lt(a: Seq<u8>, b: Seq<u8>) -> bool
    decreases a.len(),
{
    if b.len() == 0 {
        false
    } else if a.len() == 0 {
        true
    } else if a[0] < b[0] {
        true
    } else if a[0] > b[0] {
        false
    } else {
        lex_lt(a.drop_first(), b.drop_first())
    }
}

/// Reflexive closure of [`lex_lt`].
pub open spec fn lex_le(a: Seq<u8>, b: Seq<u8>) -> bool {
    a == b || lex_lt(a, b)
}

/// The order is total: two byte strings compare one way, the other way, or
/// are equal, and never two of these at once.
pub proof fn lemma_lex_total(a: Seq<u8>, b: Seq<u8>)
    ensures
        lex_lt(a, b) || lex_lt(b, a) || a == b,
        lex_lt(a, b) ==> !lex_lt(b, a) && a != b,
    decreases a.len(),
{
    if a.len() == 0 && b.len() == 0 {
        assert(a =~= b);
    } else if a.len() > 0 && b.len() > 0 && a[0] == b[0] {
        lemma_lex_total(a.drop_first(), b.drop_first());
        if a.drop_first() == b.drop_first() {
            assert(a =~= b) by {
                assert(forall|i: int| 1 <= i < a.len()
                    ==> a[i] == a.drop_first()[i - 1] && b[i] == b.drop_first()[i - 1]);
            }
        }
        if a == b {
            assert(a.drop_first() =~= b.drop_first());
        }
    }
}

/// The order is transitive.
pub proof fn lemma_lex_trans(a: Seq<u8>, b: Seq<u8>, c: Seq<u8>)
    requires
        lex_lt(a, b),
        lex_lt(b, c),
    ensures
        lex_lt(a, c),
    decreases a.len(),
{
    if a.len() > 0 && b.len() > 0 && c.len() > 0 && a[0] == b[0] && b[0] == c[0] {
        lemma_lex_trans(a.drop_first(), b.drop_first(), c.drop_first());
    }
}

/// Executable byte-lexicographic comparison, equal to [`lex_lt`].
pub fn lex_less(a: &[u8], b: &[u8]) -> (r: bool)
    ensures
        r == lex_lt(a@, b@),
{
    let alen: usize = a.len();
    let blen: usize = b.len();
    let n: usize = if alen < blen {
        alen
    } else {
        blen
    };
    let mut i: usize = 0;
    proof {
        assert(a@.subrange(0, alen as int) =~= a@);
        assert(b@.subrange(0, blen as int) =~= b@);
    }
    while i < n
        invariant
            i <= n,
            n == vstd::math::min(a@.len() as int, b@.len() as int),
            alen == a@.len(),
            blen == b@.len(),
            lex_lt(a@, b@) == lex_lt(a@.subrange(i as int, alen as int), b@.subrange(
                i as int,
                blen as int,
            )),
        decreases n - i,
    {
        let ghost sa = a@.subrange(i as int, alen as int);
        let ghost sb = b@.subrange(i as int, blen as int);
        if a[i] < b[i] {
            proof {
                assert(sa[0] == a@[i as int] && sb[0] == b@[i as int]);
            }
            return true;
        }
        if a[i] > b[i] {
            proof {
                assert(sa[0] == a@[i as int] && sb[0] == b@[i as int]);
            }
            return false;
        }
        proof {
            assert(sa[0] == sb[0]);
            assert(sa.drop_first() =~= a@.subrange(i as int + 1, alen as int));
            assert(sb.drop_first() =~= b@.subrange(i as int + 1, blen as int));
        }
        i = i + 1;
    }
    proof {
        let sa = a@.subrange(i as int, alen as int);
        let sb = b@.subrange(i as int, blen as int);
        if alen < blen {
            assert(sa.len() == 0 && sb.len() > 0);
        } else if alen == blen {
            assert(sa.len() == 0 && sb.len() == 0);
        } else {
            assert(sb.len() == 0);
        }
    }
    alen < blen
}

/// The byte strings behind a sequence of owned keys.
pub open spec fn views_of(s: Seq<Vec<u8>>) -> Seq<Seq<u8>> {
    s.map_values(|v: Vec<u8>| v@)
}

/// Weakly sorted by the byte order.
pub open spec fn sorted_le(s: Seq<Seq<u8>>) -> bool {
    forall|p: int, q: int| 0 <= p < q < s.len() ==> lex_le(#[trigger] s[p], #[trigger] s[q])
}

/// Strictly sorted by the byte order: ascending with no duplicates.
pub open spec fn strict_sorted(s: Seq<Seq<u8>>) -> bool {
    forall|p: int, q: int| 0 <= p < q < s.len() ==> lex_lt(#[trigger] s[p], #[trigger] s[q])
}

/// Inserting an owned key commutes with taking views.
proof fn lemma_views_insert(s: Seq<Vec<u8>>, p: int, x: Vec<u8>)
    requires
        0 <= p <= s.len(),
    ensures
        views_of(s.insert(p, x)) == views_of(s).insert(p, x@),
{
    s.insert_ensures(p, x);
    views_of(s).insert_ensures(p, x@);
    assert(views_of(s.insert(p, x)) =~= views_of(s).insert(p, x@));
}

/// Sort owned keys into weakly ascending byte order. The result holds the
/// same byte strings with the same multiplicities.
pub fn sort_keys(keys: Vec<Vec<u8>>) -> (r: Vec<Vec<u8>>)
    ensures
        views_of(r@).to_multiset() == views_of(keys@).to_multiset(),
        sorted_le(views_of(r@)),
{
    broadcast use vstd::seq_lib::group_to_multiset_ensures;
    broadcast use vstd::seq_lib::to_multiset_insert;
    broadcast use vstd::multiset::group_multiset_axioms;

    let mut work = keys;
    let mut out: Vec<Vec<u8>> = Vec::new();
    proof {
        assert(views_of(out@) =~= Seq::<Seq<u8>>::empty());
    }
    while work.len() > 0
        invariant
            views_of(out@).to_multiset().add(views_of(work@).to_multiset())
                == views_of(keys@).to_multiset(),
            sorted_le(views_of(out@)),
        decreases work@.len(),
    {
        let ghost work0 = work@;
        let x = work.pop().unwrap();
        proof {
            broadcast use vstd::seq_lib::group_to_multiset_ensures;
            broadcast use vstd::multiset::group_multiset_axioms;

            assert(views_of(work0) =~= views_of(work@).push(x@));
            assert(views_of(work0).to_multiset()
                == views_of(work@).to_multiset().insert(x@));
        }
        let mut p: usize = 0;
        while p < out.len() && lex_less(out[p].as_slice(), x.as_slice())
            invariant
                p <= out@.len(),
                forall|t: int| 0 <= t < p ==> lex_lt(#[trigger] views_of(out@)[t], x@),
            decreases out@.len() - p,
        {
            p = p + 1;
        }
        let ghost out0 = out@;
        let ghost pp = p as int;
        out.insert(p, x);
        proof {
            broadcast use vstd::seq_lib::to_multiset_insert;
            broadcast use vstd::multiset::group_multiset_axioms;

            lemma_views_insert(out0, pp, x);
            assert(views_of(out@) == views_of(out0).insert(pp, x@));
            views_of(out0).insert_ensures(pp, x@);
            // everything after the insertion point is at least the new key
            assert forall|t: int| pp <= t < views_of(out0).len()
                implies lex_le(x@, #[trigger] views_of(out0)[t]) by {
                lemma_lex_total(views_of(out0)[pp], x@);
                if t > pp {
                    assert(lex_le(views_of(out0)[pp], views_of(out0)[t]));
                    if x@ != views_of(out0)[pp] && views_of(out0)[pp] != views_of(out0)[t] {
                        lemma_lex_trans(x@, views_of(out0)[pp], views_of(out0)[t]);
                    }
                }
            }
            assert forall|p2: int, q2: int| 0 <= p2 < q2 < views_of(out@).len()
                implies lex_le(#[trigger] views_of(out@)[p2], #[trigger] views_of(out@)[q2]) by {
                let vs = views_of(out@);
                let v0 = views_of(out0);
                if q2 < pp {
                } else if p2 == pp && q2 > pp {
                    assert(vs[q2] == v0[q2 - 1] && vs[p2] == x@);
                } else if q2 == pp {
                    assert(vs[p2] == v0[p2] && lex_lt(v0[p2], x@));
                } else if p2 < pp {
                    if q2 > pp {
                        assert(vs[p2] == v0[p2] && vs[q2] == v0[q2 - 1]);
                    }
                } else {
                    assert(vs[p2] == v0[p2 - 1] && vs[q2] == v0[q2 - 1]);
                }
            }
        }
    }
    proof {
        broadcast use vstd::multiset::group_multiset_axioms;

        assert(views_of(work@) =~= Seq::<Seq<u8>>::empty());
    }
    out
}

/// Two strictly sorted key sequences over the same key set are the same
/// sequence: sorting is canonical.
pub proof fn lemma_sorted_unique(a: Seq<Seq<u8>>, b: Seq<Seq<u8>>)
    requires
        strict_sorted(a),
        strict_sorted(b),
        a.to_set() == b.to_set(),
    ensures
        a == b,
    decreases a.len(),
{
    if a.len() == 0 {
        if b.len() > 0 {
            assert(b.to_set().contains(b[0]));
            assert(a.contains(b[0]));
        }
        assert(a =~= b);
    } else if b.len() == 0 {
        assert(a.to_set().contains(a[0]));
        assert(b.contains(a[0]));
    } else {
        // the heads are both the least element, so they are equal
        assert(a.to_set().contains(a[0]));
        assert(b.contains(a[0]));
        let j = choose|j: int| 0 <= j < b.len() && b[j] == a[0];
        assert(b.to_set().contains(b[0]));
        assert(a.contains(b[0]));
        let i = choose|i: int| 0 <= i < a.len() && a[i] == b[0];
        lemma_lex_total(a[0], b[0]);
        if j > 0 {
            assert(lex_lt(b[0], a[0]));
        }
        if i > 0 {
            assert(lex_lt(a[0], b[0]));
        }
        assert(a[0] == b[0]);
        // the tails cover the same set
        let ta = a.drop_first();
        let tb = b.drop_first();
        assert(forall|i2: int| 1 <= i2 < a.len() ==> a[i2] == #[trigger] ta[i2 - 1]);
        assert(forall|i2: int| 1 <= i2 < b.len() ==> b[i2] == #[trigger] tb[i2 - 1]);
        assert forall|x: Seq<u8>| #![auto] ta.to_set().contains(x)
            == tb.to_set().contains(x) by {
            if ta.contains(x) {
                let t = choose|t: int| 0 <= t < ta.len() && ta[t] == x;
                assert(a[t + 1] == x);
                assert(lex_lt(a[0], x));
                assert(a.to_set().contains(x));
                assert(b.contains(x));
                let u = choose|u: int| 0 <= u < b.len() && b[u] == x;
                lemma_lex_total(a[0], x);
                assert(u != 0);
                assert(tb[u - 1] == x);
                assert(tb.contains(x));
            }
            if tb.contains(x) {
                let t = choose|t: int| 0 <= t < tb.len() && tb[t] == x;
                assert(b[t + 1] == x);
                assert(lex_lt(b[0], x));
                assert(b.to_set().contains(x));
                assert(a.contains(x));
                let u = choose|u: int| 0 <= u < a.len() && a[u] == x;
                lemma_lex_total(b[0], x);
                assert(u != 0);
                assert(ta[u - 1] == x);
                assert(ta.contains(x));
            }
        }
        assert(ta.to_set() =~= tb.to_set());
        lemma_sorted_unique(ta, tb);
        assert(a.len() == b.len());
        assert forall|i2: int| 0 <= i2 < a.len() implies a[i2] == b[i2] by {
            if i2 > 0 {
                assert(a[i2] == ta[i2 - 1]);
                assert(b[i2] == tb[i2 - 1]);
            }
        }
        assert(a =~= b);
    }
}

/// One rendered entry: `key=min/avg/max`.
pub open spec fn spec_render_row(k: Seq<u8>, a: RecordModel) -> Seq<u8> {
    k + seq![61u8] + spec_render_fixed(a.min) + seq![47u8]
        + spec_render_fixed(round_half_away(a.total, a.num as int)) + seq![47u8]
        + spec_render_fixed(a.max)
}

/// The rendered entries of the given keys, joined by `, `.
pub open spec fn spec_rows(ks: Seq<Seq<u8>>, m: Obs) -> Seq<u8>
    decreases ks.len(),
{
    if ks.len() == 0 {
        Seq::empty()
    } else if ks.len() == 1 {
        spec_render_row(ks[0], m[ks[0]])
    } else {
        spec_rows(ks.drop_last(), m) + seq![44u8, 32u8] + spec_render_row(
            ks.last(),
            m[ks.last()],
        )
    }
}

/// The keys of a map in ascending byte order. There is exactly one such
/// sequence for each key set.
pub open spec fn sorted_keys_of(m: Obs) -> Seq<Seq<u8>> {
    choose|ks: Seq<Seq<u8>>| strict_sorted(ks) && ks.to_set() == m.dom()
}

/// The whole summary string of an observation map, as bytes:
/// `{k1=min/avg/max, ...}\n` with keys ascending.
pub open spec fn spec_output_of(m: Obs) -> Seq<u8> {
    seq![123u8] + spec_rows(sorted_keys_of(m), m) + seq![125u8, 10u8]
}

/// Render the summary of a table: keys in ascending byte order, each as
/// `key=min/avg/max`, joined by `, `, wrapped in `{...}` and newline.
#[verifier::rlimit(100)]
pub fn report(table: &FixedSizeMap) -> (out: Vec<u8>)
    requires
        table.inv(),
        forall|k: Seq<u8>| #[trigger] table@.contains_key(k) ==> rec_inv(table@[k]),
    ensures
        out@ == spec_output_of(table@),
        strict_sorted(sorted_keys_of(table@)),
        sorted_keys_of(table@).to_set() == table@.dom(),
{
    broadcast use vstd::seq_lib::group_to_multiset_ensures;
    broadcast use vstd::multiset::group_multiset_axioms;

    let ghost m = table@;
    let ks = table.keys();
    let sorted = sort_keys(ks);
    let ghost vs = views_of(sorted@);
    proof {
        let vk = views_of(ks@);
        // the collected keys are pairwise distinct
        assert forall|p: int, q: int| 0 <= p < vk.len() && 0 <= q < vk.len() && p != q
            implies vk[p] != vk[q] by {
            assert(ks@[p]@ != ks@[q]@);
        }
        assert(vk.no_duplicates());
        vk.lemma_multiset_has_no_duplicates();
        vs.lemma_multiset_has_no_duplicates_conv();
        assert(vs.no_duplicates());
        // sorted weakly and duplicate-free is sorted strictly
        assert forall|p: int, q: int| 0 <= p < q < vs.len()
            implies lex_lt(#[trigger] vs[p], #[trigger] vs[q]) by {
            assert(lex_le(vs[p], vs[q]));
            assert(vs[p] != vs[q]);
        }
        assert(strict_sorted(vs));
        // the sorted keys cover exactly the table's key set
        assert forall|x: Seq<u8>| #![auto] vs.to_set().contains(x) == m.dom().contains(x) by {
            if vs.contains(x) {
                assert(vs.to_multiset().contains(x));
                assert(vk.to_multiset().contains(x));
                assert(vk.contains(x));
                let p = choose|p: int| 0 <= p < vk.len() && vk[p] == x;
                assert(ks@[p]@ == x);
                assert(m.contains_key(x));
            }
            if m.dom().contains(x) {
                let p = choose|p: int| 0 <= p < ks@.len() && #[trigger] ks@[p]@ == x;
                assert(vk[p] == x);
                assert(vk.contains(x));
                assert(vk.to_multiset().contains(x));
                assert(vs.to_multiset().contains(x));
                assert(vs.contains(x));
                assert(vs.to_set().contains(x));
            }
        }
        assert(vs.to_set() =~= m.dom());
        // hence they are the canonical sorted key sequence
        let cks = sorted_keys_of(m);
        assert(strict_sorted(cks) && cks.to_set() == m.dom()) by {
            assert(strict_sorted(vs) && vs.to_set() == m.dom());
        }
        lemma_sorted_unique(cks, vs);
        assert(cks == vs);
    }
    let mut out: Vec<u8> = Vec::new();
    out.push(123);
    let n: usize = sorted.len();
    let mut i: usize = 0;
    proof {
        assert(vs.take(0) =~= Seq::<Seq<u8>>::empty());
        assert(out@ =~= seq![123u8] + spec_rows(vs.take(0), m));
    }
    while i < n
        invariant
            i <= n,
            n == sorted@.len(),
            vs == views_of(sorted@),
            m == table@,
            table.inv(),
            forall|k: Seq<u8>| #[trigger] m.contains_key(k) ==> rec_inv(m[k]),
            forall|p: int| 0 <= p < vs.len() ==> m.contains_key(#[trigger] vs[p]),
            out@ == seq![123u8] + spec_rows(vs.take(i as int), m),
        decreases n - i,
    {
        if i > 0 {
            out.push(44);
            out.push(32);
        }
        let keyv: &Vec<u8> = &sorted[i];
        proof {
            assert(vs[i as int] == keyv@);
            assert(m.contains_key(keyv@));
        }
        push_bytes(&mut out, keyv.as_slice());
        out.push(61);
        let rec = table.get(keyv.as_slice());
        proof {
            assert(rec@ == m[keyv@]);
            assert(rec_inv(rec@));
            assert((VAL_MIN as int) * (rec.num as int) <= rec.total as int
                <= (VAL_MAX as int) * (rec.num as int)) by (nonlinear_arith)
                requires
                    (rec.min as int) * (rec.num as int) <= rec.total as int
                        <= (rec.max as int) * (rec.num as int),
                    VAL_MIN as int <= rec.min as int <= rec.max as int <= VAL_MAX as int,
                    rec.num as int >= 1;
        }
        render_fixed(rec.min, &mut out);
        out.push(47);
        let avg: i64 = avg_scaled(rec.total, rec.num);
        render_fixed(avg, &mut out);
        out.push(47);
        render_fixed(rec.max, &mut out);
        proof {
            let tk = vs.take(i as int + 1);
            assert(tk.drop_last() =~= vs.take(i as int));
            assert(tk.last() == vs[i as int]);
            assert(out@ =~= seq![123u8] + spec_rows(vs.take(i as int + 1), m));
        }
        i = i + 1;
    }
    out.push(125);
    out.push(10);
    proof {
        assert(vs.take(n as int) =~= vs);
        assert(out@ =~= spec_output_of(m));
    }
    out
}

/// Append a byte slice.
pub fn push_bytes(out: &mut Vec<u8>, bytes: &[u8])
    ensures
        final(out)@ == old(out)@ + bytes@,
{
    let n: usize = bytes.len();
    let mut i: usize = 0;
    while i < n
        invariant
            i <= n,
            n == bytes@.len(),
            out@ == old(out)@ + bytes@.take(i as int),
        decreases n - i,
    {
        out.push(bytes[i]);
        proof {
            assert(out@ =~= old(out)@ + bytes@.take(i as int + 1));
        }
        i = i + 1;
    }
    proof {
        assert(out@ =~= old(out)@ + bytes@);
    }
}

} // verus!

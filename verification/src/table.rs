//! Arena-backed open-addressing hash table.
//!
//! [`FixedSizeMap`] maps key byte slices to running aggregates. Keys are
//! appended once into a contiguous arena (`names`) and each slot holds only
//! an (offset, length) reference into it. Collisions are resolved by linear
//! probing: a lookup starts at the key's hash modulo capacity and steps
//! forward, wrapping once, until it meets the key or an empty slot. Slots
//! are never vacated, so for every occupied slot the whole probe path from
//! its hash position is occupied; that invariant is what makes probing find
//! every stored key. The table's view is the map from stored key bytes to
//! aggregate models.

use vstd::prelude::*;
use crate::agg::{Record, RecordModel, rec_zero, rec_inv, rec_add0, rec_join0, VAL_MIN, VAL_MAX};

verus! {

impl Record {
    /// The identity aggregate, with sentinel extrema.
    pub fn new() -> (r: Record)
        ensures
            r@ == rec_zero(),
    {
        Record { total: 0, min: i64::MAX, max: i64::MIN, num: 0 }
    }
}

/// Reference into the arena: the bytes at `start..end`.
#[derive(Copy, Clone)]
pub struct MapStrRef {
    pub start: usize,
    pub end: usize,
}

/// One table slot: its key reference and running aggregate, unused until
/// the first insertion.
#[derive(Copy, Clone)]
pub struct MapKvPair {
    pub used: bool,
    pub key: MapStrRef,
    pub value: Record,
}

impl MapKvPair {
    /// An empty slot.
    pub fn new() -> (r: MapKvPair)
        ensures
            !r.used,
            r.value@ == rec_zero(),
    {
        MapKvPair { used: false, key: MapStrRef { start: 0, end: 0 }, value: Record::new() }
    }
}

/// How many leading key bytes the hash folds in.
pub open spec fn fnv_take(k: Seq<u8>) -> int {
    if k.len() < 8 {
        k.len() as int
    } else {
        8
    }
}

/// The hash accumulator over the first `n` key bytes.
pub open spec fn spec_fnv_acc(k: Seq<u8>, n: int) -> u64
    decreases n,
{
    if n <= 0 {
        0u64
    } else {
        spec_fnv_acc(k, n - 1) | ((k[n - 1] as u64) << ((8 * (n - 1)) as u64))
    }
}

/// The key hash: the first eight bytes packed little-endian, xored with the
/// length, times a prime, wrapping.
pub open spec fn spec_fnv(k: Seq<u8>) -> u64 {
    ((((spec_fnv_acc(k, fnv_take(k)) ^ (k.len() as u64)) as nat) * 16381)
        % 0x1_0000_0000_0000_0000) as u64
}

/// Hash a key. Quality only affects probe length, never correctness:
/// equality of the referenced bytes decides every probe.
#[verifier::rlimit(50)]
pub fn fnv_hash(value: &[u8]) -> (r: usize)
    ensures
        r == spec_fnv(value@) as usize,
{
    let l: usize = if value.len() < 8 {
        value.len()
    } else {
        8
    };
    let mut conv_key: u64 = 0;
    let mut i: usize = 0;
    while i < l
        invariant
            l == fnv_take(value@),
            i <= l,
            l <= value@.len(),
            conv_key == spec_fnv_acc(value@, i as int),
        decreases l - i,
    {
        conv_key = conv_key | ((value[i] as u64) << ((8 * i) as u64));
        i = i + 1;
    }
    let mixed: u64 = conv_key ^ (value.len() as u64);
    let prod: u64 = mixed.wrapping_mul(16381);
    proof {
        assert(mixed == spec_fnv_acc(value@, fnv_take(value@)) ^ (value@.len() as u64));
        assert(prod == (((mixed as nat) * 16381) % 0x1_0000_0000_0000_0000) as u64);
        assert(prod == spec_fnv(value@));
    }
    #[verifier::truncate] (prod as usize)
}

/// Fixed-capacity open-addressing table over an arena of key bytes.
pub struct FixedSizeMap {
    pub names: Vec<u8>,
    pub entries: Vec<MapKvPair>,
}

impl View for FixedSizeMap {
    type V = Map<Seq<u8>, RecordModel>;

    open spec fn view(&self) -> Map<Seq<u8>, RecordModel> {
        Map::new(
            |k: Seq<u8>| self.has_key(k),
            |k: Seq<u8>| self.rec_at(self.slot_of(k)),
        )
    }
}

impl FixedSizeMap {
    /// Number of slots.
    pub open spec fn cap(self) -> int {
        self.entries.len() as int
    }

    /// Whether slot `i` is occupied.
    pub open spec fn occ(self, i: int) -> bool {
        self.entries[i].used
    }

    /// The key bytes slot `i` references.
    pub open spec fn key_at(self, i: int) -> Seq<u8> {
        self.names@.subrange(self.entries[i].key.start as int, self.entries[i].key.end as int)
    }

    /// The aggregate model at slot `i`.
    pub open spec fn rec_at(self, i: int) -> RecordModel {
        self.entries[i].value@
    }

    /// Some occupied slot holds `k`.
    pub open spec fn has_key(self, k: Seq<u8>) -> bool {
        exists|i: int| 0 <= i < self.cap() && self.occ(i) && #[trigger] self.key_at(i) == k
    }

    /// The occupied slot holding `k`.
    pub open spec fn slot_of(self, k: Seq<u8>) -> int {
        choose|i: int| 0 <= i < self.cap() && self.occ(i) && #[trigger] self.key_at(i) == k
    }

    /// Probe start of key `k`: its hash reduced to a slot index, as the
    /// executable code computes it.
    pub open spec fn hash_slot(self, k: Seq<u8>) -> int {
        ((spec_fnv(k) as usize) as int) % self.cap()
    }

    /// Number of probe steps from start `h` to slot `j`, wrapping once.
    pub open spec fn pdist(self, h: int, j: int) -> int {
        if j >= h {
            j - h
        } else {
            j + self.cap() - h
        }
    }

    /// The slot reached after `t` probe steps from `h`.
    pub open spec fn idx_at(self, h: int, t: int) -> int {
        if h + t < self.cap() {
            h + t
        } else {
            h + t - self.cap()
        }
    }

    /// Every slot on the probe path from `h` to `j` (exclusive) is occupied.
    pub open spec fn path_clear(self, h: int, j: int) -> bool {
        forall|t: int| 0 <= t < self.pdist(h, j) ==> self.occ(#[trigger] self.idx_at(h, t))
    }

    /// Per-slot validity: the key reference stays within the arena, and the
    /// aggregate is either the untouched identity or a valid aggregate.
    pub open spec fn slot_inv(self, i: int) -> bool {
        self.occ(i) ==> {
            &&& self.entries[i].key.start <= self.entries[i].key.end <= self.names@.len()
            &&& (self.rec_at(i).num == 0 ==> self.rec_at(i) == rec_zero())
            &&& (self.rec_at(i).num != 0 ==> rec_inv(self.rec_at(i)))
        }
    }

    /// Table invariant: valid slots, pairwise-distinct stored keys, and an
    /// occupied probe path behind every occupied slot.
    pub open spec fn inv(self) -> bool {
        &&& 1 <= self.cap()
        &&& forall|i: int| 0 <= i < self.cap() ==> #[trigger] self.slot_inv(i)
        &&& forall|i: int, j: int|
                0 <= i < self.cap() && 0 <= j < self.cap() && i != j && self.occ(i) && self.occ(j)
                    ==> #[trigger] self.key_at(i) != #[trigger] self.key_at(j)
        &&& forall|i: int| 0 <= i < self.cap() && #[trigger] self.occ(i)
                ==> self.path_clear(self.hash_slot(self.key_at(i)), i)
    }

    /// Number of occupied slots below `n`.
    pub open spec fn count_occ(self, n: int) -> int
        decreases n,
    {
        if n <= 0 {
            0
        } else {
            self.count_occ(n - 1) + if self.occ(n - 1) {
                1int
            } else {
                0int
            }
        }
    }

    /// The keys stored in slots below `n`.
    pub open spec fn pdom(self, n: int) -> Set<Seq<u8>> {
        Set::new(|k: Seq<u8>| exists|i: int| 0 <= i < n && self.occ(i) && #[trigger] self.key_at(i) == k)
    }

    /// The occupied slot below `n` holding `k`.
    pub open spec fn pslot_of(self, k: Seq<u8>, n: int) -> int {
        choose|i: int| 0 <= i < n && self.occ(i) && #[trigger] self.key_at(i) == k
    }

    /// The view restricted to the slots below `n`.
    pub open spec fn pview(self, n: int) -> Map<Seq<u8>, RecordModel> {
        Map::new(
            |k: Seq<u8>| exists|i: int| 0 <= i < n && self.occ(i) && #[trigger] self.key_at(i) == k,
            |k: Seq<u8>| self.rec_at(self.pslot_of(k, n)),
        )
    }

    /// No slots, no keys.
    pub proof fn lemma_pview_zero(self)
        ensures
            self.pview(0) == Map::<Seq<u8>, RecordModel>::empty(),
    {
        assert(self.pview(0) =~= Map::<Seq<u8>, RecordModel>::empty());
    }

    /// Walking one more slot adds its key, when it is occupied.
    pub proof fn lemma_pview_step(self, n: int)
        requires
            self.inv(),
            1 <= n <= self.cap(),
        ensures
            self.occ(n - 1) ==> self.pview(n)
                == self.pview(n - 1).insert(self.key_at(n - 1), self.rec_at(n - 1)),
            self.occ(n - 1) ==> !self.pview(n - 1).contains_key(self.key_at(n - 1)),
            !self.occ(n - 1) ==> self.pview(n) == self.pview(n - 1),
    {
        if self.occ(n - 1) {
            assert forall|k: Seq<u8>| #![auto] true implies
                (self.pview(n).contains_key(k)
                    == self.pview(n - 1).insert(self.key_at(n - 1), self.rec_at(n - 1))
                        .contains_key(k))
                && (self.pview(n).contains_key(k) ==> self.pview(n)[k]
                    == self.pview(n - 1).insert(self.key_at(n - 1), self.rec_at(n - 1))[k]) by {
                if k == self.key_at(n - 1) {
                    assert(self.pview(n).contains_key(k));
                    let i = self.pslot_of(k, n);
                    assert(i == n - 1);
                } else {
                    if self.pview(n).contains_key(k) {
                        let i = self.pslot_of(k, n);
                        assert(0 <= i < n - 1 && self.occ(i) && self.key_at(i) == k);
                        let j = self.pslot_of(k, n - 1);
                        assert(j == i);
                    }
                    if self.pview(n - 1).contains_key(k) {
                        let j = self.pslot_of(k, n - 1);
                        let i = self.pslot_of(k, n);
                        assert(i == j);
                    }
                }
            }
            assert(self.pview(n)
                =~= self.pview(n - 1).insert(self.key_at(n - 1), self.rec_at(n - 1)));
        } else {
            assert forall|k: Seq<u8>| #![auto] true implies
                (self.pview(n).contains_key(k) == self.pview(n - 1).contains_key(k))
                && (self.pview(n).contains_key(k)
                    ==> self.pview(n)[k] == self.pview(n - 1)[k]) by {
                if self.pview(n).contains_key(k) {
                    let i = self.pslot_of(k, n);
                    assert(0 <= i < n - 1 && self.occ(i) && self.key_at(i) == k);
                    let j = self.pslot_of(k, n - 1);
                    assert(j == i);
                }
                if self.pview(n - 1).contains_key(k) {
                    let j = self.pslot_of(k, n - 1);
                    let i = self.pslot_of(k, n);
                    assert(i == j);
                }
            }
            assert(self.pview(n) =~= self.pview(n - 1));
        }
    }

    /// Walking every slot yields the view itself.
    pub proof fn lemma_pview_full(self)
        requires
            self.inv(),
        ensures
            self.pview(self.cap()) == self@,
    {
        assert forall|k: Seq<u8>| #![auto] true implies
            (self.pview(self.cap()).contains_key(k) == self@.contains_key(k))
            && (self@.contains_key(k)
                ==> self.pview(self.cap())[k] == self@[k]) by {
            if self@.contains_key(k) {
                let i = self.slot_of(k);
                let j = self.pslot_of(k, self.cap());
                assert(j == i);
            }
        }
        assert(self.pview(self.cap()) =~= self@);
    }

    /// An occupied slot's key is in the view, mapped to that slot's aggregate.
    pub proof fn lemma_view_at(self, i: int)
        requires
            self.inv(),
            0 <= i < self.cap(),
            self.occ(i),
        ensures
            self@.contains_key(self.key_at(i)),
            self@[self.key_at(i)] == self.rec_at(i),
    {
        let k = self.key_at(i);
        assert(self.has_key(k));
        let j = self.slot_of(k);
        assert(0 <= j < self.cap() && self.occ(j) && self.key_at(j) == k);
        assert(j == i);
    }

    /// A key held by no occupied slot is not in the view.
    pub proof fn lemma_view_absent(self, k: Seq<u8>)
        requires
            forall|i: int| 0 <= i < self.cap() && self.occ(i) ==> #[trigger] self.key_at(i) != k,
        ensures
            !self@.contains_key(k),
    {
    }

    /// The keys of the slots below `n` form a finite set with one element
    /// per occupied slot.
    proof fn lemma_pdom_len(self, n: int)
        requires
            self.inv(),
            0 <= n <= self.cap(),
        ensures
            self.pdom(n).finite(),
            self.pdom(n).len() == self.count_occ(n),
        decreases n,
    {
        if n == 0 {
            assert(self.pdom(0) =~= Set::<Seq<u8>>::empty());
        } else {
            self.lemma_pdom_len(n - 1);
            if self.occ(n - 1) {
                assert(self.pdom(n) =~= self.pdom(n - 1).insert(self.key_at(n - 1)));
                assert(!self.pdom(n - 1).contains(self.key_at(n - 1)));
            } else {
                assert(self.pdom(n) =~= self.pdom(n - 1));
            }
        }
    }

    /// The view's domain is finite, with one key per occupied slot.
    pub proof fn lemma_dom_len(self)
        requires
            self.inv(),
        ensures
            self@.dom().finite(),
            self@.dom().len() == self.count_occ(self.cap()),
    {
        self.lemma_pdom_len(self.cap());
        assert(self@.dom() =~= self.pdom(self.cap()));
    }

    /// Create a table with `capacity` empty slots.
    pub fn new(capacity: usize) -> (r: FixedSizeMap)
        requires
            capacity >= 1,
        ensures
            r.inv(),
            r.cap() == capacity,
            r@ == Map::<Seq<u8>, RecordModel>::empty(),
            r.count_occ(r.cap()) == 0,
    {
        let mut entries: Vec<MapKvPair> = Vec::new();
        let mut i: usize = 0;
        while i < capacity
            invariant
                i == entries@.len(),
                i <= capacity,
                forall|j: int| 0 <= j < i ==> !(#[trigger] entries@[j]).used,
            decreases capacity - i,
        {
            entries.push(MapKvPair::new());
            i = i + 1;
        }
        let r = FixedSizeMap { names: Vec::new(), entries };
        proof {
            r.lemma_count_all_empty(r.cap());
            r.lemma_view_absent_all();
        }
        r
    }

    /// With no slot occupied, the occupied count is zero.
    proof fn lemma_count_all_empty(self, n: int)
        requires
            0 <= n <= self.cap(),
            forall|j: int| 0 <= j < self.cap() ==> !(#[trigger] self.occ(j)),
        ensures
            self.count_occ(n) == 0,
        decreases n,
    {
        if n > 0 {
            self.lemma_count_all_empty(n - 1);
        }
    }

    /// With no slot occupied, the view is empty.
    proof fn lemma_view_absent_all(self)
        requires
            forall|j: int| 0 <= j < self.cap() ==> !(#[trigger] self.occ(j)),
        ensures
            self@ == Map::<Seq<u8>, RecordModel>::empty(),
    {
        assert(self@ =~= Map::<Seq<u8>, RecordModel>::empty());
    }

    /// Probe geometry: within one wrap, step `t` from `h` lands on a valid
    /// slot at probe distance `t`.
    proof fn lemma_probe_geometry(self, h: int, t: int)
        requires
            0 <= h < self.cap(),
            0 <= t < self.cap(),
        ensures
            0 <= self.idx_at(h, t) < self.cap(),
            self.pdist(h, self.idx_at(h, t)) == t,
            self.idx_at(h, self.pdist(h, t)) == t,
    {
    }

    /// The occupied count never exceeds the slot count.
    pub proof fn lemma_count_le(self, n: int)
        requires
            0 <= n <= self.cap(),
        ensures
            self.count_occ(n) <= n,
        decreases n,
    {
        if n > 0 {
            self.lemma_count_le(n - 1);
        }
    }

    /// With every slot occupied, the occupied count equals the slot count.
    proof fn lemma_count_all_full(self, n: int)
        requires
            0 <= n <= self.cap(),
            forall|j: int| 0 <= j < self.cap() ==> #[trigger] self.occ(j),
        ensures
            self.count_occ(n) == n,
        decreases n,
    {
        if n > 0 {
            self.lemma_count_all_full(n - 1);
        }
    }

    /// Occupying one previously empty slot raises the occupied count below
    /// `n` by one when the slot lies below `n`.
    proof fn lemma_count_update(self, other: FixedSizeMap, idx: int, n: int)
        requires
            0 <= idx < self.cap(),
            self.cap() == other.cap(),
            0 <= n <= self.cap(),
            !self.occ(idx),
            other.occ(idx),
            forall|j: int| 0 <= j < self.cap() && j != idx ==> self.occ(j) == other.occ(j),
        ensures
            other.count_occ(n) == self.count_occ(n) + if idx < n {
                1int
            } else {
                0int
            },
        decreases n,
    {
        if n > 0 {
            self.lemma_count_update(other, idx, n - 1);
        }
    }

    /// If the first `steps` probes from `name`'s hash position all met
    /// occupied slots holding other keys, and the probe now stands on an
    /// empty slot or has wrapped fully, then `name` is not in the table.
    proof fn lemma_probe_miss(self, name: Seq<u8>, h: int, steps: int)
        requires
            self.inv(),
            h == self.hash_slot(name),
            0 <= h < self.cap(),
            0 <= steps <= self.cap(),
            forall|t: int| 0 <= t < steps ==> self.occ(#[trigger] self.idx_at(h, t))
                && self.key_at(self.idx_at(h, t)) != name,
            steps == self.cap() || !self.occ(self.idx_at(h, steps)),
        ensures
            !self@.contains_key(name),
    {
        if self@.contains_key(name) {
            let j = self.slot_of(name);
            assert(0 <= j < self.cap() && self.occ(j) && self.key_at(j) == name);
            let d = self.pdist(h, j);
            assert(0 <= d < self.cap());
            assert(self.idx_at(h, d) == j);
            assert(self.path_clear(h, j));
            if d < steps {
                assert(self.key_at(self.idx_at(h, d)) != name);
            } else {
                assert(steps < self.cap());
                if steps < d {
                    assert(self.occ(self.idx_at(h, steps)));
                } else {
                    assert(self.occ(self.idx_at(h, steps)));
                }
            }
        }
    }
}

impl FixedSizeMap {
    /// Find the slot of `name`, inserting it with the identity aggregate
    /// when absent. Returns `None` exactly when `name` is absent and every
    /// slot is taken: the capacity is exceeded.
    pub fn get_or_insert(&mut self, name: &[u8]) -> (r: Option<usize>)
        requires
            old(self).inv(),
        ensures
            final(self).inv(),
            final(self).cap() == old(self).cap(),
            match r {
                Some(idx) => {
                    &&& (idx as int) < old(self).cap()
                    &&& final(self).names@.len() <= old(self).names@.len() + name@.len()
                    &&& final(self).occ(idx as int)
                    &&& final(self).key_at(idx as int) == name@
                    &&& (old(self)@.contains_key(name@) ==> *final(self) == *old(self)
                            && final(self).rec_at(idx as int) == old(self)@[name@])
                    &&& (!old(self)@.contains_key(name@) ==> {
                        &&& final(self)@ == old(self)@.insert(name@, rec_zero())
                        &&& final(self).rec_at(idx as int) == rec_zero()
                        &&& final(self).count_occ(final(self).cap())
                            == old(self).count_occ(old(self).cap()) + 1
                    })
                },
                None => {
                    &&& *final(self) == *old(self)
                    &&& !old(self)@.contains_key(name@)
                    &&& old(self)@.dom().len() == old(self).cap()
                },
            },
    {
        let cap: usize = self.entries.len();
        let h: usize = fnv_hash(name) % cap;
        let mut idx: usize = h;
        let mut steps: usize = 0;
        while steps < cap
            invariant
                self.inv(),
                *self == *old(self),
                cap == self.cap(),
                h as int == self.hash_slot(name@),
                h < cap,
                steps <= cap,
                idx as int == self.idx_at(h as int, steps as int),
                forall|t: int| 0 <= t < steps ==> self.occ(#[trigger] self.idx_at(h as int, t))
                    && self.key_at(self.idx_at(h as int, t)) != name@,
            decreases cap - steps,
        {
            let e = self.entries[idx];
            if !e.used {
                proof {
                    self.lemma_probe_miss(name@, h as int, steps as int);
                }
                let ghost s0 = *self;
                let start: usize = self.names.len();
                let nlen: usize = name.len();
                let mut kk: usize = 0;
                while kk < nlen
                    invariant
                        kk <= nlen,
                        nlen == name@.len(),
                        self.names@.len() == start + kk,
                        self.names@ == s0.names@ + name@.take(kk as int),
                        self.entries == s0.entries,
                    decreases nlen - kk,
                {
                    self.names.push(name[kk]);
                    proof {
                        assert(self.names@ =~= s0.names@ + name@.take(kk + 1));
                    }
                    kk = kk + 1;
                }
                proof {
                    assert(self.names@ =~= s0.names@ + name@);
                }
                let name_end: usize = self.names.len();
                self.entries[idx] = MapKvPair {
                    used: true,
                    key: MapStrRef { start, end: name_end },
                    value: Record::new(),
                };
                proof {
                    let s1 = *self;
                    assert(s1.cap() == s0.cap());
                    // untouched slots keep their occupancy and keys
                    assert forall|i: int| 0 <= i < s1.cap() && i != idx implies
                        s1.occ(i) == s0.occ(i)
                            && (s0.occ(i) ==> s1.key_at(i) == s0.key_at(i)
                                && s1.rec_at(i) == s0.rec_at(i)) by {
                        assert(s0.slot_inv(i));
                        if s0.occ(i) {
                            assert(s1.key_at(i) =~= s0.key_at(i));
                        }
                    }
                    // the new slot holds exactly the inserted key
                    assert(s1.occ(idx as int));
                    assert(s1.key_at(idx as int) =~= name@);
                    // no occupied slot held the key before
                    assert forall|i: int| 0 <= i < s0.cap() && s0.occ(i)
                        implies s0.key_at(i) != name@ by {
                        if s0.key_at(i) == name@ {
                            assert(s0.has_key(name@));
                        }
                    }
                    // invariant: slot validity
                    assert forall|i: int| 0 <= i < s1.cap() implies s1.slot_inv(i) by {
                        assert(s0.slot_inv(i));
                    }
                    // invariant: distinct keys
                    assert forall|i: int, j: int|
                        0 <= i < s1.cap() && 0 <= j < s1.cap() && i != j && s1.occ(i) && s1.occ(j)
                        implies s1.key_at(i) != s1.key_at(j) by {
                        if i == idx as int || j == idx as int {
                        } else {
                            assert(s0.occ(i) && s0.occ(j));
                        }
                    }
                    // invariant: probe paths
                    assert forall|i: int| 0 <= i < s1.cap() && s1.occ(i)
                        implies s1.path_clear(s1.hash_slot(s1.key_at(i)), i) by {
                        if i == idx as int {
                            let hh = s1.hash_slot(name@);
                            assert(hh == h as int);
                            s1.lemma_probe_geometry(h as int, steps as int);
                            assert(s1.pdist(hh, i) == steps as int);
                            assert forall|t: int| 0 <= t < steps implies
                                s1.occ(#[trigger] s1.idx_at(hh, t)) by {
                                assert(s0.occ(s0.idx_at(h as int, t)));
                            }
                        } else {
                            let hh = s0.hash_slot(s0.key_at(i));
                            assert(s0.path_clear(hh, i));
                            assert forall|t: int| 0 <= t < s1.pdist(hh, i) implies
                                s1.occ(#[trigger] s1.idx_at(hh, t)) by {
                                assert(s0.occ(s0.idx_at(hh, t)));
                            }
                        }
                    }
                    assert(s1.inv());
                    // the view gains exactly the new key
                    assert forall|k: Seq<u8>| #![auto] true implies
                        (s1@.contains_key(k) == s0@.insert(name@, rec_zero()).contains_key(k))
                        && (s1@.contains_key(k) ==> s1@[k] == s0@.insert(name@, rec_zero())[k]) by {
                        if k == name@ {
                            assert(s1.has_key(k));
                            s1.lemma_view_at(idx as int);
                        } else {
                            if s0.has_key(k) {
                                let i = s0.slot_of(k);
                                s0.lemma_view_at(i);
                                s1.lemma_view_at(i);
                            }
                            if s1.has_key(k) {
                                let i = s1.slot_of(k);
                                assert(i != idx as int);
                                assert(s0.occ(i) && s0.key_at(i) == k);
                                s0.lemma_view_at(i);
                                s1.lemma_view_at(i);
                            }
                        }
                    }
                    assert(s1@ =~= s0@.insert(name@, rec_zero()));
                    s0.lemma_count_update(s1, idx as int, s0.cap());
                }
                return Some(idx);
            }
            let ks: usize = e.key.start;
            let ke: usize = e.key.end;
            proof {
                assert(self.slot_inv(idx as int));
            }
            let stored: &[u8] = vstd::slice::slice_subrange(self.names.as_slice(), ks, ke);
            if bytes_eq(stored, name) {
                proof {
                    self.lemma_view_at(idx as int);
                }
                return Some(idx);
            }
            proof {
                if steps + 1 < cap {
                    self.lemma_probe_geometry(h as int, steps as int + 1);
                }
            }
            steps = steps + 1;
            idx = idx + 1;
            if idx == cap {
                idx = 0;
            }
        }
        proof {
            self.lemma_probe_miss(name@, h as int, cap as int);
            assert forall|j: int| 0 <= j < self.cap() implies self.occ(j) by {
                self.lemma_probe_geometry(h as int, self.pdist(h as int, j));
                assert(self.occ(self.idx_at(h as int, self.pdist(h as int, j))));
            }
            self.lemma_dom_len();
            self.lemma_count_all_full(self.cap());
        }
        None
    }
}

impl FixedSizeMap {
    /// Common tail of [`Self::fold`] and [`Self::merge_at`]: writing a new
    /// aggregate into an occupied slot updates the view at that slot's key
    /// and nothing else.
    proof fn lemma_slot_value_update(s0: FixedSizeMap, s1: FixedSizeMap, idx: int, m: RecordModel)
        requires
            s0.inv(),
            0 <= idx < s0.cap(),
            s0.occ(idx),
            s1.names == s0.names,
            s1.entries@ == s0.entries@.update(
                idx,
                MapKvPair {
                    used: true,
                    key: s0.entries[idx].key,
                    value: s1.entries[idx].value,
                },
            ),
            s1.rec_at(idx) == m,
            m.num != 0 ==> rec_inv(m),
            m.num == 0 ==> m == rec_zero(),
        ensures
            s1.inv(),
            s1.cap() == s0.cap(),
            s1.occ(idx),
            s1.key_at(idx) == s0.key_at(idx),
            s1@ == s0@.insert(s0.key_at(idx), m),
    {
        assert forall|i: int| 0 <= i < s1.cap() implies
            s1.occ(i) == s0.occ(i) && s1.key_at(i) == s0.key_at(i) by {
            assert(s1.entries@[i].used == s0.entries@[i].used);
            assert(s1.entries@[i].key == s0.entries@[i].key);
        }
        assert forall|i: int| 0 <= i < s1.cap() implies s1.slot_inv(i) by {
            assert(s0.slot_inv(i));
            if i != idx {
                assert(s1.rec_at(i) == s0.rec_at(i));
            }
        }
        assert forall|i: int| 0 <= i < s1.cap() && s1.occ(i)
            implies s1.path_clear(s1.hash_slot(s1.key_at(i)), i) by {
            let hh = s0.hash_slot(s0.key_at(i));
            assert(s0.path_clear(hh, i));
            assert forall|t: int| 0 <= t < s1.pdist(hh, i) implies
                s1.occ(#[trigger] s1.idx_at(hh, t)) by {
                assert(s0.occ(s0.idx_at(hh, t)));
            }
        }
        assert(s1.inv());
        let key = s0.key_at(idx);
        assert forall|k: Seq<u8>| #![auto] true implies
            (s1@.contains_key(k) == s0@.insert(key, m).contains_key(k))
            && (s1@.contains_key(k) ==> s1@[k] == s0@.insert(key, m)[k]) by {
            if k == key {
                assert(s1.has_key(k));
                s1.lemma_view_at(idx);
            } else {
                if s0.has_key(k) {
                    let i = s0.slot_of(k);
                    s0.lemma_view_at(i);
                    s1.lemma_view_at(i);
                }
                if s1.has_key(k) {
                    let i = s1.slot_of(k);
                    assert(i != idx);
                    s0.lemma_view_at(i);
                    s1.lemma_view_at(i);
                }
            }
        }
        assert(s1@ =~= s0@.insert(key, m));
    }

    /// Fold one observed value into the aggregate at slot `idx`:
    /// `total += v`, `num += 1`, extrema update.
    pub fn fold(&mut self, idx: usize, v: i64)
        requires
            old(self).inv(),
            (idx as int) < old(self).cap(),
            old(self).occ(idx as int),
            VAL_MIN <= v <= VAL_MAX,
            old(self).rec_at(idx as int).num < u64::MAX,
        ensures
            final(self).inv(),
            final(self).cap() == old(self).cap(),
            final(self).occ(idx as int),
            final(self).key_at(idx as int) == old(self).key_at(idx as int),
            final(self).rec_at(idx as int) == rec_add0(old(self).rec_at(idx as int), v as int),
            final(self)@ == old(self)@.insert(
                old(self).key_at(idx as int),
                rec_add0(old(self).rec_at(idx as int), v as int),
            ),
    {
        let e = self.entries[idx];
        let r = e.value;
        proof {
            assert(self.slot_inv(idx as int));
            if r@.num != 0 {
                assert(-(9999 * 0xffff_ffff_ffff_ffff) <= r.total as int
                    <= 9999 * 0xffff_ffff_ffff_ffff) by (nonlinear_arith)
                    requires
                        (r.min as int) * (r.num as int) <= r.total as int
                            <= (r.max as int) * (r.num as int),
                        -9999 <= r.min as int <= r.max as int <= 9999,
                        0 <= r.num as int <= 0xffff_ffff_ffff_ffff;
                crate::agg::lemma_rec_add_inv(r@, v as int);
            } else {
                crate::agg::lemma_rec_one_inv(v as int);
            }
        }
        let total: i128 = r.total + v as i128;
        let min: i64 = if v < r.min {
            v
        } else {
            r.min
        };
        let max: i64 = if v > r.max {
            v
        } else {
            r.max
        };
        let num: u64 = r.num + 1;
        self.entries[idx] = MapKvPair {
            used: true,
            key: e.key,
            value: Record { total, min, max, num },
        };
        proof {
            let m = rec_add0(old(self).rec_at(idx as int), v as int);
            assert(self.rec_at(idx as int) == m);
            Self::lemma_slot_value_update(*old(self), *self, idx as int, m);
        }
    }

    /// Combine a whole aggregate into the one at slot `idx`, as the merger
    /// does for same-key entries of different workers.
    pub fn merge_at(&mut self, idx: usize, b: &Record)
        requires
            old(self).inv(),
            (idx as int) < old(self).cap(),
            old(self).occ(idx as int),
            rec_inv(b@),
            old(self).rec_at(idx as int).num + b@.num <= u64::MAX,
        ensures
            final(self).inv(),
            final(self).cap() == old(self).cap(),
            final(self).occ(idx as int),
            final(self).key_at(idx as int) == old(self).key_at(idx as int),
            final(self).rec_at(idx as int) == rec_join0(old(self).rec_at(idx as int), b@),
            final(self)@ == old(self)@.insert(
                old(self).key_at(idx as int),
                rec_join0(old(self).rec_at(idx as int), b@),
            ),
    {
        let e = self.entries[idx];
        let r = e.value;
        proof {
            assert(self.slot_inv(idx as int));
            assert(-(9999 * 0xffff_ffff_ffff_ffff) <= b.total as int
                <= 9999 * 0xffff_ffff_ffff_ffff) by (nonlinear_arith)
                requires
                    (b.min as int) * (b.num as int) <= b.total as int
                        <= (b.max as int) * (b.num as int),
                    -9999 <= b.min as int <= b.max as int <= 9999,
                    0 <= b.num as int <= 0xffff_ffff_ffff_ffff;
            if r@.num != 0 {
                assert(-(9999 * 0xffff_ffff_ffff_ffff) <= r.total as int
                    <= 9999 * 0xffff_ffff_ffff_ffff) by (nonlinear_arith)
                    requires
                        (r.min as int) * (r.num as int) <= r.total as int
                            <= (r.max as int) * (r.num as int),
                        -9999 <= r.min as int <= r.max as int <= 9999,
                        0 <= r.num as int <= 0xffff_ffff_ffff_ffff;
                crate::agg::lemma_rec_join_inv(r@, b@);
            }
        }
        let total: i128 = r.total + b.total;
        let min: i64 = if b.min < r.min {
            b.min
        } else {
            r.min
        };
        let max: i64 = if b.max > r.max {
            b.max
        } else {
            r.max
        };
        let num: u64 = r.num + b.num;
        self.entries[idx] = MapKvPair {
            used: true,
            key: e.key,
            value: Record { total, min, max, num },
        };
        proof {
            let m = rec_join0(old(self).rec_at(idx as int), b@);
            assert(self.rec_at(idx as int) == m);
            Self::lemma_slot_value_update(*old(self), *self, idx as int, m);
        }
    }

    /// Look up the aggregate stored for `name`, which must be present.
    pub fn get(&self, name: &[u8]) -> (r: Record)
        requires
            self.inv(),
            self@.contains_key(name@),
        ensures
            r@ == self@[name@],
    {
        let cap: usize = self.entries.len();
        let h: usize = fnv_hash(name) % cap;
        let mut idx: usize = h;
        let mut steps: usize = 0;
        while steps < cap
            invariant
                self.inv(),
                self@.contains_key(name@),
                cap == self.cap(),
                h as int == self.hash_slot(name@),
                h < cap,
                steps <= cap,
                idx as int == self.idx_at(h as int, steps as int),
                forall|t: int| 0 <= t < steps ==> self.occ(#[trigger] self.idx_at(h as int, t))
                    && self.key_at(self.idx_at(h as int, t)) != name@,
            decreases cap - steps,
        {
            let e = self.entries[idx];
            if !e.used {
                proof {
                    self.lemma_probe_miss(name@, h as int, steps as int);
                }
                // unreachable: the key is present
                return e.value;
            }
            let ks: usize = e.key.start;
            let ke: usize = e.key.end;
            proof {
                assert(self.slot_inv(idx as int));
            }
            let stored: &[u8] = vstd::slice::slice_subrange(self.names.as_slice(), ks, ke);
            if bytes_eq(stored, name) {
                proof {
                    self.lemma_view_at(idx as int);
                }
                return e.value;
            }
            proof {
                if steps + 1 < cap {
                    self.lemma_probe_geometry(h as int, steps as int + 1);
                }
            }
            steps = steps + 1;
            idx = idx + 1;
            if idx == cap {
                idx = 0;
            }
        }
        proof {
            self.lemma_probe_miss(name@, h as int, cap as int);
        }
        // unreachable: the key is present
        Record::new()
    }

    /// The stored keys, one owned copy per occupied slot, in slot order.
    #[verifier::rlimit(100)]
    pub fn keys(&self) -> (r: Vec<Vec<u8>>)
        requires
            self.inv(),
        ensures
            forall|p: int, q: int| 0 <= p < r@.len() && 0 <= q < r@.len() && p != q
                ==> r@[p]@ != r@[q]@,
            forall|p: int| 0 <= p < r@.len() ==> self@.contains_key(#[trigger] r@[p]@),
            forall|k: Seq<u8>| self@.contains_key(k)
                ==> exists|p: int| 0 <= p < r@.len() && #[trigger] r@[p]@ == k,
    {
        let cap: usize = self.entries.len();
        let mut r: Vec<Vec<u8>> = Vec::new();
        let ghost mut slots: Seq<int> = Seq::empty();
        let mut i: usize = 0;
        while i < cap
            invariant
                self.inv(),
                cap == self.cap(),
                i <= cap,
                slots.len() == r@.len(),
                forall|p: int| 0 <= p < slots.len() ==> 0 <= #[trigger] slots[p] < i
                    && self.occ(slots[p]) && self.key_at(slots[p]) == r@[p]@,
                forall|p: int, q: int| 0 <= p < q < slots.len() ==> slots[p] < slots[q],
                forall|j: int| 0 <= j < i && self.occ(j)
                    ==> exists|p: int| 0 <= p < slots.len() && #[trigger] slots[p] == j,
            decreases cap - i,
        {
            let e = self.entries[i];
            if e.used {
                proof {
                    assert(self.slot_inv(i as int));
                }
                let name: &[u8] = vstd::slice::slice_subrange(
                    self.names.as_slice(),
                    e.key.start,
                    e.key.end,
                );
                let owned: Vec<u8> = vstd::slice::slice_to_vec(name);
                r.push(owned);
                proof {
                    let slots0 = slots;
                    slots = slots0.push(i as int);
                    assert forall|j: int| 0 <= j < i as int + 1 && self.occ(j)
                        implies exists|p: int| 0 <= p < slots.len()
                            && #[trigger] slots[p] == j by {
                        if j == i as int {
                            assert(slots[slots.len() - 1] == j);
                        } else {
                            let p = choose|p: int| 0 <= p < slots0.len()
                                && #[trigger] slots0[p] == j;
                            assert(slots[p] == j);
                        }
                    }
                }
            }
            i = i + 1;
        }
        proof {
            assert forall|p: int, q: int| 0 <= p < r@.len() && 0 <= q < r@.len() && p != q
                implies r@[p]@ != r@[q]@ by {
                assert(slots[p] != slots[q]);
            }
            assert forall|p: int| 0 <= p < r@.len()
                implies self@.contains_key(#[trigger] r@[p]@) by {
                self.lemma_view_at(slots[p]);
            }
            assert forall|k: Seq<u8>| self@.contains_key(k)
                implies exists|p: int| 0 <= p < r@.len() && #[trigger] r@[p]@ == k by {
                let j = self.slot_of(k);
                assert(0 <= j < self.cap() && self.occ(j) && self.key_at(j) == k);
                let p = choose|p: int| 0 <= p < slots.len() && #[trigger] slots[p] == j;
                assert(r@[p]@ == k);
            }
        }
        r
    }
}

/// Byte-for-byte equality of two slices.
pub fn bytes_eq(a: &[u8], b: &[u8]) -> (r: bool)
    ensures
        r == (a@ == b@),
{
    if a.len() != b.len() {
        return false;
    }
    let n: usize = a.len();
    let mut i: usize = 0;
    while i < n
        invariant
            n == a@.len() == b@.len(),
            i <= n,
            forall|t: int| 0 <= t < i ==> a@[t] == b@[t],
        decreases n - i,
    {
        if a[i] != b[i] {
            return false;
        }
        i = i + 1;
    }
    proof {
        assert(a@ =~= b@);
    }
    true
}

} // verus!

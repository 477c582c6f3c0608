//! Bloom filter stages and the scalable filter built from them.
//!
//! A key is presented to a stage by its probe hashes: `probes[i]` is the hash
//! of the key under seed `i`. A stage with `k` hash functions and `m` bits
//! uses the positions `probes[i] % m` for `i < k`.
use crate::bitmap::{bit_at, bits_of, replace_bit, zero_all, zeroed_bits, Bitmap, MAX_BITMAP_BITS};
use vstd::prelude::*;

verus! {

/// The derived shape of a stage: `bits` is the bitmap length `m`, `hashes`
/// the number of hash functions `k`.
#[derive(Clone, Copy, Debug, PartialEq, Eq)]
pub struct Geometry {
    pub bits: usize,
    pub hashes: u32,
}

/// The model of a stage.
pub struct StageView {
    pub bits: Seq<bool>,
    pub size: nat,
    pub hash_count: nat,
    pub hits: nat,
    pub miss: nat,
}

/// The bit position that probe `i` selects in a bitmap of `m` bits.
pub open spec fn position(probes: Seq<u32>, i: int, m: nat) -> int {
    (probes[i] as int) % (m as int)
}

/// Whether all `k` positions of `probes` are set in `bits`.
pub open spec fn all_set(bits: Seq<bool>, probes: Seq<u32>, k: nat) -> bool {
    bits.len() > 0 && forall|i: int| 0 <= i < k ==> #[trigger] bits[position(probes, i, bits.len())]
}

/// `bits` with the first `k` positions of `probes` set.
pub open spec fn marked(bits: Seq<bool>, probes: Seq<u32>, k: nat) -> Seq<bool> {
    Seq::new(
        bits.len(),
        |p: int| bits[p] || exists|i: int| 0 <= i < k && position(probes, i, bits.len()) == p,
    )
}

/// Error returned by a stage that already holds as many distinct keys as it has bits.
#[derive(Clone, Copy, Debug, PartialEq, Eq)]
pub struct FilterFull;

/// A fixed-size Bloom filter.
pub struct BloomFilter {
    capacity: usize,
    size: usize,
    bitmap: Bitmap,
    hash_count: u32,
    hits: u64,
    miss: u64,
}

impl View for BloomFilter {
    type V = StageView;

    closed spec fn view(&self) -> StageView {
        StageView {
            bits: bits_of(self.bitmap),
            size: self.size as nat,
            hash_count: self.hash_count as nat,
            hits: self.hits as nat,
            miss: self.miss as nat,
        }
    }
}

impl BloomFilter {
    /// The bitmap has `capacity` bits, at most `MAX_BITMAP_BITS`, and holds at
    /// most that many distinct keys.
    pub closed spec fn wf(&self) -> bool {
        &&& bits_of(self.bitmap).len() == self.capacity
        &&& self.size <= self.capacity
        &&& self.capacity <= MAX_BITMAP_BITS
    }

    /// A stage of the given shape with every bit clear.
    pub fn new(geometry: Geometry) -> (r: BloomFilter)
        requires
            geometry.bits <= MAX_BITMAP_BITS,
        ensures
            r.wf(),
            r@.bits == Seq::new(geometry.bits as nat, |i: int| false),
            r@.size == 0,
            r@.hash_count == geometry.hashes,
            r@.hits == 0,
            r@.miss == 0,
    {
        BloomFilter {
            capacity: geometry.bits,
            size: 0,
            bitmap: zeroed_bits(geometry.bits),
            hash_count: geometry.hashes,
            hits: 0,
            miss: 0,
        }
    }

    /// The bitmap length in bits.
    pub fn capacity(&self) -> (r: usize)
        requires
            self.wf(),
        ensures
            r == self@.bits.len(),
    {
        self.capacity
    }

    pub fn size(&self) -> (r: usize)
        ensures
            r == self@.size,
    {
        self.size
    }

    pub fn hash_count(&self) -> (r: u32)
        ensures
            r == self@.hash_count,
    {
        self.hash_count
    }

    /// The bitmap length in whole bytes.
    pub fn byte_space(&self) -> (r: usize)
        requires
            self.wf(),
        ensures
            r == self@.bits.len() / 8,
    {
        self.capacity / 8
    }

    pub fn hits(&self) -> (r: u64)
        ensures
            r == self@.hits,
    {
        self.hits
    }

    pub fn miss(&self) -> (r: u64)
        ensures
            r == self@.miss,
    {
        self.miss
    }

    /// The ranges of a well-formed stage: at most `MAX_BITMAP_BITS` bits, and
    /// no more distinct keys than bits.
    pub proof fn lemma_bounds(&self)
        requires
            self.wf(),
        ensures
            self@.bits.len() <= MAX_BITMAP_BITS,
            self@.size <= self@.bits.len(),
    {
    }

    /// The bit at position `i`.
    pub fn bit(&self, i: usize) -> (r: bool)
        requires
            self.wf(),
            i < self@.bits.len(),
        ensures
            r == self@.bits[i as int],
    {
        bit_at(&self.bitmap, i)
    }

    /// A stage rebuilt from its parts.
    pub(crate) fn from_parts(bitmap: Bitmap, capacity: usize, size: usize, hash_count: u32, hits: u64, miss: u64) -> (r: BloomFilter)
        requires
            bits_of(bitmap).len() == capacity,
            size <= capacity,
            capacity <= MAX_BITMAP_BITS,
        ensures
            r.wf(),
            r@ == (StageView {
                bits: bits_of(bitmap),
                size: size as nat,
                hash_count: hash_count as nat,
                hits: hits as nat,
                miss: miss as nat,
            }),
    {
        BloomFilter { capacity, size, bitmap, hash_count, hits, miss }
    }

    /// Whether every bit is taken by a distinct key.
    pub fn is_full(&self) -> (r: bool)
        requires
            self.wf(),
        ensures
            r == (self@.size == self@.bits.len()),
    {
        self.size == self.capacity
    }

    /// Whether all `k` positions of `probes` are set, without touching the counters.
    fn probe(&self, probes: &[u32]) -> (r: bool)
        requires
            self.wf(),
            probes@.len() >= self@.hash_count,
        ensures
            r == all_set(self@.bits, probes@, self@.hash_count),
    {
        if self.capacity == 0 {
            return false;
        }
        let mut i: u32 = 0;
        while i < self.hash_count
            invariant
                self.wf(),
                self.capacity > 0,
                probes@.len() >= self.hash_count,
                i <= self.hash_count,
                forall|j: int| 0 <= j < i ==> #[trigger] self@.bits[position(probes@, j, self@.bits.len())],
            decreases self.hash_count - i,
        {
            let pos = (probes[i as usize] as usize) % self.capacity;
            if !bit_at(&self.bitmap, pos) {
                assert(!self@.bits[position(probes@, i as int, self@.bits.len())]);
                return false;
            }
            i = i + 1;
        }
        true
    }

    /// Inserts the key whose probe hashes are `probes`.
    ///
    /// Fails when the stage is full. Otherwise sets the key's `k` bits, counts
    /// the key as a new one when any of them was clear, and returns whether
    /// all of them were already set.
    pub fn set(&mut self, probes: &[u32]) -> (r: Result<bool, FilterFull>)
        requires
            old(self).wf(),
            probes@.len() >= old(self)@.hash_count,
        ensures
            final(self).wf(),
            old(self)@.size == old(self)@.bits.len() ==> r is Err && final(self)@ == old(self)@,
            old(self)@.size < old(self)@.bits.len() ==> {
                let present = all_set(old(self)@.bits, probes@, old(self)@.hash_count);
                &&& r == Ok::<bool, FilterFull>(present)
                &&& final(self)@.bits == marked(old(self)@.bits, probes@, old(self)@.hash_count)
                &&& final(self)@.size == old(self)@.size + (if present { 0nat } else { 1nat })
                &&& final(self)@.hash_count == old(self)@.hash_count
                &&& final(self)@.hits == old(self)@.hits
                &&& final(self)@.miss == old(self)@.miss
            },
    {
        if self.size == self.capacity {
            return Err(FilterFull);
        }
        let present = self.probe(probes);
        let ghost orig = self@.bits;
        let m = self.capacity;
        let mut i: u32 = 0;
        while i < self.hash_count
            invariant
                bits_of(self.bitmap).len() == m,
                m == self.capacity,
                m > 0,
                self.size < self.capacity,
                self.size == old(self).size,
                self.hash_count == old(self).hash_count,
                self.hits == old(self).hits,
                self.miss == old(self).miss,
                orig == old(self)@.bits,
                orig.len() == m,
                probes@.len() >= self.hash_count,
                i <= self.hash_count,
                bits_of(self.bitmap) == marked(orig, probes@, i as nat),
            decreases self.hash_count - i,
        {
            let pos = (probes[i as usize] as usize) % m;
            let ghost before = bits_of(self.bitmap);
            replace_bit(&mut self.bitmap, pos, true);
            proof {
                let next = marked(orig, probes@, (i + 1) as nat);
                assert forall|p: int| 0 <= p < m implies #[trigger] bits_of(self.bitmap)[p] == next[p] by {
                    if p == pos as int {
                        assert(position(probes@, i as int, m as nat) == p);
                    } else if exists|j: int| 0 <= j < i + 1 && position(probes@, j, m as nat) == p {
                        let j = choose|j: int| 0 <= j < i + 1 && position(probes@, j, m as nat) == p;
                        assert(j != i);
                    }
                }
                assert(bits_of(self.bitmap) =~= next);
            }
            i = i + 1;
        }
        if !present {
            self.size = self.size + 1;
        }
        Ok(present)
    }

    /// Tests the key whose probe hashes are `probes`, counting a hit or a miss.
    pub fn check(&mut self, probes: &[u32]) -> (r: bool)
        requires
            old(self).wf(),
            probes@.len() >= old(self)@.hash_count,
        ensures
            final(self).wf(),
            r == all_set(old(self)@.bits, probes@, old(self)@.hash_count),
            final(self)@.bits == old(self)@.bits,
            final(self)@.size == old(self)@.size,
            final(self)@.hash_count == old(self)@.hash_count,
            final(self)@.hits == if r { saturating_inc(old(self)@.hits) } else { old(self)@.hits },
            final(self)@.miss == if r { old(self)@.miss } else { saturating_inc(old(self)@.miss) },
    {
        let r = self.probe(probes);
        if r {
            self.hits = self.hits.saturating_add(1);
        } else {
            self.miss = self.miss.saturating_add(1);
        }
        r
    }

    /// Clears every bit and forgets every key; the counters stay.
    pub fn clear(&mut self)
        requires
            old(self).wf(),
        ensures
            final(self).wf(),
            final(self)@.bits == Seq::new(old(self)@.bits.len(), |i: int| false),
            final(self)@.size == 0,
            final(self)@.hash_count == old(self)@.hash_count,
            final(self)@.hits == old(self)@.hits,
            final(self)@.miss == old(self)@.miss,
    {
        zero_all(&mut self.bitmap);
        self.size = 0;
    }
}

/// A counter value after one more event, held at the largest `u64`.
pub open spec fn saturating_inc(n: nat) -> nat {
    if n < u64::MAX { n + 1 } else { n }
}


/// The growth factor of a scalable filter.
#[derive(Clone, Copy, Debug, PartialEq, Eq)]
pub enum ScaleFactor {
    SmallScaleSize,
    LargeScaleSize,
}

impl ScaleFactor {
    pub open spec fn spec_multiplier(self) -> nat {
        match self {
            ScaleFactor::SmallScaleSize => 2,
            ScaleFactor::LargeScaleSize => 4,
        }
    }

    /// How many times the initial capacity each new stage is sized for.
    pub fn multiplier(self) -> (r: usize)
        ensures
            r == self.spec_multiplier(),
    {
        match self {
            ScaleFactor::SmallScaleSize => 2,
            ScaleFactor::LargeScaleSize => 4,
        }
    }

    pub fn small_scale_size() -> (r: ScaleFactor)
        ensures
            r == ScaleFactor::SmallScaleSize,
    {
        ScaleFactor::SmallScaleSize
    }

    pub fn large_scale_size() -> (r: ScaleFactor)
        ensures
            r == ScaleFactor::LargeScaleSize,
    {
        ScaleFactor::LargeScaleSize
    }
}

/// A false-positive probability written as a decimal fraction:
/// `mantissa / 10^scale`.
#[derive(Clone, Copy, Debug, PartialEq, Eq)]
pub struct Fpp {
    pub mantissa: u64,
    pub scale: u32,
}

/// The tightening ratio applied to the probability of each new stage, in percent.
pub const TIGHTENING_PERCENT: u64 = 90;

/// What sizes a new stage: the element count it is meant for, the filter's
/// initial probability, and how many times the tightening ratio applies to it
/// (stage `i` gets `fpp * 0.9^(i + 1)`).
#[derive(Clone, Copy, Debug, PartialEq, Eq)]
pub struct StageRequest {
    pub capacity: usize,
    pub fpp: Fpp,
    pub tightening: usize,
}

/// A hash family that answers every call, the same way for the same arguments.
pub open spec fn hash_ok<H: Fn(&[u8], u32) -> u32>(h: &H) -> bool {
    &&& forall|b: &[u8], i: u32| #[trigger] h.requires((b, i))
    &&& forall|b: &[u8], i: u32, r1: u32, r2: u32|
        #[trigger] h.ensures((b, i), r1) && #[trigger] h.ensures((b, i), r2) ==> r1 == r2
}

/// A sizing rule that answers every call, the same way for the same request.
pub open spec fn sizing_ok<S: Fn(StageRequest) -> Geometry>(s: &S) -> bool {
    &&& forall|q: StageRequest| #[trigger] s.requires((q,))
    &&& forall|q: StageRequest, g1: Geometry, g2: Geometry|
        #[trigger] s.ensures((q,), g1) && #[trigger] s.ensures((q,), g2) ==> g1 == g2
}

/// The first `k` probe hashes of `b`.
pub open spec fn hashes_of<H: Fn(&[u8], u32) -> u32>(h: &H, b: &[u8], k: nat) -> Seq<u32> {
    Seq::new(k, |i: int| choose|r: u32| #[trigger] h.ensures((b, i as u32), r))
}

/// The shape that the sizing rule gives for a request.
pub open spec fn geometry_for<S: Fn(StageRequest) -> Geometry>(s: &S, q: StageRequest) -> Geometry {
    choose|g: Geometry| #[trigger] s.ensures((q,), g)
}

/// Whether a stage holds `b`.
pub open spec fn stage_has<H: Fn(&[u8], u32) -> u32>(st: StageView, h: &H, b: &[u8]) -> bool {
    all_set(st.bits, hashes_of(h, b, st.hash_count), st.hash_count)
}

/// Whether some stage holds `b`.
pub open spec fn contains<H: Fn(&[u8], u32) -> u32>(stages: Seq<StageView>, h: &H, b: &[u8]) -> bool {
    exists|j: int| 0 <= j < stages.len() && #[trigger] stage_has(stages[j], h, b)
}

/// Whether a stage after `j` holds `b`.
pub open spec fn held_after<H: Fn(&[u8], u32) -> u32>(stages: Seq<StageView>, h: &H, b: &[u8], j: int) -> bool {
    exists|l: int| j < l < stages.len() && #[trigger] stage_has(stages[l], h, b)
}

/// A stage after one more hit.
pub open spec fn with_hit(st: StageView) -> StageView {
    StageView { hits: saturating_inc(st.hits), ..st }
}

/// A stage after one more miss.
pub open spec fn with_miss(st: StageView) -> StageView {
    StageView { miss: saturating_inc(st.miss), ..st }
}

/// The stages after a membership test of `b`, which visits them newest first
/// and stops at the first that holds it.
pub open spec fn after_check<H: Fn(&[u8], u32) -> u32>(stages: Seq<StageView>, h: &H, b: &[u8]) -> Seq<StageView> {
    Seq::new(
        stages.len(),
        |j: int|
            if held_after(stages, h, b, j) {
                stages[j]
            } else if stage_has(stages[j], h, b) {
                with_hit(stages[j])
            } else {
                with_miss(stages[j])
            },
    )
}

/// Sum of the bitmap lengths.
pub open spec fn total_bits(stages: Seq<StageView>) -> nat
    decreases stages.len(),
{
    if stages.len() == 0 { 0 } else { total_bits(stages.drop_last()) + stages.last().bits.len() }
}

/// Sum of the sizes.
pub open spec fn total_size(stages: Seq<StageView>) -> nat
    decreases stages.len(),
{
    if stages.len() == 0 { 0 } else { total_size(stages.drop_last()) + stages.last().size }
}

/// Sum of the whole bytes of each bitmap.
pub open spec fn total_bytes(stages: Seq<StageView>) -> nat
    decreases stages.len(),
{
    if stages.len() == 0 { 0 } else { total_bytes(stages.drop_last()) + stages.last().bits.len() / 8 }
}

/// Sum of the hit counters.
pub open spec fn total_hits(stages: Seq<StageView>) -> nat
    decreases stages.len(),
{
    if stages.len() == 0 { 0 } else { total_hits(stages.drop_last()) + stages.last().hits }
}

/// Sum of the miss counters.
pub open spec fn total_miss(stages: Seq<StageView>) -> nat
    decreases stages.len(),
{
    if stages.len() == 0 { 0 } else { total_miss(stages.drop_last()) + stages.last().miss }
}

/// The largest hash count, 0 without stages.
pub open spec fn max_hash_count(stages: Seq<StageView>) -> nat
    decreases stages.len(),
{
    if stages.len() == 0 {
        0
    } else {
        let rest = max_hash_count(stages.drop_last());
        if stages.last().hash_count > rest { stages.last().hash_count } else { rest }
    }
}

/// `n` capped at the largest `u64`.
pub open spec fn cap_u64(n: nat) -> nat {
    if n <= u64::MAX { n } else { u64::MAX as nat }
}

/// Why an insertion into a scalable filter failed.
#[derive(Clone, Copy, Debug, PartialEq, Eq)]
pub enum SetError {
    /// The stage that was to take the key is full.
    Full,
    /// A new stage was needed and cannot be allocated: its request or its
    /// bitmap is over the limits, or the total bitmap length would overflow.
    CannotGrow,
}

/// The model of a scalable filter.
pub struct ScalableView {
    pub name: Seq<char>,
    pub initial_capacity: nat,
    pub stages: Seq<StageView>,
    pub fpp: Fpp,
    pub scale_factor: ScaleFactor,
    pub creation_time: int,
    pub last_access_time: int,
}

/// A Bloom filter that grows by appending stages.
pub struct ScalableBloomFilter {
    name: String,
    initial_capacity: usize,
    filters: Vec<BloomFilter>,
    fpp: Fpp,
    scale_factor: ScaleFactor,
    creation_time: i64,
    last_access_time: i64,
}

impl View for ScalableBloomFilter {
    type V = ScalableView;

    closed spec fn view(&self) -> ScalableView {
        ScalableView {
            name: self.name@,
            initial_capacity: self.initial_capacity as nat,
            stages: self.filters@.map_values(|f: BloomFilter| f@),
            fpp: self.fpp,
            scale_factor: self.scale_factor,
            creation_time: self.creation_time as int,
            last_access_time: self.last_access_time as int,
        }
    }
}


/// A stage of the given shape with every bit clear and no counts.
pub open spec fn fresh_stage(g: Geometry) -> StageView {
    StageView {
        bits: Seq::new(g.bits as nat, |i: int| false),
        size: 0,
        hash_count: g.hashes as nat,
        hits: 0,
        miss: 0,
    }
}

/// A stage after inserting the key with probe hashes `p`.
pub open spec fn stage_after_set(st: StageView, p: Seq<u32>) -> StageView {
    let present = all_set(st.bits, p, st.hash_count);
    StageView {
        bits: marked(st.bits, p, st.hash_count),
        size: st.size + (if present { 0nat } else { 1nat }),
        ..st
    }
}

/// Whether an insertion must first append a stage.
pub open spec fn needs_stage(stages: Seq<StageView>) -> bool {
    stages.len() == 0 || stages.last().size == stages.last().bits.len()
}

/// The request for the stage that would be appended after `stages`.
pub open spec fn next_request(stages: Seq<StageView>, initial_capacity: nat, scale: ScaleFactor, fpp: Fpp) -> StageRequest {
    StageRequest {
        capacity: (initial_capacity * scale.spec_multiplier()) as usize,
        fpp,
        tightening: (stages.len() + 1) as usize,
    }
}

/// Whether the stage for `q` can be appended after `stages`.
pub open spec fn can_grow(stages: Seq<StageView>, initial_capacity: nat, scale: ScaleFactor, g: Geometry) -> bool {
    &&& initial_capacity * scale.spec_multiplier() <= usize::MAX
    &&& stages.len() + 1 <= usize::MAX
    &&& g.bits <= MAX_BITMAP_BITS
    &&& total_bits(stages) + g.bits <= usize::MAX
}

/// The result and the stages of inserting a key that no stage holds.
pub open spec fn insert_outcome<H: Fn(&[u8], u32) -> u32, S: Fn(StageRequest) -> Geometry>(
    stages: Seq<StageView>,
    initial_capacity: nat,
    scale: ScaleFactor,
    fpp: Fpp,
    h: &H,
    s: &S,
    b: &[u8],
) -> (Result<bool, SetError>, Seq<StageView>) {
    let g = geometry_for(s, next_request(stages, initial_capacity, scale, fpp));
    if needs_stage(stages) && !can_grow(stages, initial_capacity, scale, g) {
        (Err(SetError::CannotGrow), stages)
    } else {
        let st = if needs_stage(stages) { stages.push(fresh_stage(g)) } else { stages };
        let last = st.last();
        if last.size == last.bits.len() {
            (Err(SetError::Full), st)
        } else {
            let p = hashes_of(h, b, last.hash_count);
            (Ok(all_set(last.bits, p, last.hash_count)), st.update(st.len() - 1, stage_after_set(last, p)))
        }
    }
}

proof fn lemma_total_bits_same(a: Seq<StageView>, b: Seq<StageView>)
    requires
        a.len() == b.len(),
        forall|j: int| 0 <= j < a.len() ==> #[trigger] a[j].bits.len() == b[j].bits.len(),
    ensures
        total_bits(a) == total_bits(b),
    decreases a.len(),
{
    if a.len() > 0 {
        lemma_total_bits_same(a.drop_last(), b.drop_last());
    }
}

pub(crate) proof fn lemma_total_bits_prefix(a: Seq<StageView>, i: int)
    requires
        0 <= i <= a.len(),
    ensures
        total_bits(a.subrange(0, i)) <= total_bits(a),
    decreases a.len() - i,
{
    if i < a.len() {
        lemma_total_bits_prefix(a, i + 1);
        assert(a.subrange(0, i + 1).drop_last() =~= a.subrange(0, i));
    } else {
        assert(a.subrange(0, i) =~= a);
    }
}

proof fn lemma_totals_bounded(a: Seq<StageView>)
    requires
        forall|j: int| 0 <= j < a.len() ==> (#[trigger] a[j]).size <= a[j].bits.len(),
    ensures
        total_size(a) <= total_bits(a),
        total_bytes(a) <= total_bits(a),
    decreases a.len(),
{
    if a.len() > 0 {
        lemma_totals_bounded(a.drop_last());
    }
}

impl ScalableBloomFilter {
    /// Every stage is well formed and the bitmap lengths sum within `usize`.
    pub closed spec fn wf(&self) -> bool {
        &&& forall|j: int| 0 <= j < self.filters@.len() ==> (#[trigger] self.filters@[j]).wf()
        &&& total_bits(self@.stages) <= usize::MAX
    }

    proof fn lemma_stage_views(&self)
        requires
            self.wf(),
        ensures
            self@.stages.len() == self.filters@.len(),
            forall|j: int| 0 <= j < self.filters@.len() ==> #[trigger] self@.stages[j] == self.filters@[j]@,
            forall|j: int| 0 <= j < self.filters@.len() ==> (#[trigger] self@.stages[j]).size <= self@.stages[j].bits.len(),
    {
        assert forall|j: int| 0 <= j < self.filters@.len() implies (#[trigger] self@.stages[j]).size <= self@.stages[j].bits.len() by {
            assert(self.filters@[j].wf());
        }
    }

    /// A well-formed filter holds no more keys in a stage than the stage has bits.
    pub proof fn lemma_sizes_within(&self)
        requires
            self.wf(),
        ensures
            sizes_within(self@.stages),
    {
        self.lemma_stage_views();
    }

    /// The ranges of a well-formed filter's fields.
    pub proof fn lemma_bounds(&self)
        requires
            self.wf(),
        ensures
            self@.initial_capacity <= usize::MAX,
            i64::MIN <= self@.creation_time <= i64::MAX,
            i64::MIN <= self@.last_access_time <= i64::MAX,
            total_bits(self@.stages) <= usize::MAX,
            forall|j: int| 0 <= j < self@.stages.len() ==> {
                let st = #[trigger] self@.stages[j];
                &&& st.bits.len() <= MAX_BITMAP_BITS
                &&& st.size <= st.bits.len()
                &&& st.hash_count <= u32::MAX
                &&& st.hits <= u64::MAX
                &&& st.miss <= u64::MAX
            },
    {
        self.lemma_stage_views();
        assert forall|j: int| 0 <= j < self@.stages.len() implies (#[trigger] self@.stages[j]).bits.len() <= MAX_BITMAP_BITS by {
            assert(self.filters@[j].wf());
        }
    }

    /// An empty filter: no stages, both timestamps `now`.
    pub fn new(name: String, initial_capacity: usize, fpp: Fpp, scale_factor: ScaleFactor, now: i64) -> (r: Self)
        ensures
            r.wf(),
            r@ == (ScalableView {
                name: name@,
                initial_capacity: initial_capacity as nat,
                stages: Seq::empty(),
                fpp,
                scale_factor,
                creation_time: now as int,
                last_access_time: now as int,
            }),
    {
        let r = ScalableBloomFilter {
            name,
            initial_capacity,
            filters: Vec::new(),
            fpp,
            scale_factor,
            creation_time: now,
            last_access_time: now,
        };
        assert(r@.stages =~= Seq::empty());
        r
    }

    pub fn name(&self) -> (r: &String)
        ensures
            r@ == self@.name,
    {
        &self.name
    }

    /// Stage `i`, oldest first.
    pub fn stage(&self, i: usize) -> (r: &BloomFilter)
        requires
            self.wf(),
            i < self@.stages.len(),
        ensures
            r.wf(),
            r@ == self@.stages[i as int],
    {
        proof { self.lemma_stage_views(); }
        &self.filters[i]
    }

    /// A filter rebuilt from its parts.
    pub(crate) fn from_parts(
        name: String,
        initial_capacity: usize,
        filters: Vec<BloomFilter>,
        fpp: Fpp,
        scale_factor: ScaleFactor,
        creation_time: i64,
        last_access_time: i64,
    ) -> (r: ScalableBloomFilter)
        requires
            forall|j: int| 0 <= j < filters@.len() ==> (#[trigger] filters@[j]).wf(),
            total_bits(filters@.map_values(|f: BloomFilter| f@)) <= usize::MAX,
        ensures
            r.wf(),
            r@ == (ScalableView {
                name: name@,
                initial_capacity: initial_capacity as nat,
                stages: filters@.map_values(|f: BloomFilter| f@),
                fpp,
                scale_factor,
                creation_time: creation_time as int,
                last_access_time: last_access_time as int,
            }),
    {
        ScalableBloomFilter { name, initial_capacity, filters, fpp, scale_factor, creation_time, last_access_time }
    }

    pub fn fpp(&self) -> (r: Fpp)
        ensures
            r == self@.fpp,
    {
        self.fpp
    }

    pub fn initial_capacity(&self) -> (r: usize)
        ensures
            r == self@.initial_capacity,
    {
        self.initial_capacity
    }

    pub fn scale_factor(&self) -> (r: ScaleFactor)
        ensures
            r == self@.scale_factor,
    {
        self.scale_factor
    }

    pub fn filter_count(&self) -> (r: usize)
        ensures
            r == self@.stages.len(),
    {
        self.filters.len()
    }

    pub fn creation_time(&self) -> (r: i64)
        ensures
            r == self@.creation_time,
    {
        self.creation_time
    }

    pub fn last_access_time(&self) -> (r: i64)
        ensures
            r == self@.last_access_time,
    {
        self.last_access_time
    }

    /// Sum of the stages' bitmap lengths.
    pub fn capacity(&self) -> (r: usize)
        requires
            self.wf(),
        ensures
            r == total_bits(self@.stages),
    {
        proof { self.lemma_stage_views(); }
        let ghost st = self@.stages;
        let mut acc: usize = 0;
        let mut i: usize = 0;
        while i < self.filters.len()
            invariant
                self.wf(),
                st == self@.stages,
                st.len() == self.filters@.len(),
                forall|j: int| 0 <= j < self.filters@.len() ==> #[trigger] st[j] == self.filters@[j]@,
                forall|j: int| 0 <= j < self.filters@.len() ==> (#[trigger] self.filters@[j]).wf(),
                i <= st.len(),
                acc == total_bits(st.subrange(0, i as int)),
            decreases st.len() - i,
        {
            proof {
                assert(st.subrange(0, i + 1).drop_last() =~= st.subrange(0, i as int));
                lemma_total_bits_prefix(st, i + 1);
            }
            acc = acc + self.filters[i].capacity();
            i = i + 1;
        }
        assert(st.subrange(0, i as int) =~= st);
        acc
    }

    /// Sum of the stages' sizes.
    pub fn size(&self) -> (r: usize)
        requires
            self.wf(),
        ensures
            r == total_size(self@.stages),
    {
        proof { self.lemma_stage_views(); }
        let ghost st = self@.stages;
        let mut acc: usize = 0;
        let mut i: usize = 0;
        while i < self.filters.len()
            invariant
                self.wf(),
                st == self@.stages,
                st.len() == self.filters@.len(),
                forall|j: int| 0 <= j < self.filters@.len() ==> #[trigger] st[j] == self.filters@[j]@,
                forall|j: int| 0 <= j < st.len() ==> (#[trigger] st[j]).size <= st[j].bits.len(),
                i <= st.len(),
                acc == total_size(st.subrange(0, i as int)),
            decreases st.len() - i,
        {
            proof {
                let next = st.subrange(0, i + 1);
                assert(next.drop_last() =~= st.subrange(0, i as int));
                lemma_total_bits_prefix(st, i + 1);
                lemma_totals_bounded(next);
            }
            acc = acc + self.filters[i].size();
            i = i + 1;
        }
        assert(st.subrange(0, i as int) =~= st);
        acc
    }

    /// Sum of the stages' bitmap lengths in whole bytes.
    pub fn byte_space(&self) -> (r: usize)
        requires
            self.wf(),
        ensures
            r == total_bytes(self@.stages),
    {
        proof { self.lemma_stage_views(); }
        let ghost st = self@.stages;
        let mut acc: usize = 0;
        let mut i: usize = 0;
        while i < self.filters.len()
            invariant
                self.wf(),
                st == self@.stages,
                st.len() == self.filters@.len(),
                forall|j: int| 0 <= j < self.filters@.len() ==> #[trigger] st[j] == self.filters@[j]@,
                forall|j: int| 0 <= j < self.filters@.len() ==> (#[trigger] self.filters@[j]).wf(),
                forall|j: int| 0 <= j < st.len() ==> (#[trigger] st[j]).size <= st[j].bits.len(),
                i <= st.len(),
                acc == total_bytes(st.subrange(0, i as int)),
            decreases st.len() - i,
        {
            proof {
                let next = st.subrange(0, i + 1);
                assert(next.drop_last() =~= st.subrange(0, i as int));
                lemma_total_bits_prefix(st, i + 1);
                lemma_totals_bounded(next);
            }
            acc = acc + self.filters[i].byte_space();
            i = i + 1;
        }
        assert(st.subrange(0, i as int) =~= st);
        acc
    }

    /// Sum of the stages' hit counters, held at the largest `u64`.
    pub fn hits(&self) -> (r: u64)
        requires
            self.wf(),
        ensures
            r == cap_u64(total_hits(self@.stages)),
    {
        proof { self.lemma_stage_views(); }
        let ghost st = self@.stages;
        let mut acc: u64 = 0;
        let mut i: usize = 0;
        while i < self.filters.len()
            invariant
                st == self@.stages,
                st.len() == self.filters@.len(),
                forall|j: int| 0 <= j < self.filters@.len() ==> #[trigger] st[j] == self.filters@[j]@,
                i <= st.len(),
                acc == cap_u64(total_hits(st.subrange(0, i as int))),
            decreases st.len() - i,
        {
            assert(st.subrange(0, i + 1).drop_last() =~= st.subrange(0, i as int));
            acc = acc.saturating_add(self.filters[i].hits());
            i = i + 1;
        }
        assert(st.subrange(0, i as int) =~= st);
        acc
    }

    /// Sum of the stages' miss counters, held at the largest `u64`.
    pub fn miss(&self) -> (r: u64)
        requires
            self.wf(),
        ensures
            r == cap_u64(total_miss(self@.stages)),
    {
        proof { self.lemma_stage_views(); }
        let ghost st = self@.stages;
        let mut acc: u64 = 0;
        let mut i: usize = 0;
        while i < self.filters.len()
            invariant
                st == self@.stages,
                st.len() == self.filters@.len(),
                forall|j: int| 0 <= j < self.filters@.len() ==> #[trigger] st[j] == self.filters@[j]@,
                i <= st.len(),
                acc == cap_u64(total_miss(st.subrange(0, i as int))),
            decreases st.len() - i,
        {
            assert(st.subrange(0, i + 1).drop_last() =~= st.subrange(0, i as int));
            acc = acc.saturating_add(self.filters[i].miss());
            i = i + 1;
        }
        assert(st.subrange(0, i as int) =~= st);
        acc
    }

    /// The largest hash count over the stages, 0 without stages.
    pub fn hash_count(&self) -> (r: u32)
        requires
            self.wf(),
        ensures
            r == max_hash_count(self@.stages),
    {
        proof { self.lemma_stage_views(); }
        let ghost st = self@.stages;
        let mut acc: u32 = 0;
        let mut i: usize = 0;
        while i < self.filters.len()
            invariant
                st == self@.stages,
                st.len() == self.filters@.len(),
                forall|j: int| 0 <= j < self.filters@.len() ==> #[trigger] st[j] == self.filters@[j]@,
                i <= st.len(),
                acc == max_hash_count(st.subrange(0, i as int)),
            decreases st.len() - i,
        {
            assert(st.subrange(0, i + 1).drop_last() =~= st.subrange(0, i as int));
            let k = self.filters[i].hash_count();
            if k > acc {
                acc = k;
            }
            i = i + 1;
        }
        assert(st.subrange(0, i as int) =~= st);
        acc
    }
}


/// The first `k` probe hashes of `bytes`: hash `i` uses seed `i`.
pub fn probe_hashes<H: Fn(&[u8], u32) -> u32>(hash: &H, bytes: &[u8], k: u32) -> (r: Vec<u32>)
    requires
        hash_ok(hash),
    ensures
        r@ == hashes_of(hash, bytes, k as nat),
{
    let mut v: Vec<u32> = Vec::new();
    let mut i: u32 = 0;
    while i < k
        invariant
            hash_ok(hash),
            i <= k,
            v@.len() == i,
            forall|j: int| 0 <= j < i ==> #[trigger] v@[j] == hashes_of(hash, bytes, k as nat)[j],
        decreases k - i,
    {
        let x = hash(bytes, i);
        proof {
            let c = choose|r: u32| #[trigger] hash.ensures((bytes, i), r);
            assert(hash.ensures((bytes, i), c));
            assert(c == x);
        }
        v.push(x);
        i = i + 1;
    }
    assert(v@ =~= hashes_of(hash, bytes, k as nat));
    v
}

impl ScalableBloomFilter {
    /// Tests `bytes`, newest stage first, stopping at the first stage that
    /// holds it; each stage visited counts a hit or a miss.
    pub fn check<H: Fn(&[u8], u32) -> u32>(&mut self, bytes: &[u8], hash: &H, now: i64) -> (r: bool)
        requires
            old(self).wf(),
            hash_ok(hash),
        ensures
            final(self).wf(),
            r == contains(old(self)@.stages, hash, bytes),
            final(self)@ == (ScalableView {
                stages: after_check(old(self)@.stages, hash, bytes),
                last_access_time: now as int,
                ..old(self)@
            }),
    {
        proof { self.lemma_stage_views(); }
        let ghost orig = self@.stages;
        self.last_access_time = now;
        let n = self.filters.len();
        let mut i: usize = n;
        while i > 0
            invariant
                hash_ok(hash),
                i <= n,
                n == self.filters@.len(),
                orig.len() == n,
                orig == old(self)@.stages,
                total_bits(orig) <= usize::MAX,
                forall|j: int| 0 <= j < n ==> (#[trigger] self.filters@[j]).wf(),
                forall|j: int| 0 <= j < i ==> #[trigger] self.filters@[j]@ == orig[j],
                forall|j: int| i <= j < n ==> #[trigger] self.filters@[j]@ == with_miss(orig[j]),
                forall|j: int| i <= j < n ==> !stage_has(#[trigger] orig[j], hash, bytes),
                self.name@ == old(self)@.name,
                self.initial_capacity == old(self).initial_capacity,
                self.fpp == old(self).fpp,
                self.scale_factor == old(self).scale_factor,
                self.creation_time == old(self).creation_time,
                self.last_access_time == now,
            decreases i,
        {
            i = i - 1;
            let k = self.filters[i].hash_count();
            let probes = probe_hashes(hash, bytes, k);
            let hit = self.filters[i].check(&probes);
            if hit {
                proof {
                    let fin = after_check(orig, hash, bytes);
                    assert(stage_has(orig[i as int], hash, bytes));

                    assert forall|j: int| 0 <= j < n implies #[trigger] self@.stages[j] == fin[j] by {
                        if j > i {
                            assert(!held_after(orig, hash, bytes, j)) by {
                                if held_after(orig, hash, bytes, j) {
                                    let l = choose|l: int| j < l < orig.len() && #[trigger] stage_has(orig[l], hash, bytes);
                                    assert(!stage_has(orig[l], hash, bytes));
                                }
                            }
                        } else if j < i {
                            assert(held_after(orig, hash, bytes, j) && stage_has(orig[i as int], hash, bytes));
                        } else {
                            assert(!held_after(orig, hash, bytes, j)) by {
                                if held_after(orig, hash, bytes, j) {
                                    let l = choose|l: int| j < l < orig.len() && #[trigger] stage_has(orig[l], hash, bytes);
                                    assert(!stage_has(orig[l], hash, bytes));
                                }
                            }
                        }
                    }
                    assert(self@.stages =~= fin);
                    lemma_total_bits_same(self@.stages, orig);
                }
                return true;
            }
        }
        proof {
            let fin = after_check(orig, hash, bytes);
            assert forall|j: int| 0 <= j < n implies #[trigger] self@.stages[j] == fin[j] by {
                assert(!held_after(orig, hash, bytes, j)) by {
                    if held_after(orig, hash, bytes, j) {
                        let l = choose|l: int| j < l < orig.len() && #[trigger] stage_has(orig[l], hash, bytes);
                        assert(!stage_has(orig[l], hash, bytes));
                    }
                }
            }
            assert(self@.stages =~= fin);
            lemma_total_bits_same(self@.stages, orig);
            assert(!contains(orig, hash, bytes)) by {
                if contains(orig, hash, bytes) {
                    let l = choose|l: int| 0 <= l < orig.len() && #[trigger] stage_has(orig[l], hash, bytes);
                    assert(!stage_has(orig[l], hash, bytes));
                }
            }
        }
        false
    }

    /// Clears every stage; the stage count and the counters stay.
    pub fn clear(&mut self, now: i64)
        requires
            old(self).wf(),
        ensures
            final(self).wf(),
            final(self)@ == (ScalableView {
                stages: Seq::new(
                    old(self)@.stages.len(),
                    |j: int| StageView {
                        bits: Seq::new(old(self)@.stages[j].bits.len(), |i: int| false),
                        size: 0,
                        ..old(self)@.stages[j]
                    },
                ),
                last_access_time: now as int,
                ..old(self)@
            }),
    {
        proof { self.lemma_stage_views(); }
        let ghost orig = self@.stages;
        let ghost cleared = Seq::new(
            orig.len(),
            |j: int| StageView { bits: Seq::new(orig[j].bits.len(), |i: int| false), size: 0, ..orig[j] },
        );
        let n = self.filters.len();
        let mut i: usize = 0;
        while i < n
            invariant
                i <= n,
                n == self.filters@.len(),
                orig.len() == n,
                orig == old(self)@.stages,
                cleared.len() == n,
                forall|j: int| 0 <= j < n ==> #[trigger] cleared[j] == (StageView {
                    bits: Seq::new(orig[j].bits.len(), |i: int| false),
                    size: 0,
                    ..orig[j]
                }),
                total_bits(orig) <= usize::MAX,
                forall|j: int| 0 <= j < n ==> (#[trigger] self.filters@[j]).wf(),
                forall|j: int| 0 <= j < i ==> #[trigger] self.filters@[j]@ == cleared[j],
                forall|j: int| i <= j < n ==> #[trigger] self.filters@[j]@ == orig[j],
                self.name@ == old(self)@.name,
                self.initial_capacity == old(self).initial_capacity,
                self.fpp == old(self).fpp,
                self.scale_factor == old(self).scale_factor,
                self.creation_time == old(self).creation_time,
                self.last_access_time == old(self).last_access_time,
            decreases n - i,
        {
            self.filters[i].clear();
            assert(self.filters@[i as int]@.bits =~= cleared[i as int].bits);
            i = i + 1;
        }
        self.last_access_time = now;
        proof {
            assert(self@.stages =~= cleared);
            lemma_total_bits_same(self@.stages, orig);
        }
    }
}


impl ScalableBloomFilter {
    /// Inserts `bytes`.
    ///
    /// A key that some stage already holds is not written again and gives
    /// `Ok(true)`. Otherwise, when there is no stage or the newest is full, a
    /// stage sized by `sizing` for the next request is appended first; the key
    /// then goes into the newest stage.
    pub fn set<H: Fn(&[u8], u32) -> u32, S: Fn(StageRequest) -> Geometry>(
        &mut self,
        bytes: &[u8],
        hash: &H,
        sizing: &S,
        now: i64,
    ) -> (r: Result<bool, SetError>)
        requires
            old(self).wf(),
            hash_ok(hash),
            sizing_ok(sizing),
        ensures
            final(self).wf(),
            contains(old(self)@.stages, hash, bytes) ==> r == Ok::<bool, SetError>(true) && final(self)@ == (ScalableView {
                stages: after_check(old(self)@.stages, hash, bytes),
                last_access_time: now as int,
                ..old(self)@
            }),
            !contains(old(self)@.stages, hash, bytes) ==> {
                let out = insert_outcome(
                    after_check(old(self)@.stages, hash, bytes),
                    old(self)@.initial_capacity,
                    old(self)@.scale_factor,
                    old(self)@.fpp,
                    hash,
                    sizing,
                    bytes,
                );
                &&& r == out.0
                &&& final(self)@ == (ScalableView { stages: out.1, last_access_time: now as int, ..old(self)@ })
            },
            r == set_outcome(old(self)@, hash, sizing, bytes).0,
            final(self)@ == (ScalableView {
                stages: set_outcome(old(self)@, hash, sizing, bytes).1,
                last_access_time: now as int,
                ..old(self)@
            }),
    {
        if self.check(bytes, hash, now) {
            return Ok(true);
        }
        let ghost checked = self@.stages;
        let ghost g0 = geometry_for(sizing, next_request(checked, self.initial_capacity as nat, self.scale_factor, self.fpp));
        proof { self.lemma_stage_views(); }
        let n = self.filters.len();
        let need = n == 0 || self.filters[n - 1].is_full();
        if need {
            let mult = self.scale_factor.multiplier();
            let capacity = match self.initial_capacity.checked_mul(mult) {
                Some(c) => c,
                None => return Err(SetError::CannotGrow),
            };
            let tightening = match n.checked_add(1) {
                Some(t) => t,
                None => return Err(SetError::CannotGrow),
            };
            let q = StageRequest { capacity, fpp: self.fpp, tightening };
            let g = sizing(q);
            proof {
                assert(q == next_request(checked, self.initial_capacity as nat, self.scale_factor, self.fpp));
                assert(sizing.ensures((q,), g0));
            }
            if g.bits > MAX_BITMAP_BITS {
                return Err(SetError::CannotGrow);
            }
            let total = self.capacity();
            if g.bits > usize::MAX - total {
                return Err(SetError::CannotGrow);
            }
            let stage = BloomFilter::new(g);
            let ghost before = self.filters@;
            self.filters.push(stage);
            proof {
                assert(stage@.bits =~= fresh_stage(g).bits);
                assert(self@.stages =~= checked.push(fresh_stage(g)));
                assert(checked.push(fresh_stage(g)).drop_last() =~= checked);
                assert forall|j: int| 0 <= j < self.filters@.len() implies (#[trigger] self.filters@[j]).wf() by {
                    if j < before.len() {
                        assert(self.filters@[j] == before[j]);
                    }
                }
            }
        }
        proof { self.lemma_stage_views(); }
        let ghost grown = self@.stages;
        let last = self.filters.len() - 1;
        let k = self.filters[last].hash_count();
        let probes = probe_hashes(hash, bytes, k);
        let ghost before = self.filters@;
        let res = self.filters[last].set(&probes);
        proof {
            assert forall|j: int| 0 <= j < self.filters@.len() implies (#[trigger] self.filters@[j]).wf() by {
                if j != last {
                    assert(self.filters@[j] == before[j]);
                }
            }
            lemma_total_bits_same(self@.stages, grown);
        }
        match res {
            Ok(present) => {
                proof {
                    assert(self@.stages =~= grown.update(last as int, stage_after_set(grown.last(), probes@)));
                }
                Ok(present)
            },
            Err(_) => {
                proof {
                    assert(self@.stages =~= grown);
                }
                Err(SetError::Full)
            },
        }
    }
}


/// The result and the stages of inserting `b`, as `ScalableBloomFilter::set` states them.
pub open spec fn set_outcome<H: Fn(&[u8], u32) -> u32, S: Fn(StageRequest) -> Geometry>(
    v: ScalableView,
    h: &H,
    s: &S,
    b: &[u8],
) -> (Result<bool, SetError>, Seq<StageView>) {
    if contains(v.stages, h, b) {
        (Ok(true), after_check(v.stages, h, b))
    } else {
        insert_outcome(after_check(v.stages, h, b), v.initial_capacity, v.scale_factor, v.fpp, h, s, b)
    }
}

/// Every stage holds at most as many keys as it has bits.
pub open spec fn sizes_within(stages: Seq<StageView>) -> bool {
    forall|j: int| 0 <= j < stages.len() ==> (#[trigger] stages[j]).size <= stages[j].bits.len()
}

proof fn lemma_marked_keeps(bits: Seq<bool>, p: Seq<u32>, k: nat, q: Seq<u32>, kq: nat)
    requires
        all_set(bits, p, k),
    ensures
        all_set(marked(bits, q, kq), p, k),
{
    let m = marked(bits, q, kq);
    assert forall|i: int| 0 <= i < k implies #[trigger] m[position(p, i, m.len())] by {
        assert(bits[position(p, i, bits.len())]);
    }
}

proof fn lemma_marked_has(bits: Seq<bool>, p: Seq<u32>, k: nat)
    requires
        bits.len() > 0,
    ensures
        all_set(marked(bits, p, k), p, k),
{
    let m = marked(bits, p, k);
    assert forall|i: int| 0 <= i < k implies #[trigger] m[position(p, i, m.len())] by {
        let pos = position(p, i, bits.len());
        assert(0 <= i < k && position(p, i, bits.len()) == pos);
    }
}

proof fn lemma_after_check_same_members<H: Fn(&[u8], u32) -> u32>(st: Seq<StageView>, h: &H, b: &[u8], x: &[u8])
    ensures
        contains(after_check(st, h, b), h, x) == contains(st, h, x),
        after_check(st, h, b).len() == st.len(),
        sizes_within(st) ==> sizes_within(after_check(st, h, b)),
        total_size(after_check(st, h, b)) == total_size(st),
{
    let a = after_check(st, h, b);
    assert forall|j: int| 0 <= j < st.len() implies #[trigger] stage_has(a[j], h, x) == stage_has(st[j], h, x) by {}
    if contains(st, h, x) {
        let j = choose|j: int| 0 <= j < st.len() && #[trigger] stage_has(st[j], h, x);
        assert(stage_has(a[j], h, x));
    }
    if contains(a, h, x) {
        let j = choose|j: int| 0 <= j < a.len() && #[trigger] stage_has(a[j], h, x);
        assert(stage_has(st[j], h, x));
    }
    lemma_total_size_same(a, st);
}

proof fn lemma_total_size_same(a: Seq<StageView>, b: Seq<StageView>)
    requires
        a.len() == b.len(),
        forall|j: int| 0 <= j < a.len() ==> #[trigger] a[j].size == b[j].size,
    ensures
        total_size(a) == total_size(b),
    decreases a.len(),
{
    if a.len() > 0 {
        lemma_total_size_same(a.drop_last(), b.drop_last());
    }
}

/// Inserting a key never removes a member: whatever the insertion of `b`
/// returns, every key `x` held before is held after.
pub proof fn lemma_set_keeps_members<H: Fn(&[u8], u32) -> u32, S: Fn(StageRequest) -> Geometry>(
    v: ScalableView,
    h: &H,
    s: &S,
    b: &[u8],
    x: &[u8],
)
    requires
        contains(v.stages, h, x),
    ensures
        contains(set_outcome(v, h, s, b).1, h, x),
{
    lemma_after_check_same_members(v.stages, h, b, x);
    let st = after_check(v.stages, h, b);
    if !contains(v.stages, h, b) {
        let j = choose|j: int| 0 <= j < st.len() && #[trigger] stage_has(st[j], h, x);
        let g = geometry_for(s, next_request(st, v.initial_capacity, v.scale_factor, v.fpp));
        if !(needs_stage(st) && !can_grow(st, v.initial_capacity, v.scale_factor, g)) {
            let grown = if needs_stage(st) { st.push(fresh_stage(g)) } else { st };
            assert(grown[j] == st[j]);
            let last = grown.last();
            if last.size != last.bits.len() {
                let fin = set_outcome(v, h, s, b).1;
                let p = hashes_of(h, b, last.hash_count);
                if j == grown.len() - 1 {
                    lemma_marked_keeps(last.bits, hashes_of(h, x, last.hash_count), last.hash_count, p, last.hash_count);
                }
                assert(stage_has(fin[j], h, x));
            }
        }
    }
}

/// No false negatives: once an insertion of `b` succeeds, `b` is held.
pub proof fn lemma_set_then_contains<H: Fn(&[u8], u32) -> u32, S: Fn(StageRequest) -> Geometry>(
    v: ScalableView,
    h: &H,
    s: &S,
    b: &[u8],
)
    requires
        sizes_within(v.stages),
        set_outcome(v, h, s, b).0 is Ok,
    ensures
        contains(set_outcome(v, h, s, b).1, h, b),
{
    lemma_after_check_same_members(v.stages, h, b, b);
    if !contains(v.stages, h, b) {
        let st = after_check(v.stages, h, b);
        let g = geometry_for(s, next_request(st, v.initial_capacity, v.scale_factor, v.fpp));
        let grown = if needs_stage(st) { st.push(fresh_stage(g)) } else { st };
        let last = grown.last();
        let fin = set_outcome(v, h, s, b).1;
        assert(last.size <= last.bits.len());
        lemma_marked_has(last.bits, hashes_of(h, b, last.hash_count), last.hash_count);
        assert(stage_has(fin[grown.len() - 1], h, b));
    }
}

/// Inserting a key that is already held changes no size and reports it as present.
pub proof fn lemma_set_idempotent<H: Fn(&[u8], u32) -> u32, S: Fn(StageRequest) -> Geometry>(
    v: ScalableView,
    h: &H,
    s: &S,
    b: &[u8],
)
    requires
        contains(v.stages, h, b),
    ensures
        set_outcome(v, h, s, b).0 == Ok::<bool, SetError>(true),
        total_size(set_outcome(v, h, s, b).1) == total_size(v.stages),
{
    lemma_after_check_same_members(v.stages, h, b, b);
}

/// A membership test changes no membership and no size.
pub proof fn lemma_check_keeps_members<H: Fn(&[u8], u32) -> u32>(st: Seq<StageView>, h: &H, b: &[u8], x: &[u8])
    ensures
        contains(after_check(st, h, b), h, x) == contains(st, h, x),
        total_size(after_check(st, h, b)) == total_size(st),
{
    lemma_after_check_same_members(st, h, b, x);
}

/// The stages after `ScalableBloomFilter::clear`.
pub open spec fn cleared(stages: Seq<StageView>) -> Seq<StageView> {
    Seq::new(
        stages.len(),
        |j: int| StageView { bits: Seq::new(stages[j].bits.len(), |i: int| false), size: 0, ..stages[j] },
    )
}

/// After a clear no key is held, where every stage uses at least one hash, and every size is 0.
pub proof fn lemma_clear_forgets<H: Fn(&[u8], u32) -> u32>(stages: Seq<StageView>, h: &H, x: &[u8])
    requires
        forall|j: int| 0 <= j < stages.len() ==> (#[trigger] stages[j]).hash_count > 0,
    ensures
        !contains(cleared(stages), h, x),
        forall|j: int| 0 <= j < stages.len() ==> (#[trigger] cleared(stages)[j]).size == 0,
{
    let c = cleared(stages);
    if contains(c, h, x) {
        let j = choose|j: int| 0 <= j < c.len() && #[trigger] stage_has(c[j], h, x);
        let p = hashes_of(h, x, c[j].hash_count);
        assert(c[j].bits[position(p, 0, c[j].bits.len())]);
    }
}

} // verus!

//! The stable filter: double hashing into a bucket array, and eviction of a
//! run of cells before every insertion.

use crate::bits::max_of_width;
use crate::buckets::Buckets;
use crate::eviction::{evicted, lemma_next_in_run};
use crate::fnv::{fnv1a, FnvHasher, FNV_OFFSET_BASIS};
use crate::slots::{
    all_set, lemma_marked_is_reported, lemma_marked_one_more, lower_half, marked, slot, slots_of,
    upper_half,
};
use crate::Filter;
use rand::rngs::ThreadRng;
use rand::{thread_rng, Rng};
use vstd::arithmetic::div_mod::lemma_small_mod;
use vstd::arithmetic::power2::lemma2_to64;
use vstd::math::{max, min};
use vstd::prelude::*;

verus! {

/// The number of cells that an element addresses in a stable filter of `m`
/// cells: half of `optimal`, the number that suits a classical filter of the
/// same false-positive rate, but at least one and at most `m`.
pub open spec fn spec_stable_k(optimal: usize, m: usize) -> usize {
    max(1, min(optimal as int / 2, m as int)) as usize
}

/// Half of `optimal`, but at most `m`, and at least one.
#[verifier::when_used_as_spec(spec_stable_k)]
pub fn stable_k(optimal: usize, m: usize) -> (k: usize)
    ensures
        k == spec_stable_k(optimal, m),
{
    let half: usize = optimal / 2;
    let capped: usize = if half > m {
        m
    } else {
        half
    };
    if capped == 0 {
        1
    } else {
        capped
    }
}

/// A filter of `m` cells in which every element addresses `k` cells and `p`
/// cells are evicted before each insertion. Its view is the cells.
pub struct StableBloomFilter {
    cells: Buckets,
    hash: FnvHasher,
    m: usize,
    p: usize,
    k: usize,
    max: u8,
    index_buffer: Vec<usize>,
}

impl View for StableBloomFilter {
    type V = Seq<u8>;

    closed spec fn view(&self) -> Seq<u8> {
        self.cells@
    }
}

impl StableBloomFilter {
    /// The invariant of the representation.
    pub closed spec fn wf(&self) -> bool {
        &&& self.cells.wf()
        &&& self.cells.count() == self.m
        &&& self.cells.max_bucket_value() == self.max
        &&& self.hash@ == FNV_OFFSET_BASIS
        &&& self.index_buffer@.len() == self.k
    }

    /// The number of cells, in contracts.
    pub closed spec fn spec_cells(&self) -> usize {
        self.m
    }

    /// The number of cells that an element addresses, in contracts.
    pub closed spec fn spec_k(&self) -> usize {
        self.k
    }

    /// The number of cells evicted before each insertion, in contracts.
    pub closed spec fn spec_p(&self) -> usize {
        self.p
    }

    /// The largest value of a cell, in contracts.
    pub closed spec fn spec_max(&self) -> u8 {
        self.max
    }

    /// Creates an empty filter of `m` cells of `d` bits each that addresses
    /// `k` cells per element and evicts `p` cells before each insertion.
    pub fn new(m: usize, d: u8, k: usize, p: usize) -> (f: Self)
        requires
            d <= 8,
            m * d + 7 <= usize::MAX,
        ensures
            f.wf(),
            f.cells() == m,
            f.k() == k,
            f.p() == p,
            f.max() == max_of_width(d as nat),
            f@ == Seq::new(m as nat, |i: int| 0u8),
    {
        let cells = Buckets::new(m, d);
        StableBloomFilter {
            hash: FnvHasher::default(),
            m,
            k,
            p,
            max: cells.max_bucket_value(),
            cells,
            index_buffer: vec![0usize; k],
        }
    }

    /// The number of cells.
    #[verifier::when_used_as_spec(spec_cells)]
    pub fn cells(&self) -> (m: usize)
        ensures
            m == self.spec_cells(),
    {
        self.m
    }

    /// The number of cells that an element addresses.
    #[verifier::when_used_as_spec(spec_k)]
    pub fn k(&self) -> (k: usize)
        ensures
            k == self.spec_k(),
    {
        self.k
    }

    /// The number of cells evicted before each insertion.
    #[verifier::when_used_as_spec(spec_p)]
    pub fn p(&self) -> (p: usize)
        ensures
            p == self.spec_p(),
    {
        self.p
    }

    /// The largest value of a cell.
    #[verifier::when_used_as_spec(spec_max)]
    pub fn max(&self) -> (max: u8)
        ensures
            max == self.spec_max(),
    {
        self.max
    }

    /// The cells of the filter.
    pub fn buckets(&self) -> (b: &Buckets)
        requires
            self.wf(),
        ensures
            b.wf(),
            b@ == self@,
            b.count() == self.cells(),
            b.max_bucket_value() == self.max(),
    {
        &self.cells
    }

    /// Creates an empty filter of `m` cells of one bit each.
    pub fn new_default(m: usize, k: usize, p: usize) -> (f: Self)
        requires
            m + 7 <= usize::MAX,
        ensures
            f.wf(),
            f.cells() == m,
            f.k() == k,
            f.p() == p,
            f.max() == 1,
            f@ == Seq::new(m as nat, |i: int| 0u8),
    {
        proof {
            lemma2_to64();
        }
        Self::new(m, 1, k, p)
    }

    /// Creates an empty classical Bloom filter of `m` bits: nothing is ever
    /// evicted from it.
    pub fn new_unstable(m: usize, k: usize) -> (f: Self)
        requires
            m + 7 <= usize::MAX,
        ensures
            f.wf(),
            f.cells() == m,
            f.k() == k,
            f.p() == 0,
            f.max() == 1,
            f@ == Seq::new(m as nat, |i: int| 0u8),
    {
        proof {
            lemma2_to64();
        }
        let cells = Buckets::new(m, 1);
        StableBloomFilter {
            hash: FnvHasher::default(),
            m,
            k,
            p: 0,
            max: cells.max_bucket_value(),
            cells,
            index_buffer: vec![0usize; k],
        }
    }

    /// Empties the filter and returns it.
    pub fn reset(&mut self) -> (r: &Self)
        requires
            old(self).wf(),
        ensures
            final(self).wf(),
            final(self).cells() == old(self).cells(),
            final(self).k() == old(self).k(),
            final(self).p() == old(self).p(),
            final(self).max() == old(self).max(),
            final(self)@ == Seq::new(old(self).cells() as nat, |i: int| 0u8),
            *r == *final(self),
    {
        self.cells.reset();
        self
    }

    /// Evicts the run of `p` cells that starts at a cell drawn at random.
    pub fn decrement(&mut self)
        requires
            old(self).wf(),
            old(self).cells() > 0,
        ensures
            final(self).wf(),
            final(self).cells() == old(self).cells(),
            final(self).k() == old(self).k(),
            final(self).p() == old(self).p(),
            final(self).max() == old(self).max(),
            exists|offset: int|
                0 <= offset < old(self).cells() && final(self)@ == #[trigger] evicted(
                    old(self)@,
                    offset,
                    old(self).p() as nat,
                ),
    {
        let mut rng = thread_rng();
        let offset = random_offset(&mut rng, self.m);
        self.evict_run(offset);
        assert(self@ == evicted(old(self)@, offset as int, old(self).p() as nat));
    }

    /// Evicts the run of `p` cells that starts at cell `offset`: each cell of
    /// the run is lowered by one unless it is zero already, and the run goes
    /// on from cell 0 after the last cell.
    pub fn decrement_at(&mut self, offset: usize)
        requires
            old(self).wf(),
            offset < old(self).cells(),
        ensures
            final(self).wf(),
            final(self).cells() == old(self).cells(),
            final(self).k() == old(self).k(),
            final(self).p() == old(self).p(),
            final(self).max() == old(self).max(),
            final(self)@ == evicted(old(self)@, offset as int, old(self).p() as nat),
    {
        self.evict_run(offset);
    }

    /// Lowers the `p` cells of the run from `offset` one after the other.
    fn evict_run(&mut self, offset: usize)
        requires
            old(self).wf(),
            offset < old(self).m,
        ensures
            final(self).wf(),
            final(self).m == old(self).m,
            final(self).k == old(self).k,
            final(self).p == old(self).p,
            final(self).max == old(self).max,
            final(self).index_buffer == old(self).index_buffer,
            final(self)@ == evicted(old(self)@, offset as int, old(self).p as nat),
    {
        proof {
            self.cells.lemma_view_bounded();
            assert(self@ =~= evicted(self@, offset as int, 0));
            lemma_small_mod(offset as nat, self.m as nat);
        }
        let mut idx: usize = offset;
        let mut i: usize = 0;
        while i < self.p
            invariant
                i <= self.p,
                idx < self.m,
                idx == (offset + i) % (self.m as int),
                self.wf(),
                self.m == old(self).m,
                self.k == old(self).k,
                self.p == old(self).p,
                self.max == old(self).max,
                self.index_buffer == old(self).index_buffer,
                old(self)@.len() == self.m,
                self@ == evicted(old(self)@, offset as int, i as nat),
            decreases self.p - i,
        {
            self.cells.decrease(idx, 1);
            proof {
                lemma_next_in_run(offset as int, i as int, self.m as int);
                assert(self@ =~= evicted(old(self)@, offset as int, (i + 1) as nat));
            }
            idx = if idx + 1 == self.m {
                0
            } else {
                idx + 1
            };
            i = i + 1;
        }
    }

    /// Inserts `data` as [`Filter::add`] does, with the eviction run starting
    /// at cell `offset`.
    pub fn add_at(&mut self, data: &[u8], offset: usize) -> (r: &Self)
        requires
            old(self).wf(),
            offset < old(self).cells(),
        ensures
            final(self).wf(),
            final(self).cells() == old(self).cells(),
            final(self).k() == old(self).k(),
            final(self).p() == old(self).p(),
            final(self).max() == old(self).max(),
            final(self)@ == marked(
                evicted(old(self)@, offset as int, old(self).p() as nat),
                slots_of(data@, old(self).k() as nat, old(self).cells() as nat),
                old(self).max(),
            ),
            old(self).max() > 0 ==> all_set(
                final(self)@,
                slots_of(data@, old(self).k() as nat, old(self).cells() as nat),
            ),
            *r == *final(self),
    {
        self.decrement_at(offset);
        proof {
            self.cells.lemma_view_bounded();
            if self.max > 0 {
                lemma_marked_is_reported(self@, data@, self.k as nat, self.max);
            }
        }
        self.mark(data);
        self
    }

    /// Inserts `data` as [`Filter::test_and_add`] does, with the eviction run
    /// starting at cell `offset`.
    pub fn test_and_add_at(&mut self, data: &[u8], offset: usize) -> (member: bool)
        requires
            old(self).wf(),
            offset < old(self).cells(),
        ensures
            final(self).wf(),
            final(self).cells() == old(self).cells(),
            final(self).k() == old(self).k(),
            final(self).p() == old(self).p(),
            final(self).max() == old(self).max(),
            member == all_set(
                old(self)@,
                slots_of(data@, old(self).k() as nat, old(self).cells() as nat),
            ),
            final(self)@ == marked(
                evicted(old(self)@, offset as int, old(self).p() as nat),
                slots_of(data@, old(self).k() as nat, old(self).cells() as nat),
                old(self).max(),
            ),
            old(self).max() > 0 ==> all_set(
                final(self)@,
                slots_of(data@, old(self).k() as nat, old(self).cells() as nat),
            ),
    {
        let member = self.probe(data);
        self.evict_run(offset);
        proof {
            self.cells.lemma_view_bounded();
            if self.max > 0 {
                lemma_marked_is_reported(self@, data@, self.k as nat, self.max);
            }
        }
        self.mark_buffered();
        member
    }

    /// Writes the cells that `data` addresses into the index buffer and says
    /// whether all of them hold a value other than zero.
    fn probe(&mut self, data: &[u8]) -> (member: bool)
        requires
            old(self).wf(),
            old(self).m > 0,
        ensures
            final(self).wf(),
            final(self).m == old(self).m,
            final(self).k == old(self).k,
            final(self).p == old(self).p,
            final(self).max == old(self).max,
            final(self)@ == old(self)@,
            final(self).buffered() == slots_of(data@, old(self).k as nat, old(self).m as nat),
            forall|i: int|
                0 <= i < old(self).k ==> #[trigger] final(self).index_buffer@[i] < old(self).m,
            member == all_set(old(self)@, slots_of(data@, old(self).k as nat, old(self).m as nat)),
    {
        let (lower, upper) = self.hash_kernel(data);
        let ghost slots = slots_of(data@, self.k as nat, self.m as nat);
        let mut member = true;
        let mut i: usize = 0;
        while i < self.k
            invariant
                i <= self.k,
                self.wf(),
                self.m > 0,
                self.m == old(self).m,
                self.k == old(self).k,
                self.p == old(self).p,
                self.max == old(self).max,
                self@ == old(self)@,
                lower == lower_half(fnv1a(data@)),
                upper == upper_half(fnv1a(data@)),
                slots == slots_of(data@, self.k as nat, self.m as nat),
                forall|j: int| 0 <= j < i ==> self.index_buffer@[j] == #[trigger] slots[j],
                forall|j: int| 0 <= j < i ==> #[trigger] self.index_buffer@[j] < self.m,
                member == all_set(self@, slots.take(i as int)),
            decreases self.k - i,
        {
            let s = slot_index(lower, upper, i, self.m);
            self.index_buffer.set(i, s);
            if self.cells.get(s) == 0 {
                member = false;
            }
            proof {
                let cells = self@;
                let shorter = slots.take(i as int);
                let longer = slots.take(i + 1);
                assert(longer[i as int] == s);
                assert forall|j: int| 0 <= j < i implies longer[j] == shorter[j] by {}
                if all_set(cells, longer) {
                    assert forall|j: int| 0 <= j < shorter.len() implies cells[#[trigger] shorter[j]]
                        != 0 by {
                        assert(longer[j] == shorter[j]);
                    }
                }
                if all_set(cells, shorter) && cells[s as int] != 0 {
                    assert forall|j: int| 0 <= j < longer.len() implies cells[#[trigger] longer[j]]
                        != 0 by {
                        if j < i {
                            assert(longer[j] == shorter[j]);
                        }
                    }
                }
            }
            i = i + 1;
        }
        proof {
            assert(slots.take(self.k as int) =~= slots);
            assert(self.buffered() =~= slots);
        }
        member
    }

    /// The cells listed in the index buffer.
    closed spec fn buffered(&self) -> Seq<int> {
        Seq::new(self.index_buffer@.len(), |i: int| self.index_buffer@[i] as int)
    }

    /// Sets every cell listed in the index buffer to the maximum.
    fn mark_buffered(&mut self)
        requires
            old(self).wf(),
            forall|i: int|
                0 <= i < old(self).index_buffer@.len() ==> old(self).index_buffer@[i] < old(
                    self,
                ).m,
        ensures
            final(self).wf(),
            final(self).m == old(self).m,
            final(self).k == old(self).k,
            final(self).p == old(self).p,
            final(self).max == old(self).max,
            final(self).index_buffer == old(self).index_buffer,
            final(self)@ == marked(old(self)@, old(self).buffered(), old(self).max),
    {
        proof {
            self.cells.lemma_view_bounded();
            assert(self@ =~= marked(self@, self.buffered().take(0), self.max));
        }
        let mut i: usize = 0;
        while i < self.index_buffer.len()
            invariant
                i <= self.index_buffer@.len(),
                self.wf(),
                self.m == old(self).m,
                self.k == old(self).k,
                self.p == old(self).p,
                self.max == old(self).max,
                self.index_buffer == old(self).index_buffer,
                old(self)@.len() == self.m,
                forall|j: int|
                    0 <= j < self.index_buffer@.len() ==> self.index_buffer@[j] < self.m,
                self@ == marked(old(self)@, self.buffered().take(i as int), self.max),
            decreases self.index_buffer@.len() - i,
        {
            let s = self.index_buffer[i];
            self.cells.set(s, self.max);
            proof {
                lemma_marked_one_more(old(self)@, self.buffered(), i as int, self.max);
            }
            i = i + 1;
        }
        proof {
            assert(self.buffered().take(self.index_buffer@.len() as int) =~= self.buffered());
        }
    }

    /// Sets every cell that `data` addresses to the maximum.
    fn mark(&mut self, data: &[u8])
        requires
            old(self).wf(),
            old(self).m > 0,
        ensures
            final(self).wf(),
            final(self).m == old(self).m,
            final(self).k == old(self).k,
            final(self).p == old(self).p,
            final(self).max == old(self).max,
            final(self)@ == marked(
                old(self)@,
                slots_of(data@, old(self).k as nat, old(self).m as nat),
                old(self).max,
            ),
    {
        let (lower, upper) = self.hash_kernel(data);
        let ghost slots = slots_of(data@, self.k as nat, self.m as nat);
        proof {
            self.cells.lemma_view_bounded();
            assert(self@ =~= marked(self@, slots.take(0), self.max));
        }
        let mut i: usize = 0;
        while i < self.k
            invariant
                i <= self.k,
                self.wf(),
                self.m > 0,
                self.m == old(self).m,
                self.k == old(self).k,
                self.p == old(self).p,
                self.max == old(self).max,
                old(self)@.len() == self.m,
                lower == lower_half(fnv1a(data@)),
                upper == upper_half(fnv1a(data@)),
                slots == slots_of(data@, self.k as nat, self.m as nat),
                self@ == marked(old(self)@, slots.take(i as int), self.max),
            decreases self.k - i,
        {
            let s = slot_index(lower, upper, i, self.m);
            self.cells.set(s, self.max);
            proof {
                lemma_marked_one_more(old(self)@, slots, i as int, self.max);
            }
            i = i + 1;
        }
        proof {
            assert(slots.take(self.k as int) =~= slots);
        }
    }

    /// Hashes `data` once and splits the digest into its two halves, the low
    /// one first.
    pub fn hash_kernel(&self, data: &[u8]) -> (halves: (u32, u32))
        requires
            self.wf(),
        ensures
            halves.0 == lower_half(fnv1a(data@)),
            halves.1 == upper_half(fnv1a(data@)),
    {
        let mut hasher = self.hash.clone();
        hasher.write(data);
        let hash: u64 = hasher.finish();
        assert(hash as u32 == hash % 0x1_0000_0000) by (bit_vector);
        assert((hash >> 32) as u32 == hash / 0x1_0000_0000) by (bit_vector);
        let lower = hash as u32;
        let upper = (hash >> 32) as u32;
        (lower, upper)
    }
}

/// The cell that the `i`-th of an element's hash functions addresses.
fn slot_index(lower: u32, upper: u32, i: usize, m: usize) -> (s: usize)
    requires
        m > 0,
    ensures
        s == slot(lower, upper, i as int, m as int),
        s < m,
{
    assert(upper * i <= 0xffff_ffff * 0xffff_ffff_ffff_ffff) by (nonlinear_arith)
        requires
            upper <= 0xffff_ffff,
            i <= 0xffff_ffff_ffff_ffff,
    ;
    let sum: u128 = lower as u128 + (upper as u128) * (i as u128);
    (sum % (m as u128)) as usize
}

impl Filter for StableBloomFilter {
    open spec fn ready(&self) -> bool {
        self.wf() && self.cells() > 0
    }

    open spec fn reports(&self, data: Seq<u8>) -> bool {
        all_set(self@, slots_of(data, self.k() as nat, self.cells() as nat))
    }

    /// Whether every cell that `data` addresses holds a value other than
    /// zero. `false` is certain for an element that was never inserted or has
    /// been evicted since; `true` may be due to other elements.
    fn test(&self, data: &[u8]) -> (member: bool) {
        let (lower, upper) = self.hash_kernel(data);
        let ghost slots = slots_of(data@, self.k as nat, self.m as nat);
        let mut i: usize = 0;
        while i < self.k
            invariant
                i <= self.k,
                self.wf(),
                self.m > 0,
                lower == lower_half(fnv1a(data@)),
                upper == upper_half(fnv1a(data@)),
                slots == slots_of(data@, self.k as nat, self.m as nat),
                forall|j: int| 0 <= j < i ==> self@[#[trigger] slots[j]] != 0,
            decreases self.k - i,
        {
            if self.cells.get(slot_index(lower, upper, i, self.m)) == 0 {
                assert(self@[slots[i as int]] == 0);
                return false;
            }
            i = i + 1;
        }
        true
    }

    /// Evicts a run of `p` cells that starts at a cell drawn at random, then
    /// sets every cell that `data` addresses to the maximum.
    fn add(&mut self, data: &[u8]) -> (r: &Self)
        ensures
            final(self).cells() == old(self).cells(),
            final(self).k() == old(self).k(),
            final(self).p() == old(self).p(),
            final(self).max() == old(self).max(),
            exists|offset: int|
                0 <= offset < old(self).cells() && final(self)@ == marked(
                    #[trigger] evicted(old(self)@, offset, old(self).p() as nat),
                    slots_of(data@, old(self).k() as nat, old(self).cells() as nat),
                    old(self).max(),
                ),
            old(self).max() > 0 ==> final(self).reports(data@),
    {
        self.decrement();
        proof {
            self.cells.lemma_view_bounded();
            if self.max > 0 {
                lemma_marked_is_reported(self@, data@, self.k as nat, self.max);
            }
        }
        self.mark(data);
        self
    }

    /// Says whether every cell that `data` addresses held a value other than
    /// zero, then evicts a run of `p` cells that starts at a cell drawn at
    /// random, then sets those cells to the maximum.
    fn test_and_add(&mut self, data: &[u8]) -> (member: bool)
        ensures
            final(self).cells() == old(self).cells(),
            final(self).k() == old(self).k(),
            final(self).p() == old(self).p(),
            final(self).max() == old(self).max(),
            exists|offset: int|
                0 <= offset < old(self).cells() && final(self)@ == marked(
                    #[trigger] evicted(old(self)@, offset, old(self).p() as nat),
                    slots_of(data@, old(self).k() as nat, old(self).cells() as nat),
                    old(self).max(),
                ),
            old(self).max() > 0 ==> final(self).reports(data@),
    {
        let member = self.probe(data);
        let mut rng = thread_rng();
        let offset = random_offset(&mut rng, self.m);
        self.evict_run(offset);
        assert(self@ == evicted(old(self)@, offset as int, old(self).p() as nat));
        proof {
            self.cells.lemma_view_bounded();
            if self.max > 0 {
                lemma_marked_is_reported(self@, data@, self.k as nat, self.max);
            }
        }
        self.mark_buffered();
        member
    }
}

/// The generator of random numbers that the rand crate keeps for each thread.
/// Nothing is known of its state.
#[verifier::external_type_specification]
#[verifier::external_body]
pub struct ExThreadRng(ThreadRng);

/// `rand::thread_rng` hands out the generator of the calling thread, which
/// the rand crate seeds from the system on first use. It takes no argument,
/// and nothing is claimed of what it returns.
pub assume_specification[ rand::thread_rng ]() -> ThreadRng;

/// Draws the cell at which an eviction run starts, with `Rng::gen_range` and
/// the bounds 0 and `m`. The rand crate documents the result as lying in the
/// half-open range from the first bound to the second, and the call as
/// panicking when that range is empty. Which cell it is depends on the state
/// of the generator, so nothing more is claimed.
#[verifier::external_body]
fn random_offset(rng: &mut ThreadRng, m: usize) -> (offset: usize)
    requires
        m > 0,
    ensures
        offset < m,
{
    rng.gen_range(0, m)
}

} // verus!

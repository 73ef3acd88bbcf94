//! Dream module implementing deterministic synthetic tensor generation and
//! a bounded, quality-evicted candidate pool.

use vstd::prelude::*;

use vstd::arithmetic::div_mod::{
    lemma_div_by_multiple, lemma_div_is_ordered, lemma_div_pos_is_pos,
};

use crate::color::unit_in_range;
use crate::layout::{clamp_unit, spec_clamp_unit, Shape2D};
use crate::quant::{fixed_one, DEFAULT_FIXED_SCALE};
use crate::spectral::qabs;
use crate::tensor::{channel_sum, values_unit, ChromaticTensor};
use crate::Qx;

verus! {

/// Plain sum of the first `n` values of a buffer.
pub open spec fn vsum(s: Seq<Qx>, n: int) -> int
    decreases n,
{
    if n <= 0 {
        0
    } else {
        vsum(s, n - 1) + s[n - 1]
    }
}

/// A sum of unit values is bounded by its length.
pub proof fn lemma_vsum_bound(s: Seq<Qx>, n: int)
    requires
        values_unit(s),
        0 <= n <= s.len(),
    ensures
        0 <= vsum(s, n) <= n * fixed_one(),
    decreases n,
{
    if n > 0 {
        lemma_vsum_bound(s, n - 1);
        assert((n - 1) * fixed_one() + fixed_one() == n * fixed_one()) by (nonlinear_arith);
    }
}

/// Local coherence score of one cell: one minus a third of its absolute
/// RGB distance to the grid mean, clamped to the unit interval.
pub open spec fn spec_coh_cell(rgb: Seq<Qx>, n: int, k: int) -> int {
    let m0 = channel_sum(rgb, 0, n) / n;
    let m1 = channel_sum(rgb, 1, n) / n;
    let m2 = channel_sum(rgb, 2, n) / n;
    let delta = qabs(rgb[3 * k] - m0) + qabs(rgb[3 * k + 1] - m1) + qabs(rgb[3 * k + 2] - m2);
    spec_clamp_unit(fixed_one() - delta / 3)
}

/// Sum of the per-cell coherence scores of the first `n` cells.
pub open spec fn coh_cell_sum(rgb: Seq<Qx>, cells: int, n: int) -> int
    decreases n,
{
    if n <= 0 {
        0
    } else {
        coh_cell_sum(rgb, cells, n - 1) + spec_coh_cell(rgb, cells, n - 1)
    }
}

/// Builds the per-cell coherence map of an interleaved RGB grid.
pub fn coherence_map_from_rgb(shape: Shape2D, rgb: &Vec<Qx>) -> (map: Vec<Qx>)
    requires
        shape.wf(),
        rgb@.len() == 3 * shape.spec_cell_count(),
        values_unit(rgb@),
    ensures
        map@.len() == shape.spec_cell_count(),
        forall|k: int|
            0 <= k < map@.len() ==> #[trigger] map@[k] as int == spec_coh_cell(
                rgb@,
                shape.spec_cell_count(),
                k,
            ),
        values_unit(map@),
{
    let cells = shape.cell_count();
    let mut sum0: i64 = 0;
    let mut sum1: i64 = 0;
    let mut sum2: i64 = 0;
    let mut k: usize = 0;
    while k < cells
        invariant
            k <= cells,
            shape.wf(),
            rgb@.len() == 3 * shape.spec_cell_count(),
            values_unit(rgb@),
            cells == shape.spec_cell_count(),
            sum0 == channel_sum(rgb@, 0, k as int),
            sum1 == channel_sum(rgb@, 1, k as int),
            sum2 == channel_sum(rgb@, 2, k as int),
            0 <= sum0 <= k * fixed_one(),
            0 <= sum1 <= k * fixed_one(),
            0 <= sum2 <= k * fixed_one(),
        decreases cells - k,
    {
        proof {
            assert(k * fixed_one() + fixed_one() == (k + 1) * fixed_one()) by (nonlinear_arith);
            assert(k as int * fixed_one() <= 0x100_0000 * fixed_one()) by (nonlinear_arith)
                requires
                    0 <= k as int <= 0x100_0000,
            ;
        }
        let off = k * 3;
        sum0 = sum0 + rgb[off] as i64;
        sum1 = sum1 + rgb[off + 1] as i64;
        sum2 = sum2 + rgb[off + 2] as i64;
        k += 1;
    }
    proof {
        crate::tensor::lemma_mean_in_unit(sum0 as int, cells as int);
        crate::tensor::lemma_mean_in_unit(sum1 as int, cells as int);
        crate::tensor::lemma_mean_in_unit(sum2 as int, cells as int);
    }
    let m0 = (sum0 / cells as i64) as Qx;
    let m1 = (sum1 / cells as i64) as Qx;
    let m2 = (sum2 / cells as i64) as Qx;

    let mut map: Vec<Qx> = Vec::new();
    let mut j: usize = 0;
    while j < cells
        invariant
            j <= cells,
            shape.wf(),
            rgb@.len() == 3 * shape.spec_cell_count(),
            values_unit(rgb@),
            cells == shape.spec_cell_count(),
            m0 as int == channel_sum(rgb@, 0, cells as int) / cells as int,
            m1 as int == channel_sum(rgb@, 1, cells as int) / cells as int,
            m2 as int == channel_sum(rgb@, 2, cells as int) / cells as int,
            unit_in_range(m0 as int),
            unit_in_range(m1 as int),
            unit_in_range(m2 as int),
            map@.len() == j,
            forall|t: int|
                0 <= t < j ==> #[trigger] map@[t] as int == spec_coh_cell(rgb@, cells as int, t)
                    && unit_in_range(map@[t] as int),
        decreases cells - j,
    {
        let off = j * 3;
        let d0: i64 = (rgb[off] - m0) as i64;
        let d1: i64 = (rgb[off + 1] - m1) as i64;
        let d2: i64 = (rgb[off + 2] - m2) as i64;
        let a0: i64 = if d0 < 0 {
            -d0
        } else {
            d0
        };
        let a1: i64 = if d1 < 0 {
            -d1
        } else {
            d1
        };
        let a2: i64 = if d2 < 0 {
            -d2
        } else {
            d2
        };
        let delta = a0 + a1 + a2;
        proof {
            lemma_div_pos_is_pos(delta as int, 3);
            lemma_div_is_ordered(delta as int, 3 * fixed_one(), 3);
        }
        let score = clamp_unit((DEFAULT_FIXED_SCALE as i64 - delta / 3) as Qx);
        map.push(score);
        j += 1;
    }
    map
}

/// Coherence of a tensor: the mean of its stored coherence map when it has
/// one, the mean of the derived map otherwise.
pub open spec fn spec_coherence_metric(t: ChromaticTensor) -> int {
    match t.coh {
        Some(c) => vsum(c@, c@.len() as int) / c@.len() as int,
        None => coh_cell_sum(t.rgb@, t.shape.spec_cell_count(), t.shape.spec_cell_count())
            / t.shape.spec_cell_count(),
    }
}

/// Returns the coherence metric for the supplied chromatic tensor.
pub fn coherence_metric(tensor: &ChromaticTensor) -> (c: Qx)
    requires
        tensor.wf(),
    ensures
        c as int == spec_coherence_metric(*tensor),
        unit_in_range(c as int),
{
    let cells = tensor.shape.cell_count();
    match &tensor.coh {
        Some(map) => {
            let s = sum_values(map);
            proof {
                lemma_vsum_bound(map@, map@.len() as int);
                crate::tensor::lemma_mean_in_unit(s as int, map@.len() as int);
            }
            (s / map.len() as i64) as Qx
        },
        None => {
            let map = coherence_map_from_rgb(tensor.shape, &tensor.rgb);
            let s = sum_values(&map);
            proof {
                lemma_vsum_bound(map@, map@.len() as int);
                crate::tensor::lemma_mean_in_unit(s as int, cells as int);
                lemma_coh_sums_agree(map@, tensor.rgb@, cells as int, cells as int);
            }
            (s / cells as i64) as Qx
        },
    }
}

/// The sum over a coherence map equals the sum of the per-cell scores it
/// was built from.
proof fn lemma_coh_sums_agree(map: Seq<Qx>, rgb: Seq<Qx>, cells: int, n: int)
    requires
        map.len() == cells,
        0 <= n <= cells,
        forall|k: int|
            0 <= k < map.len() ==> #[trigger] map[k] as int == spec_coh_cell(rgb, cells, k),
    ensures
        vsum(map, n) == coh_cell_sum(rgb, cells, n),
    decreases n,
{
    if n > 0 {
        lemma_coh_sums_agree(map, rgb, cells, n - 1);
    }
}

/// Sums the values of a buffer whose entries lie in the unit interval.
fn sum_values(v: &Vec<Qx>) -> (s: i64)
    requires
        values_unit(v@),
        v@.len() <= 0x100_0000,
    ensures
        s == vsum(v@, v@.len() as int),
        0 <= s <= v@.len() * fixed_one(),
{
    let mut s: i64 = 0;
    let mut i: usize = 0;
    while i < v.len()
        invariant
            i <= v@.len() <= 0x100_0000,
            values_unit(v@),
            s == vsum(v@, i as int),
            0 <= s <= i * fixed_one(),
        decreases v.len() - i,
    {
        proof {
            assert(i * fixed_one() + fixed_one() == (i + 1) * fixed_one()) by (nonlinear_arith);
            assert(i as int * fixed_one() <= 0x100_0000 * fixed_one()) by (nonlinear_arith)
                requires
                    0 <= i as int <= 0x100_0000,
            ;
        }
        s = s + v[i] as i64;
        i += 1;
    }
    s
}

/// Dream entry containing a generated tensor and associated metadata.
#[derive(Clone, Debug)]
#[verifier::ext_equal]
pub struct DreamEntry {
    pub tensor: ChromaticTensor,
    pub epoch: u32,
    pub score: Qx,
    pub coherence: Qx,
}

impl DreamEntry {
    /// The tensor is well formed and the coherence is a unit value.
    pub open spec fn wf(self) -> bool {
        self.tensor.wf() && unit_in_range(self.coherence as int)
    }

    /// Constructs a new dream entry computing its coherence metric.
    pub fn new(tensor: ChromaticTensor, epoch: u32, score: Qx) -> (e: Self)
        requires
            tensor.wf(),
        ensures
            e.wf(),
            e.tensor == tensor,
            e.epoch == epoch,
            e.score == score,
            e.coherence as int == spec_coherence_metric(tensor),
    {
        let coherence = coherence_metric(&tensor);
        Self { tensor, epoch, score, coherence }
    }
}

/// Index of the first entry holding the minimal score among the first `n`.
pub open spec fn spec_min_score_idx(s: Seq<DreamEntry>, n: int) -> int
    decreases n,
{
    if n <= 1 {
        0
    } else {
        let prev = spec_min_score_idx(s, n - 1);
        if s[n - 1].score < s[prev].score {
            n - 1
        } else {
            prev
        }
    }
}

/// Index of the last entry holding the maximal score among the first `n`.
pub open spec fn spec_best_score_idx(s: Seq<DreamEntry>, n: int) -> int
    decreases n,
{
    if n <= 1 {
        0
    } else {
        let prev = spec_best_score_idx(s, n - 1);
        if s[n - 1].score >= s[prev].score {
            n - 1
        } else {
            prev
        }
    }
}

/// Highest epoch among the first `n` entries, counting from zero.
pub open spec fn spec_latest_epoch(s: Seq<DreamEntry>, n: int) -> int
    decreases n,
{
    if n <= 0 {
        0
    } else {
        let prev = spec_latest_epoch(s, n - 1);
        if s[n - 1].epoch > prev {
            s[n - 1].epoch as int
        } else {
            prev
        }
    }
}

/// Every epoch among the first `n` entries is at most the latest.
pub proof fn lemma_latest_epoch_ge(s: Seq<DreamEntry>, n: int, k: int)
    requires
        0 <= k < n <= s.len(),
    ensures
        s[k].epoch <= spec_latest_epoch(s, n),
        0 <= spec_latest_epoch(s, n),
    decreases n,
{
    lemma_latest_epoch_nonneg(s, n);
    if k < n - 1 {
        lemma_latest_epoch_ge(s, n - 1, k);
    }
}

/// The latest epoch is nonnegative.
pub proof fn lemma_latest_epoch_nonneg(s: Seq<DreamEntry>, n: int)
    ensures
        0 <= spec_latest_epoch(s, n),
    decreases n,
{
    if n > 0 {
        lemma_latest_epoch_nonneg(s, n - 1);
    }
}

/// Simple deterministic dream pool storing the top-scoring entries.
#[derive(Debug)]
pub struct SimpleDreamPool {
    entries: Vec<DreamEntry>,
    max_size: usize,
    coherence_threshold: Qx,
    epoch_cursor: u32,
}

impl SimpleDreamPool {
    /// The stored entries.
    pub closed spec fn spec_entries(self) -> Seq<DreamEntry> {
        self.entries@
    }

    /// The fixed capacity.
    pub closed spec fn spec_max_size(self) -> int {
        self.max_size as int
    }

    /// The admission threshold.
    pub closed spec fn spec_threshold(self) -> int {
        self.coherence_threshold as int
    }

    /// The epoch counter.
    pub closed spec fn spec_cursor(self) -> int {
        self.epoch_cursor as int
    }

    /// Capacity and threshold are valid, the pool is within capacity, and
    /// every stored entry is well formed with coherence at or above the
    /// threshold: no admitted entry ever undercuts the threshold.
    pub open spec fn inv(self) -> bool {
        &&& 1 <= self.spec_max_size()
        &&& self.spec_entries().len() <= self.spec_max_size()
        &&& unit_in_range(self.spec_threshold())
        &&& forall|i: int|
            0 <= i < self.spec_entries().len() ==> (#[trigger] self.spec_entries()[i]).wf()
                && self.spec_entries()[i].coherence >= self.spec_threshold()
    }

    /// Creates a new dream pool with capacity and coherence threshold.
    pub fn new(max_size: usize, coherence_threshold: Qx) -> (pool: Self)
        ensures
            pool.inv(),
            pool.spec_max_size() == if max_size == 0 {
                1int
            } else {
                max_size as int
            },
            pool.spec_threshold() == spec_clamp_unit(coherence_threshold as int),
            pool.spec_entries().len() == 0,
            pool.spec_cursor() == 0,
    {
        let capacity = if max_size == 0 {
            1
        } else {
            max_size
        };
        Self {
            entries: Vec::new(),
            max_size: capacity,
            coherence_threshold: clamp_unit(coherence_threshold),
            epoch_cursor: 0,
        }
    }

    /// Returns the number of entries stored.
    pub fn len(&self) -> (n: usize)
        ensures
            n == self.spec_entries().len(),
    {
        self.entries.len()
    }

    /// Returns true when the pool does not contain any entries.
    pub fn is_empty(&self) -> (b: bool)
        ensures
            b == (self.spec_entries().len() == 0),
    {
        self.entries.len() == 0
    }

    /// Returns the coherence threshold enforced by the pool.
    pub fn coherence_threshold(&self) -> (t: Qx)
        ensures
            t == self.spec_threshold(),
    {
        self.coherence_threshold
    }

    /// Returns the next epoch identifier and advances the counter.
    pub fn next_epoch(&mut self) -> (epoch: u32)
        ensures
            epoch == old(self).spec_cursor(),
            final(self).spec_cursor() == if old(self).spec_cursor() + 1 <= u32::MAX {
                old(self).spec_cursor() + 1
            } else {
                u32::MAX as int
            },
            final(self).spec_entries() == old(self).spec_entries(),
            final(self).spec_max_size() == old(self).spec_max_size(),
            final(self).spec_threshold() == old(self).spec_threshold(),
            old(self).inv() ==> final(self).inv(),
    {
        let epoch = self.epoch_cursor;
        self.epoch_cursor = self.epoch_cursor.saturating_add(1);
        epoch
    }

    /// Provides access to the stored entries.
    pub fn entries(&self) -> (r: &Vec<DreamEntry>)
        ensures
            r@ == self.spec_entries(),
    {
        &self.entries
    }

    /// Returns the highest epoch recorded in the pool, if any.
    pub fn latest_epoch(&self) -> (r: Option<u32>)
        ensures
            match r {
                Some(m) => self.spec_entries().len() > 0 && m as int == spec_latest_epoch(
                    self.spec_entries(),
                    self.spec_entries().len() as int,
                ),
                None => self.spec_entries().len() == 0,
            },
    {
        if self.entries.len() == 0 {
            return None;
        }
        let n = self.entries.len();
        let mut m: u32 = 0;
        let mut i: usize = 0;
        while i < n
            invariant
                i <= n,
                n == self.spec_entries().len(),
                m as int == spec_latest_epoch(self.spec_entries(), i as int),
            decreases n - i,
        {
            let e = self.entries[i].epoch;
            if e > m {
                m = e;
            }
            i += 1;
        }
        Some(m)
    }

    /// Appends the entry when there is room; otherwise replaces the first
    /// minimum-score entry, and only when the new score strictly exceeds
    /// that minimum.
    fn push_or_replace(&mut self, entry: DreamEntry)
        requires
            old(self).inv(),
            entry.wf(),
            entry.coherence >= old(self).spec_threshold(),
        ensures
            final(self).inv(),
            final(self).spec_max_size() == old(self).spec_max_size(),
            final(self).spec_threshold() == old(self).spec_threshold(),
            final(self).spec_cursor() == old(self).spec_cursor(),
            old(self).spec_entries().len() < old(self).spec_max_size()
                ==> final(self).spec_entries() == old(self).spec_entries().push(entry),
            old(self).spec_entries().len() == old(self).spec_max_size() ==> {
                let m = spec_min_score_idx(
                    old(self).spec_entries(),
                    old(self).spec_entries().len() as int,
                );
                if old(self).spec_entries()[m].score < entry.score {
                    final(self).spec_entries() == old(self).spec_entries().update(m, entry)
                } else {
                    final(self).spec_entries() == old(self).spec_entries()
                }
            },
    {
        let n = self.entries.len();
        if n < self.max_size {
            self.entries.push(entry);
            return;
        }
        let mut min_idx: usize = 0;
        let mut i: usize = 1;
        while i < n
            invariant
                1 <= i <= n,
                n == self.spec_entries().len(),
                min_idx < i,
                min_idx as int == spec_min_score_idx(self.spec_entries(), i as int),
            decreases n - i,
        {
            if self.entries[i].score < self.entries[min_idx].score {
                min_idx = i;
            }
            i += 1;
        }
        if self.entries[min_idx].score < entry.score {
            self.entries.set(min_idx, entry);
        }
    }

    /// Index of the best-scoring entry; among equal scores the last wins.
    fn best_entry_index(&self) -> (r: Option<usize>)
        ensures
            match r {
                Some(i) => self.spec_entries().len() > 0 && i as int == spec_best_score_idx(
                    self.spec_entries(),
                    self.spec_entries().len() as int,
                ) && i < self.spec_entries().len(),
                None => self.spec_entries().len() == 0,
            },
    {
        let n = self.entries.len();
        if n == 0 {
            return None;
        }
        let mut best: usize = 0;
        let mut i: usize = 1;
        while i < n
            invariant
                1 <= i <= n,
                n == self.spec_entries().len(),
                best < i,
                best as int == spec_best_score_idx(self.spec_entries(), i as int),
            decreases n - i,
        {
            if self.entries[i].score >= self.entries[best].score {
                best = i;
            }
            i += 1;
        }
        Some(best)
    }
}

/// The admission rule as a function on the stored entries: reject below
/// the threshold, append while there is room, otherwise replace the first
/// minimum-score entry exactly when the candidate's score strictly
/// exceeds that minimum.
pub open spec fn spec_admit(
    entries: Seq<DreamEntry>,
    max: int,
    threshold: int,
    e: DreamEntry,
) -> Seq<DreamEntry> {
    if e.coherence < threshold {
        entries
    } else if entries.len() < max {
        entries.push(e)
    } else {
        let m = spec_min_score_idx(entries, entries.len() as int);
        if entries[m].score < e.score {
            entries.update(m, e)
        } else {
            entries
        }
    }
}

/// Inserts a dream entry into the pool if it satisfies the coherence
/// threshold: an entry whose coherence falls strictly below the threshold
/// is never admitted and leaves the pool unchanged; an admitted entry is
/// appended while there is room, and once the pool is full it replaces the
/// current minimum-score entry exactly when its score strictly exceeds
/// that minimum. The final entries are exactly the admission rule applied
/// to the old ones.
pub fn add_dream_to_pool(pool: &mut SimpleDreamPool, dream: DreamEntry)
    requires
        old(pool).inv(),
        dream.wf(),
    ensures
        final(pool).inv(),
        final(pool).spec_max_size() == old(pool).spec_max_size(),
        final(pool).spec_threshold() == old(pool).spec_threshold(),
        final(pool).spec_cursor() == old(pool).spec_cursor(),
        dream.coherence < old(pool).spec_threshold() ==> final(pool).spec_entries()
            == old(pool).spec_entries(),
        dream.coherence >= old(pool).spec_threshold() && old(pool).spec_entries().len()
            < old(pool).spec_max_size() ==> final(pool).spec_entries()
            == old(pool).spec_entries().push(dream),
        dream.coherence >= old(pool).spec_threshold() && old(pool).spec_entries().len()
            == old(pool).spec_max_size() ==> {
            let m = spec_min_score_idx(
                old(pool).spec_entries(),
                old(pool).spec_entries().len() as int,
            );
            if old(pool).spec_entries()[m].score < dream.score {
                final(pool).spec_entries() == old(pool).spec_entries().update(m, dream)
            } else {
                final(pool).spec_entries() == old(pool).spec_entries()
            }
        },
        final(pool).spec_entries() == spec_admit(
            old(pool).spec_entries(),
            old(pool).spec_max_size(),
            old(pool).spec_threshold(),
            dream,
        ),
{
    if dream.coherence < pool.coherence_threshold {
        return;
    }
    pool.push_or_replace(dream);
}

/// Purges entries whose age exceeds the provided threshold. An entry's age
/// is its distance to the highest epoch in the pool; the surviving entries
/// keep their order.
pub fn purge_stale_entries(pool: &mut SimpleDreamPool, max_age: u32)
    requires
        old(pool).inv(),
    ensures
        final(pool).inv(),
        final(pool).spec_max_size() == old(pool).spec_max_size(),
        final(pool).spec_threshold() == old(pool).spec_threshold(),
        final(pool).spec_cursor() == old(pool).spec_cursor(),
        final(pool).spec_entries() == old(pool).spec_entries().filter(
            |e: DreamEntry|
                spec_latest_epoch(
                    old(pool).spec_entries(),
                    old(pool).spec_entries().len() as int,
                ) - e.epoch <= max_age,
        ),
        forall|i: int|
            0 <= i < final(pool).spec_entries().len() ==> spec_latest_epoch(
                old(pool).spec_entries(),
                old(pool).spec_entries().len() as int,
            ) - (#[trigger] final(pool).spec_entries()[i]).epoch <= max_age,
{
    let ghost s0 = pool.spec_entries();
    let ghost pred = |e: DreamEntry|
        spec_latest_epoch(s0, s0.len() as int) - e.epoch <= max_age;
    if pool.entries.len() == 0 {
        proof {
            assert(s0.filter(pred) =~= s0);
        }
        return;
    }
    let n = pool.entries.len();
    let mut latest: u32 = 0;
    let mut i: usize = 0;
    while i < n
        invariant
            i <= n,
            pool.inv(),
            pool == old(pool),
            n == pool.spec_entries().len(),
            latest as int == spec_latest_epoch(pool.spec_entries(), i as int),
        decreases n - i,
    {
        let e = pool.entries[i].epoch;
        if e > latest {
            latest = e;
        }
        i += 1;
    }

    let mut taken: Vec<DreamEntry> = Vec::new();
    core::mem::swap(&mut pool.entries, &mut taken);
    let mut kept: Vec<DreamEntry> = Vec::new();
    let mut j: usize = 0;
    while j < n
        invariant
            j <= n,
            n == s0.len(),
            pred == (|e: DreamEntry|
                spec_latest_epoch(s0, s0.len() as int) - e.epoch <= max_age),
            latest as int == spec_latest_epoch(s0, n as int),
            taken@ == s0.subrange(j as int, n as int),
            kept@ == s0.subrange(0, j as int).filter(pred),
            forall|t: int|
                0 <= t < s0.len() ==> (#[trigger] s0[t]).wf() && s0[t].coherence
                    >= old(pool).spec_threshold(),
            forall|t: int|
                0 <= t < kept@.len() ==> (#[trigger] kept@[t]).wf() && kept@[t].coherence
                    >= old(pool).spec_threshold(),
            kept@.len() <= j,
        decreases n - j,
    {
        let e = taken.remove(0);
        proof {
            assert(e == s0[j as int]);
            lemma_latest_epoch_ge(s0, n as int, j as int);
            assert(s0.subrange(0, j + 1).drop_last() =~= s0.subrange(0, j as int));
            assert(s0.subrange(0, j + 1).last() == s0[j as int]);
            assert(taken@ =~= s0.subrange(j + 1, n as int));
            reveal_with_fuel(Seq::filter, 2);
        }
        let age = latest - e.epoch;
        if age <= max_age {
            kept.push(e);
        }
        j += 1;
    }
    proof {
        assert(s0.subrange(0, n as int) =~= s0);
    }
    pool.entries = kept;
    proof {
        s0.filter_lemma(pred);
    }
}


/// Every element of a filtered sequence occurs in the original.
proof fn lemma_filter_contained(s: Seq<DreamEntry>, pred: spec_fn(DreamEntry) -> bool)
    ensures
        forall|i: int|
            0 <= i < s.filter(pred).len() ==> s.contains(#[trigger] s.filter(pred)[i]),
    decreases s.len(),
{
    reveal_with_fuel(Seq::filter, 2);
    if s.len() > 0 {
        lemma_filter_contained(s.drop_last(), pred);
        let f = s.filter(pred);
        let fd = s.drop_last().filter(pred);
        assert forall|i: int| 0 <= i < f.len() implies s.contains(#[trigger] f[i]) by {
            if pred(s.last()) && i == f.len() - 1 {
                assert(f[i] == s.last());
                assert(s[s.len() - 1] == s.last());
            } else {
                assert(f[i] == fd[i]);
                assert(s.drop_last().contains(fd[i]));
                let j = choose|j: int|
                    0 <= j < s.drop_last().len() && s.drop_last()[j] == fd[i];
                assert(s[j] == fd[i]);
            }
        }
    }
}

/// After purging with a zero age allowance, every remaining entry's epoch
/// equals the highest epoch the pool had recorded.
pub proof fn lemma_zero_age_keeps_only_latest(
    s: Seq<DreamEntry>,
    kept: Seq<DreamEntry>,
    pred: spec_fn(DreamEntry) -> bool,
)
    requires
        forall|e: DreamEntry| #[trigger] pred(e) == (spec_latest_epoch(s, s.len() as int)
            - e.epoch <= 0),
        kept == s.filter(pred),
    ensures
        forall|i: int|
            0 <= i < kept.len() ==> (#[trigger] kept[i]).epoch as int == spec_latest_epoch(
                s,
                s.len() as int,
            ),
{
    s.filter_lemma(pred);
    lemma_filter_contained(s, pred);
    assert forall|i: int| 0 <= i < kept.len() implies (#[trigger] kept[i]).epoch as int
        == spec_latest_epoch(s, s.len() as int) by {
        assert(pred(kept[i]));
        assert(s.contains(kept[i]));
        let j = choose|j: int| 0 <= j < s.len() && s[j] == kept[i];
        lemma_latest_epoch_ge(s, s.len() as int, j);
    }
}


/// Phase step of the pseudo-spatial modulation signal, as a turn fraction.
pub const MODULATION_STEP: Qx = 28_906;

/// Triangle wave standing in for the sine in exact arithmetic: zero at the
/// ends of the turn, one quarter of the way up, minus one three quarters
/// of the way through.
pub open spec fn spec_tri_wave(p: int) -> int {
    if p < fixed_one() / 4 {
        4 * p
    } else if p < 3 * (fixed_one() / 4) {
        2 * fixed_one() - 4 * p
    } else {
        4 * p - 4 * fixed_one()
    }
}

/// Signed division by ten, rounding toward zero on both sides.
pub open spec fn spec_div10(v: int) -> int {
    if v >= 0 {
        v / 10
    } else {
        -((-v) / 10)
    }
}

/// Evaluates the triangle wave on a phase inside one turn.
fn tri_wave(p: Qx) -> (r: Qx)
    requires
        0 <= p < fixed_one(),
    ensures
        r == spec_tri_wave(p as int),
        -fixed_one() <= r <= fixed_one(),
{
    let quarter = DEFAULT_FIXED_SCALE / 4;
    if p < quarter {
        4 * p
    } else if p < 3 * quarter {
        2 * DEFAULT_FIXED_SCALE - 4 * p
    } else {
        4 * p - 4 * DEFAULT_FIXED_SCALE
    }
}

/// Modulation signal of a cell and channel: a smooth deterministic
/// function of the coordinates alone, scaled to a tenth of the unit.
pub open spec fn spec_modulation(row: int, col: int, ch: int) -> int {
    spec_div10(spec_tri_wave(((row + 1) * (col + 1) * (ch + 1) * MODULATION_STEP)
        % fixed_one()))
}

/// Value of channel `ch` of cell `k` of a generated dream grid: the seed
/// value blended toward the modulated channel mean by the clamped noise
/// amplitude, clamped to the unit interval.
pub open spec fn spec_gen_val(rgb: Seq<Qx>, shape: Shape2D, noise: int, k: int, ch: int) -> int {
    let cells = shape.spec_cell_count();
    let na = spec_clamp_unit(noise);
    let mean_ch = channel_sum(rgb, ch, cells) / cells;
    let row = k / shape.w as int;
    let col = k % shape.w as int;
    let inner = spec_clamp_unit(mean_ch + spec_modulation(row, col, ch));
    spec_clamp_unit(crate::tensor::spec_mix(inner, rgb[3 * k + ch] as int, na))
}

/// Generates a deterministic dream tensor from the seed using the noise
/// strength; its coherence map is derived from the generated values.
pub fn generate_dream(seed: &ChromaticTensor, noise: Qx) -> (t: ChromaticTensor)
    requires
        seed.wf(),
    ensures
        t.wf(),
        t.shape == seed.shape,
        t.rgb@.len() == seed.rgb@.len(),
        forall|k: int, ch: int|
            0 <= k < seed.shape.spec_cell_count() && 0 <= ch < 3 ==> #[trigger] t.rgb@[3 * k
                + ch] as int == spec_gen_val(seed.rgb@, seed.shape, noise as int, k, ch),
        t.coh is Some,
        t.coh->0@.len() == seed.shape.spec_cell_count(),
        forall|k: int|
            0 <= k < seed.shape.spec_cell_count() ==> #[trigger] t.coh->0@[k] as int
                == spec_coh_cell(t.rgb@, seed.shape.spec_cell_count(), k),
{
    let shape = seed.shape;
    let cells = shape.cell_count();
    let w = shape.w;
    let na = clamp_unit(noise);
    let mean = crate::tensor::mean_rgb(seed);
    let unit = DEFAULT_FIXED_SCALE as i64;

    let mut rgb: Vec<Qx> = Vec::new();
    let mut k: usize = 0;
    while k < cells
        invariant
            k <= cells,
            seed.wf(),
            shape == seed.shape,
            w == shape.w,
            cells == shape.spec_cell_count(),
            na == spec_clamp_unit(noise as int),
            unit_in_range(na as int),
            unit == fixed_one(),
            forall|ch: int|
                0 <= ch < 3 ==> #[trigger] mean[ch] as int == channel_sum(
                    seed.rgb@,
                    ch,
                    cells as int,
                ) / cells as int && unit_in_range(mean[ch] as int),
            rgb@.len() == 3 * k,
            forall|t: int, ch: int|
                0 <= t < k && 0 <= ch < 3 ==> #[trigger] rgb@[3 * t + ch] as int == spec_gen_val(
                    seed.rgb@,
                    shape,
                    noise as int,
                    t,
                    ch,
                ) && unit_in_range(rgb@[3 * t + ch] as int),
        decreases cells - k,
    {
        let row = k / w;
        let col = k % w;
        proof {
            lemma_div_pos_is_pos(k as int, w as int);
            vstd::arithmetic::div_mod::lemma_fundamental_div_mod(k as int, w as int);
            vstd::arithmetic::div_mod::lemma_mod_division_less_than_divisor(k as int, w as int);
            assert((k as int) < shape.h * shape.w ==> (k as int) / (shape.w as int) < (
            shape.h as int)) by (nonlinear_arith)
                requires
                    shape.w >= 1,
                    k as int == (shape.w as int) * ((k as int) / (shape.w as int)) + (k as int)
                        % (shape.w as int),
                    0 <= (k as int) % (shape.w as int) < (shape.w as int),
            ;
            assert(row < shape.h);
            assert(1 <= (row + 1) * (col + 1) && (row + 1) * (col + 1) <= shape.h * shape.w)
                by (nonlinear_arith)
                requires
                    0 <= row as int,
                    0 <= col as int,
                    (row as int) + 1 <= shape.h as int,
                    (col as int) + 1 <= shape.w as int,
            ;
        }
        let base: i64 = (row as i64 + 1) * (col as i64 + 1);
        let v0 = gen_channel_value(seed, mean[0], na, base, 1, k, 0);
        let v1 = gen_channel_value(seed, mean[1], na, base, 2, k, 1);
        let v2 = gen_channel_value(seed, mean[2], na, base, 3, k, 2);
        rgb.push(v0);
        rgb.push(v1);
        rgb.push(v2);
        proof {
            assert forall|t: int, ch: int| 0 <= t < k as int + 1 && 0 <= ch < 3 implies #[trigger]
                rgb@[3 * t + ch] as int == spec_gen_val(seed.rgb@, shape, noise as int, t, ch)
                && unit_in_range(rgb@[3 * t + ch] as int) by {
                if t < k as int {
                    assert(rgb@[3 * t + ch] == rgb@.subrange(0, 3 * (k as int))[3 * t + ch]);
                }
            }
        }
        k += 1;
    }
    proof {
        assert forall|i: int| 0 <= i < rgb@.len() implies unit_in_range(
            #[trigger] rgb@[i] as int,
        ) by {
            let t = i / 3;
            let ch = i % 3;
            vstd::arithmetic::div_mod::lemma_fundamental_div_mod(i, 3);
            vstd::arithmetic::div_mod::lemma_mod_division_less_than_divisor(i, 3);
            vstd::arithmetic::div_mod::lemma_fundamental_div_mod_converse(
                3 * (cells as int) - 1,
                3,
                cells as int - 1,
                2,
            );
            vstd::arithmetic::div_mod::lemma_div_is_ordered(i, 3 * (cells as int) - 1, 3);
            assert(i == 3 * t + ch);
            assert(unit_in_range(rgb@[3 * t + ch] as int));
        }
    }
    let coh = coherence_map_from_rgb(shape, &rgb);
    ChromaticTensor::new(shape, rgb, Some(coh))
}

/// Computes one generated channel value.
fn gen_channel_value(
    seed: &ChromaticTensor,
    mean_ch: Qx,
    na: Qx,
    base: i64,
    ch_factor: i64,
    k: usize,
    ch: usize,
)
    -> (v: Qx)
    requires
        seed.wf(),
        ch < 3,
        ch_factor == ch + 1,
        k < seed.shape.spec_cell_count(),
        base == (k as int / seed.shape.w as int + 1) * (k as int % seed.shape.w as int + 1),
        1 <= base <= 0x100_0000,
        mean_ch as int == channel_sum(seed.rgb@, ch as int, seed.shape.spec_cell_count())
            / seed.shape.spec_cell_count(),
        unit_in_range(mean_ch as int),
        na == spec_clamp_unit(na as int),
        unit_in_range(na as int),
    ensures
        v as int == spec_gen_val(seed.rgb@, seed.shape, na as int, k as int, ch as int),
        unit_in_range(v as int),
{
    let unit = DEFAULT_FIXED_SCALE as i64;
    proof {
        assert(base * ch_factor * MODULATION_STEP <= 0x100_0000i64 * 3 * 28_906
            && base * ch_factor * MODULATION_STEP >= 0) by (nonlinear_arith)
            requires
                1 <= base <= 0x100_0000i64,
                1 <= ch_factor <= 3,
        ;
    }
    let raw_phase: i64 = base * ch_factor * MODULATION_STEP as i64;
    proof {
        lemma_div_pos_is_pos(raw_phase as int, unit as int);
        vstd::arithmetic::div_mod::lemma_fundamental_div_mod(raw_phase as int, unit as int);
    }
    let phase = (raw_phase % unit) as Qx;
    let tri = tri_wave(phase);
    let mod10: Qx = if tri >= 0 {
        proof {
            lemma_div_pos_is_pos(tri as int, 10);
            lemma_div_is_ordered(tri as int, fixed_one(), 10);
        }
        tri / 10
    } else {
        proof {
            lemma_div_pos_is_pos(-(tri as int), 10);
            lemma_div_is_ordered(-(tri as int), fixed_one(), 10);
        }
        -((-tri) / 10)
    };
    let inner = clamp_unit(mean_ch + mod10);
    let source = seed.rgb[k * 3 + ch];
    proof {
        crate::tensor::lemma_mix_unit(inner as int, source as int, na as int);
        assert(spec_clamp_unit(na as int) == na as int);
    }
    let blended = ((na as i64) * (inner as i64) + (unit - na as i64) * (source as i64)) / unit;
    clamp_unit(blended as Qx)
}


/// Seam-aware HSL distance between the `k`-th cells of two grids.
pub open spec fn spec_cell_dist(a: Seq<Qx>, b: Seq<Qx>, k: int) -> int {
    let dh = crate::color::spec_wrap_signed(crate::bridge::cell_h(b, k) - crate::bridge::cell_h(
        a,
        k,
    ));
    let ds = crate::bridge::cell_s(b, k) - crate::bridge::cell_s(a, k);
    let dl = crate::bridge::cell_l(b, k) - crate::bridge::cell_l(a, k);
    crate::quant::spec_isqrt(dh * dh + ds * ds + dl * dl)
}

/// Sum of the per-cell distances over the first `n` cells.
pub open spec fn dist_sum(a: Seq<Qx>, b: Seq<Qx>, n: int) -> int
    decreases n,
{
    if n <= 0 {
        0
    } else {
        dist_sum(a, b, n - 1) + spec_cell_dist(a, b, n - 1)
    }
}

/// Mean seam-aware HSL distance between two grids of the same shape.
pub open spec fn spec_hsl_distance(a: Seq<Qx>, b: Seq<Qx>, cells: int) -> int {
    dist_sum(a, b, cells) / cells
}

/// Computes the mean per-cell HSL distance between two tensors.
pub fn hsl_distance_field(a: &ChromaticTensor, b: &ChromaticTensor) -> (d: Qx)
    requires
        a.wf(),
        b.wf(),
        a.shape == b.shape,
    ensures
        d as int == spec_hsl_distance(a.rgb@, b.rgb@, a.shape.spec_cell_count()),
        0 <= d <= 2 * DEFAULT_FIXED_SCALE,
{
    let cells = a.shape.cell_count();
    let mut acc: i64 = 0;
    let mut k: usize = 0;
    while k < cells
        invariant
            k <= cells,
            a.wf(),
            b.wf(),
            a.shape == b.shape,
            cells == a.shape.spec_cell_count(),
            acc == dist_sum(a.rgb@, b.rgb@, k as int),
            0 <= acc <= k as int * (2 * fixed_one()),
        decreases cells - k,
    {
        proof {
            assert(3 * (k as int) + 3 <= 3 * a.shape.spec_cell_count());
            assert(k as int * (2 * fixed_one()) + 2 * fixed_one() == (k as int + 1) * (2
                * fixed_one())) by (nonlinear_arith);
            assert(k as int * (2 * fixed_one()) <= 0x100_0000 * (2 * fixed_one()))
                by (nonlinear_arith)
                requires
                    0 <= k as int <= 0x100_0000,
            ;
        }
        let off = k * 3;
        let ah = crate::color::rgb_to_hsl(a.rgb[off], a.rgb[off + 1], a.rgb[off + 2]);
        let bh = crate::color::rgb_to_hsl(b.rgb[off], b.rgb[off + 1], b.rgb[off + 2]);
        let (dh, ds, dl) = crate::color::delta_hsl(ah, bh);
        proof {
            assert(0 <= dh as int * (dh as int) <= 0x100_0000_0000 && 0 <= ds as int * (
            ds as int) <= 0x100_0000_0000 && 0 <= dl as int * (dl as int) <= 0x100_0000_0000)
                by (nonlinear_arith)
                requires
                    -0x10_0000 <= dh as int <= 0x10_0000,
                    -0x10_0000 <= ds as int <= 0x10_0000,
                    -0x10_0000 <= dl as int <= 0x10_0000,
            ;
        }
        let sq: i64 = (dh as i64) * (dh as i64) + (ds as i64) * (ds as i64) + (dl as i64)
            * (dl as i64);
        let dist = crate::quant::isqrt64(sq);
        proof {
            crate::quant::lemma_isqrt_unique(sq as int, dist as int);
            assert(dist <= 2 * fixed_one()) by (nonlinear_arith)
                requires
                    dist as int * (dist as int) <= 0x300_0000_0000,
                    0 <= dist as int,
            ;
        }
        acc = acc + dist;
        k += 1;
    }
    proof {
        lemma_dist_mean_bound(acc as int, cells as int);
    }
    (acc / cells as i64) as Qx
}

/// A mean of values bounded by twice the unit stays within that bound.
proof fn lemma_dist_mean_bound(sum: int, n: int)
    requires
        0 < n,
        0 <= sum <= n * (2 * fixed_one()),
    ensures
        0 <= sum / n <= 2 * fixed_one(),
{
    lemma_div_pos_is_pos(sum, n);
    lemma_div_is_ordered(sum, n * (2 * fixed_one()), n);
    lemma_div_by_multiple(2 * fixed_one(), n);
    assert(n * (2 * fixed_one()) == (2 * fixed_one()) * n) by (nonlinear_arith);
}

/// Mean channel energy of the `k`-th cell.
pub open spec fn cell_energy(rgb: Seq<Qx>, k: int) -> int {
    (rgb[3 * k] + rgb[3 * k + 1] + rgb[3 * k + 2]) / 3
}

/// Energy accumulated into column `c` by the first `k` cells of a
/// row-major grid of width `w`.
pub open spec fn col_sum(rgb: Seq<Qx>, w: int, c: int, k: int) -> int
    decreases k,
{
    if k <= 0 {
        0
    } else {
        col_sum(rgb, w, c, k - 1) + if (k - 1) % w == c {
            cell_energy(rgb, k - 1)
        } else {
            0
        }
    }
}

/// Total energy over the first `c` columns.
pub open spec fn profile_norm(rgb: Seq<Qx>, w: int, cells: int, c: int) -> int
    decreases c,
{
    if c <= 0 {
        0
    } else {
        profile_norm(rgb, w, cells, c - 1) + col_sum(rgb, w, c - 1, cells)
    }
}

/// Normalized column-energy profile value of column `c`.
pub open spec fn spec_profile_val(rgb: Seq<Qx>, w: int, cells: int, c: int) -> int {
    let norm = profile_norm(rgb, w, cells, w);
    let denom = if norm < 1 {
        1
    } else {
        norm
    };
    col_sum(rgb, w, c, cells) * fixed_one() / denom
}


/// Column energies are nonnegative and bounded by the cell count.
proof fn lemma_col_sum_bounds(rgb: Seq<Qx>, w: int, c: int, k: int)
    requires
        values_unit(rgb),
        0 <= k,
        3 * k <= rgb.len(),
    ensures
        0 <= col_sum(rgb, w, c, k) <= k * fixed_one(),
    decreases k,
{
    if k > 0 {
        lemma_col_sum_bounds(rgb, w, c, k - 1);
        assert((k - 1) * fixed_one() + fixed_one() == k * fixed_one()) by (nonlinear_arith);
        if (k - 1) % w == c {
            lemma_div_pos_is_pos(rgb[3 * (k - 1)] + rgb[3 * (k - 1) + 1] + rgb[3 * (k - 1) + 2],
                3);
            lemma_div_is_ordered(rgb[3 * (k - 1)] + rgb[3 * (k - 1) + 1] + rgb[3 * (k - 1) + 2],
                3 * fixed_one(), 3);
        }
    }
}

/// The total profile energy dominates every single column energy.
proof fn lemma_profile_norm_ge(rgb: Seq<Qx>, w: int, cells: int, c: int, upto: int)
    requires
        values_unit(rgb),
        0 <= cells,
        3 * cells <= rgb.len(),
        0 <= c < upto,
    ensures
        profile_norm(rgb, w, cells, upto) >= col_sum(rgb, w, c, cells),
        profile_norm(rgb, w, cells, upto) >= 0,
    decreases upto,
{
    lemma_col_sum_bounds(rgb, w, c, cells);
    lemma_profile_norm_nonneg(rgb, w, cells, upto - 1);
    if c < upto - 1 {
        lemma_profile_norm_ge(rgb, w, cells, c, upto - 1);
        lemma_col_sum_bounds(rgb, w, upto - 1, cells);
    }
}

/// The total profile energy is nonnegative.
proof fn lemma_profile_norm_nonneg(rgb: Seq<Qx>, w: int, cells: int, upto: int)
    requires
        values_unit(rgb),
        0 <= cells,
        3 * cells <= rgb.len(),
    ensures
        profile_norm(rgb, w, cells, upto) >= 0,
    decreases upto,
{
    if upto > 0 {
        lemma_profile_norm_nonneg(rgb, w, cells, upto - 1);
        lemma_col_sum_bounds(rgb, w, upto - 1, cells);
    }
}

/// Computes the normalized column-wise average-energy profile of a tensor.
pub fn frequency_profile(t: &ChromaticTensor) -> (profile: Vec<Qx>)
    requires
        t.wf(),
    ensures
        profile@.len() == t.shape.w,
        forall|c: int|
            0 <= c < t.shape.w ==> #[trigger] profile@[c] as int == spec_profile_val(
                t.rgb@,
                t.shape.w as int,
                t.shape.spec_cell_count(),
                c,
            ),
        values_unit(profile@),
{
    let cells = t.shape.cell_count();
    let w = t.shape.w;
    let mut cols: Vec<i64> = Vec::new();
    let mut c0: usize = 0;
    while c0 < w
        invariant
            c0 <= w,
            cols@.len() == c0,
            forall|c: int| 0 <= c < c0 ==> #[trigger] cols@[c] == 0i64,
        decreases w - c0,
    {
        cols.push(0);
        c0 += 1;
    }
    proof {
        assert forall|c: int| 0 <= c < w implies #[trigger] cols@[c] as int == col_sum(
            t.rgb@,
            w as int,
            c,
            0,
        ) by {}
    }
    let mut k: usize = 0;
    while k < cells
        invariant
            k <= cells,
            t.wf(),
            w == t.shape.w,
            cells == t.shape.spec_cell_count(),
            cols@.len() == w,
            forall|c: int|
                0 <= c < w ==> #[trigger] cols@[c] as int == col_sum(t.rgb@, w as int, c, k as int)
                    && 0 <= cols@[c] as int <= k as int * fixed_one(),
        decreases cells - k,
    {
        proof {
            assert(3 * (k as int) + 3 <= 3 * t.shape.spec_cell_count());
            assert(k as int * fixed_one() + fixed_one() == (k as int + 1) * fixed_one())
                by (nonlinear_arith);
            assert(k as int * fixed_one() <= 0x100_0000 * fixed_one()) by (nonlinear_arith)
                requires
                    0 <= k as int <= 0x100_0000,
            ;
            vstd::arithmetic::div_mod::lemma_mod_division_less_than_divisor(k as int, w as int);
        }
        let off = k * 3;
        let col = k % w;
        let sum3: i64 = t.rgb[off] as i64 + t.rgb[off + 1] as i64 + t.rgb[off + 2] as i64;
        proof {
            lemma_div_pos_is_pos(sum3 as int, 3);
            lemma_div_is_ordered(sum3 as int, 3 * fixed_one(), 3);
        }
        let energy = sum3 / 3;
        let ghost old_cols = cols@;
        let updated = cols[col] + energy;
        cols.set(col, updated);
        proof {
            assert forall|c: int| 0 <= c < w implies #[trigger] cols@[c] as int == col_sum(
                t.rgb@,
                w as int,
                c,
                k as int + 1,
            ) && 0 <= cols@[c] as int <= (k as int + 1) * fixed_one() by {
                if c != col as int {
                    assert(cols@[c] == old_cols[c]);
                }
            }
        }
        k += 1;
    }
    proof {
        assert(t.shape.w * 1 <= t.shape.h * t.shape.w) by (nonlinear_arith)
            requires
                t.shape.h >= 1,
                t.shape.w >= 0,
        ;
    }
    let mut norm: i128 = 0;
    let mut c1: usize = 0;
    while c1 < w
        invariant
            c1 <= w,
            t.wf(),
            w == t.shape.w,
            w <= 0x100_0000,
            cells == t.shape.spec_cell_count(),
            cols@.len() == w,
            forall|c: int|
                0 <= c < w ==> #[trigger] cols@[c] as int == col_sum(
                    t.rgb@,
                    w as int,
                    c,
                    cells as int,
                ) && 0 <= cols@[c] as int <= cells as int * fixed_one(),
            norm == profile_norm(t.rgb@, w as int, cells as int, c1 as int),
            0 <= norm <= c1 as int * (cells as int * fixed_one()),
        decreases w - c1,
    {
        proof {
            assert(c1 as int * (cells as int * fixed_one()) + cells as int * fixed_one() == (
            c1 as int + 1) * (cells as int * fixed_one())) by (nonlinear_arith);
            assert(c1 as int * (cells as int * fixed_one()) <= 0x100_0000 * (0x100_0000
                * fixed_one()) && cells as int * fixed_one() <= 0x100_0000 * fixed_one())
                by (nonlinear_arith)
                requires
                    0 <= c1 as int <= 0x100_0000,
                    0 <= cells as int <= 0x100_0000,
            ;
        }
        norm = norm + cols[c1] as i128;
        c1 += 1;
    }
    let denom: i128 = if norm < 1 {
        1
    } else {
        norm
    };
    let mut profile: Vec<Qx> = Vec::new();
    let mut c2: usize = 0;
    while c2 < w
        invariant
            c2 <= w,
            t.wf(),
            w == t.shape.w,
            cells == t.shape.spec_cell_count(),
            cols@.len() == w,
            forall|c: int|
                0 <= c < w ==> #[trigger] cols@[c] as int == col_sum(
                    t.rgb@,
                    w as int,
                    c,
                    cells as int,
                ) && 0 <= cols@[c] as int <= cells as int * fixed_one(),
            norm == profile_norm(t.rgb@, w as int, cells as int, w as int),
            denom as int == if norm < 1 {
                1int
            } else {
                norm as int
            },
            denom >= 1,
            profile@.len() == c2,
            forall|c: int|
                0 <= c < c2 ==> #[trigger] profile@[c] as int == spec_profile_val(
                    t.rgb@,
                    w as int,
                    cells as int,
                    c,
                ) && unit_in_range(profile@[c] as int),
        decreases w - c2,
    {
        proof {
            lemma_profile_norm_ge(t.rgb@, w as int, cells as int, c2 as int, w as int);
            crate::bridge::lemma_ratio_unit_bridge(cols@[c2 as int] as int, denom as int);
        }
        let v = (cols[c2] as i128 * DEFAULT_FIXED_SCALE as i128 / denom) as Qx;
        profile.push(v);
        c2 += 1;
    }
    profile
}

/// Dot product of two profiles over the first `n` slots.
pub open spec fn dot_sum(a: Seq<Qx>, b: Seq<Qx>, n: int) -> int
    decreases n,
{
    if n <= 0 {
        0
    } else {
        dot_sum(a, b, n - 1) + a[n - 1] * b[n - 1]
    }
}

/// Sum of squares of a profile over the first `n` slots.
pub open spec fn sq_sum(a: Seq<Qx>, n: int) -> int
    decreases n,
{
    if n <= 0 {
        0
    } else {
        sq_sum(a, n - 1) + a[n - 1] * a[n - 1]
    }
}

/// Cosine similarity of two nonnegative profiles: the dot product over the
/// product of the Euclidean norms, clamped to the unit interval; zero when
/// either profile is empty of energy.
pub open spec fn spec_similarity(a: Seq<Qx>, b: Seq<Qx>) -> int {
    let n = if a.len() <= b.len() {
        a.len() as int
    } else {
        b.len() as int
    };
    let na = sq_sum(a, n);
    let nb = sq_sum(b, n);
    if na == 0 || nb == 0 {
        0
    } else {
        spec_clamp_unit(dot_sum(a, b, n) * fixed_one() / (crate::quant::spec_isqrt(na)
            * crate::quant::spec_isqrt(nb)))
    }
}

/// Computes the cosine similarity of two energy profiles.
pub fn spectral_similarity(a: &Vec<Qx>, b: &Vec<Qx>) -> (sim: Qx)
    requires
        values_unit(a@),
        values_unit(b@),
        a@.len() <= 0x100_0000,
        b@.len() <= 0x100_0000,
    ensures
        sim as int == spec_similarity(a@, b@),
        unit_in_range(sim as int),
{
    let n = if a.len() <= b.len() {
        a.len()
    } else {
        b.len()
    };
    let mut dot: i128 = 0;
    let mut na: i128 = 0;
    let mut nb: i128 = 0;
    let mut i: usize = 0;
    while i < n
        invariant
            i <= n,
            values_unit(a@),
            values_unit(b@),
            n == if a@.len() <= b@.len() {
                a@.len() as int
            } else {
                b@.len() as int
            },
            n <= 0x100_0000,
            dot == dot_sum(a@, b@, i as int),
            na == sq_sum(a@, i as int),
            nb == sq_sum(b@, i as int),
            0 <= dot <= i as int * (fixed_one() * fixed_one()),
            0 <= na <= i as int * (fixed_one() * fixed_one()),
            0 <= nb <= i as int * (fixed_one() * fixed_one()),
        decreases n - i,
    {
        proof {
            assert(fixed_one() * fixed_one() == 0x100_0000_0000) by (nonlinear_arith);
            assert(i as int * (fixed_one() * fixed_one()) + fixed_one() * fixed_one() == (
            i as int + 1) * (fixed_one() * fixed_one())) by (nonlinear_arith);
            assert(i as int * (fixed_one() * fixed_one()) <= 0x100_0000 * (fixed_one()
                * fixed_one())) by (nonlinear_arith)
                requires
                    0 <= i as int <= 0x100_0000,
            ;
            assert(0 <= a@[i as int] as int * (b@[i as int] as int) <= fixed_one() * fixed_one()
                && 0 <= a@[i as int] as int * (a@[i as int] as int) <= fixed_one() * fixed_one()
                && 0 <= b@[i as int] as int * (b@[i as int] as int) <= fixed_one() * fixed_one())
                by (nonlinear_arith)
                requires
                    0 <= a@[i as int] as int <= fixed_one(),
                    0 <= b@[i as int] as int <= fixed_one(),
            ;
        }
        let av = a[i] as i128;
        let bv = b[i] as i128;
        dot = dot + av * bv;
        na = na + av * av;
        nb = nb + bv * bv;
        i += 1;
    }
    proof {
        assert(n * (fixed_one() * fixed_one()) <= 0x100_0000 * (fixed_one() * fixed_one())
            && 0x100_0000 * (fixed_one() * fixed_one()) == 0x1_0000_0000_0000_0000)
            by (nonlinear_arith)
            requires
                0 <= n <= 0x100_0000,
        ;
    }
    if na == 0 || nb == 0 {
        return 0;
    }
    let ra = crate::quant::isqrt128(na);
    let rb = crate::quant::isqrt128(nb);
    proof {
        assert(ra >= 1 && rb >= 1) by (nonlinear_arith)
            requires
                0 <= ra,
                0 <= rb,
                (na as int) < (ra as int + 1) * (ra as int + 1),
                (nb as int) < (rb as int + 1) * (rb as int + 1),
                na as int >= 1,
                nb as int >= 1,
        ;
        assert(ra as int <= 0x1_0000_0000 && rb as int <= 0x1_0000_0000) by (nonlinear_arith)
            requires
                0 <= ra,
                0 <= rb,
                ra as int * (ra as int) <= na as int,
                rb as int * (rb as int) <= nb as int,
                na as int <= 0x1_0000_0000_0000_0000,
                nb as int <= 0x1_0000_0000_0000_0000,
        ;
        assert(1 <= ra as int * (rb as int) <= 0x1_0000_0000_0000_0000) by (nonlinear_arith)
            requires
                1 <= ra as int <= 0x1_0000_0000,
                1 <= rb as int <= 0x1_0000_0000,
        ;
        assert(0 <= dot as int * fixed_one() <= 0x10_0000_0000_0000_0000_0000)
            by (nonlinear_arith)
            requires
                0 <= dot as int <= 0x1_0000_0000_0000_0000,
        ;
        lemma_div_pos_is_pos(dot as int * fixed_one(), ra as int * rb as int);
    }
    let denom: i128 = ra * rb;
    let q: i128 = dot * DEFAULT_FIXED_SCALE as i128 / denom;
    if q > DEFAULT_FIXED_SCALE as i128 {
        DEFAULT_FIXED_SCALE
    } else {
        q as Qx
    }
}

/// Score of a dream against a target: three fifths from the HSL distance
/// turned into a similarity, two fifths from the column-profile cosine
/// similarity.
pub open spec fn spec_evaluate(dream: ChromaticTensor, target: ChromaticTensor) -> int {
    let cells = dream.shape.spec_cell_count();
    let w = dream.shape.w as int;
    let hsl_score = spec_clamp_unit(fixed_one() - spec_hsl_distance(dream.rgb@, target.rgb@,
        cells));
    let pa = Seq::new(dream.shape.w as nat, |c: int| spec_profile_val(dream.rgb@, w, cells,
        c) as Qx);
    let pb = Seq::new(target.shape.w as nat, |c: int| spec_profile_val(target.rgb@, w, cells,
        c) as Qx);
    (3 * hsl_score + 2 * spec_similarity(pa, pb)) / 5
}

/// Evaluates the dream tensor against the target returning a scalar score.
pub fn evaluate_dream(dream: &ChromaticTensor, target: &ChromaticTensor) -> (score: Qx)
    requires
        dream.wf(),
        target.wf(),
        dream.shape == target.shape,
    ensures
        score as int == spec_evaluate(*dream, *target),
        unit_in_range(score as int),
{
    let hsl_delta = hsl_distance_field(dream, target);
    let hsl_score = clamp_unit(DEFAULT_FIXED_SCALE - hsl_delta);
    let profile_dream = frequency_profile(dream);
    let profile_target = frequency_profile(target);
    proof {
        assert(dream.shape.w * 1 <= dream.shape.h * dream.shape.w) by (nonlinear_arith)
            requires
                dream.shape.h >= 1,
                dream.shape.w >= 0,
        ;
    }
    let sim = spectral_similarity(&profile_dream, &profile_target);
    proof {
        let cells = dream.shape.spec_cell_count();
        let w = dream.shape.w as int;
        assert(profile_dream@ =~= Seq::new(dream.shape.w as nat, |c: int| spec_profile_val(
            dream.rgb@, w, cells, c) as Qx));
        assert(profile_target@ =~= Seq::new(target.shape.w as nat, |c: int| spec_profile_val(
            target.rgb@, w, cells, c) as Qx));
        lemma_div_pos_is_pos(3 * hsl_score as int + 2 * sim as int, 5);
        lemma_div_is_ordered(3 * hsl_score as int + 2 * sim as int, 5 * fixed_one(), 5);
    }
    (3 * hsl_score + 2 * sim) / 5
}


/// Seam-aware distance of a pool entry to a query tensor.
pub open spec fn dist_at(entries: Seq<DreamEntry>, q: ChromaticTensor, i: int) -> int {
    spec_hsl_distance(entries[i].tensor.rgb@, q.rgb@, q.shape.spec_cell_count())
}

/// Lexicographic order on (distance, pool index) pairs.
pub open spec fn pair_le(a: (Qx, usize), b: (Qx, usize)) -> bool {
    a.0 < b.0 || (a.0 == b.0 && a.1 <= b.1)
}

/// The distance/index pairs of a pool against a query.
pub open spec fn pairs_of(entries: Seq<DreamEntry>, q: ChromaticTensor) -> Seq<(Qx, usize)> {
    Seq::new(entries.len(), |i: int| (dist_at(entries, q, i) as Qx, i as usize))
}

/// The returned tensors are copies of pool entries, listed by ascending
/// distance to the query with ties broken by pool order, and no entry left
/// behind sits closer than a returned one.
pub open spec fn retrieval_selection(
    entries: Seq<DreamEntry>,
    q: ChromaticTensor,
    r: Seq<ChromaticTensor>,
    idxs: Seq<int>,
) -> bool {
    &&& idxs.len() == r.len()
    &&& (forall|i: int| 0 <= i < idxs.len() ==> 0 <= #[trigger] idxs[i] < entries.len())
    &&& (forall|i: int|
        0 <= i < idxs.len() ==> (#[trigger] r[i]).rgb@ == entries[idxs[i]].tensor.rgb@ && r[
            i
        ].shape == entries[idxs[i]].tensor.shape)
    &&& (forall|i: int, j: int|
        0 <= i < j < idxs.len() ==> dist_at(entries, q, #[trigger] idxs[i]) < dist_at(
            entries,
            q,
            #[trigger] idxs[j],
        ) || (dist_at(entries, q, idxs[i]) == dist_at(entries, q, idxs[j]) && idxs[i] < idxs[j]))
    &&& (forall|p: int, i: int|
        0 <= p < entries.len() && !idxs.contains(p) && 0 <= i < idxs.len() ==> dist_at(
            entries,
            q,
            #[trigger] idxs[i],
        ) < #[trigger] dist_at(entries, q, p) || (dist_at(entries, q, idxs[i]) == dist_at(
            entries,
            q,
            p,
        ) && idxs[i] < p))
}

/// Retrieves copies of the stored tensors most similar to the query,
/// ranked by ascending seam-aware HSL distance with ties broken by pool
/// order; at most `limit` of them.
pub fn retrieve_similar(pool: &SimpleDreamPool, query: &ChromaticTensor, limit: usize) -> (r:
    Vec<ChromaticTensor>)
    requires
        pool.inv(),
        query.wf(),
        forall|i: int|
            0 <= i < pool.spec_entries().len() ==> (#[trigger] pool.spec_entries()[i])
                .tensor.shape == query.shape,
    ensures
        r@.len() == if limit <= pool.spec_entries().len() {
            limit as int
        } else {
            pool.spec_entries().len() as int
        },
        exists|idxs: Seq<int>|
            #[trigger] retrieval_selection(pool.spec_entries(), *query, r@, idxs),
{
    let ghost entries_g = pool.spec_entries();
    let ghost orig = pairs_of(entries_g, *query);
    let n = pool.len();
    if n == 0 {
        let r: Vec<ChromaticTensor> = Vec::new();
        proof {
            let idxs = Seq::<int>::empty();
            assert(retrieval_selection(entries_g, *query, r@, idxs));
        }
        return r;
    }

    let entries = pool.entries();
    let mut scored: Vec<(Qx, usize)> = Vec::new();
    let mut i: usize = 0;
    while i < n
        invariant
            i <= n,
            pool.inv(),
            query.wf(),
            entries_g == pool.spec_entries(),
            orig == pairs_of(entries_g, *query),
            entries@ == entries_g,
            n == entries_g.len(),
            forall|t: int|
                0 <= t < entries_g.len() ==> (#[trigger] entries_g[t]).tensor.shape
                    == query.shape,
            scored@.len() == i,
            forall|t: int| 0 <= t < i ==> #[trigger] scored@[t] == orig[t],
            forall|t: int|
                0 <= t < i ==> 0 <= #[trigger] dist_at(entries_g, *query, t) <= 0x20_0000,
        decreases n - i,
    {
        let d = hsl_distance_field(&entries[i].tensor, query);
        scored.push((d, i));
        i += 1;
    }
    proof {
        assert(scored@ =~= orig);
    }

    // insertion sort by (distance, index)
    let mut a: usize = 1;
    while a < n
        invariant
            1 <= a <= n,
            scored@.len() == n,
            scored@.to_multiset() == orig.to_multiset(),
            forall|x: int, y: int|
                0 <= x < y < a ==> pair_le(#[trigger] scored@[x], #[trigger] scored@[y]),
        decreases n - a,
    {
        let mut b: usize = a;
        while b > 0
            invariant
                0 <= b <= a < n,
                scored@.len() == n,
                scored@.to_multiset() == orig.to_multiset(),
                forall|x: int, y: int|
                    0 <= x < y <= a && x != b && y != b ==> pair_le(
                        #[trigger] scored@[x],
                        #[trigger] scored@[y],
                    ),
                forall|y: int| b < y <= a ==> pair_le(#[trigger] scored@[b as int], scored@[y]),
            ensures
                0 <= b <= a < n,
                scored@.len() == n,
                scored@.to_multiset() == orig.to_multiset(),
                forall|x: int, y: int|
                    0 <= x < y <= a && x != b && y != b ==> pair_le(
                        #[trigger] scored@[x],
                        #[trigger] scored@[y],
                    ),
                forall|y: int| b < y <= a ==> pair_le(#[trigger] scored@[b as int], scored@[y]),
                b == 0 || pair_le(scored@[b as int - 1], scored@[b as int]),
            decreases b,
        {
            let prev = scored[b - 1];
            let cur = scored[b];
            if !(prev.0 > cur.0 || (prev.0 == cur.0 && prev.1 > cur.1)) {
                break;
            }
            let ghost before = scored@;
            scored.set(b - 1, cur);
            scored.set(b, prev);
            proof {
                assert(scored@ =~= before.update(b - 1, before[b as int]).update(
                    b as int,
                    before[b as int - 1],
                ));
                before.to_multiset_ensures();
                scored@.to_multiset_ensures();
                assert(scored@.to_multiset() =~= before.to_multiset()) by {
                    lemma_swap_multiset(before, scored@, b as int - 1, b as int);
                }
            }
            b -= 1;
        }
        proof {
            assert forall|x: int, y: int| 0 <= x < y <= a implies pair_le(
                #[trigger] scored@[x],
                #[trigger] scored@[y],
            ) by {
                if y == b as int && b > 0 {
                    assert(pair_le(scored@[b as int - 1], scored@[b as int]));
                    if x < b as int - 1 {
                        assert(pair_le(scored@[x], scored@[b as int - 1]));
                    }
                }
            }
        }
        a += 1;
    }
    let ghost srt = scored@;
    proof {
        lemma_sorted_pairs_wf(entries_g, *query, srt);
    }

    let m = if limit <= n {
        limit
    } else {
        n
    };
    let mut r: Vec<ChromaticTensor> = Vec::new();
    let mut t: usize = 0;
    while t < m
        invariant
            t <= m,
            m <= n,
            n == entries_g.len(),
            pool.inv(),
            entries@ == entries_g,
            scored@ == srt,
            srt.len() == n,
            forall|u: int| 0 <= u < n ==> (#[trigger] srt[u]).1 < n,
            r@.len() == t,
            forall|u: int|
                0 <= u < t ==> (#[trigger] r@[u]).rgb@ == entries_g[srt[u].1 as int].tensor.rgb@
                    && r@[u].shape == entries_g[srt[u].1 as int].tensor.shape,
        decreases m - t,
    {
        let idx = scored[t].1;
        let copy = entries[idx].tensor.duplicate();
        r.push(copy);
        t += 1;
    }

    proof {
        lemma_retrieval_from_sorted(entries_g, *query, srt, r@, m as int);
    }
    r
}

/// Every pair of a sorted permutation of the original pairs is one of the
/// original pairs, indexed by its own second component.
proof fn lemma_sorted_pairs_wf(entries: Seq<DreamEntry>, q: ChromaticTensor, srt: Seq<(Qx,
    usize)>)
    requires
        srt.to_multiset() == pairs_of(entries, q).to_multiset(),
        srt.len() == entries.len(),
        entries.len() <= usize::MAX,
    ensures
        forall|u: int|
            0 <= u < srt.len() ==> (#[trigger] srt[u]).1 < entries.len() && srt[u] == pairs_of(
                entries,
                q,
            )[srt[u].1 as int],
        srt.no_duplicates(),
{
    let orig = pairs_of(entries, q);
    orig.to_multiset_ensures();
    srt.to_multiset_ensures();
    assert(forall|x: int, y: int|
        0 <= x < y < orig.len() ==> #[trigger] orig[x] != #[trigger] orig[y]);
    orig.lemma_multiset_has_no_duplicates();
    srt.lemma_multiset_has_no_duplicates_conv();
    assert forall|u: int| 0 <= u < srt.len() implies (#[trigger] srt[u]).1 < entries.len()
        && srt[u] == orig[srt[u].1 as int] by {
        assert(srt.contains(srt[u]));
        assert(srt.to_multiset().count(srt[u]) > 0);
        assert(orig.contains(srt[u]));
        let v = choose|v: int| 0 <= v < orig.len() && orig[v] == srt[u];
        assert(orig[v].1 == v);
    }
}

/// A sorted permutation of the distance pairs, truncated to its first `m`
/// tensors, forms a valid retrieval selection.
#[verifier::rlimit(100)]
proof fn lemma_retrieval_from_sorted(
    entries: Seq<DreamEntry>,
    q: ChromaticTensor,
    srt: Seq<(Qx, usize)>,
    r: Seq<ChromaticTensor>,
    m: int,
)
    requires
        srt.to_multiset() == pairs_of(entries, q).to_multiset(),
        srt.len() == entries.len(),
        entries.len() <= usize::MAX,
        forall|p: int| 0 <= p < entries.len() ==> 0 <= #[trigger] dist_at(entries, q, p)
            <= 0x20_0000,
        forall|x: int, y: int|
            0 <= x < y < srt.len() ==> pair_le(#[trigger] srt[x], #[trigger] srt[y]),
        0 <= m <= srt.len(),
        r.len() == m,
        forall|u: int|
            0 <= u < m ==> (#[trigger] r[u]).rgb@ == entries[srt[u].1 as int].tensor.rgb@ && r[
                u
            ].shape == entries[srt[u].1 as int].tensor.shape,
    ensures
        retrieval_selection(entries, q, r, Seq::new(m as nat, |u: int| srt[u].1 as int)),
{
    let orig = pairs_of(entries, q);
    let idxs = Seq::new(m as nat, |u: int| srt[u].1 as int);
    lemma_sorted_pairs_wf(entries, q, srt);
    orig.to_multiset_ensures();
    srt.to_multiset_ensures();
    assert forall|i0: int, j0: int| 0 <= i0 < j0 < idxs.len() implies dist_at(
        entries,
        q,
        #[trigger] idxs[i0],
    ) < dist_at(entries, q, #[trigger] idxs[j0]) || (dist_at(entries, q, idxs[i0]) == dist_at(
        entries,
        q,
        idxs[j0],
    ) && idxs[i0] < idxs[j0]) by {
        assert(pair_le(srt[i0], srt[j0]));
        assert(srt[i0] != srt[j0]);
        assert(srt[i0] == orig[srt[i0].1 as int]);
        assert(srt[j0] == orig[srt[j0].1 as int]);
    }
    assert forall|p: int, i0: int|
        0 <= p < entries.len() && !idxs.contains(p) && 0 <= i0 < idxs.len() implies dist_at(
        entries,
        q,
        #[trigger] idxs[i0],
    ) < #[trigger] dist_at(entries, q, p) || (dist_at(entries, q, idxs[i0]) == dist_at(
        entries,
        q,
        p,
    ) && idxs[i0] < p) by {
        assert(orig[p] == ((dist_at(entries, q, p) as Qx, p as usize)));
        assert(orig.contains(orig[p]));
        assert(orig.to_multiset().count(orig[p]) > 0);
        assert(srt.contains(orig[p]));
        let tp = choose|tp: int| 0 <= tp < srt.len() && srt[tp] == orig[p];
        if tp < m {
            assert(idxs[tp] == p);
            assert(idxs.contains(p));
        }
        assert(tp >= m);
        assert(pair_le(srt[i0], srt[tp]));
        assert(srt[i0] != srt[tp]);
        assert(srt[i0] == orig[srt[i0].1 as int]);
    }
}

/// Swapping two positions keeps the multiset of elements.
proof fn lemma_swap_multiset(s1: Seq<(Qx, usize)>, s2: Seq<(Qx, usize)>, x: int, y: int)
    requires
        0 <= x < y < s1.len(),
        s2.len() == s1.len(),
        s2 == s1.update(x, s1[y]).update(y, s1[x]),
    ensures
        s1.to_multiset() =~= s2.to_multiset(),
{
    broadcast use vstd::multiset::group_multiset_axioms;

    let ghost sx = s1.update(x, s1[y]);
    s1.to_multiset_ensures();
    s2.to_multiset_ensures();
    lemma_update_multiset(s1, x, s1[y]);
    lemma_update_multiset(sx, y, s1[x]);
    assert(sx[x] == s1[y]);
    assert(sx[y] == s1[y]);
    assert(s1.to_multiset().remove(s1[x]).insert(s1[y]).remove(s1[y]).insert(s1[x]) =~= s1
        .to_multiset());
}

/// Updating one position replaces exactly that element in the multiset.
proof fn lemma_update_multiset(s: Seq<(Qx, usize)>, i: int, v: (Qx, usize))
    requires
        0 <= i < s.len(),
    ensures
        s.update(i, v).to_multiset() =~= s.to_multiset().remove(s[i]).insert(v),
    decreases s.len(),
{
    broadcast use vstd::multiset::group_multiset_axioms;

    s.to_multiset_ensures();
    s.update(i, v).to_multiset_ensures();
    if i == s.len() - 1 {
        assert(s.update(i, v) =~= s.drop_last().push(v));
        assert(s.drop_last().push(s[i]) =~= s);
        s.drop_last().to_multiset_ensures();
    } else {
        assert(s.update(i, v).drop_last() =~= s.drop_last().update(i, v));
        assert(s.update(i, v) =~= s.drop_last().update(i, v).push(s.last()));
        lemma_update_multiset(s.drop_last(), i, v);
        s.drop_last().to_multiset_ensures();
        s.drop_last().update(i, v).to_multiset_ensures();
        assert(s.drop_last().push(s.last()) =~= s);
        assert(s.to_multiset() =~= s.drop_last().to_multiset().insert(s.last()));
        assert(s.drop_last().to_multiset().remove(s[i]).insert(v).insert(s.last()) =~= s
            .to_multiset().remove(s[i]).insert(v));
    }
}


/// Base noise amplitude of the dream cycle.
pub const NOISE_BASE: Qx = 52_429;

/// Per-step increment of the cyclic noise ramp.
pub const NOISE_STEP: Qx = 20_972;

/// The first-minimum index lies inside the scanned prefix.
proof fn lemma_min_idx_bound(s: Seq<DreamEntry>, n: int)
    requires
        1 <= n,
    ensures
        0 <= spec_min_score_idx(s, n) < n,
    decreases n,
{
    if n > 1 {
        lemma_min_idx_bound(s, n - 1);
    }
}

/// Every field of a freshly generated, scored and stamped candidate,
/// pinned to the seed buffer it was generated from, its noise amplitude
/// and its epoch stamp.
#[verifier::opaque]
pub open spec fn candidate_matches(
    e: DreamEntry,
    target: ChromaticTensor,
    seed_rgb: Seq<Qx>,
    noise: int,
    epoch: int,
) -> bool {
    &&& e.wf()
    &&& e.tensor.shape == target.shape
    &&& e.tensor.rgb@.len() == 3 * target.shape.spec_cell_count()
    &&& (forall|k: int, ch: int|
        0 <= k < target.shape.spec_cell_count() && 0 <= ch < 3 ==> #[trigger] e.tensor.rgb@[3
            * k + ch] as int == spec_gen_val(seed_rgb, target.shape, noise, k, ch))
    &&& e.tensor.coh is Some
    &&& e.tensor.coh->0@.len() == target.shape.spec_cell_count()
    &&& (forall|k: int|
        0 <= k < target.shape.spec_cell_count() ==> #[trigger] e.tensor.coh->0@[k] as int
            == spec_coh_cell(e.tensor.rgb@, target.shape.spec_cell_count(), k))
    &&& e.epoch as int == epoch
    &&& e.score as int == spec_evaluate(e.tensor, target)
    &&& e.coherence as int == spec_coherence_metric(e.tensor)
}

/// Noise amplitude of cycle step `k`: the base plus the cyclic ramp.
pub open spec fn spec_cycle_noise(k: int) -> int {
    NOISE_BASE + NOISE_STEP * (k % 7)
}

/// Epoch stamp of cycle step `k`, saturating at the counter maximum.
pub open spec fn spec_cycle_epoch(cursor0: int, k: int) -> int {
    if cursor0 + k <= u32::MAX {
        cursor0 + k
    } else {
        u32::MAX as int
    }
}

/// The seed buffer cycle step `k` generates from: the target itself at
/// the first step, thereafter the current best-scoring entry, or the
/// target again while the pool is still empty.
pub open spec fn spec_cycle_seed(target: ChromaticTensor, entries: Seq<DreamEntry>, k: int)
    -> Seq<Qx> {
    if k == 0 || entries.len() == 0 {
        target.rgb@
    } else {
        entries[spec_best_score_idx(entries, entries.len() as int)].tensor.rgb@
    }
}

/// The dream cycle's trace: after `steps` steps the stored entries are
/// the fold of the admission rule over the per-step candidates, each
/// candidate pinned to the seed, noise amplitude and epoch stamp of its
/// step.
pub open spec fn spec_dream_cycle_rel(
    target: ChromaticTensor,
    entries0: Seq<DreamEntry>,
    cursor0: int,
    max: int,
    threshold: int,
    steps: int,
    fin: Seq<DreamEntry>,
) -> bool
    decreases steps,
{
    if steps <= 0 {
        fin == entries0
    } else {
        exists|mid: Seq<DreamEntry>, e: DreamEntry|
            {
                &&& spec_dream_cycle_rel(
                    target,
                    entries0,
                    cursor0,
                    max,
                    threshold,
                    steps - 1,
                    mid,
                )
                &&& #[trigger] candidate_matches(
                    e,
                    target,
                    spec_cycle_seed(target, mid, steps - 1),
                    spec_cycle_noise(steps - 1),
                    spec_cycle_epoch(cursor0, steps - 1),
                )
                &&& fin == spec_admit(mid, max, threshold, e)
            }
    }
}

/// One step of the dream cycle: generate from the seed, score against the
/// target, stamp with the epoch. The result is pinned field by field.
fn make_candidate(seed: &ChromaticTensor, target: &ChromaticTensor, epoch: u32, noise: Qx) -> (e:
    DreamEntry)
    requires
        seed.wf(),
        target.wf(),
        seed.shape == target.shape,
    ensures
        e.wf(),
        e.tensor.shape == target.shape,
        e.epoch == epoch,
        candidate_matches(e, *target, seed.rgb@, noise as int, epoch as int),
{
    let dream = generate_dream(seed, noise);
    let score = evaluate_dream(&dream, target);
    let e = DreamEntry::new(dream, epoch, score);
    proof {
        reveal(candidate_matches);
    }
    e
}

/// Executes a deterministic dream cycle: each step generates a candidate
/// from the current seed with a cyclically ramped noise amplitude, scores
/// it against the target, attempts admission, and re-seeds from the
/// current best-scoring entry. The final entries are pinned by the step
/// trace: the fold of the admission rule over the per-step candidates.
/// The pool's capacity and threshold stay fixed and its epoch counter
/// advances once per step, saturating at the counter maximum.
pub fn dream_cycle(target: &ChromaticTensor, pool: &mut SimpleDreamPool, epochs: u32)
    requires
        target.wf(),
        old(pool).inv(),
        forall|i: int|
            0 <= i < old(pool).spec_entries().len() ==> (#[trigger] old(pool).spec_entries()[
                i
            ]).tensor.shape == target.shape,
    ensures
        final(pool).inv(),
        final(pool).spec_max_size() == old(pool).spec_max_size(),
        final(pool).spec_threshold() == old(pool).spec_threshold(),
        final(pool).spec_cursor() == spec_cycle_epoch(old(pool).spec_cursor(), epochs as int),
        final(pool).spec_entries().len() >= old(pool).spec_entries().len(),
        spec_dream_cycle_rel(
            *target,
            old(pool).spec_entries(),
            old(pool).spec_cursor(),
            old(pool).spec_max_size(),
            old(pool).spec_threshold(),
            epochs as int,
            final(pool).spec_entries(),
        ),
        forall|i: int|
            0 <= i < final(pool).spec_entries().len() ==> (#[trigger] final(pool).spec_entries()[
                i
            ]).tensor.shape == target.shape,
{
    if epochs == 0 {
        return;
    }
    let mut seed = target.duplicate();
    let ghost entries0 = pool.spec_entries();
    let ghost cursor0 = pool.spec_cursor();
    let ghost max_g = pool.spec_max_size();
    let ghost thr_g = pool.spec_threshold();
    let mut step: u32 = 0;
    while step < epochs
        invariant
            step <= epochs,
            target.wf(),
            seed.wf(),
            seed.shape == target.shape,
            pool.inv(),
            entries0 == old(pool).spec_entries(),
            cursor0 == old(pool).spec_cursor(),
            max_g == old(pool).spec_max_size(),
            thr_g == old(pool).spec_threshold(),
            pool.spec_max_size() == max_g,
            pool.spec_threshold() == thr_g,
            pool.spec_cursor() == spec_cycle_epoch(cursor0, step as int),
            pool.spec_entries().len() >= entries0.len(),
            spec_dream_cycle_rel(
                *target,
                entries0,
                cursor0,
                max_g,
                thr_g,
                step as int,
                pool.spec_entries(),
            ),
            seed.rgb@ == spec_cycle_seed(*target, pool.spec_entries(), step as int),
            forall|i: int|
                0 <= i < pool.spec_entries().len() ==> (#[trigger] pool.spec_entries()[i])
                    .tensor.shape == target.shape,
        decreases epochs - step,
    {
        let noise = NOISE_BASE + NOISE_STEP * ((step % 7) as Qx);
        proof {
            assert(noise as int == spec_cycle_noise(step as int));
        }
        let epoch = pool.next_epoch();
        let entry = make_candidate(&seed, target, epoch, noise);
        let ghost prev = pool.spec_entries();
        let ghost entry_g = entry;
        add_dream_to_pool(pool, entry);
        proof {
            let cur = pool.spec_entries();
            assert forall|i: int| 0 <= i < cur.len() implies (#[trigger] cur[i]).tensor.shape
                == target.shape by {
                if entry_g.coherence >= pool.spec_threshold() {
                    if prev.len() < pool.spec_max_size() {
                        assert(cur == prev.push(entry_g));
                        if i < prev.len() {
                            assert(cur[i] == prev[i]);
                        } else {
                            assert(cur[i] == entry_g);
                        }
                    } else {
                        let mm = spec_min_score_idx(prev, prev.len() as int);
                        lemma_min_idx_bound(prev, prev.len() as int);
                        if prev[mm].score < entry_g.score {
                            assert(cur == prev.update(mm, entry_g));
                            if i == mm {
                                assert(cur[i] == entry_g);
                            } else {
                                assert(cur[i] == prev[i]);
                            }
                        } else {
                            assert(cur == prev);
                        }
                    }
                } else {
                    assert(cur == prev);
                }
            }
            assert(cur.len() >= prev.len()) by {
                if entry_g.coherence >= pool.spec_threshold() {
                    if prev.len() < pool.spec_max_size() {
                        assert(cur == prev.push(entry_g));
                    } else {
                        let mm = spec_min_score_idx(prev, prev.len() as int);
                        lemma_min_idx_bound(prev, prev.len() as int);
                        if prev[mm].score < entry_g.score {
                            assert(cur == prev.update(mm, entry_g));
                        } else {
                            assert(cur == prev);
                        }
                    }
                } else {
                    assert(cur == prev);
                }
            }
            // the step extends the trace, with the previous entries and
            // this candidate as witnesses
            assert(spec_dream_cycle_rel(*target, entries0, cursor0, max_g, thr_g, step as int
                + 1, cur)) by {
                let steps = step as int + 1;
                assert(spec_dream_cycle_rel(*target, entries0, cursor0, max_g, thr_g, steps
                    - 1, prev));
                assert(candidate_matches(entry_g, *target, spec_cycle_seed(*target, prev,
                    steps - 1), spec_cycle_noise(steps - 1), spec_cycle_epoch(cursor0, steps
                    - 1)));
                assert(cur == spec_admit(prev, max_g, thr_g, entry_g));
            }
        }
        match pool.best_entry_index() {
            Some(best) => {
                let entries = pool.entries();
                seed = entries[best].tensor.duplicate();
            },
            None => {
                proof {
                    // an empty pool after admission means the pool was
                    // empty before it too, so the seed is still the target
                    let cur = pool.spec_entries();
                    if prev.len() < pool.spec_max_size() && entry_g.coherence
                        >= pool.spec_threshold() {
                        assert(cur == prev.push(entry_g));
                    }
                    assert(prev.len() == 0);
                    assert(seed.rgb@ == target.rgb@);
                }
            },
        }
        step += 1;
    }
}

} // verus!

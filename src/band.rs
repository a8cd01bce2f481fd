use vstd::prelude::*;

use crate::grid::DepthAndColorMap;

verus! {

/// The smallest blur level, in tenths of a pixel, at which a band is blurred:
/// below one pixel the blur is skipped.
pub const MIN_BLURRED_LEVEL: u64 = 10;

/// A flush of the band being accumulated. The samples drawn before it, from
/// the end of the previous flush up to `end`, are composited as one layer,
/// blurred by `level` (in tenths of a pixel). `level` is `None` for the flush
/// that comes before any band has been opened.
#[derive(Clone, Copy, Debug, PartialEq, Eq, Structural)]
pub struct BandFlush {
    pub end: usize,
    pub level: Option<u64>,
}

/// The band accumulator: the blur level of the band now open, if any.
#[derive(Clone, Copy, Debug, PartialEq, Eq, Structural)]
pub struct BandAccumulator {
    pub current: Option<u64>,
}

/// The band that is open after the first `n` levels have been observed.
pub open spec fn open_band(levels: Seq<u64>, n: int) -> Option<u64> {
    if n <= 0 {
        None
    } else {
        Some(levels[n - 1])
    }
}

/// The flushes caused while the first `n` levels are observed: one each time
/// a level differs from the open band.
pub open spec fn observed_flushes(levels: Seq<u64>, n: int) -> Seq<BandFlush>
    decreases n,
{
    if n <= 0 {
        Seq::empty()
    } else {
        let before = observed_flushes(levels, n - 1);
        if open_band(levels, n - 1) == Some(levels[n - 1]) {
            before
        } else {
            before.push(BandFlush { end: n as usize, level: open_band(levels, n - 1) })
        }
    }
}

/// Every flush of a render over the given sequence of blur levels: those
/// caused by a change of level, then the final flush of the open band.
pub open spec fn band_flushes(levels: Seq<u64>) -> Seq<BandFlush> {
    observed_flushes(levels, levels.len() as int).push(
        BandFlush { end: levels.len() as usize, level: open_band(levels, levels.len() as int) },
    )
}

/// How many of the flushes close a band with a blur level.
pub open spec fn count_blurred(flushes: Seq<BandFlush>) -> nat
    decreases flushes.len(),
{
    if flushes.len() == 0 {
        0
    } else {
        count_blurred(flushes.drop_last()) + if flushes.last().level is Some {
            1nat
        } else {
            0nat
        }
    }
}

/// The number of maximal runs of equal levels among the first `n`.
pub open spec fn runs(levels: Seq<u64>, n: int) -> nat
    decreases n,
{
    if n <= 0 {
        0
    } else {
        runs(levels, n - 1) + if n == 1 || levels[n - 1] != levels[n - 2] {
            1nat
        } else {
            0nat
        }
    }
}

/// Equal levels stand next to each other: no level comes back after another
/// one has been seen.
pub open spec fn equal_levels_adjacent(levels: Seq<u64>) -> bool {
    forall|i: int, j: int, l: int|
        0 <= i <= j <= l < levels.len() && #[trigger] levels[i] == #[trigger] levels[l] ==> #[trigger] levels[j]
            == levels[i]
}

/// The blur level of each sample of the grid, read from a table indexed by
/// depth.
pub open spec fn sample_levels(map: DepthAndColorMap, table: Seq<u64>) -> Seq<u64> {
    map.values@.map_values(|p: crate::grid::DepthAndColorPx| table[p.d as int])
}

proof fn lemma_count_blurred_push(flushes: Seq<BandFlush>, f: BandFlush)
    ensures
        count_blurred(flushes.push(f)) == count_blurred(flushes) + if f.level is Some {
            1nat
        } else {
            0nat
        },
{
    assert(flushes.push(f).drop_last() =~= flushes);
}

proof fn lemma_observed_flushes_count(levels: Seq<u64>, n: int)
    requires
        0 <= n <= levels.len(),
    ensures
        count_blurred(observed_flushes(levels, n)) + (if n > 0 {
            1nat
        } else {
            0nat
        }) == runs(levels, n),
    decreases n,
{
    if n > 0 {
        lemma_observed_flushes_count(levels, n - 1);
        let before = observed_flushes(levels, n - 1);
        let f = BandFlush { end: n as usize, level: open_band(levels, n - 1) };
        lemma_count_blurred_push(before, f);
    }
}

proof fn lemma_runs_count_distinct(levels: Seq<u64>, n: int)
    requires
        0 <= n <= levels.len(),
        equal_levels_adjacent(levels),
    ensures
        runs(levels, n) == levels.take(n).to_set().len(),
        levels.take(n).to_set().finite(),
    decreases n,
{
    if n == 0 {
        assert(levels.take(0).to_set() =~= Set::empty());
    } else {
        lemma_runs_count_distinct(levels, n - 1);
        let prev = levels.take(n - 1).to_set();
        let v = levels[n - 1];
        assert(levels.take(n).to_set() =~= prev.insert(v)) by {
            assert(levels.take(n) =~= levels.take(n - 1).push(v));
            assert forall|a: u64| levels.take(n).to_set().contains(a) <==> prev.insert(v).contains(a) by {
                if levels.take(n).contains(a) && a != v {
                    let m = choose|m: int| 0 <= m < n && #[trigger] levels.take(n)[m] == a;
                    assert(levels.take(n - 1)[m] == a);
                }
                if prev.contains(a) {
                    let m = choose|m: int| 0 <= m < n - 1 && #[trigger] levels.take(n - 1)[m] == a;
                    assert(levels.take(n)[m] == a);
                }
                if a == v {
                    assert(levels.take(n)[n - 1] == v);
                }
            }
        }
        if n >= 2 && v == levels[n - 2] {
            assert(levels.take(n - 1)[n - 2] == v);
            assert(prev.contains(v));
        } else {
            if prev.contains(v) {
                let m = choose|m: int| 0 <= m < n - 1 && #[trigger] levels.take(n - 1)[m] == v;
                assert(levels[m] == levels[n - 1]);
                assert(levels[n - 2] == levels[m]);
            }
        }
    }
}

/// Over a sequence of blur levels in which equal levels stand together, a
/// render blurs exactly one band per distinct level: the Gaussian blur step
/// runs as many times as there are levels, not once per sample.
pub proof fn lemma_one_blur_per_level(levels: Seq<u64>)
    requires
        equal_levels_adjacent(levels),
    ensures
        count_blurred(band_flushes(levels)) == levels.to_set().len(),
{
    let n = levels.len() as int;
    lemma_observed_flushes_count(levels, n);
    lemma_runs_count_distinct(levels, n);
    lemma_count_blurred_push(
        observed_flushes(levels, n),
        BandFlush { end: n as usize, level: open_band(levels, n) },
    );
    assert(levels.take(n) =~= levels);
}

/// A grid whose distinct depths get distinct blur levels is blurred once per
/// depth value present in it.
pub proof fn lemma_one_blur_per_depth(map: DepthAndColorMap, table: Seq<u64>)
    requires
        map.wf(),
        table.len() == 256,
        forall|j1: int, j2: int|
            0 <= j1 < map.values@.len() && 0 <= j2 < map.values@.len() && table[map.values@[j1].d as int]
                == table[map.values@[j2].d as int] ==> (#[trigger] map.values@[j1]).d == (
            #[trigger] map.values@[j2]).d,
    ensures
        count_blurred(band_flushes(sample_levels(map, table))) == sample_levels(
            map,
            table,
        ).to_set().len(),
{
    let levels = sample_levels(map, table);
    assert forall|i: int, j: int, l: int|
        0 <= i <= j <= l < levels.len() && #[trigger] levels[i] == #[trigger] levels[l] implies #[trigger] levels[j]
            == levels[i] by {
        assert(map.values@[i].d == map.values@[l].d);
        assert(map.values@[i].d <= map.values@[j].d);
        assert(map.values@[j].d <= map.values@[l].d);
    }
    lemma_one_blur_per_level(levels);
}

proof fn lemma_observed_flush_ends(levels: Seq<u64>, n: int)
    requires
        0 <= n <= levels.len(),
        levels.len() <= usize::MAX,
    ensures
        forall|m: int|
            0 <= m < observed_flushes(levels, n).len() ==> (#[trigger] observed_flushes(
                levels,
                n,
            )[m]).end <= n,
        forall|m1: int, m2: int|
            0 <= m1 <= m2 < observed_flushes(levels, n).len() ==> (#[trigger] observed_flushes(
                levels,
                n,
            )[m1]).end <= (#[trigger] observed_flushes(levels, n)[m2]).end,
    decreases n,
{
    if n > 0 {
        lemma_observed_flush_ends(levels, n - 1);
        let before = observed_flushes(levels, n - 1);
        let f = BandFlush { end: n as usize, level: open_band(levels, n - 1) };
        assert(f.end == n);
        assert forall|m: int| 0 <= m < before.len() implies before.push(f)[m] == before[m] by {}
    }
}

/// No sample is left out of the render: the flushes come in order of their
/// ends, and the last one closes the band after the last sample.
pub proof fn lemma_every_sample_flushed(levels: Seq<u64>)
    requires
        levels.len() <= usize::MAX,
    ensures
        band_flushes(levels).len() >= 1,
        band_flushes(levels).last().end == levels.len(),
        forall|m1: int, m2: int|
            0 <= m1 <= m2 < band_flushes(levels).len() ==> (#[trigger] band_flushes(levels)[m1]).end
                <= (#[trigger] band_flushes(levels)[m2]).end,
{
    let n = levels.len() as int;
    lemma_observed_flush_ends(levels, n);
    let o = observed_flushes(levels, n);
    assert forall|m1: int, m2: int| 0 <= m1 <= m2 < band_flushes(levels).len() implies (
    #[trigger] band_flushes(levels)[m1]).end <= (#[trigger] band_flushes(levels)[m2]).end by {
        if m2 == o.len() {
            if m1 < o.len() {
                assert(o[m1].end <= n);
            }
        } else {
            assert(band_flushes(levels)[m1] == o[m1]);
            assert(band_flushes(levels)[m2] == o[m2]);
        }
    }
}

impl BandAccumulator {
    /// An accumulator before any sample: no band is open.
    pub fn new() -> (r: BandAccumulator)
        ensures
            r.current is None,
    {
        BandAccumulator { current: None }
    }

    /// Takes the blur level of the next sample, which has already been drawn.
    /// When it differs from the open band, that band is flushed (its level is
    /// returned) and a band of the new level is opened.
    pub fn observe(&mut self, level: u64) -> (flush: Option<Option<u64>>)
        ensures
            final(self).current == Some(level),
            flush == if old(self).current == Some(level) {
                None::<Option<u64>>
            } else {
                Some(old(self).current)
            },
    {
        let prev = self.current;
        let same = match prev {
            Some(c) => c == level,
            None => false,
        };
        self.current = Some(level);
        if same {
            None
        } else {
            Some(prev)
        }
    }

    /// The level of the band to flush once the samples are exhausted.
    pub fn finish(&self) -> (level: Option<u64>)
        ensures
            level == self.current,
    {
        self.current
    }
}

/// Whether a band of this level gets a Gaussian blur: only a band with a level
/// of at least one pixel does.
pub fn blur_applies(level: Option<u64>) -> (r: bool)
    ensures
        r == (level is Some && level->0 >= MIN_BLURRED_LEVEL),
{
    match level {
        Some(l) => l >= MIN_BLURRED_LEVEL,
        None => false,
    }
}

/// The blur level of each sample of the grid, in stored order, read from a
/// table that gives the level of each depth value.
pub fn levels_of(map: &DepthAndColorMap, table: &Vec<u64>) -> (r: Vec<u64>)
    requires
        table@.len() == 256,
    ensures
        r@ == sample_levels(*map, table@),
{
    let mut r: Vec<u64> = Vec::new();
    let mut j: usize = 0;
    while j < map.values.len()
        invariant
            j <= map.values@.len(),
            table@.len() == 256,
            r@ =~= sample_levels(*map, table@).take(j as int),
        decreases map.values@.len() - j,
    {
        r.push(table[map.values[j].d as usize]);
        j += 1;
        assert(r@ =~= sample_levels(*map, table@).take(j as int));
    }
    assert(sample_levels(*map, table@).take(j as int) =~= sample_levels(*map, table@));
    r
}

/// Runs the accumulator over a sequence of blur levels and lists every flush
/// it makes, the final one included.
pub fn band_flushes_of(levels: &Vec<u64>) -> (r: Vec<BandFlush>)
    ensures
        r@ == band_flushes(levels@),
{
    let mut acc = BandAccumulator::new();
    let mut r: Vec<BandFlush> = Vec::new();
    let mut i: usize = 0;
    while i < levels.len()
        invariant
            i <= levels@.len(),
            acc.current == open_band(levels@, i as int),
            r@ == observed_flushes(levels@, i as int),
        decreases levels@.len() - i,
    {
        let flush = acc.observe(levels[i]);
        i += 1;
        match flush {
            Some(level) => r.push(BandFlush { end: i, level }),
            None => {},
        }
    }
    r.push(BandFlush { end: i, level: acc.finish() });
    r
}

} // verus!

//! A directory of regions: which entries are region files, and what the
//! results of its regions add up to.

use crate::error::ProcessError;
use crate::stats::{ChunkStats, RegionStats, Tally};
use vstd::prelude::*;
use vstd::string::*;

verus! {

/// Whether `c` is the letter `lower`, in either case. `lower` is a small
/// ASCII letter.
pub open spec fn is_letter(c: char, lower: char) -> bool {
    c == lower || c as u32 + 32 == lower as u32
}

/// Whether `extension` is "mca", whatever the case of its letters.
pub open spec fn is_region_extension(extension: Seq<char>) -> bool {
    &&& extension.len() == 3
    &&& is_letter(extension[0], 'm')
    &&& is_letter(extension[1], 'c')
    &&& is_letter(extension[2], 'a')
}

fn letter_matches(c: char, lower: char) -> (same: bool)
    requires
        'a' <= lower <= 'z',
    ensures
        same == is_letter(c, lower),
{
    c == lower || (c as u32) + 32 == lower as u32
}

/// Whether a file with the extension `extension` is taken for a region
/// file.
pub fn has_region_extension(extension: &str) -> (region: bool)
    ensures
        region == is_region_extension(extension@),
{
    if extension.unicode_len() != 3 {
        return false;
    }
    letter_matches(extension.get_char(0), 'm') && letter_matches(extension.get_char(1), 'c')
        && letter_matches(extension.get_char(2), 'a')
}

/// What one region adds to the statistics of a run: its own statistics if
/// it was processed, nothing if it failed.
pub open spec fn contribution(result: Result<RegionStats, ProcessError>) -> Tally {
    match result {
        Ok(stats) => stats@,
        Err(_) => Tally::zero(),
    }
}

/// The statistics of the regions that were processed, added up.
pub open spec fn total_of(results: Seq<Result<RegionStats, ProcessError>>) -> Tally
    decreases results.len(),
{
    if results.len() == 0 {
        Tally::zero()
    } else {
        total_of(results.drop_last()).plus(contribution(results.last()))
    }
}

/// The number of regions that failed.
pub open spec fn failures_of(results: Seq<Result<RegionStats, ProcessError>>) -> nat
    decreases results.len(),
{
    if results.len() == 0 {
        0
    } else if results.last() is Err {
        failures_of(results.drop_last()) + 1
    } else {
        failures_of(results.drop_last())
    }
}

/// What a run over a directory comes to.
#[derive(Debug, Clone, Copy, PartialEq, Eq, Structural)]
pub struct RunSummary {
    /// The statistics of the regions that were processed.
    pub stats: RegionStats,
    /// The number of regions that failed and are left out of the statistics.
    pub failed: usize,
}

/// The totals grow with every result, and no more results fail than there
/// are.
pub proof fn lemma_totals_grow(results: Seq<Result<RegionStats, ProcessError>>, upto: int)
    requires
        0 <= upto <= results.len(),
    ensures
        total_of(results.take(upto)).regions <= total_of(results).regions,
        total_of(results.take(upto)).deleted <= total_of(results).deleted,
        total_of(results.take(upto)).chunks <= total_of(results).chunks,
        total_of(results.take(upto)).inhabited <= total_of(results).inhabited,
        failures_of(results.take(upto)) <= upto,
    decreases results.len() - upto,
{
    if upto < results.len() {
        lemma_totals_grow(results, upto + 1);
        assert(results.take(upto + 1).drop_last() =~= results.take(upto));
        lemma_failures_bounded(results.take(upto));
    } else {
        assert(results.take(upto) =~= results);
        lemma_failures_bounded(results);
    }
}

/// No more results fail than there are.
pub proof fn lemma_failures_bounded(results: Seq<Result<RegionStats, ProcessError>>)
    ensures
        failures_of(results) <= results.len(),
    decreases results.len(),
{
    if results.len() > 0 {
        lemma_failures_bounded(results.drop_last());
    }
}

/// Adds up the statistics of the regions that were processed and counts
/// those that failed. The totals must fit the counters.
pub fn summarize(results: &Vec<Result<RegionStats, ProcessError>>) -> (summary: RunSummary)
    requires
        total_of(results@).fits(),
    ensures
        summary.stats@ == total_of(results@),
        summary.failed == failures_of(results@),
{
    let mut total_stats = RegionStats::default();
    let mut failed: usize = 0;
    let mut i: usize = 0;
    while i < results.len()
        invariant
            i <= results.len(),
            total_of(results@).fits(),
            total_stats@ == total_of(results@.take(i as int)),
            failed == failures_of(results@.take(i as int)),
            failed <= i,
        decreases results.len() - i,
    {
        proof {
            lemma_totals_grow(results@, i + 1);
            assert(results@.take(i + 1).drop_last() =~= results@.take(i as int));
        }
        match &results[i] {
            Ok(stats) => {
                total_stats.merge(*stats);
            },
            Err(_) => {
                failed = failed + 1;
            },
        }
        i = i + 1;
    }
    proof {
        assert(results@.take(i as int) =~= results@);
    }
    RunSummary { stats: total_stats, failed }
}

/// Adds up the statistics of the regions that were processed and counts
/// those that failed, where the totals fit the counters; where they do not,
/// there is no summary.
pub fn try_summarize(results: &Vec<Result<RegionStats, ProcessError>>) -> (summary: Option<
    RunSummary,
>)
    ensures
        summary is Some <==> total_of(results@).fits(),
        summary matches Some(sum) ==> sum.stats@ == total_of(results@) && sum.failed
            == failures_of(results@),
{
    let mut total_stats = RegionStats::default();
    let mut failed: usize = 0;
    let mut i: usize = 0;
    while i < results.len()
        invariant
            i <= results.len(),
            total_stats@ == total_of(results@.take(i as int)),
            failed == failures_of(results@.take(i as int)),
            failed <= i,
        decreases results.len() - i,
    {
        proof {
            lemma_totals_grow(results@, i + 1);
            assert(results@.take(i + 1).drop_last() =~= results@.take(i as int));
        }
        match &results[i] {
            Ok(stats) => {
                let regions = total_stats.total_regions.checked_add(stats.total_regions);
                let deleted = total_stats.deleted_regions.checked_add(stats.deleted_regions);
                let chunks = total_stats.chunk_stats.total_chunks.checked_add(
                    stats.chunk_stats.total_chunks,
                );
                let inhabited = total_stats.chunk_stats.inhabited_chunks.checked_add(
                    stats.chunk_stats.inhabited_chunks,
                );
                if regions.is_none() || deleted.is_none() || chunks.is_none()
                    || inhabited.is_none() {
                    return None;
                }
                total_stats = RegionStats {
                    total_regions: regions.unwrap(),
                    deleted_regions: deleted.unwrap(),
                    chunk_stats: ChunkStats {
                        total_chunks: chunks.unwrap(),
                        inhabited_chunks: inhabited.unwrap(),
                    },
                };
            },
            Err(_) => {
                failed = failed + 1;
            },
        }
        i = i + 1;
    }
    proof {
        assert(results@.take(i as int) =~= results@);
    }
    Some(RunSummary { stats: total_stats, failed })
}

/// Taking a result out of a run takes its contribution out of the totals.
pub proof fn lemma_total_without(results: Seq<Result<RegionStats, ProcessError>>, i: int)
    requires
        0 <= i < results.len(),
    ensures
        total_of(results) == total_of(results.remove(i)).plus(contribution(results[i])),
        failures_of(results) == failures_of(results.remove(i)) + if results[i] is Err {
            1nat
        } else {
            0nat
        },
    decreases results.len(),
{
    if i == results.len() - 1 {
        assert(results.remove(i) =~= results.drop_last());
    } else {
        lemma_total_without(results.drop_last(), i);
        assert(results.remove(i).drop_last() =~= results.drop_last().remove(i));
        assert(results.remove(i).last() == results.last());
    }
}

/// The order in which the results of the regions are merged does not
/// matter: two runs with the same results, in whatever order, come to the
/// same totals and the same number of failures.
pub proof fn lemma_merge_order_irrelevant(
    first: Seq<Result<RegionStats, ProcessError>>,
    second: Seq<Result<RegionStats, ProcessError>>,
)
    requires
        first.to_multiset() == second.to_multiset(),
    ensures
        total_of(first) == total_of(second),
        failures_of(first) == failures_of(second),
    decreases first.len(),
{
    first.to_multiset_ensures();
    second.to_multiset_ensures();
    if first.len() == 0 {
        assert(second.len() == 0);
    } else {
        let last = first.last();
        assert(first.contains(last));
        assert(first.to_multiset().count(last) > 0);
        assert(second.to_multiset().count(last) > 0);
        assert(second.contains(last));
        let i = choose|i: int| 0 <= i < second.len() && second[i] == last;
        assert(first.remove(first.len() - 1) =~= first.drop_last());
        lemma_total_without(second, i);
        lemma_merge_order_irrelevant(first.drop_last(), second.remove(i));
    }
}

} // verus!

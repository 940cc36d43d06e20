//! Counters gathered while regions are processed, and how they add up.

use vstd::prelude::*;

verus! {

/// Chunk counters of one region, or of several regions added up.
#[derive(Debug, Clone, Copy, PartialEq, Eq, Structural)]
pub struct ChunkStats {
    /// Chunks that hold data.
    pub total_chunks: u32,
    /// Chunks whose activity value lies above the threshold.
    pub inhabited_chunks: u32,
}

/// Region counters, with the chunk counters of the same regions.
#[derive(Debug, Clone, Copy, PartialEq, Eq, Structural)]
pub struct RegionStats {
    /// Regions that were processed.
    pub total_regions: u32,
    /// Regions that held chunks, none of them inhabited.
    pub deleted_regions: u32,
    /// Chunk counters over the same regions.
    pub chunk_stats: ChunkStats,
}

/// The counters as unbounded numbers.
pub struct Tally {
    pub regions: nat,
    pub deleted: nat,
    pub chunks: nat,
    pub inhabited: nat,
}

impl Tally {
    /// The tally in which nothing has been counted.
    pub open spec fn zero() -> Tally {
        Tally { regions: 0, deleted: 0, chunks: 0, inhabited: 0 }
    }

    /// Counter by counter sum.
    pub open spec fn plus(self, other: Tally) -> Tally {
        Tally {
            regions: self.regions + other.regions,
            deleted: self.deleted + other.deleted,
            chunks: self.chunks + other.chunks,
            inhabited: self.inhabited + other.inhabited,
        }
    }

    /// Whether every counter fits the 32 bits that the statistics hold.
    pub open spec fn fits(self) -> bool {
        &&& self.regions <= u32::MAX
        &&& self.deleted <= u32::MAX
        &&& self.chunks <= u32::MAX
        &&& self.inhabited <= u32::MAX
    }
}

impl View for ChunkStats {
    type V = Tally;

    open spec fn view(&self) -> Tally {
        Tally {
            regions: 0,
            deleted: 0,
            chunks: self.total_chunks as nat,
            inhabited: self.inhabited_chunks as nat,
        }
    }
}

impl View for RegionStats {
    type V = Tally;

    open spec fn view(&self) -> Tally {
        Tally {
            regions: self.total_regions as nat,
            deleted: self.deleted_regions as nat,
            chunks: self.chunk_stats.total_chunks as nat,
            inhabited: self.chunk_stats.inhabited_chunks as nat,
        }
    }
}

impl Default for ChunkStats {
    fn default() -> (stats: ChunkStats)
        ensures
            stats@ == Tally::zero(),
    {
        ChunkStats { total_chunks: 0, inhabited_chunks: 0 }
    }
}

impl Default for RegionStats {
    fn default() -> (stats: RegionStats)
        ensures
            stats@ == Tally::zero(),
    {
        RegionStats {
            total_regions: 0,
            deleted_regions: 0,
            chunk_stats: ChunkStats { total_chunks: 0, inhabited_chunks: 0 },
        }
    }
}

impl ChunkStats {
    /// Adds the counters of `other` to these.
    pub fn merge(&mut self, other: ChunkStats)
        requires
            old(self)@.plus(other@).fits(),
        ensures
            final(self)@ == old(self)@.plus(other@),
    {
        self.total_chunks = self.total_chunks + other.total_chunks;
        self.inhabited_chunks = self.inhabited_chunks + other.inhabited_chunks;
    }
}

impl RegionStats {
    /// Adds the counters of `other` to these.
    pub fn merge(&mut self, other: RegionStats)
        requires
            old(self)@.plus(other@).fits(),
        ensures
            final(self)@ == old(self)@.plus(other@),
    {
        self.total_regions = self.total_regions + other.total_regions;
        self.deleted_regions = self.deleted_regions + other.deleted_regions;
        self.chunk_stats.merge(other.chunk_stats);
    }
}

/// Adding tallies is commutative and associative, and the empty tally
/// changes nothing.
pub proof fn lemma_plus_laws(a: Tally, b: Tally, c: Tally)
    ensures
        a.plus(b) == b.plus(a),
        a.plus(b).plus(c) == a.plus(b.plus(c)),
        a.plus(Tally::zero()) == a,
        Tally::zero().plus(a) == a,
{
}

} // verus!

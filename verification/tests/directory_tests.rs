use rori::directory::{has_region_extension, summarize, RunSummary};
use rori::stats::{ChunkStats, RegionStats};
use rori::ProcessError;

fn stats(regions: u32, deleted: u32, total: u32, inhabited: u32) -> RegionStats {
    RegionStats {
        total_regions: regions,
        deleted_regions: deleted,
        chunk_stats: ChunkStats { total_chunks: total, inhabited_chunks: inhabited },
    }
}

fn failure() -> Result<RegionStats, ProcessError> {
    Err(ProcessError::RegionError("broken".to_string()))
}

#[test]
fn region_extension_ignores_case() {
    for ext in ["mca", "MCA", "Mca", "mCa", "mcA", "MCa", "mCA", "McA"] {
        assert!(has_region_extension(ext), "{}", ext);
    }
}

#[test]
fn other_extensions_are_no_region_files() {
    for ext in ["", "m", "mc", "mcaa", "mcr", "mcb", "dat", "ncb", "mca ", " mca", "m\u{e7}a", "-#A"] {
        assert!(!has_region_extension(ext), "{}", ext);
    }
}

#[test]
fn default_statistics_are_zero() {
    assert_eq!(ChunkStats::default(), ChunkStats { total_chunks: 0, inhabited_chunks: 0 });
    assert_eq!(RegionStats::default(), stats(0, 0, 0, 0));
}

#[test]
fn chunk_statistics_merge_by_sum() {
    let mut a = ChunkStats { total_chunks: 10, inhabited_chunks: 4 };
    a.merge(ChunkStats { total_chunks: 5, inhabited_chunks: 1 });
    assert_eq!(a, ChunkStats { total_chunks: 15, inhabited_chunks: 5 });
    a.merge(ChunkStats::default());
    assert_eq!(a, ChunkStats { total_chunks: 15, inhabited_chunks: 5 });
    let mut limit = ChunkStats { total_chunks: u32::MAX - 1, inhabited_chunks: 0 };
    limit.merge(ChunkStats { total_chunks: 1, inhabited_chunks: 0 });
    assert_eq!(limit.total_chunks, u32::MAX);
}

#[test]
fn region_statistics_merge_by_sum() {
    let mut a = stats(1, 0, 1024, 1000);
    a.merge(stats(1, 1, 7, 0));
    assert_eq!(a, stats(2, 1, 1031, 1000));
    a.merge(stats(3, 2, 1, 1));
    assert_eq!(a, stats(5, 3, 1032, 1001));
}

#[test]
fn merge_is_associative_and_commutative() {
    let a = stats(1, 0, 10, 3);
    let b = stats(1, 1, 20, 0);
    let c = stats(2, 0, 512, 12);
    let mut left = a;
    left.merge(b);
    left.merge(c);
    let mut inner = b;
    inner.merge(c);
    let mut right = a;
    right.merge(inner);
    assert_eq!(left, right);
    let mut ab = a;
    ab.merge(b);
    let mut ba = b;
    ba.merge(a);
    assert_eq!(ab, ba);
}

#[test]
fn summary_adds_up_what_succeeded() {
    let results = vec![Ok(stats(1, 0, 100, 40)), failure(), Ok(stats(1, 1, 3, 0)), failure()];
    let summary = summarize(&results);
    assert_eq!(summary, RunSummary { stats: stats(2, 1, 103, 40), failed: 2 });
}

#[test]
fn summary_of_nothing_is_zero() {
    let summary = summarize(&Vec::new());
    assert_eq!(summary, RunSummary { stats: stats(0, 0, 0, 0), failed: 0 });
    let summary = summarize(&vec![failure()]);
    assert_eq!(summary, RunSummary { stats: stats(0, 0, 0, 0), failed: 1 });
}

#[test]
fn summary_does_not_depend_on_the_order() {
    let items = [stats(1, 0, 100, 40), stats(1, 1, 3, 0), stats(1, 0, 1024, 1024), stats(1, 0, 0, 0)];
    let orders: [[usize; 5]; 6] = [
        [0, 1, 2, 3, 4],
        [4, 3, 2, 1, 0],
        [2, 0, 4, 1, 3],
        [1, 4, 0, 3, 2],
        [3, 2, 1, 4, 0],
        [4, 0, 3, 1, 2],
    ];
    let mut seen: Vec<RunSummary> = Vec::new();
    for order in orders {
        let mut results = Vec::new();
        for i in order {
            if i == 4 {
                results.push(failure());
            } else {
                results.push(Ok(items[i]));
            }
        }
        seen.push(summarize(&results));
    }
    for summary in &seen {
        assert_eq!(*summary, RunSummary { stats: stats(4, 1, 1127, 1064), failed: 1 });
    }
}

#[test]
fn summary_reaches_the_limit_of_the_counters() {
    let results = vec![Ok(stats(u32::MAX - 1, 0, u32::MAX, 0)), Ok(stats(1, 0, 0, u32::MAX))];
    let summary = summarize(&results);
    assert_eq!(summary.stats, stats(u32::MAX, 0, u32::MAX, u32::MAX));
}

#[test]
fn checked_summary_adds_up_or_gives_up() {
    let results = vec![Ok(stats(1, 0, 100, 40)), failure(), Ok(stats(1, 1, 3, 0)), failure()];
    assert_eq!(
        rori::directory::try_summarize(&results),
        Some(RunSummary { stats: stats(2, 1, 103, 40), failed: 2 })
    );
    assert_eq!(
        rori::directory::try_summarize(&Vec::new()),
        Some(RunSummary { stats: stats(0, 0, 0, 0), failed: 0 })
    );
    let limit = vec![Ok(stats(u32::MAX - 1, 0, u32::MAX, 0)), Ok(stats(1, 0, 0, u32::MAX))];
    assert_eq!(
        rori::directory::try_summarize(&limit),
        Some(RunSummary { stats: stats(u32::MAX, 0, u32::MAX, u32::MAX), failed: 0 })
    );
    for over in [stats(1, 0, 0, 0), stats(0, 1, 0, 0), stats(0, 0, 1, 0), stats(0, 0, 0, 1)] {
        let results = vec![
            Ok(stats(u32::MAX, u32::MAX, u32::MAX, u32::MAX)),
            failure(),
            Ok(over),
            Ok(stats(0, 0, 0, 0)),
        ];
        assert_eq!(rori::directory::try_summarize(&results), None);
    }
}

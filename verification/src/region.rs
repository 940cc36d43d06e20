//! One region: which of its chunks stay, what is counted, and what is to
//! become of its file.

use crate::container::{
    chunk_fits, encoded_region, entry_of, entry_sound, entry_soundness, holds_table, new_region,
    open_region, read_region_chunk, region_chunks, region_into_bytes, region_is_packed,
    region_source, write_region_chunk, MAX_CHUNK_BYTES,
};
use crate::error::ProcessError;
use crate::grammar::{document_scan, Fault};
use crate::parser::{chunk_failure, process_chunk};
use crate::stats::{ChunkStats, RegionStats, Tally};
use crate::text::{decimal, decimal_string};
use fastanvil::Region;
use std::io::Cursor;
use vstd::prelude::*;
use vstd::string::*;

verus! {

/// The number of cells of a region: 32 by 32.
pub const REGION_CELLS: usize = 1024;

/// What becomes of a chunk.
#[derive(Debug, Clone, Copy, PartialEq, Eq, Structural)]
pub enum Verdict {
    /// The chunk has been lived in for longer than the threshold.
    Keep,
    /// The chunk has no activity value, or one that is not above the
    /// threshold.
    Drop,
}

/// The verdict on a chunk with the activity value `value`.
pub open spec fn verdict_of(value: Option<i64>, threshold: u32) -> Verdict {
    match value {
        Some(v) => if v > threshold {
            Verdict::Keep
        } else {
            Verdict::Drop
        },
        None => Verdict::Drop,
    }
}

/// Decides whether a chunk stays. A chunk whose document cannot be scanned
/// gets no verdict but an error.
pub fn classify(chunk_data: &[u8], threshold: u32) -> (r: Result<Verdict, ProcessError>)
    ensures
        match document_scan(chunk_data@) {
            Ok(value) => r matches Ok(verdict) && verdict == verdict_of(value, threshold),
            Err(fault) => r matches Err(ProcessError::ChunkError(text)) && chunk_failure(
                text@,
                fault,
            ),
        },
{
    match process_chunk(chunk_data) {
        Ok(Some(value)) => if value > threshold as i64 {
            Ok(Verdict::Keep)
        } else {
            Ok(Verdict::Drop)
        },
        Ok(None) => Ok(Verdict::Drop),
        Err(e) => Err(e),
    }
}

/// What the cells of a region hold, by their coordinates: the bytes of a
/// chunk, or `None` for what the container cannot read. An empty cell is no
/// key.
pub type Grid = Map<(int, int), Option<Seq<u8>>>;

/// The cell that is visited as number `index` when a region is walked.
pub open spec fn cell(index: int) -> (int, int) {
    (index / 32, index % 32)
}

/// Whether `at` is a cell of the grid.
pub open spec fn in_grid(at: (int, int)) -> bool {
    0 <= at.0 < 32 && 0 <= at.1 < 32
}

/// Whether the cell `at` holds a chunk that stays.
pub open spec fn keeps(grid: Grid, threshold: u32, at: (int, int)) -> bool {
    &&& grid.contains_key(at)
    &&& grid[at] matches Some(data)
    &&& document_scan(data) matches Ok(value)
    &&& verdict_of(value, threshold) == Verdict::Keep
}

/// Whether the chunk of the cell `at` can be asked for, in the region file
/// with the bytes `bytes`.
pub open spec fn cell_sound(bytes: Seq<u8>, at: (int, int)) -> bool {
    entry_sound(bytes, entry_of(at.0, at.1))
}

/// Whether the cell `at` fails its region: its chunk cannot be asked for,
/// or it holds what the container cannot read, or a chunk whose document
/// cannot be scanned.
pub open spec fn cell_fails(grid: Grid, bytes: Seq<u8>, at: (int, int)) -> bool {
    !cell_sound(bytes, at) || (grid.contains_key(at) && match grid[at] {
        Some(data) => document_scan(data) is Err,
        None => true,
    })
}

/// The number of the first cell, among the first `upto` of the walk, that
/// fails its region.
pub open spec fn first_failure(grid: Grid, bytes: Seq<u8>, upto: int) -> Option<int>
    decreases upto,
{
    if upto <= 0 {
        None
    } else if first_failure(grid, bytes, upto - 1) is Some {
        first_failure(grid, bytes, upto - 1)
    } else if cell_fails(grid, bytes, cell(upto - 1)) {
        Some(upto - 1)
    } else {
        None
    }
}

/// The number of chunks in the first `upto` cells.
pub open spec fn present_count(grid: Grid, upto: int) -> nat
    decreases upto,
{
    if upto <= 0 {
        0
    } else if grid.contains_key(cell(upto - 1)) {
        present_count(grid, upto - 1) + 1
    } else {
        present_count(grid, upto - 1)
    }
}

/// The number of chunks that stay in the first `upto` cells.
pub open spec fn kept_count(grid: Grid, threshold: u32, upto: int) -> nat
    decreases upto,
{
    if upto <= 0 {
        0
    } else if keeps(grid, threshold, cell(upto - 1)) {
        kept_count(grid, threshold, upto - 1) + 1
    } else {
        kept_count(grid, threshold, upto - 1)
    }
}

/// The chunks that stay, with every other cell empty.
pub open spec fn kept_grid(grid: Grid, threshold: u32) -> Grid {
    Map::new(|at: (int, int)| in_grid(at) && keeps(grid, threshold, at), |at: (int, int)| grid[at])
}

/// A chunk that stays, with the coordinates of its cell.
pub struct KeptChunk {
    pub x: usize,
    pub z: usize,
    pub data: Vec<u8>,
}

/// A chunk and the coordinates of its cell.
pub struct Entry {
    pub x: int,
    pub z: int,
    pub data: Seq<u8>,
}

impl View for KeptChunk {
    type V = Entry;

    open spec fn view(&self) -> Entry {
        Entry { x: self.x as int, z: self.z as int, data: self.data@ }
    }
}

/// The entries that a list of kept chunks stands for.
pub open spec fn entries(chunks: Seq<KeptChunk>) -> Seq<Entry> {
    Seq::new(chunks.len(), |j: int| chunks[j]@)
}

/// The chunks that stay among the first `upto` cells, in the order of the
/// walk.
pub open spec fn kept_list(grid: Grid, threshold: u32, upto: int) -> Seq<Entry>
    decreases upto,
{
    if upto <= 0 {
        Seq::empty()
    } else if keeps(grid, threshold, cell(upto - 1)) {
        kept_list(grid, threshold, upto - 1).push(
            Entry {
                x: (upto - 1) / 32,
                z: (upto - 1) % 32,
                data: grid[cell(upto - 1)]->Some_0,
            },
        )
    } else {
        kept_list(grid, threshold, upto - 1)
    }
}

/// The grid that holds the given entries, a later one replacing an earlier
/// one in the same cell.
pub open spec fn grid_of(list: Seq<Entry>) -> Grid
    decreases list.len(),
{
    if list.len() == 0 {
        Map::empty()
    } else {
        grid_of(list.drop_last()).insert(
            (list.last().x, list.last().z),
            Some(list.last().data),
        )
    }
}

/// Whether a chunk can be written to its cell: the cell is one of the grid,
/// and the container takes the chunk.
pub open spec fn entry_fits(entry: Entry) -> bool {
    &&& 0 <= entry.x < 32
    &&& 0 <= entry.z < 32
    &&& entry.data.len() <= MAX_CHUNK_BYTES
    &&& chunk_fits(entry.data)
}

/// The index of the first entry from `from` on that cannot be written, or
/// the length of the list where every one can.
pub open spec fn first_misfit(list: Seq<Entry>, from: int) -> int
    decreases list.len() - from,
{
    if from < 0 || from >= list.len() {
        list.len() as int
    } else if !entry_fits(list[from]) {
        from
    } else {
        first_misfit(list, from + 1)
    }
}

/// Whether every entry of the list can be written.
pub open spec fn all_fit(list: Seq<Entry>) -> bool {
    first_misfit(list, 0) == list.len()
}

/// Whether `text` is `head` with something behind it.
pub open spec fn begins_with(text: Seq<char>, head: Seq<char>) -> bool {
    exists|cause: Seq<char>| text == #[trigger] (head + cause)
}

/// The text of the error for a chunk that cannot be written to its cell.
pub open spec fn write_error_text(text: Seq<char>, entry: Entry) -> bool {
    let head = "Failed to write chunk ("@ + decimal(entry.x as nat) + ", "@ + decimal(
        entry.z as nat,
    ) + ") to new region: "@;
    if entry.data.len() > MAX_CHUNK_BYTES {
        text == head + "chunk too large"@
    } else {
        begins_with(text, head)
    }
}

/// The text of the error for a cell that the container cannot read.
pub open spec fn read_error_text(text: Seq<char>, name: Seq<char>, at: (int, int)) -> bool {
    begins_with(
        text,
        "Failed to read chunk ("@ + decimal(at.0 as nat) + ", "@ + decimal(at.1 as nat)
            + ") from "@ + name + ": "@,
    )
}

/// What is to be done with the file of a region.
#[derive(Debug)]
pub enum RegionAction {
    /// Nothing: the file stays as it is.
    Leave,
    /// The file is to be removed.
    Delete,
    /// The file is to be replaced by one with these bytes.
    Replace(Vec<u8>),
}

/// The statistics of one region and what is to be done with its file.
#[derive(Debug)]
pub struct RegionReport {
    pub stats: RegionStats,
    pub action: RegionAction,
}

/// The kind of thing that is to be done with the file of a region.
pub enum Plan {
    Leave,
    Delete,
    Compact,
}

/// What is counted for a region with the chunks `grid`. A region counts as
/// deleted, under the policy that deletes whole regions, where it holds
/// chunks and none of them stays; a dry run counts it too.
pub open spec fn region_tally(grid: Grid, threshold: u32, delete_regions: bool) -> Tally {
    let total = present_count(grid, 1024);
    let kept = kept_count(grid, threshold, 1024);
    Tally {
        regions: 1,
        deleted: if delete_regions && kept == 0 && total > 0 {
            1
        } else {
            0
        },
        chunks: total,
        inhabited: kept,
    }
}

/// What is to be done with the file of a region with the chunks `grid`.
///
/// A dry run leaves every file as it is. Under the policy that deletes
/// whole regions, the file goes where the region holds chunks and none of
/// them stays. Under the policy that compacts, the file is rewritten where
/// some chunk does not stay.
pub open spec fn region_plan(grid: Grid, dry_run: bool, threshold: u32, delete_regions: bool) -> Plan {
    let total = present_count(grid, 1024);
    let kept = kept_count(grid, threshold, 1024);
    if dry_run {
        Plan::Leave
    } else if delete_regions {
        if kept == 0 && total > 0 {
            Plan::Delete
        } else {
            Plan::Leave
        }
    } else if kept < total {
        Plan::Compact
    } else {
        Plan::Leave
    }
}

/// Whether `report` is what processing the chunks `grid` comes to, where
/// nothing fails.
pub open spec fn reports_region(
    report: RegionReport,
    grid: Grid,
    dry_run: bool,
    threshold: u32,
    delete_regions: bool,
) -> bool {
    &&& report.stats@ == region_tally(grid, threshold, delete_regions)
    &&& match region_plan(grid, dry_run, threshold, delete_regions) {
        Plan::Leave => report.action is Leave,
        Plan::Delete => report.action is Delete,
        Plan::Compact => report.action matches RegionAction::Replace(bytes) && holds_table(bytes@)
            && encoded_region(bytes@) == kept_grid(grid, threshold),
    }
}

/// The text of the error for a chunk that could not be scanned.
pub open spec fn chunk_error_text(text: Seq<char>, fault: Fault) -> bool {
    exists|cause: Seq<char>|
        chunk_failure(cause, fault) && text == "Failed to process chunk: "@ + ("Chunk error: "@
            + cause)
}

/// The text of the error for bytes that encode no region.
pub open spec fn open_error_text(text: Seq<char>, name: Seq<char>) -> bool {
    begins_with(text, "Failed to create region from "@ + name + ": "@)
}

/// The text of the error for a cell whose chunk cannot be asked for.
pub open spec fn unsound_text(name: Seq<char>, at: (int, int)) -> Seq<char> {
    "Failed to read chunk ("@ + decimal(at.0 as nat) + ", "@ + decimal(at.1 as nat)
        + ") from "@ + name + ": "@ + "a chunk header declares no data"@
}

/// Whether `error` is the error of a region for its cell with the number
/// `index`, which fails it.
pub open spec fn failure_error(
    error: ProcessError,
    name: Seq<char>,
    grid: Grid,
    bytes: Seq<u8>,
    index: int,
) -> bool {
    if !cell_sound(bytes, cell(index)) {
        error matches ProcessError::RegionError(text) && text@ == unsound_text(name, cell(index))
    } else {
        match grid[cell(index)] {
            None => error matches ProcessError::RegionError(text) && read_error_text(
                text@,
                name,
                cell(index),
            ),
            Some(data) => error matches ProcessError::ChunkError(text) && document_scan(data)
                is Err && chunk_error_text(text@, document_scan(data)->Err_0),
        }
    }
}

/// What processing the bytes of a region file comes to.
///
/// Bytes too short for the table of offsets are no region and give a region
/// error. Otherwise the cells are walked, and the first one that fails
/// decides: a chunk that cannot be asked for, or that the container cannot
/// read, gives a region error that names the cell; a chunk whose document
/// cannot be scanned gives a chunk error. Where no cell fails the report is
/// owed, unless the region is to be rewritten and the container does not
/// take one of the chunks that stay: then the first of these gives a region
/// error.
pub open spec fn region_outcome(
    r: Result<RegionReport, ProcessError>,
    name: Seq<char>,
    bytes: Seq<u8>,
    dry_run: bool,
    threshold: u32,
    delete_regions: bool,
) -> bool {
    let grid = encoded_region(bytes);
    if !holds_table(bytes) {
        r matches Err(ProcessError::RegionError(text)) && open_error_text(text@, name)
    } else {
        match first_failure(grid, bytes, 1024) {
            Some(index) => r matches Err(error) && failure_error(error, name, grid, bytes, index),
            None => {
                let kept = kept_list(grid, threshold, 1024);
                if region_plan(grid, dry_run, threshold, delete_regions) is Compact && !all_fit(
                    kept,
                ) {
                    r matches Err(ProcessError::RegionError(text)) && write_error_text(
                        text@,
                        kept[first_misfit(kept, 0)],
                    )
                } else {
                    r matches Ok(report) && reports_region(
                        report,
                        grid,
                        dry_run,
                        threshold,
                        delete_regions,
                    )
                }
            },
        }
    }
}

/// The number under which the walk visits the cell `at`.
pub open spec fn index_of(at: (int, int)) -> int {
    at.0 * 32 + at.1
}

/// The chunks that stay among the first `upto` cells of the walk.
pub open spec fn kept_grid_upto(grid: Grid, threshold: u32, upto: int) -> Grid {
    Map::new(
        |at: (int, int)| in_grid(at) && index_of(at) < upto && keeps(grid, threshold, at),
        |at: (int, int)| grid[at],
    )
}

/// The walk visits every cell of the grid once: cells and numbers below
/// 1024 correspond one to one.
pub proof fn lemma_cell_numbers()
    ensures
        forall|at: (int, int)| in_grid(at) ==> 0 <= #[trigger] index_of(at) < 1024 && cell(index_of(at)) == at,
        forall|index: int| 0 <= index < 1024 ==> in_grid(#[trigger] cell(index)) && index_of(cell(index)) == index,
{
}

/// The list of kept chunks holds, cell by cell, the chunks that stay.
pub proof fn lemma_kept_list_grid(grid: Grid, threshold: u32, upto: int)
    requires
        0 <= upto <= 1024,
    ensures
        grid_of(kept_list(grid, threshold, upto)) == kept_grid_upto(grid, threshold, upto),
        upto == 1024 ==> kept_grid_upto(grid, threshold, upto) == kept_grid(grid, threshold),
    decreases upto,
{
    lemma_cell_numbers();
    let now = kept_grid_upto(grid, threshold, upto);
    if upto > 0 {
        lemma_kept_list_grid(grid, threshold, upto - 1);
        let rest = kept_list(grid, threshold, upto - 1);
        let before = kept_grid_upto(grid, threshold, upto - 1);
        let at = cell(upto - 1);
        assert(index_of(at) == upto - 1);
        if keeps(grid, threshold, at) {
            let entry = Entry { x: at.0, z: at.1, data: grid[at]->Some_0 };
            assert(rest.push(entry).drop_last() =~= rest);
            assert(grid_of(rest.push(entry)) == before.insert(at, grid[at]));
            assert forall|c: (int, int)| before.insert(at, grid[at]).contains_key(c) == now.contains_key(c) by {
                if in_grid(c) && index_of(c) == upto - 1 {
                    assert(cell(index_of(c)) == c);
                }
            }
            assert(before.insert(at, grid[at]) =~= now);
        } else {
            assert forall|c: (int, int)| before.contains_key(c) == now.contains_key(c) by {
                if in_grid(c) && index_of(c) == upto - 1 {
                    assert(cell(index_of(c)) == c);
                }
            }
            assert(before =~= now);
        }
    } else {
        assert(now =~= Map::<(int, int), Option<Seq<u8>>>::empty());
    }
    if upto == 1024 {
        assert(now =~= kept_grid(grid, threshold));
    }
}

/// A cell that fails stays the first one, however far the walk goes.
pub proof fn lemma_first_failure_stays(grid: Grid, bytes: Seq<u8>, upto: int, later: int)
    requires
        first_failure(grid, bytes, upto) is Some,
        upto <= later,
    ensures
        first_failure(grid, bytes, later) == first_failure(grid, bytes, upto),
    decreases later - upto,
{
    if upto < later {
        lemma_first_failure_stays(grid, bytes, upto, later - 1);
    }
}

/// Every entry can be written exactly where none is the first that cannot;
/// and the first that cannot be written is one that cannot, with only
/// entries before it that can.
pub proof fn lemma_first_misfit(list: Seq<Entry>, from: int)
    requires
        0 <= from <= list.len(),
    ensures
        from <= first_misfit(list, from) <= list.len(),
        forall|j: int| from <= j < first_misfit(list, from) ==> entry_fits(#[trigger] list[j]),
        first_misfit(list, from) < list.len() ==> !entry_fits(list[first_misfit(list, from)]),
    decreases list.len() - from,
{
    if from < list.len() && entry_fits(list[from]) {
        lemma_first_misfit(list, from + 1);
    }
}

/// The text of the error for the chunk `chunk`, which the container did not
/// take for the reason `cause`.
fn write_error(chunk: &KeptChunk, cause: &str) -> (error: ProcessError)
    ensures
        error matches ProcessError::RegionError(text) && text@ == "Failed to write chunk ("@
            + decimal(chunk.x as nat) + ", "@ + decimal(chunk.z as nat) + ") to new region: "@
            + cause@,
{
    let text = String::from_str("Failed to write chunk (").concat(
        decimal_string(chunk.x as u64).as_str(),
    ).concat(", ").concat(decimal_string(chunk.z as u64).as_str()).concat(
        ") to new region: ",
    ).concat(cause);
    ProcessError::RegionError(text)
}

/// Builds a region that holds the given chunks, each in its cell, and
/// returns the bytes of its file.
///
/// This succeeds exactly where every chunk can be written: its cell is one
/// of the grid, and the container takes it. Otherwise the first chunk that
/// cannot be written gives the error.
pub fn compact_region(chunks: &Vec<KeptChunk>) -> (r: Result<Vec<u8>, ProcessError>)
    ensures
        r is Ok <==> forall|j: int| 0 <= j < chunks@.len() ==> entry_fits(#[trigger] chunks@[j]@),
        r matches Ok(bytes) ==> holds_table(bytes@) && encoded_region(bytes@) == grid_of(
            entries(chunks@),
        ),
        r matches Err(error) ==> error matches ProcessError::RegionError(text)
            && write_error_text(text@, entries(chunks@)[first_misfit(entries(chunks@), 0)]),
{
    let ghost list = entries(chunks@);
    proof {
        lemma_first_misfit(list, 0);
    }
    match new_region() {
        Ok(region) => {
            let mut new_region = region;
            let mut written: usize = 0;
            while written < chunks.len()
                invariant
                    written <= chunks.len(),
                    list == entries(chunks@),
                    region_is_packed(new_region),
                    region_chunks(new_region) == grid_of(list.take(written as int)),
                    forall|j: int| 0 <= j < written ==> entry_fits(#[trigger] list[j]),
                    first_misfit(list, 0) == first_misfit(list, written as int),
                decreases chunks.len() - written,
            {
                let chunk = &chunks[written];
                assert(list[written as int] == chunk@);
                if chunk.data.len() > MAX_CHUNK_BYTES {
                    assert(!entry_fits(chunks@[written as int]@));
                    return Err(write_error(chunk, "chunk too large"));
                }
                match write_region_chunk(
                    &mut new_region,
                    chunk.x,
                    chunk.z,
                    chunk.data.as_slice(),
                ) {
                    Ok(()) => {},
                    Err(e) => {
                        assert(!entry_fits(chunks@[written as int]@));
                        let cause = e.to_string();
                        return Err(write_error(chunk, cause.as_str()));
                    },
                }
                proof {
                    assert(list.take(written + 1).drop_last() =~= list.take(written as int));
                    assert(list.take(written + 1).last() == chunks@[written as int]@);
                }
                written = written + 1;
            }
            proof {
                assert(list.take(written as int) =~= list);
                assert forall|j: int| 0 <= j < chunks@.len() implies entry_fits(
                    #[trigger] chunks@[j]@,
                ) by {
                    assert(entry_fits(list[j]));
                }
            }
            match region_into_bytes(new_region) {
                Ok(bytes) => Ok(bytes),
                Err(e) => Err(ProcessError::IoError(e)),
            }
        },
        Err(e) => {
            let cause = e.to_string();
            Err(
                ProcessError::RegionError(
                    String::from_str("Failed to create new region: ").concat(cause.as_str()),
                ),
            )
        },
    }
}

/// Whether the counters and the list of kept chunks are those of a walk
/// over the first `upto` cells, none of which fails its region.
#[verifier::opaque]
pub open spec fn walked(
    grid: Grid,
    bytes: Seq<u8>,
    threshold: u32,
    upto: int,
    stats: ChunkStats,
    chunks: Seq<KeptChunk>,
) -> bool {
    &&& 0 <= upto <= 1024
    &&& first_failure(grid, bytes, upto) is None
    &&& stats.total_chunks == present_count(grid, upto)
    &&& stats.inhabited_chunks == kept_count(grid, threshold, upto)
    &&& stats.inhabited_chunks <= stats.total_chunks <= upto
    &&& entries(chunks) == kept_list(grid, threshold, upto)
}

/// The error of a region for a chunk of it that could not be scanned.
fn chunk_error(e: ProcessError) -> (error: ProcessError)
    requires
        e is ChunkError,
    ensures
        error matches ProcessError::ChunkError(text) && forall|fault: Fault|
            chunk_failure(e->ChunkError_0@, fault) ==> chunk_error_text(text@, fault),
{
    let cause = e.message();
    let text = String::from_str("Failed to process chunk: ").concat(cause.as_str());
    proof {
        let inner = e->ChunkError_0@;
        assert(text@ == "Failed to process chunk: "@ + ("Chunk error: "@ + inner));
    }
    ProcessError::ChunkError(text)
}

/// The error of a region for a cell that the container cannot read.
fn read_error(name: &str, x: usize, z: usize, cause: &str) -> (error: ProcessError)
    ensures
        error matches ProcessError::RegionError(text) && read_error_text(
            text@,
            name@,
            (x as int, z as int),
        ),
{
    let text = String::from_str("Failed to read chunk (").concat(
        decimal_string(x as u64).as_str(),
    ).concat(", ").concat(decimal_string(z as u64).as_str()).concat(") from ").concat(
        name,
    ).concat(": ").concat(cause);
    ProcessError::RegionError(text)
}

/// The error of a region for a cell whose chunk cannot be asked for.
fn unsound_error(name: &str, x: usize, z: usize) -> (error: ProcessError)
    ensures
        error matches ProcessError::RegionError(text) && text@ == unsound_text(
            name@,
            (x as int, z as int),
        ),
{
    let text = String::from_str("Failed to read chunk (").concat(
        decimal_string(x as u64).as_str(),
    ).concat(", ").concat(decimal_string(z as u64).as_str()).concat(") from ").concat(
        name,
    ).concat(": ").concat("a chunk header declares no data");
    ProcessError::RegionError(text)
}

/// Reads the cell with the number `index` and, where it holds a chunk,
/// counts and classifies it, and puts it on the list if it stays. A cell
/// whose chunk cannot be asked for (`sound` says whether it can) or cannot
/// be read, or whose chunk cannot be scanned, fails the region.
fn visit_cell(
    mca: &mut Region<Cursor<Vec<u8>>>,
    name: &str,
    sound: bool,
    index: usize,
    threshold: u32,
    chunk_stats: &mut ChunkStats,
    chunks: &mut Vec<KeptChunk>,
) -> (r: Result<(), ProcessError>)
    requires
        index < 1024,
        holds_table(region_source(*old(mca))),
        sound == cell_sound(region_source(*old(mca)), cell(index as int)),
        walked(
            region_chunks(*old(mca)),
            region_source(*old(mca)),
            threshold,
            index as int,
            *old(chunk_stats),
            old(chunks)@,
        ),
    ensures
        region_chunks(*final(mca)) == region_chunks(*old(mca)),
        region_source(*final(mca)) == region_source(*old(mca)),
        match r {
            Ok(()) => walked(
                region_chunks(*old(mca)),
                region_source(*old(mca)),
                threshold,
                index + 1,
                *final(chunk_stats),
                final(chunks)@,
            ),
            Err(error) => first_failure(
                region_chunks(*old(mca)),
                region_source(*old(mca)),
                1024,
            ) == Some(index as int) && failure_error(
                error,
                name@,
                region_chunks(*old(mca)),
                region_source(*old(mca)),
                index as int,
            ),
        },
{
    let ghost grid = region_chunks(*mca);
    let ghost bytes = region_source(*mca);
    reveal(walked);
    let x = index / 32;
    let z = index % 32;
    assert(cell(index as int) == (x as int, z as int));
    if !sound {
        proof {
            assert(first_failure(grid, bytes, index + 1) == Some(index as int));
            lemma_first_failure_stays(grid, bytes, index + 1, 1024);
        }
        return Err(unsound_error(name, x, z));
    }
    match read_region_chunk(mca, x, z) {
        Ok(Some(chunk_data)) => {
            match classify(chunk_data.as_slice(), threshold) {
                Ok(verdict) => {
                    chunk_stats.total_chunks = chunk_stats.total_chunks + 1;
                    if let Verdict::Keep = verdict {
                        chunk_stats.inhabited_chunks = chunk_stats.inhabited_chunks + 1;
                        let ghost before = entries(chunks@);
                        chunks.push(KeptChunk { x, z, data: chunk_data });
                        assert(entries(chunks@) =~= before.push(
                            Entry {
                                x: x as int,
                                z: z as int,
                                data: grid[cell(index as int)]->Some_0,
                            },
                        ));
                    }
                    Ok(())
                },
                Err(e) => {
                    proof {
                        assert(first_failure(grid, bytes, index + 1) == Some(index as int));
                        lemma_first_failure_stays(grid, bytes, index + 1, 1024);
                    }
                    Err(chunk_error(e))
                },
            }
        },
        Ok(None) => Ok(()),
        Err(e) => {
            proof {
                assert(first_failure(grid, bytes, index + 1) == Some(index as int));
                lemma_first_failure_stays(grid, bytes, index + 1, 1024);
            }
            let cause = e.to_string();
            Err(read_error(name, x, z, cause.as_str()))
        },
    }
}

/// Processes one region, given as the bytes of its file and the name under
/// which errors speak of it.
///
/// The cells are walked in order. Every chunk found is counted and
/// classified; the chunks that stay are held until the walk is done. The
/// first cell that fails ends the walk and fails the region, and nothing is
/// to be done with its file: a cell whose chunk cannot be asked for or
/// cannot be read, or a chunk whose document cannot be scanned. Then the
/// policy decides: under `delete_regions` the file is to be deleted where
/// the region holds chunks and none of them stays; otherwise it is to be
/// replaced by one with only the chunks that stay, where some chunk does
/// not. A dry run counts the same and leaves the file as it is.
pub fn process_region(
    name: &str,
    region_bytes: Vec<u8>,
    dry_run: bool,
    threshold: u32,
    delete_regions: bool,
) -> (r: Result<RegionReport, ProcessError>)
    ensures
        region_outcome(r, name@, region_bytes@, dry_run, threshold, delete_regions),
{
    let ghost bytes = region_bytes@;
    let flags = entry_soundness(region_bytes.as_slice());
    let mut mca = match open_region(region_bytes) {
        Ok(region) => region,
        Err(e) => {
            let cause = e.to_string();
            let text = String::from_str("Failed to create region from ").concat(name).concat(
                ": ",
            ).concat(cause.as_str());
            return Err(ProcessError::RegionError(text));
        },
    };
    let ghost grid = region_chunks(mca);
    let mut chunks: Vec<KeptChunk> = Vec::new();
    let mut chunk_stats = ChunkStats::default();
    let mut index: usize = 0;
    assert(walked(grid, bytes, threshold, 0, chunk_stats, chunks@)) by {
        reveal(walked);
        assert(entries(chunks@) =~= kept_list(grid, threshold, 0));
    }
    while index < REGION_CELLS
        invariant
            index <= 1024,
            bytes == region_bytes@,
            holds_table(bytes),
            flags@.len() == 1024,
            forall|entry: int|
                0 <= entry < 1024 ==> #[trigger] flags@[entry] == entry_sound(bytes, entry),
            region_source(mca) == bytes,
            region_chunks(mca) == grid,
            encoded_region(bytes) == grid,
            walked(grid, bytes, threshold, index as int, chunk_stats, chunks@),
        decreases 1024 - index,
    {
        let sound = flags[index / 32 + 32 * (index % 32)];
        match visit_cell(&mut mca, name, sound, index, threshold, &mut chunk_stats, &mut chunks) {
            Ok(()) => {},
            Err(e) => {
                return Err(e);
            },
        }
        index = index + 1;
    }
    reveal(walked);
    let mut region_stats = RegionStats {
        total_regions: 1,
        deleted_regions: 0,
        chunk_stats: ChunkStats::default(),
    };
    region_stats.chunk_stats.merge(chunk_stats);
    let mut action = RegionAction::Leave;
    if delete_regions {
        if region_stats.chunk_stats.inhabited_chunks == 0 && region_stats.chunk_stats.total_chunks
            > 0 {
            if !dry_run {
                action = RegionAction::Delete;
            }
            region_stats.deleted_regions = 1;
        }
    } else if !dry_run && region_stats.chunk_stats.inhabited_chunks
        < region_stats.chunk_stats.total_chunks {
        proof {
            lemma_kept_list_grid(grid, threshold, 1024);
            lemma_first_misfit(entries(chunks@), 0);
        }
        match compact_region(&chunks) {
            Ok(bytes) => {
                action = RegionAction::Replace(bytes);
            },
            Err(e) => {
                proof {
                    let list = entries(chunks@);
                    if all_fit(list) {
                        assert forall|j: int| 0 <= j < chunks@.len() implies entry_fits(
                            #[trigger] chunks@[j]@,
                        ) by {
                            assert(entry_fits(list[j]));
                        }
                    }
                }
                return Err(e);
            },
        }
    }
    Ok(RegionReport { stats: region_stats, action })
}

/// The threshold itself is not above the threshold: a chunk whose activity
/// value equals it is dropped, as is one without a value.
pub proof fn lemma_threshold_is_exclusive(value: i64, threshold: u32)
    ensures
        verdict_of(Some(value), threshold) == Verdict::Keep <==> value > threshold,
        verdict_of(Some(threshold as i64), threshold) == Verdict::Drop,
        verdict_of(None, threshold) == Verdict::Drop,
{
}

/// A dry run touches no file, and two dry runs over the same bytes come to
/// the same: they fail together, or report the same statistics.
pub proof fn lemma_dry_run_repeats(
    first: Result<RegionReport, ProcessError>,
    second: Result<RegionReport, ProcessError>,
    name: Seq<char>,
    bytes: Seq<u8>,
    threshold: u32,
    delete_regions: bool,
)
    requires
        region_outcome(first, name, bytes, true, threshold, delete_regions),
        region_outcome(second, name, bytes, true, threshold, delete_regions),
    ensures
        first is Ok <==> second is Ok,
        first matches Ok(report) ==> report.action is Leave,
        first is Ok && second is Ok ==> first->Ok_0.stats@ == second->Ok_0.stats@,
{
}

/// What a dry run counts is what a run counts that is none.
pub proof fn lemma_dry_run_counts_alike(
    dry: Result<RegionReport, ProcessError>,
    wet: Result<RegionReport, ProcessError>,
    name: Seq<char>,
    bytes: Seq<u8>,
    threshold: u32,
    delete_regions: bool,
)
    requires
        region_outcome(dry, name, bytes, true, threshold, delete_regions),
        region_outcome(wet, name, bytes, false, threshold, delete_regions),
    ensures
        wet is Ok ==> dry is Ok,
        dry is Ok && wet is Ok ==> dry->Ok_0.stats@ == wet->Ok_0.stats@,
{
}

/// A cell that fails is met by the walk, if no other is met before it.
pub proof fn lemma_failure_is_met(grid: Grid, bytes: Seq<u8>, index: int, upto: int)
    requires
        0 <= index < upto,
        cell_fails(grid, bytes, cell(index)),
    ensures
        first_failure(grid, bytes, upto) is Some,
    decreases upto,
{
    if index < upto - 1 {
        lemma_failure_is_met(grid, bytes, index, upto - 1);
    }
}

/// The first cell that fails is one that fails, and no cell before it in
/// the walk does.
pub proof fn lemma_first_failure_is_first(grid: Grid, bytes: Seq<u8>, upto: int)
    requires
        first_failure(grid, bytes, upto) is Some,
    ensures
        0 <= first_failure(grid, bytes, upto)->Some_0 < upto,
        cell_fails(grid, bytes, cell(first_failure(grid, bytes, upto)->Some_0)),
        forall|i: int|
            0 <= i < first_failure(grid, bytes, upto)->Some_0 ==> !cell_fails(
                grid,
                bytes,
                #[trigger] cell(i),
            ),
    decreases upto,
{
    if upto > 0 {
        if first_failure(grid, bytes, upto - 1) is Some {
            lemma_first_failure_is_first(grid, bytes, upto - 1);
        } else {
            assert forall|i: int| 0 <= i < upto - 1 implies !cell_fails(
                grid,
                bytes,
                #[trigger] cell(i),
            ) by {
                if cell_fails(grid, bytes, cell(i)) {
                    lemma_failure_is_met(grid, bytes, i, upto - 1);
                }
            }
        }
    }
}

/// One cell whose chunk cannot be asked for or cannot be read, or whose
/// chunk cannot be scanned, fails its region under either policy, in a dry
/// run or not: no report comes back, and so nothing is to be done with the
/// file.
pub proof fn lemma_failing_cell_fails_region(
    r: Result<RegionReport, ProcessError>,
    name: Seq<char>,
    bytes: Seq<u8>,
    dry_run: bool,
    threshold: u32,
    delete_regions: bool,
    at: (int, int),
)
    requires
        region_outcome(r, name, bytes, dry_run, threshold, delete_regions),
        in_grid(at),
        cell_fails(encoded_region(bytes), bytes, at),
    ensures
        r is Err,
{
    lemma_cell_numbers();
    lemma_failure_is_met(encoded_region(bytes), bytes, index_of(at), 1024);
}

/// A chunk whose document cannot be scanned gives its region a chunk error,
/// where it is the first cell of the walk that fails: whatever the cells
/// behind it hold, and in a dry run as in any other.
pub proof fn lemma_bad_document_gives_chunk_error(
    r: Result<RegionReport, ProcessError>,
    name: Seq<char>,
    bytes: Seq<u8>,
    dry_run: bool,
    threshold: u32,
    delete_regions: bool,
    index: int,
)
    requires
        region_outcome(r, name, bytes, dry_run, threshold, delete_regions),
        holds_table(bytes),
        0 <= index < 1024,
        forall|i: int| 0 <= i < index ==> !cell_fails(encoded_region(bytes), bytes, #[trigger] cell(i)),
        cell_sound(bytes, cell(index)),
        encoded_region(bytes).contains_key(cell(index)),
        encoded_region(bytes)[cell(index)] matches Some(data) && document_scan(data) is Err,
    ensures
        r matches Err(ProcessError::ChunkError(_)),
{
    let grid = encoded_region(bytes);
    lemma_failure_is_met(grid, bytes, index, 1024);
    lemma_first_failure_is_first(grid, bytes, 1024);
    let first = first_failure(grid, bytes, 1024)->Some_0;
    if first < index {
        assert(!cell_fails(grid, bytes, cell(first)));
    }
    if first > index {
        assert(!cell_fails(grid, bytes, cell(index)));
    }
}

/// After a region has been compacted, the bytes of its new file encode a
/// region in which every chunk that stays lies in its cell with its bytes
/// unchanged, and every other cell is empty.
pub proof fn lemma_compaction_keeps_exactly(
    r: Result<RegionReport, ProcessError>,
    name: Seq<char>,
    bytes: Seq<u8>,
    threshold: u32,
)
    requires
        region_outcome(r, name, bytes, false, threshold, false),
        r matches Ok(report) && report.action is Replace,
    ensures
        holds_table(bytes),
        holds_table(r->Ok_0.action->Replace_0@),
        ({
            let before = encoded_region(bytes);
            let after = encoded_region(r->Ok_0.action->Replace_0@);
            forall|at: (int, int)|
                if in_grid(at) && keeps(before, threshold, at) {
                    #[trigger] after.contains_key(at) && after[at] == before[at]
                } else {
                    !after.contains_key(at)
                }
        }),
{
}

} // verus!

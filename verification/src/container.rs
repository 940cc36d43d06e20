//! The region container, held in memory: the calls into fastanvil, and what
//! is taken for granted of them.
//!
//! A region is a grid of 32 by 32 cells, each of which is empty or holds the
//! bytes of one chunk. The container keeps the chunks compressed; what goes
//! in and comes out here are the chunks' own bytes. A cell may also hold
//! what the container cannot turn back into a chunk.

use fastanvil::Region;
use std::io::Cursor;
use vstd::prelude::*;

verus! {

/// fastanvil's region container.
#[verifier::external_type_specification]
#[verifier::external_body]
#[verifier::reject_recursive_types(S)]
pub struct ExRegion<S>(Region<S>);

/// The error type of fastanvil.
#[verifier::external_type_specification]
#[verifier::external_body]
pub struct ExRegionError(fastanvil::Error);

/// The in-memory stream of `std::io`.
#[verifier::external_type_specification]
#[verifier::external_body]
#[verifier::reject_recursive_types(T)]
pub struct ExCursor<T>(Cursor<T>);

/// What the cells of `region` hold, by their coordinates. A cell of the
/// grid for which `Region::read_chunk` returns a chunk holds that chunk's
/// bytes; one for which it returns an error holds `None`; one for which it
/// reports that there is no chunk is no key of the map, and neither is
/// anything outside the grid.
pub uninterp spec fn region_chunks(region: Region<Cursor<Vec<u8>>>) -> Map<
    (int, int),
    Option<Seq<u8>>,
>;

/// Whether every chunk of `region` lies in sectors of its own, listed in the
/// region's table of offsets, as `Region::new` and `Region::write_chunk`
/// leave them.
pub uninterp spec fn region_is_packed(region: Region<Cursor<Vec<u8>>>) -> bool;

/// The bytes of the stream that `region` reads from and writes to.
pub uninterp spec fn region_source(region: Region<Cursor<Vec<u8>>>) -> Seq<u8>;

/// What the cells hold of the region that `Region::from_stream` makes of
/// the bytes of a region file.
pub uninterp spec fn encoded_region(bytes: Seq<u8>) -> Map<(int, int), Option<Seq<u8>>>;

/// Whether the container takes the chunk with the bytes `data`: whether,
/// compressed as `Region::write_chunk` compresses it, it fits the 255
/// sectors that a cell can have.
pub uninterp spec fn chunk_fits(data: Seq<u8>) -> bool;

/// Whether `x` and `z` are the coordinates of a cell of the grid.
pub open spec fn is_cell(x: int, z: int) -> bool {
    0 <= x < 32 && 0 <= z < 32
}

/// The grid in which no cell holds a chunk.
pub open spec fn empty_grid() -> Map<(int, int), Option<Seq<u8>>> {
    Map::empty()
}

/// Where in a region file the chunk begins that the entry with the number
/// `entry` of the table of offsets points to: three bytes of the entry count
/// the sectors of 4096 bytes before it.
pub open spec fn entry_start(bytes: Seq<u8>, entry: int) -> int {
    (bytes[4 * entry] as int * 65536 + bytes[4 * entry + 1] as int * 256 + bytes[4 * entry
        + 2] as int) * 4096
}

/// Whether the entry with the number `entry` points to a chunk: an entry of
/// four zero bytes stands for an empty cell.
pub open spec fn entry_used(bytes: Seq<u8>, entry: int) -> bool {
    bytes[4 * entry] != 0 || bytes[4 * entry + 1] != 0 || bytes[4 * entry + 2] != 0 || bytes[4
        * entry + 3] != 0
}

/// Whether the chunk that the entry points to can be asked for. A chunk
/// begins with four bytes of length and one byte that names its
/// compression. The container takes one off the length of a chunk whose
/// compression it knows, so that length must not be zero.
pub open spec fn entry_sound(bytes: Seq<u8>, entry: int) -> bool {
    let start = entry_start(bytes, entry);
    entry_used(bytes, entry) && start + 5 <= bytes.len() && 1 <= bytes[start + 4] <= 3 ==> !(
    bytes[start] == 0 && bytes[start + 1] == 0 && bytes[start + 2] == 0 && bytes[start + 3] == 0)
}

/// Whether the bytes are long enough for the table of offsets, with which
/// a region file begins: 1024 entries of four bytes.
pub open spec fn holds_table(bytes: Seq<u8>) -> bool {
    bytes.len() >= 4096
}

/// The number of the entry of the cell with the coordinates `x` and `z`.
pub open spec fn entry_of(x: int, z: int) -> int {
    x + 32 * z
}

/// Tells of every entry of the table of offsets whether the chunk that it
/// points to can be asked for. Bytes too short for the table are no region,
/// and every flag is set.
pub fn entry_soundness(bytes: &[u8]) -> (flags: Vec<bool>)
    ensures
        flags@.len() == 1024,
        forall|entry: int|
            0 <= entry < 1024 ==> #[trigger] flags@[entry] == (holds_table(bytes@) ==> entry_sound(
                bytes@,
                entry,
            )),
{
    let mut flags: Vec<bool> = Vec::new();
    let mut entry: usize = 0;
    while entry < 1024
        invariant
            entry <= 1024,
            flags@.len() == entry,
            forall|e: int|
                0 <= e < entry ==> #[trigger] flags@[e] == (holds_table(bytes@) ==> entry_sound(
                    bytes@,
                    e,
                )),
        decreases 1024 - entry,
    {
        let mut sound = true;
        if bytes.len() >= 4096 {
            let at = 4 * entry;
            let b0 = bytes[at];
            let b1 = bytes[at + 1];
            let b2 = bytes[at + 2];
            let b3 = bytes[at + 3];
            if b0 != 0 || b1 != 0 || b2 != 0 || b3 != 0 {
                let start: u64 = ((b0 as u64) * 65536 + (b1 as u64) * 256 + (b2 as u64)) * 4096;
                if start + 5 <= bytes.len() as u64 {
                    let first = start as usize;
                    let scheme = bytes[first + 4];
                    if 1 <= scheme && scheme <= 3 && bytes[first] == 0 && bytes[first + 1] == 0
                        && bytes[first + 2] == 0 && bytes[first + 3] == 0 {
                        sound = false;
                    }
                }
            }
            assert(sound == entry_sound(bytes@, entry as int));
        }
        flags.push(sound);
        entry = entry + 1;
    }
    flags
}

/// fastanvil's `Region::from_stream`, on a cursor over `bytes`.
///
/// The call reads the 1024 entries of the table of offsets and nothing
/// else, so it succeeds exactly where the bytes are long enough for the
/// table. The region that comes back reads from `bytes`, and its cells hold
/// what the bytes encode.
#[verifier::external_body]
pub(crate) fn open_region(bytes: Vec<u8>) -> (r: Result<
    Region<Cursor<Vec<u8>>>,
    fastanvil::Error,
>)
    ensures
        r is Ok <==> holds_table(bytes@),
        r matches Ok(region) ==> region_chunks(region) == encoded_region(bytes@),
        r matches Ok(region) ==> region_source(region) == bytes@,
{
    Region::from_stream(Cursor::new(bytes))
}

/// fastanvil's `Region::read_chunk`, for a cell of the grid.
///
/// Reading changes neither the bytes of the region nor what its cells
/// hold. The call tells the three things apart that a cell can hold: no
/// chunk, a chunk, which comes back, and what cannot be read, for which the
/// error comes back. The call is made only where the chunk of the cell can
/// be asked for: it reads the entry of that cell and the chunk that the
/// entry points to, and nothing else.
#[verifier::external_body]
pub(crate) fn read_region_chunk(region: &mut Region<Cursor<Vec<u8>>>, x: usize, z: usize) -> (r:
    Result<Option<Vec<u8>>, fastanvil::Error>)
    requires
        holds_table(region_source(*old(region))),
        entry_sound(region_source(*old(region)), entry_of(x as int, z as int)),
        x < 32,
        z < 32,
    ensures
        region_chunks(*final(region)) == region_chunks(*old(region)),
        region_source(*final(region)) == region_source(*old(region)),
        r matches Ok(None) <==> !region_chunks(*old(region)).contains_key((x as int, z as int)),
        r matches Ok(Some(data)) ==> region_chunks(*old(region))[(x as int, z as int)] == Some(
            data@,
        ),
        r is Err ==> region_chunks(*old(region))[(x as int, z as int)] is None,
{
    region.read_chunk(x, z)
}

/// fastanvil's `Region::new`, on a cursor over an empty buffer.
///
/// The call succeeds: all it does is write an empty table to the buffer,
/// which grows as it is written to. The region that comes back holds no
/// chunk.
#[verifier::external_body]
pub(crate) fn new_region() -> (r: Result<Region<Cursor<Vec<u8>>>, fastanvil::Error>)
    ensures
        r is Ok,
        r matches Ok(region) ==> region_chunks(region) == empty_grid(),
        r matches Ok(region) ==> region_is_packed(region),
{
    Region::new(Cursor::new(Vec::new()))
}

/// The most bytes of a chunk that are handed to the container, which counts
/// the bytes of the compressed chunk in 32 bits.
pub const MAX_CHUNK_BYTES: usize = 0x7fff_ffff;

/// fastanvil's `Region::write_chunk`.
///
/// The call succeeds exactly where the cell is one of the grid and the
/// container takes the chunk: writing to the buffer does not fail. Where it
/// succeeds, the cell holds `data` and every other cell holds what it held.
#[verifier::external_body]
pub(crate) fn write_region_chunk(
    region: &mut Region<Cursor<Vec<u8>>>,
    x: usize,
    z: usize,
    data: &[u8],
) -> (r: Result<(), fastanvil::Error>)
    requires
        region_is_packed(*old(region)),
        data@.len() <= MAX_CHUNK_BYTES,
    ensures
        r is Ok <==> (is_cell(x as int, z as int) && chunk_fits(data@)),
        r is Ok ==> region_chunks(*final(region)) == region_chunks(*old(region)).insert(
            (x as int, z as int),
            Some(data@),
        ),
        r is Ok ==> region_is_packed(*final(region)),
{
    region.write_chunk(x, z, data)
}

/// fastanvil's `Region::into_inner`, and the buffer of the cursor that it
/// returns.
///
/// The call succeeds: it reads the length of the last chunk, which is there
/// in a region whose chunks lie as they were written. The bytes that come
/// back begin with the table of offsets and encode a region whose cells
/// hold what those of `region` hold.
#[verifier::external_body]
pub(crate) fn region_into_bytes(region: Region<Cursor<Vec<u8>>>) -> (r: Result<
    Vec<u8>,
    std::io::Error,
>)
    requires
        region_is_packed(region),
    ensures
        r is Ok,
        r matches Ok(bytes) ==> holds_table(bytes@),
        r matches Ok(bytes) ==> encoded_region(bytes@) == region_chunks(region),
{
    match region.into_inner() {
        Ok(cursor) => Ok(cursor.into_inner()),
        Err(e) => Err(e),
    }
}

} // verus!

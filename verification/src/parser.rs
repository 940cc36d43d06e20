//! The scanner: finds the activity value in a chunk's document, reading
//! only as much of each value as it takes to step over it.

use crate::error::ProcessError;
use crate::grammar::{
    after, array_extent, document_scan, elements_extent, field_value, is_target,
    member_search, members_extent, remaining, scalar_width, search_after, search_members, span_extent,
    target_name, text_extent, value_extent, Fault, Halt, Search, SEARCH_DEPTH, TAG_BYTE,
    TAG_BYTE_ARRAY,
    TAG_COMPOUND, TAG_DOUBLE, TAG_END, TAG_FLOAT, TAG_INT, TAG_INT_ARRAY, TAG_LIST, TAG_LONG,
    TAG_LONG_ARRAY, TAG_SHORT, TAG_STRING,
};
use crate::reader::ByteReader;
use crate::text::{decimal, decimal_string};
use vstd::prelude::*;
use vstd::string::*;

verus! {

/// Why a document could not be scanned.
#[derive(Debug)]
pub enum NbtError {
    /// The data ended within a field of fixed width.
    IoError(std::io::Error),
    /// The data is not a document of the format.
    InvalidFormat(String),
}

impl From<std::io::Error> for NbtError {
    fn from(error: std::io::Error) -> (r: NbtError) {
        NbtError::IoError(error)
    }
}

impl vstd::std_specs::convert::FromSpecImpl<std::io::Error> for NbtError {
    open spec fn obeys_from_spec() -> bool {
        true
    }

    open spec fn from_spec(error: std::io::Error) -> NbtError {
        NbtError::IoError(error)
    }
}

/// The text of the format error that reports `fault`. A short read is no
/// fault of format and has no text.
pub open spec fn fault_text(fault: Fault) -> Seq<char> {
    match fault {
        Fault::ShortRead => Seq::empty(),
        Fault::RootNotCompound => "Root tag is not a compound"@,
        Fault::UnknownKind(kind) => "Unknown tag type: "@ + decimal(kind as nat),
        Fault::UnexpectedFieldKind(kind) => "InhabitedTime has unexpected type: "@ + decimal(
            kind as nat,
        ),
        Fault::SpanOverrun => "Declared length exceeds the remaining data"@,
    }
}

/// Whether `error` is the report of `fault`: a short read comes as an I/O
/// error, every other fault as a format error with the fault's text.
pub open spec fn reports(error: NbtError, fault: Fault) -> bool {
    match fault {
        Fault::ShortRead => error is IoError,
        _ => error matches NbtError::InvalidFormat(text) && text@ == fault_text(fault),
    }
}

/// Whether `text` is the message of `error`: the name of its kind, then
/// what it carries.
pub open spec fn describes(text: Seq<char>, error: NbtError) -> bool {
    match error {
        NbtError::IoError(_) => exists|cause: Seq<char>| text == "IO error: "@ + cause,
        NbtError::InvalidFormat(msg) => text == "Invalid NBT format: "@ + msg@,
    }
}

impl NbtError {
    /// The error in words.
    pub fn message(&self) -> (text: String)
        ensures
            describes(text@, *self),
    {
        match self {
            NbtError::IoError(e) => {
                let cause = e.to_string();
                String::from_str("IO error: ").concat(cause.as_str())
            },
            NbtError::InvalidFormat(msg) => String::from_str("Invalid NBT format: ").concat(
                msg.as_str(),
            ),
        }
    }
}

/// What a step over a value leaves behind: the reader moved past the
/// extent, or the report of the fault, with the reader where the walk
/// stopped.
pub open spec fn skipped(
    before: ByteReader,
    after: ByteReader,
    result: Result<(), NbtError>,
    extent: Result<nat, Halt>,
) -> bool {
    &&& after.wf()
    &&& after.data() == before.data()
    &&& match extent {
        Ok(n) => result is Ok && after.position() == before.position() + n,
        Err(stop) => result matches Err(error) && reports(error, stop.fault) && after.position()
            == before.position() + stop.at,
    }
}

/// What a search leaves behind: the value, with the reader right behind
/// it; or the reader moved past the compound; or the report of the fault,
/// with the reader where the walk stopped.
pub open spec fn searched(
    before: ByteReader,
    after: ByteReader,
    result: Result<Option<i64>, NbtError>,
    found: Search,
) -> bool {
    &&& after.wf()
    &&& after.data() == before.data()
    &&& match found {
        Search::Found(value, n) => result matches Ok(Some(v)) && v == value && after.position()
            == before.position() + n,
        Search::Absent(n) => result matches Ok(None) && after.position() == before.position()
            + n,
        Search::Failed(fault, at) => result matches Err(error) && reports(error, fault)
            && after.position() == before.position() + at,
    }
}

fn root_not_compound() -> (error: NbtError)
    ensures
        reports(error, Fault::RootNotCompound),
{
    NbtError::InvalidFormat(String::from_str("Root tag is not a compound"))
}

fn span_overrun() -> (error: NbtError)
    ensures
        reports(error, Fault::SpanOverrun),
{
    NbtError::InvalidFormat(String::from_str("Declared length exceeds the remaining data"))
}

fn unknown_kind(kind: u8) -> (error: NbtError)
    ensures
        reports(error, Fault::UnknownKind(kind)),
{
    let number = decimal_string(kind as u64);
    NbtError::InvalidFormat(String::from_str("Unknown tag type: ").concat(number.as_str()))
}

fn unexpected_field_kind(kind: u8) -> (error: NbtError)
    ensures
        reports(error, Fault::UnexpectedFieldKind(kind)),
{
    let number = decimal_string(kind as u64);
    NbtError::InvalidFormat(
        String::from_str("InhabitedTime has unexpected type: ").concat(number.as_str()),
    )
}

/// Eight bytes as one word, the first byte lowest.
pub open spec fn word_of(
    b0: u8,
    b1: u8,
    b2: u8,
    b3: u8,
    b4: u8,
    b5: u8,
    b6: u8,
    b7: u8,
) -> u64 {
    (b0 as u64) | (b1 as u64) << 8 | (b2 as u64) << 16 | (b3 as u64) << 24 | (b4 as u64) << 32 | (
    b5 as u64) << 40 | (b6 as u64) << 48 | (b7 as u64) << 56
}

proof fn lemma_word_of_injective(
    a0: u8,
    a1: u8,
    a2: u8,
    a3: u8,
    a4: u8,
    a5: u8,
    a6: u8,
    a7: u8,
    b0: u8,
    b1: u8,
    b2: u8,
    b3: u8,
    b4: u8,
    b5: u8,
    b6: u8,
    b7: u8,
)
    by (bit_vector)
    ensures
        word_of(a0, a1, a2, a3, a4, a5, a6, a7) == word_of(b0, b1, b2, b3, b4, b5, b6, b7) <==> (a0
            == b0 && a1 == b1 && a2 == b2 && a3 == b3 && a4 == b4 && a5 == b5 && a6 == b6 && a7
            == b7),
{
}

fn pack(b0: u8, b1: u8, b2: u8, b3: u8, b4: u8, b5: u8, b6: u8, b7: u8) -> (word: u64)
    ensures
        word == word_of(b0, b1, b2, b3, b4, b5, b6, b7),
{
    (b0 as u64) | (b1 as u64) << 8 | (b2 as u64) << 16 | (b3 as u64) << 24 | (b4 as u64) << 32 | (
    b5 as u64) << 40 | (b6 as u64) << 48 | (b7 as u64) << 56
}

/// Whether the thirteen bytes are the name of the activity field, found by
/// comparing them as two words.
pub fn compare_inhabited_time(buffer: &[u8; 13]) -> (same: bool)
    ensures
        same == (buffer@ == target_name()),
{
    let chunk1_buffer = pack(
        buffer[0],
        buffer[1],
        buffer[2],
        buffer[3],
        buffer[4],
        buffer[5],
        buffer[6],
        buffer[7],
    );
    let chunk1_target = pack(73, 110, 104, 97, 98, 105, 116, 101);
    proof {
        lemma_word_of_injective(
            buffer[0],
            buffer[1],
            buffer[2],
            buffer[3],
            buffer[4],
            buffer[5],
            buffer[6],
            buffer[7],
            73,
            110,
            104,
            97,
            98,
            105,
            116,
            101,
        );
    }
    if chunk1_buffer != chunk1_target {
        assert(target_name()[0] == 73 && target_name()[1] == 110 && target_name()[2] == 104
            && target_name()[3] == 97 && target_name()[4] == 98 && target_name()[5] == 105
            && target_name()[6] == 116 && target_name()[7] == 101);
        return false;
    }
    let chunk2_buffer = pack(buffer[8], buffer[9], buffer[10], buffer[11], buffer[12], 0, 0, 0);
    let chunk2_target = pack(100, 84, 105, 109, 101, 0, 0, 0);
    proof {
        lemma_word_of_injective(
            buffer[8],
            buffer[9],
            buffer[10],
            buffer[11],
            buffer[12],
            0,
            0,
            0,
            100,
            84,
            105,
            109,
            101,
            0,
            0,
            0,
        );
    }
    let same = chunk2_buffer == chunk2_target;
    proof {
        if same {
            assert(buffer@ =~= target_name());
        } else {
            assert(target_name()[8] == 100 && target_name()[9] == 84 && target_name()[10] == 105
                && target_name()[11] == 109 && target_name()[12] == 101);
        }
    }
    same
}

/// Steps over `count` bytes. A count that the rest of the buffer does not
/// cover is a format error.
pub fn skip_bytes(reader: &mut ByteReader, count: usize) -> (r: Result<(), NbtError>)
    requires
        old(reader).wf(),
    ensures
        skipped(
            *old(reader),
            *final(reader),
            r,
            span_extent(old(reader).data(), old(reader).position(), count as int, 1),
        ),
{
    if count > reader.remaining() {
        Err(span_overrun())
    } else {
        reader.advance(count);
        Ok(())
    }
}

/// Steps over `count` items of `width` bytes each.
fn skip_span(reader: &mut ByteReader, count: i32, width: usize) -> (r: Result<(), NbtError>)
    requires
        old(reader).wf(),
        1 <= width <= 8,
    ensures
        skipped(
            *old(reader),
            *final(reader),
            r,
            span_extent(old(reader).data(), old(reader).position(), count as int, width as nat),
        ),
{
    if count < 0 {
        return Err(span_overrun());
    }
    assert(0 <= count * width <= 0x7fff_ffff * 8) by (nonlinear_arith)
        requires
            0 <= count <= 0x7fff_ffff,
            1 <= width <= 8,
    ;
    let span: u64 = (count as u64) * (width as u64);
    if span > reader.remaining() as u64 {
        Err(span_overrun())
    } else {
        skip_bytes(reader, span as usize)
    }
}

/// Steps over an array: a four-byte count and that many items of `width`
/// bytes each.
fn skip_array(reader: &mut ByteReader, width: usize) -> (r: Result<(), NbtError>)
    requires
        old(reader).wf(),
        1 <= width <= 8,
    ensures
        skipped(
            *old(reader),
            *final(reader),
            r,
            array_extent(old(reader).data(), old(reader).position(), width as nat),
        ),
{
    let length = match reader.read_i32() {
        Ok(length) => length,
        Err(e) => {
            return Err(NbtError::IoError(e));
        },
    };
    skip_span(reader, length, width)
}

/// Steps over a string: a two-byte length and that many bytes.
pub fn skip_string(reader: &mut ByteReader) -> (r: Result<(), NbtError>)
    requires
        old(reader).wf(),
    ensures
        skipped(
            *old(reader),
            *final(reader),
            r,
            text_extent(old(reader).data(), old(reader).position()),
        ),
{
    let length = match reader.read_u16() {
        Ok(length) => length as usize,
        Err(e) => {
            return Err(NbtError::IoError(e));
        },
    };
    skip_bytes(reader, length)
}

/// Reads a name and tells whether it is that of the activity field. A name
/// of another length is stepped over without a look at its bytes.
pub fn is_inhabited_time_string(reader: &mut ByteReader) -> (r: Result<bool, NbtError>)
    requires
        old(reader).wf(),
    ensures
        final(reader).wf(),
        final(reader).data() == old(reader).data(),
        match text_extent(old(reader).data(), old(reader).position()) {
            Ok(n) => r matches Ok(same) && same == is_target(
                old(reader).data(),
                old(reader).position(),
            ) && final(reader).position() == old(reader).position() + n,
            Err(stop) => r matches Err(error) && reports(error, stop.fault)
                && final(reader).position() == old(reader).position() + stop.at,
        },
{
    let length = match reader.read_u16() {
        Ok(length) => length as usize,
        Err(e) => {
            return Err(NbtError::IoError(e));
        },
    };
    if length != 13 {
        assert(target_name().len() == 13);
        match skip_bytes(reader, length) {
            Ok(()) => {},
            Err(e) => {
                return Err(e);
            },
        }
        return Ok(false);
    }
    if reader.remaining() < 13 {
        return Err(span_overrun());
    }
    let mut buffer = [0u8;13];
    reader.read_exact(&mut buffer);
    Ok(compare_inhabited_time(&buffer))
}

/// The width of a value of kind `kind`, where the kind has a fixed one.
fn fixed_width(kind: u8) -> (width: Option<usize>)
    ensures
        match scalar_width(kind) {
            Some(w) => width == Some(w as usize) && 1 <= w <= 8,
            None => width is None,
        },
{
    if kind == TAG_BYTE {
        Some(1)
    } else if kind == TAG_SHORT {
        Some(2)
    } else if kind == TAG_INT || kind == TAG_FLOAT {
        Some(4)
    } else if kind == TAG_LONG || kind == TAG_DOUBLE {
        Some(8)
    } else {
        None
    }
}

/// Steps over a value of kind `tag_type`.
///
/// Values of fixed width, strings and arrays are stepped over by their
/// length. A list of values of fixed width is one span; the elements of any
/// other list are stepped over one by one. A compound is walked member by
/// member to its end tag. A kind that the format does not have is a format
/// error.
pub fn skip_tag_value(reader: &mut ByteReader, tag_type: u8) -> (r: Result<(), NbtError>)
    requires
        old(reader).wf(),
    ensures
        skipped(
            *old(reader),
            *final(reader),
            r,
            value_extent(old(reader).data(), old(reader).position(), tag_type),
        ),
    decreases remaining(old(reader).data(), old(reader).position()), 1nat,
{
    if tag_type == TAG_BYTE {
        match reader.read_u8() {
            Ok(_) => Ok(()),
            Err(e) => Err(NbtError::IoError(e)),
        }
    } else if tag_type == TAG_SHORT {
        match reader.read_u16() {
            Ok(_) => Ok(()),
            Err(e) => Err(NbtError::IoError(e)),
        }
    } else if tag_type == TAG_INT || tag_type == TAG_FLOAT {
        match reader.read_i32() {
            Ok(_) => Ok(()),
            Err(e) => Err(NbtError::IoError(e)),
        }
    } else if tag_type == TAG_LONG || tag_type == TAG_DOUBLE {
        match reader.read_i64() {
            Ok(_) => Ok(()),
            Err(e) => Err(NbtError::IoError(e)),
        }
    } else if tag_type == TAG_BYTE_ARRAY {
        skip_array(reader, 1)
    } else if tag_type == TAG_STRING {
        skip_string(reader)
    } else if tag_type == TAG_LIST {
        let ghost data = reader.data();
        let ghost start = reader.position();
        let list_type = match reader.read_u8() {
            Ok(kind) => kind,
            Err(e) => {
                return Err(NbtError::IoError(e));
            },
        };
        let length = match reader.read_i32() {
            Ok(length) => length,
            Err(e) => {
                return Err(NbtError::IoError(e));
            },
        };
        match fixed_width(list_type) {
            Some(width) => skip_span(reader, length, width),
            None => {
                if length < 0 {
                    return Err(span_overrun());
                }
                let mut done: i32 = 0;
                while done < length
                    invariant
                        0 <= done <= length,
                        reader.wf(),
                        reader.data() == data,
                        data == old(reader).data(),
                        start == old(reader).position(),
                        start + 5 <= reader.position(),
                        value_extent(data, start, tag_type) == after(
                            5,
                            elements_extent(data, start + 5, list_type, length as nat),
                        ),
                        elements_extent(data, start + 5, list_type, length as nat)
                            == after(
                            (reader.position() - (start + 5)) as nat,
                            elements_extent(
                                data,
                                reader.position(),
                                list_type,
                                (length - done) as nat,
                            ),
                        ),
                    decreases length - done,
                {
                    let ghost here = reader.position();
                    match skip_tag_value(reader, list_type) {
                        Ok(()) => {},
                        Err(e) => {
                            assert(elements_extent(
                                data,
                                here,
                                list_type,
                                (length - done) as nat,
                            ) is Err);
                            return Err(e);
                        },
                    }
                    done = done + 1;
                }
                Ok(())
            },
        }
    } else if tag_type == TAG_COMPOUND {
        skip_compound(reader)
    } else if tag_type == TAG_INT_ARRAY {
        skip_array(reader, 4)
    } else if tag_type == TAG_LONG_ARRAY {
        skip_array(reader, 8)
    } else {
        Err(unknown_kind(tag_type))
    }
}

/// Steps over the members of a compound, up to and with its end tag.
pub fn skip_compound(reader: &mut ByteReader) -> (r: Result<(), NbtError>)
    requires
        old(reader).wf(),
    ensures
        skipped(
            *old(reader),
            *final(reader),
            r,
            members_extent(old(reader).data(), old(reader).position()),
        ),
    decreases remaining(old(reader).data(), old(reader).position()), 0nat,
{
    let ghost data = reader.data();
    let ghost start = reader.position();
    loop
        invariant
            reader.wf(),
            reader.data() == data,
            data == old(reader).data(),
            start == old(reader).position(),
            start <= reader.position(),
            members_extent(data, start) == after(
                (reader.position() - start) as nat,
                members_extent(data, reader.position()),
            ),
        decreases remaining(data, reader.position()),
    {
        let tag_type = match reader.read_u8() {
            Ok(kind) => kind,
            Err(e) => {
                return Err(NbtError::IoError(e));
            },
        };
        if tag_type == TAG_END {
            return Ok(());
        }
        match skip_string(reader) {
            Ok(()) => {},
            Err(e) => {
                return Err(e);
            },
        }
        match skip_tag_value(reader, tag_type) {
            Ok(()) => {},
            Err(e) => {
                return Err(e);
            },
        }
    }
}

/// Reads the whole number of kind `tag_type` that the activity field holds.
/// Any other kind under that name is a format error.
fn read_scalar(reader: &mut ByteReader, tag_type: u8) -> (r: Result<i64, NbtError>)
    requires
        old(reader).wf(),
    ensures
        final(reader).wf(),
        final(reader).data() == old(reader).data(),
        match field_value(old(reader).data(), old(reader).position(), tag_type) {
            Search::Found(value, n) => r matches Ok(v) && v == value && final(reader).position()
                == old(reader).position() + n,
            Search::Failed(fault, at) => r matches Err(error) && reports(error, fault)
                && final(reader).position() == old(reader).position() + at,
            Search::Absent(_) => false,
        },
{
    if tag_type == TAG_LONG {
        match reader.read_i64() {
            Ok(value) => Ok(value),
            Err(e) => Err(NbtError::IoError(e)),
        }
    } else if tag_type == TAG_INT {
        match reader.read_i32() {
            Ok(value) => Ok(value as i64),
            Err(e) => Err(NbtError::IoError(e)),
        }
    } else if tag_type == TAG_SHORT {
        match reader.read_i16() {
            Ok(value) => Ok(value as i64),
            Err(e) => Err(NbtError::IoError(e)),
        }
    } else if tag_type == TAG_BYTE {
        match reader.read_i8() {
            Ok(value) => Ok(value as i64),
            Err(e) => Err(NbtError::IoError(e)),
        }
    } else {
        Err(unexpected_field_kind(tag_type))
    }
}

/// How many compounds further down a search goes that stands
/// `current_depth` levels below the root and goes down to `max_depth`.
pub open spec fn levels_left(max_depth: u8, current_depth: u8) -> nat {
    if current_depth < max_depth {
        (max_depth - current_depth) as nat
    } else {
        0
    }
}

/// Deals with one member in a search, whose kind byte and name have been
/// read: the field is decoded, a compound under another name is searched
/// while the depth allows it, and any other value is stepped over. `None`
/// comes back for a member that the search passes by.
fn search_member(
    reader: &mut ByteReader,
    tag_type: u8,
    is_inhabited_time: bool,
    max_depth: u8,
    current_depth: u8,
) -> (r: Result<Option<i64>, NbtError>)
    requires
        old(reader).wf(),
    ensures
        searched(
            *old(reader),
            *final(reader),
            r,
            member_search(
                old(reader).data(),
                old(reader).position(),
                tag_type,
                is_inhabited_time,
                levels_left(max_depth, current_depth),
            ),
        ),
    decreases remaining(old(reader).data(), old(reader).position()), 1nat,
{
    if !is_inhabited_time {
        if tag_type == TAG_COMPOUND && current_depth < max_depth {
            search_compound_recursive(reader, max_depth, current_depth + 1)
        } else {
            match skip_tag_value(reader, tag_type) {
                Ok(()) => Ok(None),
                Err(e) => Err(e),
            }
        }
    } else {
        match read_scalar(reader, tag_type) {
            Ok(value) => Ok(Some(value)),
            Err(e) => Err(e),
        }
    }
}

/// Searches the members of a compound for the activity field, `current_depth`
/// levels below the root. Compounds under other names are searched in their
/// turn down to `max_depth`, and stepped over at that depth and below it.
pub fn search_compound_recursive(
    reader: &mut ByteReader,
    max_depth: u8,
    current_depth: u8,
) -> (r: Result<Option<i64>, NbtError>)
    requires
        old(reader).wf(),
    ensures
        searched(
            *old(reader),
            *final(reader),
            r,
            search_members(
                old(reader).data(),
                old(reader).position(),
                levels_left(max_depth, current_depth),
            ),
        ),
    decreases remaining(old(reader).data(), old(reader).position()), 0nat,
{
    let ghost data = reader.data();
    let ghost start = reader.position();
    let ghost levels = levels_left(max_depth, current_depth);
    loop
        invariant
            reader.wf(),
            reader.data() == data,
            data == old(reader).data(),
            start == old(reader).position(),
            start <= reader.position(),
            levels == levels_left(max_depth, current_depth),
            search_members(data, start, levels) == search_after(
                (reader.position() - start) as nat,
                search_members(data, reader.position(), levels),
            ),
        decreases remaining(data, reader.position()),
    {
        let tag_type = match reader.read_u8() {
            Ok(kind) => kind,
            Err(e) => {
                return Err(NbtError::IoError(e));
            },
        };
        if tag_type == TAG_END {
            return Ok(None);
        }
        let is_inhabited_time = match is_inhabited_time_string(reader) {
            Ok(same) => same,
            Err(e) => {
                return Err(e);
            },
        };
        match search_member(reader, tag_type, is_inhabited_time, max_depth, current_depth) {
            Ok(Some(value)) => {
                return Ok(Some(value));
            },
            Ok(None) => {},
            Err(e) => {
                return Err(e);
            },
        }
    }
}

/// Searches the members of a compound for the activity field, going at most
/// `max_depth` compounds down.
pub fn search_compound(reader: &mut ByteReader, max_depth: u8) -> (r: Result<
    Option<i64>,
    NbtError,
>)
    requires
        old(reader).wf(),
    ensures
        searched(
            *old(reader),
            *final(reader),
            r,
            search_members(old(reader).data(), old(reader).position(), max_depth as nat),
        ),
{
    search_compound_recursive(reader, max_depth, 0)
}

/// What a scan of a chunk's document returns: the value, or that there is
/// none, or the report of the fault that stopped it.
pub open spec fn scan_returns(result: Result<Option<i64>, NbtError>, data: Seq<u8>) -> bool {
    match document_scan(data) {
        Ok(value) => result matches Ok(v) && v == value,
        Err(fault) => result matches Err(error) && reports(error, fault),
    }
}

/// Finds the activity value in the document of a chunk.
///
/// The document must start with a compound, whose name is stepped over.
/// Its members, and those of compounds up to two levels further down, are
/// searched for the field; everything else is stepped over unread.
pub fn extract_inhabited_time(chunk_data: &[u8]) -> (r: Result<Option<i64>, NbtError>)
    ensures
        scan_returns(r, chunk_data@),
{
    let mut reader = ByteReader::new(chunk_data);
    let tag_type = match reader.read_u8() {
        Ok(kind) => kind,
        Err(e) => {
            return Err(NbtError::IoError(e));
        },
    };
    if tag_type != TAG_COMPOUND {
        return Err(root_not_compound());
    }
    match skip_string(&mut reader) {
        Ok(()) => {},
        Err(e) => {
            return Err(e);
        },
    }
    search_compound(&mut reader, SEARCH_DEPTH)
}

/// The text of the chunk error that reports `fault`.
pub open spec fn chunk_failure(text: Seq<char>, fault: Fault) -> bool {
    exists|cause: Seq<char>|
        {
            &&& text == "Fast NBT parsing failed: "@ + cause
            &&& match fault {
                Fault::ShortRead => exists|detail: Seq<char>| cause == "IO error: "@ + detail,
                _ => cause == "Invalid NBT format: "@ + fault_text(fault),
            }
        }
}

/// Finds the activity value in the document of a chunk, and reports a
/// failed scan as an error of that chunk.
pub fn process_chunk(chunk_data: &[u8]) -> (r: Result<Option<i64>, ProcessError>)
    ensures
        match document_scan(chunk_data@) {
            Ok(value) => r matches Ok(v) && v == value,
            Err(fault) => r matches Err(ProcessError::ChunkError(text)) && chunk_failure(
                text@,
                fault,
            ),
        },
{
    match extract_inhabited_time(chunk_data) {
        Ok(value) => Ok(value),
        Err(e) => {
            let cause = e.message();
            let text = String::from_str("Fast NBT parsing failed: ").concat(cause.as_str());
            Err(ProcessError::ChunkError(text))
        },
    }
}

} // verus!

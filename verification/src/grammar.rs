//! The tagged binary format, as far as a scan for one field has to know it.
//!
//! Everything here is a specification: what the bytes at a position mean to
//! a scanner that walks them once, from the front, without building a tree.
//! Extents are counted in bytes from the position they are asked for.

use crate::reader::{be_int, be_nat, field};
use vstd::prelude::*;

verus! {

pub const TAG_END: u8 = 0;

pub const TAG_BYTE: u8 = 1;

pub const TAG_SHORT: u8 = 2;

pub const TAG_INT: u8 = 3;

pub const TAG_LONG: u8 = 4;

pub const TAG_FLOAT: u8 = 5;

pub const TAG_DOUBLE: u8 = 6;

pub const TAG_BYTE_ARRAY: u8 = 7;

pub const TAG_STRING: u8 = 8;

pub const TAG_LIST: u8 = 9;

pub const TAG_COMPOUND: u8 = 10;

pub const TAG_INT_ARRAY: u8 = 11;

pub const TAG_LONG_ARRAY: u8 = 12;

/// How deep below the root compound the activity field is looked for.
pub const SEARCH_DEPTH: u8 = 2;

/// Why a scan stops without an answer.
pub enum Fault {
    /// A field of fixed width reaches past the end of the buffer.
    ShortRead,
    /// The document does not start with a compound.
    RootNotCompound,
    /// A value of a kind that the format does not have was to be skipped.
    UnknownKind(u8),
    /// The activity field holds a value that is no whole number.
    UnexpectedFieldKind(u8),
    /// A declared length is negative, or the span that it announces reaches
    /// past the end of the buffer.
    SpanOverrun,
}

/// Where and why a walk stops without an answer: the fault, and how many
/// bytes behind the position it started from the reader stands then. A
/// field that cannot be read whole is not read at all, so the reader stands
/// before it.
pub struct Halt {
    pub fault: Fault,
    pub at: nat,
}

/// What a search through the members of a compound comes to.
pub enum Search {
    /// The activity field, decoded; with its value it ends this many bytes
    /// behind the start of the search.
    Found(i64, nat),
    /// No such field; the compound, its end tag included, takes this many
    /// bytes.
    Absent(nat),
    /// The walk stopped on a fault, this many bytes behind its start.
    Failed(Fault, nat),
}

/// The bytes of the name "InhabitedTime".
pub open spec fn target_name() -> Seq<u8> {
    seq![73u8, 110u8, 104u8, 97u8, 98u8, 105u8, 116u8, 101u8, 100u8, 84u8, 105u8, 109u8, 101u8]
}

/// The width of a value whose kind has a fixed width.
pub open spec fn scalar_width(kind: u8) -> Option<nat> {
    if kind == TAG_BYTE {
        Some(1)
    } else if kind == TAG_SHORT {
        Some(2)
    } else if kind == TAG_INT || kind == TAG_FLOAT {
        Some(4)
    } else if kind == TAG_LONG || kind == TAG_DOUBLE {
        Some(8)
    } else {
        None
    }
}

/// The bytes from `pos` to the end of `data`; none once `pos` is past it.
pub open spec fn remaining(data: Seq<u8>, pos: int) -> nat {
    if pos <= data.len() {
        (data.len() - pos) as nat
    } else {
        0
    }
}

/// A walk that stops on `fault` right where it started.
pub open spec fn halt(fault: Fault) -> Result<nat, Halt> {
    Err(Halt { fault, at: 0 })
}

/// An extent, or the place of a halt, `lead` bytes further from the front.
pub open spec fn after(lead: nat, extent: Result<nat, Halt>) -> Result<nat, Halt> {
    match extent {
        Ok(n) => Ok(lead + n),
        Err(stop) => Err(Halt { fault: stop.fault, at: lead + stop.at }),
    }
}

/// A search result, `lead` bytes further from the front.
pub open spec fn search_after(lead: nat, found: Search) -> Search {
    match found {
        Search::Found(value, n) => Search::Found(value, lead + n),
        Search::Absent(n) => Search::Absent(lead + n),
        Search::Failed(fault, at) => Search::Failed(fault, lead + at),
    }
}

/// The search that a walk comes to which stops before it has looked at a
/// member's value: it has failed.
pub open spec fn search_halted(lead: nat, stop: Halt) -> Search {
    Search::Failed(stop.fault, lead + stop.at)
}

/// The answer of a search, without the place where it ends.
pub open spec fn answer(found: Search) -> Result<Option<i64>, Fault> {
    match found {
        Search::Found(value, _) => Ok(Some(value)),
        Search::Absent(_) => Ok(None),
        Search::Failed(fault, _) => Err(fault),
    }
}

/// A field of `width` bytes at `pos`.
pub open spec fn fixed_extent(data: Seq<u8>, pos: int, width: nat) -> Result<nat, Halt> {
    if pos + width > data.len() {
        halt(Fault::ShortRead)
    } else {
        Ok(width)
    }
}

/// A span of `count` items of `width` bytes each at `pos`.
pub open spec fn span_extent(data: Seq<u8>, pos: int, count: int, width: nat) -> Result<
    nat,
    Halt,
> {
    if count < 0 || pos + count * width > data.len() {
        halt(Fault::SpanOverrun)
    } else {
        Ok((count * width) as nat)
    }
}

/// The length that the two-byte prefix at `pos` declares.
pub open spec fn text_len(data: Seq<u8>, pos: int) -> nat {
    be_nat(field(data, pos, 2))
}

/// A string at `pos`: a two-byte length, then that many bytes.
pub open spec fn text_extent(data: Seq<u8>, pos: int) -> Result<nat, Halt> {
    if pos + 2 > data.len() {
        halt(Fault::ShortRead)
    } else {
        after(2, span_extent(data, pos + 2, text_len(data, pos) as int, 1))
    }
}

/// Whether the string at `pos`, which lies within the buffer, is the name of
/// the activity field.
pub open spec fn is_target(data: Seq<u8>, pos: int) -> bool {
    field(data, pos + 2, text_len(data, pos) as int) == target_name()
}

/// An array at `pos`: a four-byte count, then that many items of `width`
/// bytes.
pub open spec fn array_extent(data: Seq<u8>, pos: int, width: nat) -> Result<nat, Halt> {
    if pos + 4 > data.len() {
        halt(Fault::ShortRead)
    } else {
        after(4, span_extent(data, pos + 4, be_int(data, pos, 4), width))
    }
}

/// A list at `pos`: the kind of its elements, a four-byte count, and the
/// elements. Elements of a fixed width are one span; others are stepped
/// over one by one.
pub open spec fn list_extent(data: Seq<u8>, pos: int) -> Result<nat, Halt>
    decreases remaining(data, pos), 1nat, 0nat,
{
    if pos + 1 > data.len() {
        halt(Fault::ShortRead)
    } else if pos + 5 > data.len() {
        after(1, halt(Fault::ShortRead))
    } else {
        let element = data[pos];
        let count = be_int(data, pos + 1, 4);
        if let Some(width) = scalar_width(element) {
            after(5, span_extent(data, pos + 5, count, width))
        } else if count < 0 {
            after(5, halt(Fault::SpanOverrun))
        } else {
            after(5, elements_extent(data, pos + 5, element, count as nat))
        }
    }
}

/// A value of kind `kind` at `pos`.
pub open spec fn value_extent(data: Seq<u8>, pos: int, kind: u8) -> Result<nat, Halt>
    decreases remaining(data, pos), 1nat, 1nat,
{
    if let Some(width) = scalar_width(kind) {
        fixed_extent(data, pos, width)
    } else if kind == TAG_BYTE_ARRAY {
        array_extent(data, pos, 1)
    } else if kind == TAG_STRING {
        text_extent(data, pos)
    } else if kind == TAG_LIST {
        list_extent(data, pos)
    } else if kind == TAG_COMPOUND {
        members_extent(data, pos)
    } else if kind == TAG_INT_ARRAY {
        array_extent(data, pos, 4)
    } else if kind == TAG_LONG_ARRAY {
        array_extent(data, pos, 8)
    } else {
        halt(Fault::UnknownKind(kind))
    }
}

/// `count` values of kind `kind`, one after the other, from `pos`.
pub open spec fn elements_extent(data: Seq<u8>, pos: int, kind: u8, count: nat) -> Result<
    nat,
    Halt,
>
    decreases remaining(data, pos), 2nat, count,
{
    if count == 0 {
        Ok(0)
    } else {
        match value_extent(data, pos, kind) {
            Ok(n) => after(n, elements_extent(data, pos + n, kind, (count - 1) as nat)),
            Err(stop) => Err(stop),
        }
    }
}

/// The members of a compound from `pos`, up to and with its end tag. Each
/// member is a kind byte, a name and a value of that kind.
pub open spec fn members_extent(data: Seq<u8>, pos: int) -> Result<nat, Halt>
    decreases remaining(data, pos), 0nat, 0nat,
{
    if pos + 1 > data.len() {
        halt(Fault::ShortRead)
    } else if data[pos] == TAG_END {
        Ok(1)
    } else {
        match text_extent(data, pos + 1) {
            Ok(n) => match value_extent(data, pos + 1 + n, data[pos]) {
                Ok(v) => after(1 + n + v, members_extent(data, pos + 1 + n + v)),
                Err(stop) => after(1 + n, Err(stop)),
            },
            Err(stop) => after(1, Err(stop)),
        }
    }
}

/// The whole number of kind `kind` at `pos`.
pub open spec fn scalar_value(data: Seq<u8>, pos: int, kind: u8) -> Result<i64, Fault> {
    if kind == TAG_BYTE {
        if pos + 1 > data.len() {
            Err(Fault::ShortRead)
        } else {
            Ok(be_int(data, pos, 1) as i64)
        }
    } else if kind == TAG_SHORT {
        if pos + 2 > data.len() {
            Err(Fault::ShortRead)
        } else {
            Ok(be_int(data, pos, 2) as i64)
        }
    } else if kind == TAG_INT {
        if pos + 4 > data.len() {
            Err(Fault::ShortRead)
        } else {
            Ok(be_int(data, pos, 4) as i64)
        }
    } else if kind == TAG_LONG {
        if pos + 8 > data.len() {
            Err(Fault::ShortRead)
        } else {
            Ok(be_int(data, pos, 8) as i64)
        }
    } else {
        Err(Fault::UnexpectedFieldKind(kind))
    }
}

/// What the member under the field's name gives, whose value of kind
/// `kind` stands at `pos`: the number, with the bytes that it takes, or a
/// fault, with the reader left before the value.
pub open spec fn field_value(data: Seq<u8>, pos: int, kind: u8) -> Search {
    match scalar_value(data, pos, kind) {
        Ok(value) => Search::Found(value, scalar_width(kind)->Some_0),
        Err(fault) => Search::Failed(fault, 0),
    }
}

/// What a search makes of one member, whose value of kind `kind` stands
/// at `pos`, and whose name is that of the field or not (`target`). The
/// field decides the search. A compound under another name is searched in
/// its turn while `levels` is not used up; any other value is stepped over.
/// A member that the search passes by counts as absent, with the bytes of
/// its value.
pub open spec fn member_search(data: Seq<u8>, pos: int, kind: u8, target: bool, levels: nat) -> Search
    decreases remaining(data, pos), 1nat,
{
    if target {
        field_value(data, pos, kind)
    } else if kind == TAG_COMPOUND && levels > 0 {
        search_members(data, pos, (levels - 1) as nat)
    } else {
        match value_extent(data, pos, kind) {
            Ok(v) => Search::Absent(v),
            Err(stop) => search_halted(0, stop),
        }
    }
}

/// The search for the activity field among the members of a compound from
/// `pos`. Members are taken in order, each with its kind byte and its name,
/// up to the end tag; the first that the search does not pass by decides.
pub open spec fn search_members(data: Seq<u8>, pos: int, levels: nat) -> Search
    decreases remaining(data, pos), 0nat,
{
    if pos + 1 > data.len() {
        Search::Failed(Fault::ShortRead, 0)
    } else if data[pos] == TAG_END {
        Search::Absent(1)
    } else {
        match text_extent(data, pos + 1) {
            Err(stop) => search_halted(1, stop),
            Ok(n) => match member_search(
                data,
                pos + 1 + n,
                data[pos],
                is_target(data, pos + 1),
                levels,
            ) {
                Search::Absent(m) => search_after(
                    1 + n + m,
                    search_members(data, pos + 1 + n + m, levels),
                ),
                other => search_after(1 + n, other),
            },
        }
    }
}

/// What a scan of a whole document comes to: the root must be a compound,
/// whose name is stepped over and whose members are searched.
pub open spec fn document_scan(data: Seq<u8>) -> Result<Option<i64>, Fault> {
    if data.len() < 1 {
        Err(Fault::ShortRead)
    } else if data[0] != TAG_COMPOUND {
        Err(Fault::RootNotCompound)
    } else {
        match text_extent(data, 1) {
            Err(stop) => Err(stop.fault),
            Ok(n) => answer(search_members(data, 1 + n as int, SEARCH_DEPTH as nat)),
        }
    }
}

/// Whether a value of the kind `kind` can be stepped over at all: the
/// kinds from byte to long array can, the end tag and every byte above
/// them cannot.
pub open spec fn known_kind(kind: u8) -> bool {
    TAG_BYTE <= kind <= TAG_LONG_ARRAY
}

/// Whether a fault is one of format, reported as such; the other one is the
/// short read.
pub open spec fn is_format_fault(fault: Fault) -> bool {
    !(fault is ShortRead)
}

/// A value that is stepped over ends within the buffer.
pub proof fn lemma_value_in_bounds(data: Seq<u8>, pos: int, kind: u8)
    requires
        0 <= pos,
    ensures
        value_extent(data, pos, kind) matches Ok(n) ==> pos + n <= data.len(),
    decreases remaining(data, pos), 1nat, 1nat,
{
    if kind == TAG_LIST {
        if pos + 5 <= data.len() {
            let count = be_int(data, pos + 1, 4);
            if scalar_width(data[pos]) is None && count >= 0 {
                lemma_elements_in_bounds(data, pos + 5, data[pos], count as nat);
            }
        }
    } else if kind == TAG_COMPOUND {
        lemma_members_in_bounds(data, pos);
    }
}

/// The elements of a list that are stepped over end within the buffer.
pub proof fn lemma_elements_in_bounds(data: Seq<u8>, pos: int, kind: u8, count: nat)
    requires
        0 <= pos <= data.len(),
    ensures
        elements_extent(data, pos, kind, count) matches Ok(n) ==> pos + n <= data.len(),
    decreases remaining(data, pos), 2nat, count,
{
    if count > 0 {
        lemma_value_in_bounds(data, pos, kind);
        if let Ok(n) = value_extent(data, pos, kind) {
            lemma_elements_in_bounds(data, pos + n, kind, (count - 1) as nat);
        }
    }
}

/// The members of a compound that are stepped over end within the buffer.
pub proof fn lemma_members_in_bounds(data: Seq<u8>, pos: int)
    requires
        0 <= pos,
    ensures
        members_extent(data, pos) matches Ok(n) ==> pos + n <= data.len(),
    decreases remaining(data, pos), 0nat, 0nat,
{
    if pos + 1 <= data.len() && data[pos] != TAG_END {
        if let Ok(n) = text_extent(data, pos + 1) {
            lemma_value_in_bounds(data, pos + 1 + n, data[pos]);
            if let Ok(v) = value_extent(data, pos + 1 + n, data[pos]) {
                lemma_members_in_bounds(data, pos + 1 + n + v);
            }
        }
    }
}

/// A search that finds no field ends within the buffer.
pub proof fn lemma_search_in_bounds(data: Seq<u8>, pos: int, levels: nat)
    requires
        0 <= pos,
    ensures
        search_members(data, pos, levels) matches Search::Absent(n) ==> pos + n <= data.len(),
    decreases remaining(data, pos), levels,
{
    reveal_with_fuel(search_members, 2);
    reveal_with_fuel(member_search, 2);
    if pos + 1 <= data.len() && data[pos] != TAG_END {
        if let Ok(n) = text_extent(data, pos + 1) {
            if is_target(data, pos + 1) {
            } else if data[pos] == TAG_COMPOUND && levels > 0 {
                lemma_search_in_bounds(data, pos + 1 + n, (levels - 1) as nat);
                if let Search::Absent(m) = search_members(data, pos + 1 + n, (levels - 1) as nat) {
                    lemma_search_in_bounds(data, pos + 1 + n + m, levels);
                }
            } else {
                lemma_value_in_bounds(data, pos + 1 + n, data[pos]);
                if let Ok(v) = value_extent(data, pos + 1 + n, data[pos]) {
                    lemma_search_in_bounds(data, pos + 1 + n + v, levels);
                }
            }
        }
    }
}

/// A kind byte that the format does not have makes the value that it
/// announces a format fault, wherever it stands and whatever follows it;
/// the walk stops before the value, with nothing of it read.
pub proof fn lemma_unknown_kind_faults(data: Seq<u8>, pos: int, kind: u8)
    requires
        !known_kind(kind),
    ensures
        value_extent(data, pos, kind) == halt(Fault::UnknownKind(kind)),
        scalar_value(data, pos, kind) == Err::<i64, Fault>(Fault::UnexpectedFieldKind(kind)),
{
}

/// A member whose kind byte the format does not have, and whose name lies
/// within the buffer, ends the walk on a format fault: in a search as when
/// a compound is stepped over.
pub proof fn lemma_unknown_member_faults(data: Seq<u8>, pos: int, levels: nat)
    requires
        0 <= pos < data.len(),
        data[pos] != TAG_END,
        !known_kind(data[pos]),
        text_extent(data, pos + 1) is Ok,
    ensures
        members_extent(data, pos) matches Err(stop) && stop.fault == Fault::UnknownKind(data[pos]),
        search_members(data, pos, levels) matches Search::Failed(fault, _) && is_format_fault(
            fault,
        ),
{
    reveal_with_fuel(search_members, 2);
    reveal_with_fuel(member_search, 2);
}

/// The span that the value of kind `kind` at `pos` announces: the bytes
/// before the span, and the number of bytes of the span. Strings, arrays
/// and lists of a kind of fixed width announce one.
pub open spec fn declared_span(data: Seq<u8>, pos: int, kind: u8) -> Option<(int, int)> {
    if kind == TAG_STRING {
        Some((2, text_len(data, pos) as int))
    } else if kind == TAG_BYTE_ARRAY {
        Some((4, be_int(data, pos, 4)))
    } else if kind == TAG_INT_ARRAY {
        Some((4, be_int(data, pos, 4) * 4))
    } else if kind == TAG_LONG_ARRAY {
        Some((4, be_int(data, pos, 4) * 8))
    } else if kind == TAG_LIST && scalar_width(data[pos]) is Some {
        Some((5, be_int(data, pos + 1, 4) * scalar_width(data[pos])->Some_0))
    } else {
        None
    }
}

/// A span that is announced and not there is a format fault: where the
/// length of a string, an array or a list of a kind of fixed width can be
/// read, and is negative or reaches past the end of the buffer. The walk
/// stops behind the length, with nothing of the span read.
pub proof fn lemma_truncated_span_faults(data: Seq<u8>, pos: int, kind: u8, lead: int, span: int)
    requires
        0 <= pos,
        declared_span(data, pos, kind) == Some((lead, span)),
        pos + lead <= data.len(),
        span < 0 || pos + lead + span > data.len(),
    ensures
        value_extent(data, pos, kind) == Err::<nat, Halt>(
            Halt { fault: Fault::SpanOverrun, at: lead as nat },
        ),
{
    if kind == TAG_LIST {
        let width = scalar_width(data[pos])->Some_0;
        let count = be_int(data, pos + 1, 4);
        assert(count < 0 <==> count * width < 0) by (nonlinear_arith)
            requires
                1 <= width <= 8,
        ;
    }
}

/// A name that cannot be read ends the walk through a compound on its
/// fault, in a search as when the compound is stepped over.
pub proof fn lemma_name_fault_ends_walk(data: Seq<u8>, pos: int, levels: nat, stop: Halt)
    requires
        0 <= pos < data.len(),
        data[pos] != TAG_END,
        text_extent(data, pos + 1) == Err::<nat, Halt>(stop),
    ensures
        members_extent(data, pos) == after(1, Err(stop)),
        search_members(data, pos, levels) == search_halted(1, stop),
{
    reveal_with_fuel(search_members, 2);
    reveal_with_fuel(member_search, 2);
}

/// A value that cannot be stepped over ends the walk through a compound on
/// its fault, in a search as when the compound is stepped over.
pub proof fn lemma_value_fault_ends_walk(
    data: Seq<u8>,
    pos: int,
    levels: nat,
    name: nat,
    stop: Halt,
)
    requires
        0 <= pos < data.len(),
        data[pos] != TAG_END,
        text_extent(data, pos + 1) == Ok::<nat, Halt>(name),
        value_extent(data, pos + 1 + name, data[pos]) == Err::<nat, Halt>(stop),
    ensures
        members_extent(data, pos) == after(1 + name, Err(stop)),
        !is_target(data, pos + 1) && !(data[pos] == TAG_COMPOUND && levels > 0) ==> search_members(
            data,
            pos,
            levels,
        ) == search_halted(1 + name, stop),
{
    reveal_with_fuel(search_members, 2);
    reveal_with_fuel(member_search, 2);
}

} // verus!

//! What the scanner does on the bytes of a well-formed document.

use crate::document::{
    be_bytes, encode, encode_document, encode_ints, encode_items, encode_longs, encode_members,
    encode_text, kind_of, number_of, signed_bytes, well_formed, Member, Value,
};
use crate::grammar::{
    answer, array_extent, document_scan, elements_extent, is_target, member_search,
    members_extent,
    scalar_value, scalar_width, search_members, target_name, text_extent, text_len,
    value_extent, Fault, Halt, Search, SEARCH_DEPTH, TAG_COMPOUND,
};
use crate::reader::{be_int, be_nat, field, pow256};
use vstd::arithmetic::div_mod::lemma_mod_breakdown;
use vstd::prelude::*;

verus! {

/// Whether `data` holds the bytes `part` from `pos` on.
pub open spec fn holds(data: Seq<u8>, pos: int, part: Seq<u8>) -> bool {
    &&& 0 <= pos
    &&& pos + part.len() <= data.len()
    &&& data.subrange(pos, pos + part.len()) == part
}

/// Where a buffer holds two parts in a row, it holds each of them.
pub proof fn lemma_holds_split(data: Seq<u8>, pos: int, head: Seq<u8>, tail: Seq<u8>)
    requires
        holds(data, pos, head + tail),
    ensures
        holds(data, pos, head),
        holds(data, pos + head.len(), tail),
{
    let whole = head + tail;
    assert forall|i: int| 0 <= i < whole.len() implies data[pos + i] == whole[i] by {
        assert(data.subrange(pos, pos + whole.len())[i] == data[pos + i]);
    }
    assert(data.subrange(pos, pos + head.len()) =~= head) by {
        assert forall|i: int| 0 <= i < head.len() implies data[pos + i] == head[i] by {
            assert(whole[i] == head[i]);
        }
    }
    assert(data.subrange(pos + head.len(), pos + head.len() + tail.len()) =~= tail) by {
        assert forall|i: int| 0 <= i < tail.len() implies data[pos + head.len() + i]
            == tail[i] by {
            assert(whole[head.len() + i] == tail[i]);
        }
    }
}

/// The powers of 256 for the widths that the format has.
pub proof fn lemma_pow256_values()
    ensures
        pow256(0) == 1,
        pow256(1) == 0x100,
        pow256(2) == 0x1_0000,
        pow256(4) == 0x1_0000_0000,
        pow256(8) == 0x1_0000_0000_0000_0000,
{
    reveal_with_fuel(pow256, 9);
}

/// A number written in `width` bytes takes `width` bytes, and reads back
/// as itself modulo 256 to the `width`.
pub proof fn lemma_be_bytes(n: nat, width: nat)
    ensures
        be_bytes(n, width).len() == width,
        pow256(width) > 0,
        be_nat(be_bytes(n, width)) == (n as int) % pow256(width),
    decreases width,
{
    if width > 0 {
        let rest = (width - 1) as nat;
        lemma_be_bytes(n / 256, rest);
        let bytes = be_bytes(n, width);
        assert(bytes.drop_last() =~= be_bytes(n / 256, rest));
        assert(bytes.last() == (n % 256) as u8);
        lemma_mod_breakdown(n as int, 256, pow256(rest));
        assert(pow256(width) == 256 * pow256(rest));
    } else {
        assert(pow256(0) == 1);
    }
}

/// A length that fits its prefix reads back as itself.
pub proof fn lemma_length_prefix(data: Seq<u8>, pos: int, len: nat, width: nat)
    requires
        holds(data, pos, be_bytes(len, width)),
        width == 2 || width == 4,
        width == 2 ==> len <= u16::MAX,
        width == 4 ==> len <= i32::MAX,
    ensures
        be_nat(field(data, pos, width as int)) == len,
        width == 4 ==> be_int(data, pos, 4) == len,
{
    lemma_be_bytes(len, width);
    lemma_pow256_values();
}

/// A whole number written in two's complement reads back as itself.
pub proof fn lemma_signed_bytes(data: Seq<u8>, pos: int, v: int, width: nat)
    requires
        holds(data, pos, signed_bytes(v, width)),
        width == 1 || width == 2 || width == 4 || width == 8,
        -pow256(width) <= 2 * v < pow256(width),
    ensures
        signed_bytes(v, width).len() == width,
        be_int(data, pos, width as int) == v,
{
    lemma_pow256_values();
    if v < 0 {
        lemma_be_bytes((v + pow256(width)) as nat, width);
    } else {
        lemma_be_bytes(v as nat, width);
    }
}

/// A string that a buffer holds is stepped over as a whole, and read as
/// the bytes that were written.
pub proof fn lemma_text(data: Seq<u8>, pos: int, bytes: Seq<u8>)
    requires
        holds(data, pos, encode_text(bytes)),
        bytes.len() <= u16::MAX,
    ensures
        encode_text(bytes).len() == 2 + bytes.len(),
        text_extent(data, pos) == Ok::<nat, Halt>(2 + bytes.len()),
        text_len(data, pos) == bytes.len(),
        field(data, pos + 2, bytes.len() as int) == bytes,
{
    lemma_be_bytes(bytes.len(), 2);
    lemma_holds_split(data, pos, be_bytes(bytes.len(), 2), bytes);
    lemma_length_prefix(data, pos, bytes.len(), 2);
}

/// An array that a buffer holds is stepped over as a whole.
pub proof fn lemma_array(data: Seq<u8>, pos: int, count: nat, payload: Seq<u8>, width: nat)
    requires
        holds(data, pos, be_bytes(count, 4) + payload),
        payload.len() == count * width,
        count <= i32::MAX,
    ensures
        be_bytes(count, 4).len() == 4,
        array_extent(data, pos, width) == Ok::<nat, Halt>(4 + payload.len()),
{
    lemma_be_bytes(count, 4);
    lemma_holds_split(data, pos, be_bytes(count, 4), payload);
    lemma_length_prefix(data, pos, count, 4);
}

/// The numbers of an array take four bytes each.
pub proof fn lemma_encode_ints_len(items: Seq<i32>)
    ensures
        encode_ints(items).len() == items.len() * 4,
    decreases items.len(),
{
    if items.len() > 0 {
        lemma_encode_ints_len(items.drop_last());
        if items.last() < 0 {
            lemma_be_bytes((items.last() + pow256(4)) as nat, 4);
        } else {
            lemma_be_bytes(items.last() as nat, 4);
        }
    }
}

/// The numbers of an array take eight bytes each.
pub proof fn lemma_encode_longs_len(items: Seq<i64>)
    ensures
        encode_longs(items).len() == items.len() * 8,
    decreases items.len(),
{
    if items.len() > 0 {
        lemma_encode_longs_len(items.drop_last());
        if items.last() < 0 {
            lemma_be_bytes((items.last() + pow256(8)) as nat, 8);
        } else {
            lemma_be_bytes(items.last() as nat, 8);
        }
    }
}

/// A value of a kind of fixed width takes that many bytes.
pub proof fn lemma_scalar_len(value: Value)
    requires
        well_formed(value),
        scalar_width(kind_of(value)) is Some,
    ensures
        encode(value).len() == scalar_width(kind_of(value))->Some_0,
{
    lemma_pow256_values();
    match value {
        Value::Byte(v) => {
            if v < 0 {
                lemma_be_bytes((v + pow256(1)) as nat, 1);
            } else {
                lemma_be_bytes(v as nat, 1);
            }
        },
        Value::Short(v) => {
            if v < 0 {
                lemma_be_bytes((v + pow256(2)) as nat, 2);
            } else {
                lemma_be_bytes(v as nat, 2);
            }
        },
        Value::Int(v) => {
            if v < 0 {
                lemma_be_bytes((v + pow256(4)) as nat, 4);
            } else {
                lemma_be_bytes(v as nat, 4);
            }
        },
        Value::Long(v) => {
            if v < 0 {
                lemma_be_bytes((v + pow256(8)) as nat, 8);
            } else {
                lemma_be_bytes(v as nat, 8);
            }
        },
        _ => {},
    }
}

/// Whether every value of `items` is well formed and of kind `kind`.
pub open spec fn items_of_kind(items: Seq<Value>, kind: u8) -> bool {
    forall|i: int|
        0 <= i < items.len() ==> kind_of(#[trigger] items[i]) == kind && well_formed(items[i])
}

/// Whether every member of `members` is well formed.
pub open spec fn members_well_formed(members: Seq<Member>) -> bool {
    forall|i: int|
        0 <= i < members.len() ==> (#[trigger] members[i]).name.len() <= u16::MAX && well_formed(
            members[i].value,
        )
}

/// The elements of a list of a kind of fixed width take that width each.
pub proof fn lemma_scalar_items_len(items: Seq<Value>, from: int, kind: u8)
    requires
        items_of_kind(items, kind),
        scalar_width(kind) is Some,
        0 <= from <= items.len(),
    ensures
        encode_items(items, from).len() == (items.len() - from) * scalar_width(kind)->Some_0,
    decreases items.len() - from,
{
    if from < items.len() {
        lemma_scalar_len(items[from]);
        lemma_scalar_items_len(items, from + 1, kind);
        let width = scalar_width(kind)->Some_0;
        assert((items.len() - from) * width == width + (items.len() - (from + 1)) * width)
            by (nonlinear_arith);
    }
}

/// A well-formed value that a buffer holds is stepped over as a whole.
pub proof fn lemma_skip_value(data: Seq<u8>, pos: int, value: Value)
    requires
        well_formed(value),
        holds(data, pos, encode(value)),
    ensures
        value_extent(data, pos, kind_of(value)) == Ok::<nat, Halt>(encode(value).len()),
    decreases value, 0nat,
{
    match value {
        Value::ByteArray(bytes) => {
            lemma_array(data, pos, bytes.len(), bytes, 1);
        },
        Value::Text(bytes) => {
            lemma_text(data, pos, bytes);
        },
        Value::List(kind, items) => {
            let head = seq![kind] + be_bytes(items.len(), 4);
            let body = encode_items(items, 0);
            lemma_be_bytes(items.len(), 4);
            lemma_holds_split(data, pos, head, body);
            lemma_holds_split(data, pos, seq![kind], be_bytes(items.len(), 4));
            lemma_length_prefix(data, pos + 1, items.len(), 4);
            assert(data[pos] == kind) by {
                assert(data.subrange(pos, pos + 1)[0] == data[pos]);
            }
            if scalar_width(kind) is Some {
                lemma_scalar_items_len(items, 0, kind);
            } else {
                lemma_skip_items(data, pos + 5, items, 0, kind);
            }
        },
        Value::Compound(members) => {
            lemma_skip_members(data, pos, members, 0);
        },
        Value::IntArray(items) => {
            lemma_encode_ints_len(items);
            lemma_array(data, pos, items.len(), encode_ints(items), 4);
        },
        Value::LongArray(items) => {
            lemma_encode_longs_len(items);
            lemma_array(data, pos, items.len(), encode_longs(items), 8);
        },
        _ => {
            lemma_scalar_len(value);
        },
    }
}

/// The elements of a list that a buffer holds are stepped over one by one,
/// to the end of the last.
pub proof fn lemma_skip_items(data: Seq<u8>, pos: int, items: Seq<Value>, from: int, kind: u8)
    requires
        items_of_kind(items, kind),
        0 <= from <= items.len(),
        holds(data, pos, encode_items(items, from)),
    ensures
        elements_extent(data, pos, kind, (items.len() - from) as nat) == Ok::<nat, Halt>(
            encode_items(items, from).len(),
        ),
    decreases items, items.len() - from,
{
    if from < items.len() {
        let head = encode(items[from]);
        lemma_holds_split(data, pos, head, encode_items(items, from + 1));
        lemma_skip_value(data, pos, items[from]);
        lemma_skip_items(data, pos + head.len(), items, from + 1, kind);
    }
}

/// The members of a compound that a buffer holds are stepped over one by
/// one, to the end tag and past it.
pub proof fn lemma_skip_members(data: Seq<u8>, pos: int, members: Seq<Member>, from: int)
    requires
        members_well_formed(members),
        0 <= from <= members.len(),
        holds(data, pos, encode_members(members, from)),
    ensures
        members_extent(data, pos) == Ok::<nat, Halt>(encode_members(members, from).len()),
    decreases members, members.len() - from,
{
    assert(data[pos] == encode_members(members, from)[0]) by {
        assert(data.subrange(pos, pos + encode_members(members, from).len())[0] == data[pos]);
    }
    if from < members.len() {
        let member = members[from];
        let kind = seq![kind_of(member.value)];
        let name = encode_text(member.name);
        let value = encode(member.value);
        let rest = encode_members(members, from + 1);
        lemma_holds_split(data, pos, kind + name + value, rest);
        lemma_holds_split(data, pos, kind + name, value);
        lemma_holds_split(data, pos, kind, name);
        lemma_text(data, pos + 1, member.name);
        lemma_skip_value(data, pos + 1 + name.len(), member.value);
        lemma_skip_members(data, pos + 1 + name.len() + value.len(), members, from + 1);
    }
}

/// The value that a search meets first under the name of the activity
/// field: members are taken in order from the one with index `from`, and a
/// compound under another name is searched before the member after it, as
/// long as `levels` is not used up. What lies in a list, or deeper than
/// `levels` compounds down, is never met.
pub open spec fn lookup(members: Seq<Member>, from: int, levels: nat) -> Option<Value>
    decreases levels, members.len() - from,
{
    if 0 <= from < members.len() {
        if members[from].name == target_name() {
            Some(members[from].value)
        } else if levels > 0 && members[from].value is Compound {
            match lookup(members[from].value->Compound_0, 0, (levels - 1) as nat) {
                Some(found) => Some(found),
                None => lookup(members, from + 1, levels),
            }
        } else {
            lookup(members, from + 1, levels)
        }
    } else {
        None
    }
}

/// Whether the member with index `i` keeps the search from nothing: it is
/// not under the field's name, and if it is a compound that is searched,
/// the field is not met in it.
pub open spec fn passed_by(members: Seq<Member>, i: int, levels: nat) -> bool {
    &&& members[i].name != target_name()
    &&& levels > 0 && members[i].value is Compound ==> lookup(
        members[i].value->Compound_0,
        0,
        (levels - 1) as nat,
    ) is None
}

/// The siblings of the field do not matter: whatever stands before it, of
/// whatever kind and in whatever order, as long as the field is not met
/// there, and whatever stands behind it, the search meets the field.
pub proof fn lemma_siblings_do_not_matter(
    members: Seq<Member>,
    from: int,
    at: int,
    levels: nat,
)
    requires
        0 <= from <= at < members.len(),
        members[at].name == target_name(),
        forall|i: int| from <= i < at ==> passed_by(members, i, levels),
    ensures
        lookup(members, from, levels) == Some(members[at].value),
    decreases at - from,
{
    if from < at {
        assert(passed_by(members, from, levels));
        lemma_siblings_do_not_matter(members, from + 1, at, levels);
    }
}

/// Where the search passes by every member, it meets no field.
pub proof fn lemma_all_passed_by(members: Seq<Member>, from: int, levels: nat)
    requires
        0 <= from,
        forall|i: int| from <= i < members.len() ==> passed_by(members, i, levels),
    ensures
        lookup(members, from, levels) is None,
    decreases members.len() - from,
{
    if from < members.len() {
        assert(passed_by(members, from, levels));
        lemma_all_passed_by(members, from + 1, levels);
    }
}

/// The search goes down into the first compound that holds the field
/// within reach: what it meets there is what it meets.
pub proof fn lemma_search_descends(members: Seq<Member>, from: int, at: int, levels: nat)
    requires
        0 <= from <= at < members.len(),
        levels > 0,
        members[at].name != target_name(),
        members[at].value is Compound,
        lookup(members[at].value->Compound_0, 0, (levels - 1) as nat) is Some,
        forall|i: int| from <= i < at ==> passed_by(members, i, levels),
    ensures
        lookup(members, from, levels) == lookup(
            members[at].value->Compound_0,
            0,
            (levels - 1) as nat,
        ),
    decreases at - from,
{
    if from < at {
        assert(passed_by(members, from, levels));
        lemma_search_descends(members, from + 1, at, levels);
    }
}

/// Whether no member is under the field's name and none is a compound.
pub open spec fn plain(members: Seq<Member>) -> bool {
    forall|i: int|
        0 <= i < members.len() ==> (#[trigger] members[i]).name != target_name()
            && !(members[i].value is Compound)
}

/// The members of a compound that holds the member `field` exactly `depth`
/// compounds down: at every level the members `before`, then the compound
/// that leads further down, under the name `name`, or at last the field,
/// then the members `behind`.
pub open spec fn buried(
    depth: nat,
    name: Seq<u8>,
    field: Member,
    before: Seq<Member>,
    behind: Seq<Member>,
) -> Seq<Member>
    decreases depth,
{
    if depth == 0 {
        before + seq![field] + behind
    } else {
        before + seq![
            Member {
                name,
                value: Value::Compound(buried((depth - 1) as nat, name, field, before, behind)),
            },
        ] + behind
    }
}

/// The depth bound decides: a field that lies `depth` compounds below the
/// compound that is searched, among members that are neither compounds nor
/// under its name, is met exactly where the search goes that deep.
pub proof fn lemma_depth_decides(
    depth: nat,
    levels: nat,
    name: Seq<u8>,
    field: Member,
    before: Seq<Member>,
    behind: Seq<Member>,
)
    requires
        name != target_name(),
        field.name == target_name(),
        plain(before),
        plain(behind),
    ensures
        lookup(buried(depth, name, field, before, behind), 0, levels) == if depth <= levels {
            Some(field.value)
        } else {
            None
        },
    decreases depth,
{
    let members = buried(depth, name, field, before, behind);
    let at = before.len() as int;
    assert forall|i: int| 0 <= i < members.len() && i != at implies passed_by(
        members,
        i,
        levels,
    ) by {
        if i < at {
            assert(members[i] == before[i]);
        } else {
            assert(members[i] == behind[i - at - 1]);
        }
    }
    if depth == 0 {
        assert(members[at] == field);
        lemma_siblings_do_not_matter(members, 0, at, levels);
    } else {
        let inner = buried((depth - 1) as nat, name, field, before, behind);
        assert(members[at] == Member { name, value: Value::Compound(inner) });
        if levels > 0 {
            lemma_depth_decides((depth - 1) as nat, (levels - 1) as nat, name, field, before, behind);
        }
        if depth <= levels {
            lemma_search_descends(members, 0, at, levels);
        } else {
            assert(passed_by(members, at, levels));
            lemma_all_passed_by(members, 0, levels);
        }
    }
}

/// The answer that a value under the field's name gives: its number, or a
/// format fault where it is no whole number.
pub open spec fn field_answer(value: Value) -> Result<Option<i64>, Fault> {
    match number_of(value) {
        Some(number) => Ok(Some(number)),
        None => Err(Fault::UnexpectedFieldKind(kind_of(value))),
    }
}

/// What a search comes to that meets `found` first, in a compound whose
/// members take `extent` bytes: without the field it ends behind the
/// compound; with it, it gives the field's answer.
pub open spec fn outcome(search: Search, found: Option<Value>, extent: nat) -> bool {
    match found {
        None => search == Search::Absent(extent),
        Some(value) => answer(search) == field_answer(value),
    }
}

/// A whole number that a buffer holds under the name of the activity field
/// is decoded as it was written; a value of any other kind is refused.
pub proof fn lemma_scalar_value(data: Seq<u8>, pos: int, value: Value)
    requires
        well_formed(value),
        holds(data, pos, encode(value)),
    ensures
        scalar_value(data, pos, kind_of(value)) == match number_of(value) {
            Some(number) => Ok::<i64, Fault>(number),
            None => Err::<i64, Fault>(Fault::UnexpectedFieldKind(kind_of(value))),
        },
{
    lemma_pow256_values();
    match value {
        Value::Byte(v) => {
            lemma_signed_bytes(data, pos, v as int, 1);
        },
        Value::Short(v) => {
            lemma_signed_bytes(data, pos, v as int, 2);
        },
        Value::Int(v) => {
            lemma_signed_bytes(data, pos, v as int, 4);
        },
        Value::Long(v) => {
            lemma_signed_bytes(data, pos, v as int, 8);
        },
        _ => {},
    }
}

/// On the members of a compound that a buffer holds, the search comes to
/// what the first value under the field's name gives, or to the end of the
/// compound where there is none.
pub proof fn lemma_search_members(
    data: Seq<u8>,
    pos: int,
    members: Seq<Member>,
    from: int,
    levels: nat,
)
    requires
        members_well_formed(members),
        0 <= from <= members.len(),
        holds(data, pos, encode_members(members, from)),
    ensures
        outcome(
            search_members(data, pos, levels),
            lookup(members, from, levels),
            encode_members(members, from).len(),
        ),
    decreases levels, members.len() - from,
{
    reveal_with_fuel(search_members, 2);
    reveal_with_fuel(member_search, 2);
    assert(data[pos] == encode_members(members, from)[0]) by {
        assert(data.subrange(pos, pos + encode_members(members, from).len())[0] == data[pos]);
    }
    if from < members.len() {
        let member = members[from];
        let kind = seq![kind_of(member.value)];
        let name = encode_text(member.name);
        let value = encode(member.value);
        let rest = encode_members(members, from + 1);
        lemma_holds_split(data, pos, kind + name + value, rest);
        lemma_holds_split(data, pos, kind + name, value);
        lemma_holds_split(data, pos, kind, name);
        lemma_text(data, pos + 1, member.name);
        let at = pos + 1 + name.len();
        assert(is_target(data, pos + 1) == (member.name == target_name()));
        if member.name == target_name() {
            lemma_scalar_value(data, at, member.value);
        } else if levels > 0 && member.value is Compound {
            let inner = member.value->Compound_0;
            lemma_search_members(data, at, inner, 0, (levels - 1) as nat);
            if lookup(inner, 0, (levels - 1) as nat) is None {
                lemma_search_members(data, at + value.len(), members, from + 1, levels);
            }
        } else {
            lemma_skip_value(data, at, member.value);
            lemma_search_members(data, at + value.len(), members, from + 1, levels);
        }
    }
}

/// On the bytes of a compound that holds the field `depth` compounds down,
/// a search that goes `levels` compounds down returns the field's answer
/// where `depth` is within `levels`, and "not found" where it is not.
pub proof fn lemma_search_to_depth(
    data: Seq<u8>,
    pos: int,
    depth: nat,
    levels: nat,
    name: Seq<u8>,
    field: Member,
    before: Seq<Member>,
    behind: Seq<Member>,
)
    requires
        name != target_name(),
        field.name == target_name(),
        plain(before),
        plain(behind),
        members_well_formed(buried(depth, name, field, before, behind)),
        holds(data, pos, encode_members(buried(depth, name, field, before, behind), 0)),
    ensures
        answer(search_members(data, pos, levels)) == if depth <= levels {
            field_answer(field.value)
        } else {
            Ok::<Option<i64>, Fault>(None)
        },
{
    lemma_depth_decides(depth, levels, name, field, before, behind);
    lemma_search_members(data, pos, buried(depth, name, field, before, behind), 0, levels);
}

/// Whether the members of a document, and the name of its root, can be
/// written out.
pub open spec fn document_well_formed(root_name: Seq<u8>, members: Seq<Member>) -> bool {
    root_name.len() <= u16::MAX && members_well_formed(members)
}

/// The first value under the field's name that lies within reach of the
/// scanner: in the root compound, or in a compound at most two levels
/// further down.
pub open spec fn field_in_reach(members: Seq<Member>) -> Option<Value> {
    lookup(members, 0, SEARCH_DEPTH as nat)
}

/// On the bytes of a well-formed document the scanner returns what the
/// first value in reach under the field's name gives: its number, or a
/// format error where it is no whole number, or that there is none.
pub proof fn lemma_scan_of_document(root_name: Seq<u8>, members: Seq<Member>)
    requires
        document_well_formed(root_name, members),
    ensures
        document_scan(encode_document(root_name, members)) == match field_in_reach(members) {
            None => Ok::<Option<i64>, Fault>(None),
            Some(value) => field_answer(value),
        },
{
    let data = encode_document(root_name, members);
    let head = seq![TAG_COMPOUND] + encode_text(root_name);
    let body = encode_members(members, 0);
    assert(data.subrange(0, data.len() as int) =~= data);
    lemma_holds_split(data, 0, head, body);
    lemma_holds_split(data, 0, seq![TAG_COMPOUND], encode_text(root_name));
    lemma_text(data, 1, root_name);
    assert(data[0] == TAG_COMPOUND);
    lemma_search_members(
        data,
        1 + encode_text(root_name).len() as int,
        members,
        0,
        SEARCH_DEPTH as nat,
    );
}

/// A document that holds the activity field as a whole number, in the root
/// compound or in a compound within reach, scans to exactly that number,
/// whatever else the document holds and in whatever order.
pub proof fn lemma_field_is_found(root_name: Seq<u8>, members: Seq<Member>, number: i64)
    requires
        document_well_formed(root_name, members),
        field_in_reach(members) matches Some(value) && number_of(value) == Some(number),
    ensures
        document_scan(encode_document(root_name, members)) == Ok::<Option<i64>, Fault>(
            Some(number),
        ),
{
    lemma_scan_of_document(root_name, members);
}

/// A document without the activity field within reach scans to "not found",
/// and to no error, even where the field lies deeper down or in a list.
pub proof fn lemma_field_is_absent(root_name: Seq<u8>, members: Seq<Member>)
    requires
        document_well_formed(root_name, members),
        field_in_reach(members) is None,
    ensures
        document_scan(encode_document(root_name, members)) == Ok::<Option<i64>, Fault>(None),
{
    lemma_scan_of_document(root_name, members);
}

/// Whether `data` ends within `part` written at `pos`: it holds the bytes
/// of `part` from `pos` up to its own end, and `part` goes on.
pub open spec fn cut_in(data: Seq<u8>, pos: int, part: Seq<u8>) -> bool {
    &&& 0 <= pos <= data.len() < pos + part.len()
    &&& data.subrange(pos, data.len() as int) == part.take(data.len() - pos)
}

/// Whether a fault is one that the end of the buffer brings about: a short
/// read, or a span that is announced and not there.
pub open spec fn is_truncation(fault: Fault) -> bool {
    fault is ShortRead || fault is SpanOverrun
}

/// Where a buffer ends within two parts in a row, it ends within the first,
/// or holds the first and ends within the second.
pub proof fn lemma_cut_split(data: Seq<u8>, pos: int, head: Seq<u8>, tail: Seq<u8>)
    requires
        cut_in(data, pos, head + tail),
    ensures
        data.len() < pos + head.len() ==> cut_in(data, pos, head),
        data.len() >= pos + head.len() ==> holds(data, pos, head) && cut_in(
            data,
            pos + head.len(),
            tail,
        ),
{
    let whole = head + tail;
    let left = data.len() - pos;
    assert forall|i: int| 0 <= i < left implies data[pos + i] == whole[i] by {
        assert(data.subrange(pos, data.len() as int)[i] == data[pos + i]);
        assert(whole.take(left)[i] == whole[i]);
    }
    if data.len() < pos + head.len() {
        assert(data.subrange(pos, data.len() as int) =~= head.take(left)) by {
            assert forall|i: int| 0 <= i < left implies data[pos + i] == head[i] by {
                assert(whole[i] == head[i]);
            }
        }
    } else {
        assert(data.subrange(pos, pos + head.len()) =~= head) by {
            assert forall|i: int| 0 <= i < head.len() implies data[pos + i] == head[i] by {
                assert(whole[i] == head[i]);
            }
        }
        assert(data.subrange(pos + head.len(), data.len() as int) =~= tail.take(
            left - head.len(),
        )) by {
            assert forall|i: int| 0 <= i < left - head.len() implies data[pos + head.len() + i]
                == tail[i] by {
                assert(whole[head.len() + i] == tail[i]);
            }
        }
    }
}

/// A string within which the buffer ends cannot be stepped over.
pub proof fn lemma_cut_text(data: Seq<u8>, pos: int, bytes: Seq<u8>)
    requires
        cut_in(data, pos, encode_text(bytes)),
        bytes.len() <= u16::MAX,
    ensures
        text_extent(data, pos) matches Err(stop) && is_truncation(stop.fault),
{
    lemma_be_bytes(bytes.len(), 2);
    lemma_cut_split(data, pos, be_bytes(bytes.len(), 2), bytes);
    if data.len() >= pos + 2 {
        lemma_length_prefix(data, pos, bytes.len(), 2);
    }
}

/// An array within which the buffer ends cannot be stepped over.
pub proof fn lemma_cut_array(data: Seq<u8>, pos: int, count: nat, payload: Seq<u8>, width: nat)
    requires
        cut_in(data, pos, be_bytes(count, 4) + payload),
        payload.len() == count * width,
        count <= i32::MAX,
    ensures
        array_extent(data, pos, width) matches Err(stop) && is_truncation(stop.fault),
{
    lemma_be_bytes(count, 4);
    lemma_cut_split(data, pos, be_bytes(count, 4), payload);
    if data.len() >= pos + 4 {
        lemma_length_prefix(data, pos, count, 4);
    }
}

/// A well-formed value within which the buffer ends cannot be stepped
/// over: the walk stops on a short read or on a span that is not there.
pub proof fn lemma_cut_value(data: Seq<u8>, pos: int, value: Value)
    requires
        well_formed(value),
        cut_in(data, pos, encode(value)),
    ensures
        value_extent(data, pos, kind_of(value)) matches Err(stop) && is_truncation(stop.fault),
    decreases value, 0nat,
{
    match value {
        Value::ByteArray(bytes) => {
            lemma_cut_array(data, pos, bytes.len(), bytes, 1);
        },
        Value::Text(bytes) => {
            lemma_cut_text(data, pos, bytes);
        },
        Value::List(kind, items) => {
            let head = seq![kind] + be_bytes(items.len(), 4);
            let body = encode_items(items, 0);
            lemma_be_bytes(items.len(), 4);
            lemma_cut_split(data, pos, head, body);
            if data.len() >= pos + 5 {
                lemma_holds_split(data, pos, seq![kind], be_bytes(items.len(), 4));
                lemma_length_prefix(data, pos + 1, items.len(), 4);
                assert(data[pos] == kind) by {
                    assert(data.subrange(pos, pos + 1)[0] == data[pos]);
                }
                if scalar_width(kind) is Some {
                    lemma_scalar_items_len(items, 0, kind);
                } else {
                    lemma_cut_items(data, pos + 5, items, 0, kind);
                }
            }
        },
        Value::Compound(members) => {
            lemma_cut_members(data, pos, members, 0);
        },
        Value::IntArray(items) => {
            lemma_encode_ints_len(items);
            lemma_cut_array(data, pos, items.len(), encode_ints(items), 4);
        },
        Value::LongArray(items) => {
            lemma_encode_longs_len(items);
            lemma_cut_array(data, pos, items.len(), encode_longs(items), 8);
        },
        _ => {
            lemma_scalar_len(value);
        },
    }
}

/// The elements of a list within which the buffer ends cannot be stepped
/// over.
pub proof fn lemma_cut_items(data: Seq<u8>, pos: int, items: Seq<Value>, from: int, kind: u8)
    requires
        items_of_kind(items, kind),
        0 <= from <= items.len(),
        cut_in(data, pos, encode_items(items, from)),
    ensures
        elements_extent(data, pos, kind, (items.len() - from) as nat) matches Err(stop)
            && is_truncation(stop.fault),
    decreases items, items.len() - from,
{
    if from < items.len() {
        let head = encode(items[from]);
        lemma_cut_split(data, pos, head, encode_items(items, from + 1));
        if data.len() < pos + head.len() {
            lemma_cut_value(data, pos, items[from]);
        } else {
            lemma_skip_value(data, pos, items[from]);
            lemma_cut_items(data, pos + head.len(), items, from + 1, kind);
        }
    }
}

/// The members of a compound within which the buffer ends cannot be
/// stepped over.
pub proof fn lemma_cut_members(data: Seq<u8>, pos: int, members: Seq<Member>, from: int)
    requires
        members_well_formed(members),
        0 <= from <= members.len(),
        cut_in(data, pos, encode_members(members, from)),
    ensures
        members_extent(data, pos) matches Err(stop) && is_truncation(stop.fault),
    decreases members, members.len() - from,
{
    if from < members.len() {
        let member = members[from];
        let kind = seq![kind_of(member.value)];
        let name = encode_text(member.name);
        let value = encode(member.value);
        let rest = encode_members(members, from + 1);
        lemma_be_bytes(member.name.len(), 2);
        lemma_cut_split(data, pos, kind + name + value, rest);
        if data.len() < pos + (kind + name + value).len() {
            lemma_cut_split(data, pos, kind + name, value);
            if data.len() < pos + (kind + name).len() {
                lemma_cut_split(data, pos, kind, name);
                if data.len() >= pos + 1 {
                    assert(data[pos] == kind[0]) by {
                        assert(data.subrange(pos, pos + 1)[0] == data[pos]);
                    }
                    lemma_cut_text(data, pos + 1, member.name);
                }
            } else {
                lemma_holds_split(data, pos, kind, name);
                assert(data[pos] == kind[0]) by {
                    assert(data.subrange(pos, pos + 1)[0] == data[pos]);
                }
                lemma_text(data, pos + 1, member.name);
                lemma_cut_value(data, pos + 1 + name.len(), member.value);
            }
        } else {
            lemma_holds_split(data, pos, kind + name, value);
            lemma_holds_split(data, pos, kind, name);
            assert(data[pos] == kind[0]) by {
                assert(data.subrange(pos, pos + 1)[0] == data[pos]);
            }
            lemma_text(data, pos + 1, member.name);
            lemma_skip_value(data, pos + 1 + name.len(), member.value);
            lemma_cut_members(data, pos + 1 + name.len() + value.len(), members, from + 1);
        }
    }
}

/// What a search can come to on a buffer that ends within the compound: a
/// fault that the end of the buffer brings about, or else what the first
/// value under the field's name gives, which the search has then met
/// before the end.
pub open spec fn cut_search(found: Search, first: Option<Value>) -> bool {
    ||| found matches Search::Failed(fault, _) && is_truncation(fault)
    ||| first matches Some(value) && answer(found) == field_answer(value)
}

/// On the members of a compound within which the buffer ends, the search
/// never comes to "not found": it stops on the end of the buffer, unless it
/// has met the field before.
pub proof fn lemma_cut_search(
    data: Seq<u8>,
    pos: int,
    members: Seq<Member>,
    from: int,
    levels: nat,
)
    requires
        members_well_formed(members),
        0 <= from <= members.len(),
        cut_in(data, pos, encode_members(members, from)),
    ensures
        cut_search(search_members(data, pos, levels), lookup(members, from, levels)),
    decreases levels, members.len() - from,
{
    reveal_with_fuel(search_members, 2);
    reveal_with_fuel(member_search, 2);
    if from < members.len() {
        let member = members[from];
        let kind = seq![kind_of(member.value)];
        let name = encode_text(member.name);
        let value = encode(member.value);
        let rest = encode_members(members, from + 1);
        let at = pos + 1 + name.len();
        lemma_be_bytes(member.name.len(), 2);
        lemma_cut_split(data, pos, kind + name + value, rest);
        if data.len() < pos + (kind + name).len() {
            lemma_cut_split(data, pos, kind + name, value);
            lemma_cut_split(data, pos, kind, name);
            if data.len() >= pos + 1 {
                assert(data[pos] == kind[0]) by {
                    assert(data.subrange(pos, pos + 1)[0] == data[pos]);
                }
                lemma_cut_text(data, pos + 1, member.name);
            }
        } else {
            if data.len() < pos + (kind + name + value).len() {
                lemma_cut_split(data, pos, kind + name, value);
            } else {
                lemma_holds_split(data, pos, kind + name, value);
            }
            lemma_holds_split(data, pos, kind, name);
            assert(data[pos] == kind[0]) by {
                assert(data.subrange(pos, pos + 1)[0] == data[pos]);
            }
            lemma_text(data, pos + 1, member.name);
            assert(is_target(data, pos + 1) == (member.name == target_name()));
            let whole = data.len() >= at + value.len();
            if member.name == target_name() {
                if whole {
                    lemma_scalar_value(data, at, member.value);
                } else if number_of(member.value) is Some {
                    lemma_scalar_len(member.value);
                }
            } else if levels > 0 && member.value is Compound {
                let inner = member.value->Compound_0;
                if whole {
                    lemma_search_members(data, at, inner, 0, (levels - 1) as nat);
                    if lookup(inner, 0, (levels - 1) as nat) is None {
                        lemma_cut_search(data, at + value.len(), members, from + 1, levels);
                    }
                } else {
                    lemma_cut_search(data, at, inner, 0, (levels - 1) as nat);
                }
            } else {
                if whole {
                    lemma_skip_value(data, at, member.value);
                    lemma_cut_search(data, at + value.len(), members, from + 1, levels);
                } else {
                    lemma_cut_value(data, at, member.value);
                }
            }
        }
    }
}

/// The bytes of a well-formed document, cut short anywhere, never scan to
/// "not found": the scanner reports the end of the data, as a short read
/// or as a span that is not there, unless it had its answer before the cut,
/// and then the answer is that of the whole document.
pub proof fn lemma_truncated_document(root_name: Seq<u8>, members: Seq<Member>, kept: int)
    requires
        document_well_formed(root_name, members),
        0 <= kept < encode_document(root_name, members).len(),
    ensures
        ({
            let whole = document_scan(encode_document(root_name, members));
            let cut = document_scan(encode_document(root_name, members).take(kept));
            ||| cut matches Err(fault) && is_truncation(fault)
            ||| cut == whole && !(whole matches Ok(None))
        }),
{
    let full = encode_document(root_name, members);
    let data = full.take(kept);
    let head = seq![TAG_COMPOUND] + encode_text(root_name);
    let body = encode_members(members, 0);
    lemma_scan_of_document(root_name, members);
    lemma_be_bytes(root_name.len(), 2);
    assert(cut_in(data, 0, full)) by {
        assert(data.subrange(0, data.len() as int) =~= full.take(data.len() - 0));
    }
    lemma_cut_split(data, 0, head, body);
    if data.len() < head.len() {
        lemma_cut_split(data, 0, seq![TAG_COMPOUND], encode_text(root_name));
        if data.len() >= 1 {
            assert(data[0] == TAG_COMPOUND) by {
                assert(data.subrange(0, 1)[0] == data[0]);
            }
            lemma_cut_text(data, 1, root_name);
        }
    } else {
        lemma_holds_split(data, 0, seq![TAG_COMPOUND], encode_text(root_name));
        assert(data[0] == TAG_COMPOUND) by {
            assert(data.subrange(0, 1)[0] == data[0]);
        }
        lemma_text(data, 1, root_name);
        lemma_cut_search(
            data,
            1 + encode_text(root_name).len() as int,
            members,
            0,
            SEARCH_DEPTH as nat,
        );
    }
}

} // verus!

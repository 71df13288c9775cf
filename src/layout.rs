//! The byte layout of a document, stated over the views of the model.
use vstd::prelude::*;
use crate::bytes::{fill, i32_bytes, pad_len, u16_bytes, u32_bytes};
use crate::crc32::crc32_of;
use crate::model::{CfgBinEncoding, EntryView, ValueView, VarType, VariableView};
use crate::names::{canonical, replace_all, starts_with};
use crate::text::encode_text;

verus! {

pub open spec fn type_tag(t: VarType) -> u8 {
    match t {
        VarType::String => 0,
        VarType::Int => 1,
        VarType::Float => 2,
        VarType::Unknown => 3,
    }
}

pub open spec fn tag_at(ts: Seq<VarType>, i: int) -> u8 {
    if 0 <= i < ts.len() {
        type_tag(ts[i])
    } else {
        0
    }
}

/// The first `k` tags of group `g`, packed two bits each from the low end.
pub open spec fn pack_tags(ts: Seq<VarType>, g: int, k: nat) -> u8
    decreases k,
{
    if k == 0 {
        0
    } else {
        pack_tags(ts, g, (k - 1) as nat) | (tag_at(ts, 4 * g + k - 1) << (2 * (k - 1)) as u8)
    }
}

pub open spec fn type_groups(n: nat) -> nat {
    (n + 3) / 4
}

/// Padding after `n` type bytes, so that the count byte and the type
/// bytes together fill whole words.
pub open spec fn type_pad(n: nat) -> nat {
    ((4 - (n + 1) % 4) % 4) as nat
}

/// The type bitmap of a parameter list, padded with 0xFF.
pub open spec fn types_bytes(ts: Seq<VarType>) -> Seq<u8> {
    let g = type_groups(ts.len());
    Seq::new(g, |i: int| pack_tags(ts, i, 4)) + fill(0xFF, type_pad(g))
}

/// The NUL-terminated encodings of `ds`, one after the other.
pub open spec fn blob(ds: Seq<Seq<char>>, enc: CfgBinEncoding) -> Seq<u8>
    decreases ds.len(),
{
    if ds.len() == 0 {
        Seq::empty()
    } else {
        blob(ds.drop_last(), enc) + encode_text(ds.last(), enc).push(0)
    }
}

/// Position of the first `s` in `ds`, or -1.
pub open spec fn first_index<T>(ds: Seq<T>, s: T) -> int
    decreases ds.len(),
{
    if ds.len() == 0 {
        -1
    } else if ds[0] == s {
        0
    } else if first_index(ds.drop_first(), s) < 0 {
        -1
    } else {
        first_index(ds.drop_first(), s) + 1
    }
}

pub proof fn lemma_first_index_skip<T>(ds: Seq<T>, s: T, i: int)
    requires
        0 <= i <= ds.len(),
        forall|j: int| 0 <= j < i ==> ds[j] != s,
    ensures
        first_index(ds, s) == if first_index(ds.subrange(i, ds.len() as int), s) < 0 {
            -1
        } else {
            first_index(ds.subrange(i, ds.len() as int), s) + i
        },
    decreases i,
{
    if i == 0 {
        assert(ds.subrange(0, ds.len() as int) =~= ds);
    } else {
        lemma_first_index_skip(ds.drop_first(), s, i - 1);
        assert(ds.drop_first().subrange(i - 1, ds.drop_first().len() as int) =~= ds.subrange(
            i,
            ds.len() as int,
        ));
    }
}

/// The offset that the string table gives `s`, or -1 where it has none.
pub open spec fn string_offset(ds: Seq<Seq<char>>, enc: CfgBinEncoding, s: Seq<char>) -> i32 {
    let i = first_index(ds, s);
    if i < 0 {
        -1i32
    } else {
        blob(ds.subrange(0, i), enc).len() as i32
    }
}

pub open spec fn var_payload(v: VariableView, ds: Seq<Seq<char>>, enc: CfgBinEncoding) -> Seq<u8> {
    match v.value {
        ValueView::Str(Some(s)) => i32_bytes(string_offset(ds, enc, s)),
        ValueView::Str(None) => i32_bytes(-1i32),
        ValueView::Int(i) => i32_bytes(i),
        ValueView::Float(f) => u32_bytes(f),
        ValueView::Unknown(u) => i32_bytes(u),
    }
}

pub open spec fn payloads(vs: Seq<VariableView>, ds: Seq<Seq<char>>, enc: CfgBinEncoding) -> Seq<u8>
    decreases vs.len(),
{
    if vs.len() == 0 {
        Seq::empty()
    } else {
        payloads(vs.drop_last(), ds, enc) + var_payload(vs.last(), ds, enc)
    }
}

pub open spec fn var_types(vs: Seq<VariableView>) -> Seq<VarType> {
    vs.map_values(|v: VariableView| v.var_type)
}

/// The name of the record that closes a scope opened by `c`.
pub open spec fn end_name(c: Seq<char>) -> Seq<char> {
    if starts_with(c, seq!['P', 'T', 'R', 'E', 'E']) {
        seq!['_', 'P', 'T', 'R', 'E', 'E']
    } else {
        replace_all(
            replace_all(c, seq!['B', 'E', 'G', 'I', 'N'], seq!['E', 'N', 'D']),
            seq!['B', 'E', 'G'],
            seq!['E', 'N', 'D'],
        )
    }
}

pub open spec fn name_crc(name: Seq<char>, enc: CfgBinEncoding) -> u32 {
    crc32_of(encode_text(name, enc))
}

/// One record without its children: key, parameter count, type bitmap,
/// parameters.
pub open spec fn record_bytes(e: EntryView, ds: Seq<Seq<char>>, enc: CfgBinEncoding) -> Seq<u8> {
    u32_bytes(name_crc(canonical(e.name), enc)) + seq![e.variables.len() as u8] + types_bytes(
        var_types(e.variables),
    ) + payloads(e.variables, ds, enc)
}

pub open spec fn terminator_bytes(e: EntryView, enc: CfgBinEncoding) -> Seq<u8> {
    if e.end_terminator {
        u32_bytes(name_crc(end_name(canonical(e.name)), enc)) + seq![0x00u8, 0xFF, 0xFF, 0xFF]
    } else {
        Seq::empty()
    }
}

/// An entry in pre-order: its record, its children, then its terminator.
pub open spec fn entry_bytes(e: EntryView, ds: Seq<Seq<char>>, enc: CfgBinEncoding) -> Seq<u8>
    decreases e, 1nat,
{
    record_bytes(e, ds, enc) + list_bytes(e.children, ds, enc) + terminator_bytes(e, enc)
}

pub open spec fn list_bytes(es: Seq<EntryView>, ds: Seq<Seq<char>>, enc: CfgBinEncoding) -> Seq<u8>
    decreases es, 0nat,
{
    if es.len() == 0 {
        Seq::empty()
    } else {
        list_bytes(es.drop_last(), ds, enc) + entry_bytes(es.last(), ds, enc)
    }
}

/// The texts of a parameter list, in order.
pub open spec fn var_strings(vs: Seq<VariableView>) -> Seq<Seq<char>>
    decreases vs.len(),
{
    if vs.len() == 0 {
        Seq::empty()
    } else {
        match vs.last().value {
            ValueView::Str(Some(s)) => var_strings(vs.drop_last()).push(s),
            _ => var_strings(vs.drop_last()),
        }
    }
}

/// The texts of an entry and its descendants, entries before children.
pub open spec fn entry_strings(e: EntryView) -> Seq<Seq<char>>
    decreases e, 1nat,
{
    var_strings(e.variables) + list_strings(e.children)
}

pub open spec fn list_strings(es: Seq<EntryView>) -> Seq<Seq<char>>
    decreases es, 0nat,
{
    if es.len() == 0 {
        Seq::empty()
    } else {
        list_strings(es.drop_last()) + entry_strings(es.last())
    }
}

/// The names an entry and its descendants need in the key table.
pub open spec fn entry_keys(e: EntryView) -> Seq<Seq<char>>
    decreases e, 1nat,
{
    seq![canonical(e.name)] + list_keys(e.children) + if e.end_terminator {
        seq![end_name(canonical(e.name))]
    } else {
        Seq::empty()
    }
}

pub open spec fn list_keys(es: Seq<EntryView>) -> Seq<Seq<char>>
    decreases es, 0nat,
{
    if es.len() == 0 {
        Seq::empty()
    } else {
        list_keys(es.drop_last()) + entry_keys(es.last())
    }
}

/// Each element's first occurrence, in order.
pub open spec fn dedup<T>(s: Seq<T>) -> Seq<T>
    decreases s.len(),
{
    if s.len() == 0 {
        s
    } else if dedup(s.drop_last()).contains(s.last()) {
        dedup(s.drop_last())
    } else {
        dedup(s.drop_last()).push(s.last())
    }
}

/// Number of records an entry writes, terminators included.
pub open spec fn entry_count(e: EntryView) -> nat
    decreases e, 1nat,
{
    1 + (if e.end_terminator {
        1nat
    } else {
        0nat
    }) + list_count(e.children)
}

pub open spec fn list_count(es: Seq<EntryView>) -> nat
    decreases es, 0nat,
{
    if es.len() == 0 {
        0
    } else {
        list_count(es.drop_last()) + entry_count(es.last())
    }
}

/// Key records: CRC of each name and the offset of its text in the name blob.
pub open spec fn key_records(keys: Seq<Seq<char>>, enc: CfgBinEncoding) -> Seq<u8>
    decreases keys.len(),
{
    if keys.len() == 0 {
        Seq::empty()
    } else {
        key_records(keys.drop_last(), enc) + u32_bytes(name_crc(keys.last(), enc)) + i32_bytes(
            blob(keys.drop_last(), enc).len() as i32,
        )
    }
}

/// The key table section: header, records, name blob, each part padded to
/// 16 bytes with 0xFF.
pub open spec fn key_table_bytes(keys: Seq<Seq<char>>, enc: CfgBinEncoding) -> Seq<u8> {
    let recs = key_records(keys, enc);
    let names = blob(keys, enc);
    let a = 16 + recs.len();
    let name_offset = a + pad_len(a, 16);
    let b = name_offset + names.len();
    let total = b + pad_len(b, 16);
    i32_bytes(total as i32) + i32_bytes(keys.len() as i32) + i32_bytes(name_offset as i32)
        + i32_bytes(names.len() as i32) + recs + fill(0xFF, pad_len(a, 16)) + names + fill(
        0xFF,
        pad_len(b, 16),
    )
}

/// The encoding word written into the footer.
pub open spec fn footer_word(enc: CfgBinEncoding, footer_encoding: u16) -> u16 {
    match enc {
        CfgBinEncoding::ShiftJis => 0,
        CfgBinEncoding::Utf8 => if footer_encoding == 0 {
            1
        } else {
            footer_encoding
        },
    }
}

pub open spec fn footer_bytes(enc: CfgBinEncoding, footer_encoding: u16) -> Seq<u8> {
    seq![0x01u8, 0x74, 0x32, 0x62] + u16_bytes(0x01FE) + u16_bytes(footer_word(enc, footer_encoding))
        + u16_bytes(1)
}

/// The parts of a document put together: header, records, string table,
/// key table and footer, each padded to 16 bytes with 0xFF.
pub open spec fn assemble(
    count: nat,
    recs: Seq<u8>,
    nstrs: nat,
    strs: Seq<u8>,
    kt: Seq<u8>,
    footer: Seq<u8>,
) -> Seq<u8> {
    let a = 16 + recs.len();
    let st_offset = a + pad_len(a, 16);
    let b = st_offset + strs.len();
    let c = b + pad_len(b, 16) + kt.len() + footer.len();
    i32_bytes(count as i32) + i32_bytes(st_offset as i32) + i32_bytes(strs.len() as i32) + i32_bytes(
        nstrs as i32,
    ) + recs + fill(0xFF, pad_len(a, 16)) + strs + fill(0xFF, pad_len(b, 16)) + kt + footer + fill(
        0xFF,
        pad_len(c, 16),
    )
}

/// A whole document: header, records, string table, key table, footer.
pub open spec fn document_bytes(enc: CfgBinEncoding, footer_encoding: u16, es: Seq<EntryView>) -> Seq<
    u8,
> {
    let ds = dedup(list_strings(es));
    assemble(
        list_count(es),
        list_bytes(es, ds, enc),
        ds.len(),
        blob(ds, enc),
        key_table_bytes(dedup(list_keys(es)), enc),
        footer_bytes(enc, footer_encoding),
    )
}

} // verus!

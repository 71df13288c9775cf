//! Properties that relate several operations of the library.
use vstd::prelude::*;
use crate::bytes::{fill, i32_bytes, le_u32, u32_bytes};
use crate::decode::param_view;
use crate::layout::{blob, first_index, key_records, key_table_bytes, string_offset, pack_tags, payloads, record_bytes, tag_at, type_groups, type_pad, type_tag, types_bytes, var_payload, var_types};
use crate::decode::{bad_text_offset, key_start, parse_key_table, param_type, params_start, parse_record, key_lookup};
use crate::model::EntryView;
use crate::text::{decode_text, encode_text, nul_end, text_at};
use vstd::utf8::{encode_utf8, encode_scalar, encode_utf8_decode_utf8, encode_utf8_valid_utf8};
use crate::layout::name_crc;
use crate::names::canonical;
use crate::model::{CfgBinEncoding, TextEntry, ValueView, VarType, VariableView};
use crate::texts::{entry_str_count, first_text, list_str_count, str_count, update_entry, update_list, update_var, update_vars};

verus! {

/// An update whose value is empty leaves the text field absent, not empty.
pub proof fn lemma_empty_update_makes_text_absent(v: VariableView, t: Seq<TextEntry>, g: nat)
    requires
        v.value is Str,
        first_text(t, g) == Some(Seq::<char>::empty()),
    ensures
        update_var(v, t, g).value == ValueView::Str(None),
{
}

/// An absent text field is written as the stored offset -1, whatever the
/// string table holds.
pub proof fn lemma_absent_text_is_written_as_minus_one(v: VariableView, ds: Seq<Seq<char>>, enc: CfgBinEncoding)
    requires
        v.value == ValueView::Str(None),
    ensures
        var_payload(v, ds, enc) == i32_bytes(-1i32),
{
}

/// A text parameter whose stored offset is the four bytes of -1 reads back
/// as absent.
pub proof fn lemma_minus_one_reads_as_absent(d: Seq<u8>, p: int, blob: Seq<u8>, enc: CfgBinEncoding)
    requires
        0 <= p,
        p + 4 <= d.len(),
        d.subrange(p, p + 4) == i32_bytes(-1i32),
    ensures
        param_view(VarType::String, d, p, blob, enc).value == ValueView::Str(None),
{
    let b = i32_bytes(-1i32);
    assert(d[p] == b[0] && d[p + 1] == b[1] && d[p + 2] == b[2] && d[p + 3] == b[3]);
    let m: u32 = (-1i32) as u32;
    assert(m == 0xffff_ffffu32) by (bit_vector)
        requires
            m == (-1i32) as u32,
    ;
    let (b0, b1, b2, b3) = (d[p], d[p + 1], d[p + 2], d[p + 3]);
    assert(b0 == (m & 0xff) as u8 && b1 == ((m >> 8u32) & 0xff) as u8 && b2 == ((m >> 16u32) & 0xff) as u8
        && b3 == ((m >> 24u32) & 0xff) as u8);
    assert(b0 == 255u8 && b1 == 255u8 && b2 == 255u8 && b3 == 255u8) by (bit_vector)
        requires
            m == 0xffff_ffffu32,
            b0 == (m & 0xff) as u8,
            b1 == ((m >> 8u32) & 0xff) as u8,
            b2 == ((m >> 16u32) & 0xff) as u8,
            b3 == ((m >> 24u32) & 0xff) as u8,
    ;
    let w = le_u32(d, p);
    assert(w == (b0 as u32) | ((b1 as u32) << 8u32) | ((b2 as u32) << 16u32) | ((b3 as u32) << 24u32));
    assert((w as i32) < 0i32) by (bit_vector)
        requires
            w == (b0 as u32) | ((b1 as u32) << 8u32) | ((b2 as u32) << 16u32) | ((b3 as u32) << 24u32),
            b0 == 255u8 && b1 == 255u8 && b2 == 255u8 && b3 == 255u8,
    ;
}

proof fn lemma_le_u32_of_bytes(v: u32, d: Seq<u8>, p: int)
    requires
        0 <= p,
        p + 4 <= d.len(),
        d.subrange(p, p + 4) == u32_bytes(v),
    ensures
        le_u32(d, p) == v,
{
    let b = u32_bytes(v);
    assert(d[p] == b[0] && d[p + 1] == b[1] && d[p + 2] == b[2] && d[p + 3] == b[3]);
    let (b0, b1, b2, b3) = (d[p], d[p + 1], d[p + 2], d[p + 3]);
    assert(((b0 as u32) | ((b1 as u32) << 8u32) | ((b2 as u32) << 16u32) | ((b3 as u32) << 24u32)) == v) by (bit_vector)
        requires
            b0 == (v & 0xff) as u8,
            b1 == ((v >> 8u32) & 0xff) as u8,
            b2 == ((v >> 16u32) & 0xff) as u8,
            b3 == ((v >> 24u32) & 0xff) as u8,
    ;
}

proof fn lemma_unpack(t0: u8, t1: u8, t2: u8, t3: u8, k: u8)
    requires
        t0 < 4 && t1 < 4 && t2 < 4 && t3 < 4,
        k < 4,
    ensures
        ((t0 | (t1 << 2u8) | (t2 << 4u8) | (t3 << 6u8)) >> (2u8 * k)) & 3u8 == if k == 0 {
            t0
        } else if k == 1 {
            t1
        } else if k == 2 {
            t2
        } else {
            t3
        },
{
    assert(((t0 | (t1 << 2u8) | (t2 << 4u8) | (t3 << 6u8)) >> (2u8 * k)) & 3u8 == if k == 0 {
        t0
    } else if k == 1 {
        t1
    } else if k == 2 {
        t2
    } else {
        t3
    }) by (bit_vector)
        requires
            t0 < 4 && t1 < 4 && t2 < 4 && t3 < 4,
            k < 4,
    ;
}

proof fn lemma_type_byte(ts: Seq<VarType>, j: int)
    requires
        0 <= j < ts.len(),
    ensures
        param_type(Seq::new(type_groups(ts.len()), |i: int| pack_tags(ts, i, 4)), j) == ts[j],
{
    let g = j / 4;
    let k = j % 4;
    let t0 = tag_at(ts, 4 * g);
    let t1 = tag_at(ts, 4 * g + 1);
    let t2 = tag_at(ts, 4 * g + 2);
    let t3 = tag_at(ts, 4 * g + 3);
    assert(pack_tags(ts, g, 0) == 0u8);
    assert(pack_tags(ts, g, 1) == pack_tags(ts, g, 0) | (tag_at(ts, 4 * g) << 0u8));
    assert(0u8 | (t0 << 0u8) == t0) by (bit_vector);
    assert(pack_tags(ts, g, 1) == t0);
    assert(pack_tags(ts, g, 2) == t0 | (t1 << 2u8));
    assert(pack_tags(ts, g, 3) == t0 | (t1 << 2u8) | (t2 << 4u8));
    assert(pack_tags(ts, g, 4) == t0 | (t1 << 2u8) | (t2 << 4u8) | (t3 << 6u8));
    assert(t0 < 4 && t1 < 4 && t2 < 4 && t3 < 4);
    lemma_unpack(t0, t1, t2, t3, k as u8);
    assert(g < type_groups(ts.len()));
    assert(tag_at(ts, j) == type_tag(ts[j]));
}

proof fn lemma_payload_at(vs: Seq<VariableView>, ds: Seq<Seq<char>>, enc: CfgBinEncoding, j: int)
    requires
        0 <= j < vs.len(),
    ensures
        payloads(vs, ds, enc).subrange(4 * j, 4 * j + 4) == var_payload(vs[j], ds, enc),
    decreases vs.len(),
{
    let a = payloads(vs.drop_last(), ds, enc);
    let b = var_payload(vs.last(), ds, enc);
    assert(payloads(vs, ds, enc) == a + b);
    lemma_payloads_len(vs.drop_last(), ds, enc);
    if j < vs.len() - 1 {
        lemma_payload_at(vs.drop_last(), ds, enc, j);
        assert((a + b).subrange(4 * j, 4 * j + 4) =~= a.subrange(4 * j, 4 * j + 4));
    } else {
        assert((a + b).subrange(4 * j, 4 * j + 4) =~= b);
    }
}

proof fn lemma_payloads_len(vs: Seq<VariableView>, ds: Seq<Seq<char>>, enc: CfgBinEncoding)
    ensures
        payloads(vs, ds, enc).len() == 4 * vs.len(),
    decreases vs.len(),
{
    if vs.len() > 0 {
        lemma_payloads_len(vs.drop_last(), ds, enc);
    }
}

proof fn lemma_text_param_reads_back(v: VariableView, ds: Seq<Seq<char>>, d: Seq<u8>, pos: int, blob: Seq<u8>)
    requires
        stored_text(v.value, ds),
        blob == crate::layout::blob(ds, CfgBinEncoding::Utf8),
        blob.len() <= i32::MAX,
        0 <= pos,
        pos + 4 <= d.len(),
        d.subrange(pos, pos + 4) == var_payload(v, ds, CfgBinEncoding::Utf8),
    ensures
        param_view(VarType::String, d, pos, blob, CfgBinEncoding::Utf8).value == v.value,
{
    let enc = CfgBinEncoding::Utf8;
    let t = v.value->Str_0->Some_0;
    let off = string_offset(ds, enc, t);
    assert(d.subrange(pos, pos + 4) == u32_bytes(off as u32));
    lemma_le_u32_of_bytes(off as u32, d, pos);
    assert(((off as u32) as i32) == off) by (bit_vector);
    lemma_text_reads_back(ds, t);
    lemma_offset_nonneg(ds, t);
}

/// The four bytes a parameter is written as, read as a signed word.
pub open spec fn text_word(v: VariableView, ds: Seq<Seq<char>>, enc: CfgBinEncoding) -> i32 {
    match v.value {
        ValueView::Str(Some(s)) => string_offset(ds, enc, s),
        ValueView::Str(None) => -1i32,
        ValueView::Int(i) => i,
        ValueView::Float(f) => f as i32,
        ValueView::Unknown(u) => u,
    }
}

proof fn lemma_payload_word(v: VariableView, ds: Seq<Seq<char>>, enc: CfgBinEncoding)
    ensures
        var_payload(v, ds, enc) == u32_bytes(text_word(v, ds, enc) as u32),
{
    match v.value {
        ValueView::Float(f) => {
            assert(((f as i32) as u32) == f) by (bit_vector);
        },
        _ => {},
    }
}

/// A record written for an entry, read back from a word-aligned position:
/// it ends where the written bytes end, carries the name the key table
/// gives its key, has as many parameters, each of the type it was written
/// with, and its integer, float, unknown and absent-text parameters keep
/// their values (stored texts too, in UTF-8). A text-typed parameter must
/// be written with a word that is negative or inside the string table.
pub proof fn lemma_record_reads_back(
    e: EntryView,
    ds: Seq<Seq<char>>,
    enc: CfgBinEncoding,
    d: Seq<u8>,
    p: int,
    keys: Seq<(u32, Seq<char>)>,
    blob: Seq<u8>,
)
    requires
        0 <= p,
        p % 4 == 0,
        p + record_bytes(e, ds, enc).len() <= d.len(),
        d.subrange(p, p + record_bytes(e, ds, enc).len()) == record_bytes(e, ds, enc),
        e.variables.len() <= 255,
        key_lookup(keys, name_crc(canonical(e.name), enc)) is Some,
        forall|j: int|
            0 <= j < e.variables.len() && (#[trigger] e.variables[j]).var_type == VarType::String ==> (
            text_word(e.variables[j], ds, enc) < 0 || (text_word(e.variables[j], ds, enc) as int)
                < blob.len()),
    ensures
        parse_record(d, p, keys, blob, enc) matches Ok((r, q)) && {
            &&& q == p + record_bytes(e, ds, enc).len()
            &&& r.name == key_lookup(keys, name_crc(canonical(e.name), enc))->Some_0
            &&& r.variables.len() == e.variables.len()
            &&& forall|j: int| 0 <= j < e.variables.len() ==> (#[trigger] r.variables[j]).var_type == e.variables[j].var_type
            &&& forall|j: int| 0 <= j < e.variables.len() && e.variables[j].var_type == VarType::Unknown && e.variables[j].value is Unknown ==> (#[trigger] r.variables[j]).value == e.variables[j].value
            &&& forall|j: int| 0 <= j < e.variables.len() && e.variables[j].var_type == VarType::Int && e.variables[j].value is Int ==> (#[trigger] r.variables[j]).value == e.variables[j].value
            &&& forall|j: int| 0 <= j < e.variables.len() && e.variables[j].var_type == VarType::Float && e.variables[j].value is Float ==> (#[trigger] r.variables[j]).value == e.variables[j].value
            &&& forall|j: int| 0 <= j < e.variables.len() && e.variables[j].var_type == VarType::String && e.variables[j].value == ValueView::Str(None) ==> (#[trigger] r.variables[j]).value == ValueView::Str(None)
            &&& (enc == CfgBinEncoding::Utf8 && blob == crate::layout::blob(ds, enc) && blob.len() <= i32::MAX) ==> forall|j: int| 0 <= j < e.variables.len() && e.variables[j].var_type == VarType::String && stored_text(e.variables[j].value, ds) ==> (#[trigger] r.variables[j]).value == e.variables[j].value
        },
{
    let rb = record_bytes(e, ds, enc);
    let vs = e.variables;
    let n = vs.len();
    let ts = var_types(vs);
    let g = type_groups(n);
    let pad = type_pad(g);
    let tbs = types_bytes(ts);
    let pl = payloads(vs, ds, enc);
    lemma_payloads_len(vs, ds, enc);
    let crc = name_crc(canonical(e.name), enc);
    assert(rb == u32_bytes(crc) + seq![n as u8] + tbs + pl);
    assert(tbs.len() == g + pad);
    assert(d.subrange(p, p + 4) =~= u32_bytes(crc)) by {
        assert forall|i: int| 0 <= i < 4 implies #[trigger] d.subrange(p, p + 4)[i] == u32_bytes(crc)[i] by {
            assert(d.subrange(p, p + rb.len())[i] == rb[i]);
        }
    }
    lemma_le_u32_of_bytes(crc, d, p);
    assert(d[p + 4] == rb[4]);
    assert(d[p + 4] as int == n);
    let q = p + 5;
    let tbc = (n + 3) / 4;
    assert(tbc == g);
    let packed = Seq::new(g, |i: int| pack_tags(ts, i, 4));
    assert(d.subrange(q, q + tbc) =~= packed) by {
        assert forall|i: int| 0 <= i < tbc implies #[trigger] d.subrange(q, q + tbc)[i] == packed[i] by {
            assert(d.subrange(p, p + rb.len())[5 + i] == rb[5 + i]);
        }
    }
    let r0 = params_start(q + tbc, tbc as int);
    assert(r0 == p + 5 + g + pad);
    assert(r0 + 4 * n == p + rb.len());
    let tb = d.subrange(q, q + tbc);
    assert forall|j: int| 0 <= j < n implies #[trigger] d.subrange(r0 + 4 * j, r0 + 4 * j + 4) == var_payload(vs[j], ds, enc) by {
        lemma_payload_at(vs, ds, enc, j);
        assert(d.subrange(r0 + 4 * j, r0 + 4 * j + 4) =~= pl.subrange(4 * j, 4 * j + 4)) by {
            assert forall|i: int| 0 <= i < 4 implies #[trigger] d.subrange(r0 + 4 * j, r0 + 4 * j + 4)[i] == pl.subrange(4 * j, 4 * j + 4)[i] by {
                assert(d.subrange(p, p + rb.len())[5 + g + pad + 4 * j + i] == rb[5 + g + pad + 4 * j + i]);
            }
        }
    }
    assert forall|j: int| 0 <= j < n implies !#[trigger] bad_text_offset(tb, d, r0, j, blob) by {
        lemma_type_byte(ts, j);
        if vs[j].var_type == VarType::String {
            let w = text_word(vs[j], ds, enc);
            lemma_payload_word(vs[j], ds, enc);
            lemma_le_u32_of_bytes(w as u32, d, r0 + 4 * j);
            assert(((w as u32) as i32) == w) by (bit_vector);
        }
    }
    match parse_record(d, p, keys, blob, enc) {
        Ok((r, qq)) => {
            assert(qq == p + rb.len());
            assert forall|j: int| 0 <= j < n implies (#[trigger] r.variables[j]).var_type == vs[j].var_type by {
                lemma_type_byte(ts, j);
            }
            assert forall|j: int| 0 <= j < n && vs[j].var_type == VarType::Unknown && vs[j].value is Unknown implies (#[trigger] r.variables[j]).value == vs[j].value by {
                lemma_type_byte(ts, j);
                let i = vs[j].value->Unknown_0;
                assert(d.subrange(r0 + 4 * j, r0 + 4 * j + 4) == u32_bytes(i as u32));
                lemma_le_u32_of_bytes(i as u32, d, r0 + 4 * j);
                assert(((i as u32) as i32) == i) by (bit_vector);
            }
            assert forall|j: int| 0 <= j < n && vs[j].var_type == VarType::Int && vs[j].value is Int implies (#[trigger] r.variables[j]).value == vs[j].value by {
                lemma_type_byte(ts, j);
                let i = vs[j].value->Int_0;
                assert(d.subrange(r0 + 4 * j, r0 + 4 * j + 4) == u32_bytes(i as u32));
                lemma_le_u32_of_bytes(i as u32, d, r0 + 4 * j);
                assert(((i as u32) as i32) == i) by (bit_vector);
            }
            assert forall|j: int| 0 <= j < n && vs[j].var_type == VarType::Float && vs[j].value is Float implies (#[trigger] r.variables[j]).value == vs[j].value by {
                lemma_type_byte(ts, j);
                let f = vs[j].value->Float_0;
                lemma_le_u32_of_bytes(f, d, r0 + 4 * j);
            }
            assert forall|j: int| 0 <= j < n && vs[j].var_type == VarType::String && vs[j].value == ValueView::Str(None) implies (#[trigger] r.variables[j]).value == ValueView::Str(None) by {
                lemma_type_byte(ts, j);
                lemma_minus_one_reads_as_absent(d, r0 + 4 * j, blob, enc);
            }
            if enc == CfgBinEncoding::Utf8 && blob == crate::layout::blob(ds, enc) && blob.len() <= i32::MAX {
                assert forall|j: int| 0 <= j < n && vs[j].var_type == VarType::String && stored_text(vs[j].value, ds) implies (#[trigger] r.variables[j]).value == vs[j].value by {
                    lemma_type_byte(ts, j);
                    lemma_text_param_reads_back(vs[j], ds, d, r0 + 4 * j, blob);
                }
            }
        },
        Err(_) => {
            assert(false);
        },
    }
}

proof fn lemma_scalar_no_nul(c: char)
    requires
        c != '\0',
    ensures
        forall|k: int| 0 <= k < encode_scalar(c as u32).len() ==> #[trigger] encode_scalar(c as u32)[k] != 0,
{
    let v = c as u32;
    assert(v != 0);
    assert((v & 0x7F) as u8 != 0u8 || v > 0x7F) by (bit_vector)
        requires
            v != 0,
    ;
    assert(forall|x: u32| (0xC0u8 | ((x >> 6u32) & 0x1F) as u8) != 0u8) by (bit_vector);
    assert(forall|x: u32| (0xE0u8 | ((x >> 12u32) & 0x0F) as u8) != 0u8) by (bit_vector);
    assert(forall|x: u32| (0xF0u8 | ((x >> 18u32) & 0x7) as u8) != 0u8) by (bit_vector);
    assert(forall|x: u32| (0x80u8 | (x & 0x3F) as u8) != 0u8) by (bit_vector);
    assert(forall|x: u32| (0x80u8 | ((x >> 6u32) & 0x3F) as u8) != 0u8) by (bit_vector);
    assert(forall|x: u32| (0x80u8 | ((x >> 12u32) & 0x3F) as u8) != 0u8) by (bit_vector);
}

proof fn lemma_utf8_no_nul(s: Seq<char>)
    requires
        forall|i: int| 0 <= i < s.len() ==> s[i] != '\0',
    ensures
        forall|k: int| 0 <= k < encode_utf8(s).len() ==> #[trigger] encode_utf8(s)[k] != 0,
    decreases s.len(),
{
    if s.len() > 0 {
        lemma_scalar_no_nul(s[0]);
        lemma_utf8_no_nul(s.drop_first());
        let a = encode_scalar(s[0] as u32);
        let b = encode_utf8(s.drop_first());
        assert(encode_utf8(s) == a + b);
        assert forall|k: int| 0 <= k < encode_utf8(s).len() implies #[trigger] encode_utf8(s)[k] != 0 by {
            if k < a.len() {
                assert((a + b)[k] == a[k]);
            } else {
                assert((a + b)[k] == b[k - a.len()]);
            }
        }
    }
}

proof fn lemma_blob_concat(a: Seq<Seq<char>>, b: Seq<Seq<char>>, enc: CfgBinEncoding)
    ensures
        blob(a + b, enc) == blob(a, enc) + blob(b, enc),
    decreases b.len(),
{
    if b.len() == 0 {
        assert(a + b =~= a);
        assert(blob(a, enc) + blob(b, enc) =~= blob(a, enc));
    } else {
        lemma_blob_concat(a, b.drop_last(), enc);
        assert((a + b).drop_last() =~= a + b.drop_last());
        assert((a + b).last() == b.last());
        assert(blob(a + b, enc) =~= blob(a, enc) + blob(b, enc));
    }
}

proof fn lemma_nul_end_at(x: Seq<u8>, o: int, l: int)
    requires
        0 <= o,
        0 <= l,
        o + l < x.len(),
        x[o + l] == 0,
        forall|k: int| o <= k < o + l ==> #[trigger] x[k] != 0,
    ensures
        nul_end(x, o) == o + l,
    decreases l,
{
    if l > 0 {
        lemma_nul_end_at(x, o + 1, l - 1);
    }
}

/// A text value that the string table `ds` holds, with no NUL character.
pub open spec fn stored_text(v: ValueView, ds: Seq<Seq<char>>) -> bool {
    match v {
        ValueView::Str(Some(t)) => first_index(ds, t) >= 0 && forall|i: int| 0 <= i < t.len() ==> t[i] != '\0',
        _ => false,
    }
}

proof fn lemma_offset_nonneg(ds: Seq<Seq<char>>, s: Seq<char>)
    requires
        first_index(ds, s) >= 0,
        blob(ds, CfgBinEncoding::Utf8).len() <= i32::MAX,
    ensures
        string_offset(ds, CfgBinEncoding::Utf8, s) >= 0,
{
    let i = first_index(ds, s);
    lemma_first_index_found(ds, s);
    lemma_blob_concat(ds.subrange(0, i), ds.subrange(i, ds.len() as int), CfgBinEncoding::Utf8);
    assert(ds.subrange(0, i) + ds.subrange(i, ds.len() as int) =~= ds);
}

/// The text at position `j` of a blob of UTF-8 texts without NUL
/// characters reads back from the length of the texts before it.
proof fn lemma_text_at_index(ds: Seq<Seq<char>>, j: int)
    requires
        0 <= j < ds.len(),
        forall|i: int| 0 <= i < ds[j].len() ==> ds[j][i] != '\0',
    ensures
        text_at(blob(ds, CfgBinEncoding::Utf8), blob(ds.subrange(0, j), CfgBinEncoding::Utf8).len() as int, CfgBinEncoding::Utf8)
            == Some(ds[j]),
{
    let enc = CfgBinEncoding::Utf8;
    let s = ds[j];
    let pre = ds.subrange(0, j);
    let post = ds.subrange(j + 1, ds.len() as int);
    assert(ds =~= pre + seq![s] + post);
    lemma_blob_concat(pre + seq![s], post, enc);
    lemma_blob_concat(pre, seq![s], enc);
    let e = encode_utf8(s);
    assert(blob(seq![s], enc) =~= e.push(0)) by {
        assert(seq![s].drop_last() =~= Seq::<Seq<char>>::empty());
        assert(blob(Seq::<Seq<char>>::empty(), enc) == Seq::<u8>::empty());
        assert(seq![s].last() == s);
        assert(encode_text(s, enc) == e);
        assert(blob(seq![s], enc) == blob(seq![s].drop_last(), enc) + encode_text(seq![s].last(), enc).push(0));
    }
    let x = blob(ds, enc);
    let o = blob(pre, enc).len() as int;
    assert(x =~= blob(pre, enc) + e.push(0) + blob(post, enc));
    lemma_utf8_no_nul(s);
    assert forall|k: int| o <= k < o + e.len() implies #[trigger] x[k] != 0 by {
        assert(x[k] == e[k - o]);
    }
    assert(x[o + e.len()] == 0);
    lemma_nul_end_at(x, o, e.len() as int);
    assert(x.subrange(o, o + e.len()) =~= e);
    encode_utf8_valid_utf8(s);
    encode_utf8_decode_utf8(s);
}

/// A text of the string table, stored in UTF-8 without NUL characters,
/// reads back from the offset the table gives it.
pub proof fn lemma_text_reads_back(ds: Seq<Seq<char>>, s: Seq<char>)
    requires
        first_index(ds, s) >= 0,
        forall|i: int| 0 <= i < s.len() ==> s[i] != '\0',
        blob(ds, CfgBinEncoding::Utf8).len() <= i32::MAX,
    ensures
        text_at(
            blob(ds, CfgBinEncoding::Utf8),
            string_offset(ds, CfgBinEncoding::Utf8, s) as int,
            CfgBinEncoding::Utf8,
        ) == Some(s),
{
    let i = first_index(ds, s);
    lemma_first_index_found(ds, s);
    lemma_text_at_index(ds, i);
    lemma_blob_concat(ds.subrange(0, i), ds.subrange(i, ds.len() as int), CfgBinEncoding::Utf8);
    assert(ds.subrange(0, i) + ds.subrange(i, ds.len() as int) =~= ds);
}

proof fn lemma_first_index_found<T>(ds: Seq<T>, s: T)
    requires
        first_index(ds, s) >= 0,
    ensures
        first_index(ds, s) < ds.len(),
        ds[first_index(ds, s)] == s,
    decreases ds.len(),
{
    if ds[0] != s {
        lemma_first_index_found(ds.drop_first(), s);
    }
}

proof fn lemma_key_records_len(keys: Seq<Seq<char>>, enc: CfgBinEncoding)
    ensures
        key_records(keys, enc).len() == 8 * keys.len(),
    decreases keys.len(),
{
    if keys.len() > 0 {
        lemma_key_records_len(keys.drop_last(), enc);
    }
}

proof fn lemma_key_record_at(keys: Seq<Seq<char>>, enc: CfgBinEncoding, j: int)
    requires
        0 <= j < keys.len(),
    ensures
        key_records(keys, enc).subrange(8 * j, 8 * j + 8) == u32_bytes(name_crc(keys[j], enc)) + i32_bytes(
            blob(keys.subrange(0, j), enc).len() as i32,
        ),
    decreases keys.len(),
{
    let a = key_records(keys.drop_last(), enc);
    let b = u32_bytes(name_crc(keys.last(), enc)) + i32_bytes(blob(keys.drop_last(), enc).len() as i32);
    assert(key_records(keys, enc) == a + b);
    lemma_key_records_len(keys.drop_last(), enc);
    if j < keys.len() - 1 {
        lemma_key_record_at(keys.drop_last(), enc, j);
        assert(keys.drop_last().subrange(0, j) =~= keys.subrange(0, j));
        assert((a + b).subrange(8 * j, 8 * j + 8) =~= a.subrange(8 * j, 8 * j + 8));
    } else {
        assert(keys.drop_last() =~= keys.subrange(0, j));
        assert((a + b).subrange(8 * j, 8 * j + 8) =~= b);
    }
}

proof fn lemma_i32_field(d: Seq<u8>, p: int, v: int)
    requires
        0 <= p,
        p + 4 <= d.len(),
        0 <= v <= i32::MAX,
        d.subrange(p, p + 4) == i32_bytes(v as i32),
    ensures
        (le_u32(d, p) as i32) as int == v,
{
    let x = v as i32;
    lemma_le_u32_of_bytes(x as u32, d, p);
    assert(((x as u32) as i32) == x) by (bit_vector);
}

proof fn lemma_key_fields(keys: Seq<Seq<char>>, k: Seq<u8>, pre: Seq<u8>, tail: Seq<u8>, j: int)
    requires
        0 <= j < keys.len(),
        pre.len() == 16,
        k == pre + key_records(keys, CfgBinEncoding::Utf8) + tail,
        blob(keys, CfgBinEncoding::Utf8).len() <= i32::MAX,
    ensures
        key_start(k, j) == blob(keys.subrange(0, j), CfgBinEncoding::Utf8).len(),
        le_u32(k, 16 + 8 * j) == name_crc(keys[j], CfgBinEncoding::Utf8),
{
    let enc = CfgBinEncoding::Utf8;
    let recs = key_records(keys, enc);
    lemma_key_records_len(keys, enc);
    lemma_key_record_at(keys, enc, j);
    let off = blob(keys.subrange(0, j), enc).len();
    let r8 = recs.subrange(8 * j, 8 * j + 8);
    assert(r8 == u32_bytes(name_crc(keys[j], enc)) + i32_bytes(off as i32));
    assert(k.subrange(16 + 8 * j, 16 + 8 * j + 4) =~= r8.subrange(0, 4));
    assert(r8.subrange(0, 4) =~= u32_bytes(name_crc(keys[j], enc)));
    assert(k.subrange(16 + 8 * j + 4, 16 + 8 * j + 8) =~= r8.subrange(4, 8));
    assert(r8.subrange(4, 8) =~= i32_bytes(off as i32));
    lemma_le_u32_of_bytes(name_crc(keys[j], enc), k, 16 + 8 * j);
    lemma_blob_concat(keys.subrange(0, j), keys.subrange(j, keys.len() as int), enc);
    assert(keys.subrange(0, j) + keys.subrange(j, keys.len() as int) =~= keys);
    lemma_i32_field(k, 16 + 8 * j + 4, off as int);
}

/// The key table section written for `keys` (UTF-8 names without NUL
/// characters, the section under 2^31 bytes) reads back as the CRC and
/// the name of each key, in order.
pub proof fn lemma_key_table_reads_back(keys: Seq<Seq<char>>)
    requires
        forall|j: int, i: int| 0 <= j < keys.len() && 0 <= i < keys[j].len() ==> #[trigger] keys[j][i] != '\0',
        key_table_bytes(keys, CfgBinEncoding::Utf8).len() <= i32::MAX,
    ensures
        parse_key_table(key_table_bytes(keys, CfgBinEncoding::Utf8), CfgBinEncoding::Utf8) == Some(
            Seq::new(keys.len(), |j: int| (name_crc(keys[j], CfgBinEncoding::Utf8), keys[j])),
        ),
{
    let enc = CfgBinEncoding::Utf8;
    let recs = key_records(keys, enc);
    let names = blob(keys, enc);
    lemma_key_records_len(keys, enc);
    let a = 16 + recs.len();
    let no = a + crate::bytes::pad_len(a, 16);
    let b = no + names.len();
    let total = b + crate::bytes::pad_len(b, 16);
    let k = key_table_bytes(keys, enc);
    let pre = i32_bytes(total as i32) + i32_bytes(keys.len() as i32) + i32_bytes(no as i32) + i32_bytes(
        names.len() as i32,
    );
    let f1 = fill(0xFF, crate::bytes::pad_len(a, 16));
    let f2 = fill(0xFF, crate::bytes::pad_len(b, 16));
    let tail = f1 + names + f2;
    assert(k =~= pre + recs + tail);
    assert(k.len() == total);
    assert(k.subrange(4, 8) =~= i32_bytes(keys.len() as i32));
    assert(k.subrange(8, 12) =~= i32_bytes(no as i32));
    assert(k.subrange(12, 16) =~= i32_bytes(names.len() as i32));
    lemma_i32_field(k, 4, keys.len() as int);
    lemma_i32_field(k, 8, no as int);
    lemma_i32_field(k, 12, names.len() as int);
    assert(k.subrange(no as int, (no + names.len()) as int) =~= names);
    assert forall|j: int| 0 <= j < keys.len() implies 0 <= #[trigger] key_start(k, j) < names.len()
        && le_u32(k, 16 + 8 * j) == name_crc(keys[j], enc)
        && decode_text(names.subrange(key_start(k, j), nul_end(names, key_start(k, j))), enc) == keys[j] by {
        lemma_key_fields(keys, k, pre, tail, j);
        lemma_text_at_index(keys, j);
        assert(forall|i: int| 0 <= i < keys[j].len() ==> keys[j][i] != '\0');
    }
    assert(parse_key_table(k, enc) =~~= Some(Seq::new(keys.len(), |j: int| (name_crc(keys[j], enc), keys[j]))));
}

/// The values of the text parameters of a parameter list, in order.
pub open spec fn var_values(vs: Seq<VariableView>) -> Seq<Option<Seq<char>>>
    decreases vs.len(),
{
    if vs.len() == 0 {
        Seq::empty()
    } else {
        match vs.last().value {
            ValueView::Str(o) => var_values(vs.drop_last()).push(o),
            _ => var_values(vs.drop_last()),
        }
    }
}

/// The values of the text parameters of an entry and its descendants, in
/// document order (entries before their children).
pub open spec fn entry_values(e: EntryView) -> Seq<Option<Seq<char>>>
    decreases e, 1nat,
{
    var_values(e.variables) + list_values(e.children)
}

pub open spec fn list_values(es: Seq<EntryView>) -> Seq<Option<Seq<char>>>
    decreases es, 0nat,
{
    if es.len() == 0 {
        Seq::empty()
    } else {
        list_values(es.drop_last()) + entry_values(es.last())
    }
}

/// A text value after the updates, when it is numbered `g`.
pub open spec fn updated_value(o: Option<Seq<char>>, t: Seq<TextEntry>, g: nat) -> Option<Seq<char>> {
    match first_text(t, g) {
        Some(val) => if val.len() == 0 {
            None
        } else {
            Some(val)
        },
        None => o,
    }
}

pub open spec fn updated_values(vals: Seq<Option<Seq<char>>>, t: Seq<TextEntry>, g: nat) -> Seq<Option<Seq<char>>> {
    Seq::new(vals.len(), |k: int| updated_value(vals[k], t, (g + k) as nat))
}

proof fn lemma_updated_concat(a: Seq<Option<Seq<char>>>, b: Seq<Option<Seq<char>>>, t: Seq<TextEntry>, g: nat)
    ensures
        updated_values(a, t, g) + updated_values(b, t, g + a.len()) == updated_values(a + b, t, g),
{
    assert(updated_values(a, t, g) + updated_values(b, t, g + a.len()) =~= updated_values(a + b, t, g));
}

proof fn lemma_update_vars_values(vs: Seq<VariableView>, t: Seq<TextEntry>, g: nat)
    ensures
        str_count(vs) == var_values(vs).len(),
        var_values(update_vars(vs, t, g)) == updated_values(var_values(vs), t, g),
    decreases vs.len(),
{
    if vs.len() > 0 {
        let a = vs.drop_last();
        lemma_update_vars_values(a, t, g);
        let u = update_vars(vs, t, g);
        assert(u.drop_last() =~= update_vars(a, t, g));
        assert(u.last() == update_var(vs.last(), t, g + str_count(a)));
        match vs.last().value {
            ValueView::Str(o) => {
                assert(var_values(u) =~= updated_values(var_values(vs), t, g));
            },
            _ => {
                assert(var_values(u) =~= updated_values(var_values(vs), t, g));
            },
        }
    }
}

proof fn lemma_update_entry_values(e: EntryView, t: Seq<TextEntry>, g: nat)
    ensures
        entry_str_count(e) == entry_values(e).len(),
        entry_values(update_entry(e, t, g)) == updated_values(entry_values(e), t, g),
    decreases e, 1nat,
{
    lemma_update_vars_values(e.variables, t, g);
    lemma_update_list_values(e.children, t, g + str_count(e.variables));
    lemma_updated_concat(var_values(e.variables), list_values(e.children), t, g);
}

proof fn lemma_update_list_values(es: Seq<EntryView>, t: Seq<TextEntry>, g: nat)
    ensures
        list_str_count(es) == list_values(es).len(),
        list_values(update_list(es, t, g)) == updated_values(list_values(es), t, g),
    decreases es, 0nat,
{
    if es.len() > 0 {
        let a = es.drop_last();
        lemma_update_list_values(a, t, g);
        lemma_update_entry_values(es.last(), t, g + list_str_count(a));
        let u = update_list(es, t, g);
        assert(u.drop_last() =~= update_list(a, t, g));
        lemma_updated_concat(list_values(a), entry_values(es.last()), t, g);
    }
}

/// After `update_texts`, the text field numbered `g` in document order is
/// absent when the first update numbered `g` has an empty value.
pub proof fn lemma_empty_update_makes_field_absent(es: Seq<EntryView>, t: Seq<TextEntry>, g: nat)
    requires
        first_text(t, g) == Some(Seq::<char>::empty()),
        g < list_values(es).len(),
    ensures
        list_values(update_list(es, t, 0)).len() == list_values(es).len(),
        list_values(update_list(es, t, 0))[g as int] == None::<Seq<char>>,
{
    lemma_update_list_values(es, t, 0);
}

} // verus!

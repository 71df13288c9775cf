//! Reading a document: header, key table, string table and the flat
//! record stream, then the tree the record names describe.
use vstd::prelude::*;
use crate::bytes::{le_u16, le_u32, read_i32, read_u16, read_u32};
use crate::model::{
    entries_view, vars_view, CfgBin, CfgBinEncoding, CfgBinError, Entry, EntryView, ValueView,
    VarType, VarValue, Variable, VariableView,
};
use crate::names::{decorated, push_decimal};
use crate::text::{chars_of, decode_string, decode_text, nul_end, lemma_nul_end_bounds,
    read_null_terminated_string_at, string_of, text_at};
use crate::tree::tree_of;

verus! {

pub open spec fn tag_type(t: u8) -> VarType {
    if t == 0 {
        VarType::String
    } else if t == 1 {
        VarType::Int
    } else if t == 2 {
        VarType::Float
    } else {
        VarType::Unknown
    }
}

/// The type of parameter `j` in a type bitmap.
pub open spec fn param_type(tb: Seq<u8>, j: int) -> VarType {
    tag_type((tb[j / 4] >> ((2 * (j % 4)) as u8)) & 3u8)
}

/// Where the parameters start after `tbc` type bytes that end at `p`.
pub open spec fn params_start(p: int, tbc: int) -> int {
    if (tbc + 1) % 4 != 0 {
        p + (4 - p % 4)
    } else {
        p
    }
}

pub open spec fn param_view(t: VarType, d: Seq<u8>, p: int, blob: Seq<u8>, enc: CfgBinEncoding) -> VariableView {
    let w = le_u32(d, p);
    VariableView {
        var_type: t,
        value: match t {
            VarType::String => if (w as i32) < 0 {
                ValueView::Str(None)
            } else {
                ValueView::Str(text_at(blob, (w as i32) as int, enc))
            },
            VarType::Int => ValueView::Int(w as i32),
            VarType::Float => ValueView::Float(w),
            VarType::Unknown => ValueView::Unknown(w as i32),
        },
    }
}

/// The name a key table gives `crc`: its last record for that CRC.
pub open spec fn key_lookup(keys: Seq<(u32, Seq<char>)>, crc: u32) -> Option<Seq<char>>
    decreases keys.len(),
{
    if keys.len() == 0 {
        None
    } else if keys.last().0 == crc {
        Some(keys.last().1)
    } else {
        key_lookup(keys.drop_last(), crc)
    }
}

/// Parameter `j` is a text whose stored offset lies at or past the end
/// of the string table.
pub open spec fn bad_text_offset(tb: Seq<u8>, d: Seq<u8>, r: int, j: int, blob: Seq<u8>) -> bool {
    param_type(tb, j) == VarType::String && (le_u32(d, r + 4 * j) as i32) >= 0 && (le_u32(
        d,
        r + 4 * j,
    ) as i32) as int >= blob.len()
}

/// One record at `p`: the record (with its plain name, no children) and
/// the position after it.
pub open spec fn parse_record(
    d: Seq<u8>,
    p: int,
    keys: Seq<(u32, Seq<char>)>,
    blob: Seq<u8>,
    enc: CfgBinEncoding,
) -> Result<(EntryView, int), CfgBinError> {
    if p + 4 > d.len() {
        Err(CfgBinError::MalformedHeader)
    } else {
        let crc = le_u32(d, p);
        match key_lookup(keys, crc) {
            None => Err(CfgBinError::UnknownKey(crc)),
            Some(name) => if p + 5 > d.len() {
                Err(CfgBinError::MalformedHeader)
            } else {
                let pc = d[p + 4] as int;
                let tbc = (pc + 3) / 4;
                let q = p + 5;
                if q + tbc > d.len() {
                    Err(CfgBinError::MalformedHeader)
                } else {
                    let tb = d.subrange(q, q + tbc);
                    let r = params_start(q + tbc, tbc);
                    if r + 4 * pc > d.len() {
                        Err(CfgBinError::MalformedHeader)
                    } else if exists|j: int| 0 <= j < pc && #[trigger] bad_text_offset(tb, d, r, j, blob) {
                        Err(CfgBinError::MalformedHeader)
                    } else {
                        Ok(
                            (
                                EntryView {
                                    name,
                                    variables: Seq::new(
                                        pc as nat,
                                        |j: int| param_view(param_type(tb, j), d, r + 4 * j, blob, enc),
                                    ),
                                    children: Seq::empty(),
                                    end_terminator: false,
                                },
                                r + 4 * pc,
                            ),
                        )
                    }
                }
            },
        }
    }
}

/// `n` records from `p` on.
pub open spec fn parse_records(
    d: Seq<u8>,
    p: int,
    n: nat,
    keys: Seq<(u32, Seq<char>)>,
    blob: Seq<u8>,
    enc: CfgBinEncoding,
) -> Result<Seq<EntryView>, CfgBinError>
    decreases n,
{
    if n == 0 {
        Ok(Seq::empty())
    } else {
        match parse_record(d, p, keys, blob, enc) {
            Err(e) => Err(e),
            Ok((r, next)) => match parse_records(d, next, (n - 1) as nat, keys, blob, enc) {
                Err(e) => Err(e),
                Ok(rs) => Ok(seq![r] + rs),
            },
        }
    }
}

pub open spec fn key_start(k: Seq<u8>, j: int) -> int {
    (le_u32(k, 16 + 8 * j + 4) as i32) as int
}

/// The key table section: pairs of CRC and name, or `None` where it is
/// malformed.
pub open spec fn parse_key_table(k: Seq<u8>, enc: CfgBinEncoding) -> Option<Seq<(u32, Seq<char>)>> {
    if k.len() < 16 {
        None
    } else {
        let count = (le_u32(k, 4) as i32) as int;
        let kso = (le_u32(k, 8) as i32) as int;
        let ksl = (le_u32(k, 12) as i32) as int;
        if count < 0 || kso < 0 || ksl < 0 || kso + ksl > k.len() || 16 + 8 * count > k.len() {
            None
        } else {
            let ks = k.subrange(kso, kso + ksl);
            if exists|j: int| 0 <= j < count && !(0 <= #[trigger] key_start(k, j) <= ks.len()) {
                None
            } else {
                Some(
                    Seq::new(
                        count as nat,
                        |j: int|
                            (
                                le_u32(k, 16 + 8 * j),
                                decode_text(ks.subrange(key_start(k, j), nul_end(ks, key_start(k, j))), enc),
                            ),
                    ),
                )
            }
        }
    }
}

/// The footer's encoding word, or 1 where the buffer is too short to hold it.
pub open spec fn footer_word_of(d: Seq<u8>) -> u16 {
    if d.len() >= 10 {
        le_u16(d, d.len() - 10)
    } else {
        1
    }
}

pub open spec fn encoding_of(w: u16) -> CfgBinEncoding {
    if w == 0 {
        CfgBinEncoding::ShiftJis
    } else {
        CfgBinEncoding::Utf8
    }
}

/// The flat record stream of a document, names not yet decorated.
pub open spec fn parse_document(d: Seq<u8>) -> Result<Seq<EntryView>, CfgBinError> {
    let enc = encoding_of(footer_word_of(d));
    if d.len() < 16 {
        Err(CfgBinError::MalformedHeader)
    } else {
        let n = (le_u32(d, 0) as i32) as int;
        let sto = (le_u32(d, 4) as i32) as int;
        let stl = (le_u32(d, 8) as i32) as int;
        if n < 0 || sto < 16 || stl < 0 || sto + stl > d.len() {
            Err(CfgBinError::MalformedHeader)
        } else {
            let blob = d.subrange(sto, sto + stl);
            let kt = ((sto + stl + 15) / 16) * 16;
            if kt + 4 > d.len() {
                Err(CfgBinError::MalformedHeader)
            } else {
                let ksz = (le_u32(d, kt) as i32) as int;
                if ksz < 0 || kt + ksz > d.len() {
                    Err(CfgBinError::MalformedHeader)
                } else {
                    match parse_key_table(d.subrange(kt, kt + ksz), enc) {
                        None => Err(CfgBinError::MalformedHeader),
                        Some(keys) => parse_records(d.subrange(16, sto), 0, n as nat, keys, blob, enc),
                    }
                }
            }
        }
    }
}

/// How often `x` occurs in `s`.
pub open spec fn count_in(s: Seq<Seq<char>>, x: Seq<char>) -> nat
    decreases s.len(),
{
    if s.len() == 0 {
        0
    } else {
        count_in(s.drop_last(), x) + if s.last() == x {
            1nat
        } else {
            0nat
        }
    }
}

pub open spec fn names_of(rs: Seq<EntryView>) -> Seq<Seq<char>> {
    rs.map_values(|e: EntryView| e.name)
}

/// Each record's name with the number of earlier records of that name
/// appended.
pub open spec fn decorate(rs: Seq<EntryView>) -> Seq<EntryView> {
    Seq::new(
        rs.len(),
        |i: int|
            EntryView {
                name: decorated(rs[i].name, count_in(names_of(rs).subrange(0, i), rs[i].name)),
                ..rs[i]
            },
    )
}

pub open spec fn keys_view(v: Seq<(u32, String)>) -> Seq<(u32, Seq<char>)> {
    v.map_values(|p: (u32, String)| (p.0, p.1@))
}

/// The text from `start` up to the next NUL of `ks`, or its end.
fn text_from(ks: &[u8], start: usize, enc: &CfgBinEncoding) -> (r: String)
    requires
        start <= ks@.len(),
    ensures
        r@ == decode_text(ks@.subrange(start as int, nul_end(ks@, start as int)), *enc),
{
    proof {
        lemma_nul_end_bounds(ks@, start as int);
    }
    let mut end: usize = start;
    while end < ks.len() && ks[end] != 0
        invariant
            start <= end <= ks@.len(),
            nul_end(ks@, end as int) == nul_end(ks@, start as int),
        decreases ks@.len() - end,
    {
        end = end + 1;
    }
    decode_string(vstd::slice::slice_subrange(ks, start, end), enc)
}

impl CfgBin {
    /// Reads the key table section: CRC and name of each key.
    pub fn parse_key_table(data: &[u8], encoding: &CfgBinEncoding) -> (r: Option<Vec<(u32, String)>>)
        ensures
            r matches Some(v) ==> parse_key_table(data@, *encoding) == Some(keys_view(v@)),
            r is None <==> parse_key_table(data@, *encoding) is None,
    {
        let len = data.len();
        if len < 16 {
            return None;
        }
        let key_count = read_i32(data, 4);
        let kso = read_i32(data, 8);
        let ksl = read_i32(data, 12);
        if key_count < 0 || kso < 0 || ksl < 0 {
            return None;
        }
        let kso = kso as usize;
        let ksl = ksl as usize;
        let count = key_count as usize;
        if kso > len || ksl > len - kso || count > (len - 16) / 8 {
            return None;
        }
        let ks = vstd::slice::slice_subrange(data, kso, kso + ksl);
        let ghost kv = data@;
        proof {
            let c = (le_u32(kv, 4) as i32) as int;
            let a = (le_u32(kv, 8) as i32) as int;
            let b = (le_u32(kv, 12) as i32) as int;
            assert(a == kso as int && b == ksl as int && c == count as int);
            assert(16 + 8 * c <= kv.len()) by (nonlinear_arith)
                requires
                    c <= (kv.len() - 16) / 8,
                    kv.len() >= 16,
            ;
            assert(!(c < 0 || a < 0 || b < 0 || a + b > kv.len() || 16 + 8 * c > kv.len()));
        }
        let mut table: Vec<(u32, String)> = Vec::new();
        let mut j: usize = 0;
        while j < count
            invariant
                kv == data@,
                len == data@.len(),
                16 + 8 * count <= len,
                j <= count,
                count == (le_u32(kv, 4) as i32) as int,
                kso == (le_u32(kv, 8) as i32) as int,
                ksl == (le_u32(kv, 12) as i32) as int,
                kso + ksl <= len,
                ks@ == kv.subrange(kso as int, kso + ksl),
                forall|i: int| 0 <= i < j ==> 0 <= #[trigger] key_start(kv, i) <= ks@.len(),
                keys_view(table@) == Seq::new(
                    j as nat,
                    |i: int|
                        (
                            le_u32(kv, 16 + 8 * i),
                            decode_text(ks@.subrange(key_start(kv, i), nul_end(ks@, key_start(kv, i))), *encoding),
                        ),
                ),
            decreases count - j,
        {
            let pos = 16 + 8 * j;
            let crc = read_u32(data, pos);
            let start = read_i32(data, pos + 4);
            assert(start as int == key_start(kv, j as int));
            if start < 0 || start as usize > ks.len() {
                assert(!(0 <= key_start(kv, j as int) <= ks@.len()));
                assert(parse_key_table(data@, *encoding) is None);
                return None;
            }
            let name = text_from(ks, start as usize, encoding);
            let ghost before = table@;
            let ghost elem = (crc, name@);
            assert(elem == (
                le_u32(kv, 16 + 8 * j),
                decode_text(ks@.subrange(key_start(kv, j as int), nul_end(ks@, key_start(kv, j as int))), *encoding),
            ));
            table.push((crc, name));
            assert(keys_view(table@) =~= keys_view(before).push(elem));
            j = j + 1;
            assert(keys_view(table@) =~= Seq::new(
                j as nat,
                |i: int|
                    (
                        le_u32(kv, 16 + 8 * i),
                        decode_text(ks@.subrange(key_start(kv, i), nul_end(ks@, key_start(kv, i))), *encoding),
                    ),
            ));
        }
        Some(table)
    }
}

fn key_lookup_exec(keys: &Vec<(u32, String)>, crc: u32) -> (r: Option<String>)
    ensures
        r matches Some(s) ==> key_lookup(keys_view(keys@), crc) == Some(s@),
        r is None <==> key_lookup(keys_view(keys@), crc) is None,
{
    let ghost kv = keys_view(keys@);
    let mut i: usize = keys.len();
    assert(kv.subrange(0, i as int) =~= kv);
    while i > 0
        invariant
            i <= keys@.len(),
            kv == keys_view(keys@),
            key_lookup(kv, crc) == key_lookup(kv.subrange(0, i as int), crc),
        decreases i,
    {
        assert(kv.subrange(0, i as int).drop_last() =~= kv.subrange(0, i - 1));
        if keys[i - 1].0 == crc {
            return Some(keys[i - 1].1.clone());
        }
        i = i - 1;
    }
    None
}

fn tag_type_exec(t: u8) -> (r: VarType)
    ensures
        r == tag_type(t),
{
    if t == 0 {
        VarType::String
    } else if t == 1 {
        VarType::Int
    } else if t == 2 {
        VarType::Float
    } else {
        VarType::Unknown
    }
}

/// One parameter of type `t` stored at `p`; a text offset past the end of
/// the string table is refused.
fn read_param(t: VarType, d: &[u8], p: usize, blob: &[u8], enc: &CfgBinEncoding) -> (r: Result<Variable, CfgBinError>)
    requires
        p + 4 <= d@.len(),
    ensures
        match r {
            Ok(v) => v@ == param_view(t, d@, p as int, blob@, *enc) && !(t == VarType::String && (le_u32(d@, p as int) as i32) >= 0
                && (le_u32(d@, p as int) as i32) as int >= blob@.len()),
            Err(e) => e == CfgBinError::MalformedHeader && t == VarType::String && (le_u32(d@, p as int) as i32) >= 0
                && (le_u32(d@, p as int) as i32) as int >= blob@.len(),
        },
{
    let w = read_u32(d, p);
    let value = match t {
        VarType::String => {
            let off = w as i32;
            if off < 0 {
                VarValue::String(None)
            } else if off as usize >= blob.len() {
                return Err(CfgBinError::MalformedHeader);
            } else {
                VarValue::String(read_null_terminated_string_at(blob, off as usize, enc))
            }
        },
        VarType::Int => VarValue::Int(w as i32),
        VarType::Float => VarValue::Float(w),
        VarType::Unknown => VarValue::Unknown(w as i32),
    };
    Ok(Variable { var_type: t, value })
}

/// Reads the record at `p`.
fn parse_record_exec(
    d: &[u8],
    p: usize,
    keys: &Vec<(u32, String)>,
    blob: &[u8],
    enc: &CfgBinEncoding,
) -> (r: Result<(Entry, usize), CfgBinError>)
    ensures
        match r {
            Ok((e, next)) => parse_record(d@, p as int, keys_view(keys@), blob@, *enc) == Ok::<
                (EntryView, int),
                CfgBinError,
            >((e@, next as int)),
            Err(err) => parse_record(d@, p as int, keys_view(keys@), blob@, *enc) == Err::<
                (EntryView, int),
                CfgBinError,
            >(err),
        },
{
    let len = d.len();
    if p > len || len - p < 4 {
        return Err(CfgBinError::MalformedHeader);
    }
    let crc = read_u32(d, p);
    let name = match key_lookup_exec(keys, crc) {
        None => {
            return Err(CfgBinError::UnknownKey(crc));
        },
        Some(n) => n,
    };
    if len - p < 5 {
        return Err(CfgBinError::MalformedHeader);
    }
    let pc = d[p + 4] as usize;
    let tbc = (pc + 3) / 4;
    let q = p + 5;
    if len - q < tbc {
        return Err(CfgBinError::MalformedHeader);
    }
    let qe = q + tbc;
    let r0: usize = if (tbc + 1) % 4 != 0 {
        if len - qe < 4 - qe % 4 {
            return Err(CfgBinError::MalformedHeader);
        }
        qe + (4 - qe % 4)
    } else {
        qe
    };
    assert(r0 == params_start(qe as int, tbc as int));
    if len - r0 < 4 * pc {
        return Err(CfgBinError::MalformedHeader);
    }
    let ghost tb = d@.subrange(q as int, qe as int);
    let mut variables: Vec<Variable> = Vec::new();
    let mut j: usize = 0;
    while j < pc
        invariant
            j <= pc,
            pc <= 255,
            p + 5 <= len,
            q == p + 5,
            pc == d@[p + 4] as int,
            r0 == params_start(qe as int, tbc as int),
            key_lookup(keys_view(keys@), le_u32(d@, p as int)) is Some,
            tbc == (pc + 3) / 4,
            qe == q + tbc,
            qe <= len,
            len == d@.len(),
            r0 + 4 * pc <= len,
            tb == d@.subrange(q as int, qe as int),
            vars_view(variables@) == Seq::new(
                j as nat,
                |i: int| param_view(param_type(tb, i), d@, r0 + 4 * i, blob@, *enc),
            ),
            forall|i: int| 0 <= i < j ==> !#[trigger] bad_text_offset(tb, d@, r0 as int, i, blob@),
        decreases pc - j,
    {
        let byte = d[q + j / 4];
        assert(byte == tb[(j / 4) as int]);
        let t = tag_type_exec((byte >> ((2 * (j % 4)) as u8)) & 3u8);
        assert(t == param_type(tb, j as int));
        let v = match read_param(t, d, r0 + 4 * j, blob, enc) {
            Ok(v) => v,
            Err(e) => {
                assert(bad_text_offset(tb, d@, r0 as int, j as int, blob@));
                assert(exists|i: int| 0 <= i < pc && #[trigger] bad_text_offset(tb, d@, r0 as int, i, blob@));
                return Err(e);
            },
        };
        let ghost before = variables@;
        variables.push(v);
        assert(vars_view(variables@) =~= vars_view(before).push(v@));
        j = j + 1;
        assert(vars_view(variables@) =~= Seq::new(
            j as nat,
            |i: int| param_view(param_type(tb, i), d@, r0 + 4 * i, blob@, *enc),
        ));
    }
    let e = Entry { name, variables, children: Vec::new(), end_terminator: false };
    assert(e@.children =~= Seq::<EntryView>::empty());
    Ok((e, r0 + 4 * pc))
}

/// Where the record at `p` ends, or why it cannot be read.
pub fn parse_record_pub(
    d: &[u8],
    p: usize,
    keys: &Vec<(u32, String)>,
    blob: &[u8],
    enc: &CfgBinEncoding,
) -> (r: Result<usize, CfgBinError>)
    ensures
        match r {
            Ok(next) => parse_record(d@, p as int, keys_view(keys@), blob@, *enc) matches Ok((_, q))
                && q == next as int,
            Err(err) => parse_record(d@, p as int, keys_view(keys@), blob@, *enc) == Err::<
                (EntryView, int),
                CfgBinError,
            >(err),
        },
{
    match parse_record_exec(d, p, keys, blob, enc) {
        Ok((_, next)) => Ok(next),
        Err(e) => Err(e),
    }
}

pub open spec fn prepend(done: Seq<EntryView>, r: Result<Seq<EntryView>, CfgBinError>) -> Result<
    Seq<EntryView>,
    CfgBinError,
> {
    match r {
        Ok(rs) => Ok(done + rs),
        Err(e) => Err(e),
    }
}

/// Reads `count` records from the start of `d`.
fn parse_records_exec(
    count: usize,
    d: &[u8],
    keys: &Vec<(u32, String)>,
    blob: &[u8],
    enc: &CfgBinEncoding,
) -> (r: Result<Vec<Entry>, CfgBinError>)
    ensures
        match r {
            Ok(v) => parse_records(d@, 0, count as nat, keys_view(keys@), blob@, *enc) == Ok::<
                Seq<EntryView>,
                CfgBinError,
            >(entries_view(v@)),
            Err(e) => parse_records(d@, 0, count as nat, keys_view(keys@), blob@, *enc) == Err::<
                Seq<EntryView>,
                CfgBinError,
            >(e),
        },
{
    let ghost kv = keys_view(keys@);
    let mut out: Vec<Entry> = Vec::new();
    let mut pos: usize = 0;
    let mut i: usize = 0;
    assert(entries_view(out@) =~= Seq::<EntryView>::empty());
    assert(prepend(Seq::empty(), parse_records(d@, 0, count as nat, kv, blob@, *enc)) == parse_records(d@, 0, count as nat, kv, blob@, *enc)) by {
        match parse_records(d@, 0, count as nat, kv, blob@, *enc) {
            Ok(rs) => {
                assert(Seq::<EntryView>::empty() + rs =~= rs);
            },
            Err(e) => {},
        }
    }
    while i < count
        invariant
            i <= count,
            kv == keys_view(keys@),
            parse_records(d@, 0, count as nat, kv, blob@, *enc) == prepend(
                entries_view(out@),
                parse_records(d@, pos as int, (count - i) as nat, kv, blob@, *enc),
            ),
        decreases count - i,
    {
        match parse_record_exec(d, pos, keys, blob, enc) {
            Err(e) => {
                return Err(e);
            },
            Ok((e, next)) => {
                let ghost before = entries_view(out@);
                let ghost rest = parse_records(d@, next as int, (count - i - 1) as nat, kv, blob@, *enc);
                out.push(e);
                assert(entries_view(out@) =~= before.push(e@));
                proof {
                    match rest {
                        Ok(rs) => {
                            assert(before + (seq![e@] + rs) =~= before.push(e@) + rs);
                        },
                        Err(_) => {},
                    }
                }
                pos = next;
                i = i + 1;
            },
        }
    }
    assert(entries_view(out@) + Seq::<EntryView>::empty() =~= entries_view(out@));
    Ok(out)
}

/// The names of `rs` with their occurrence index appended.
fn decorate_exec(rs: Vec<Entry>) -> (r: Vec<Entry>)
    ensures
        entries_view(r@) == decorate(entries_view(rs@)),
{
    let ghost rv = entries_view(rs@);
    let ghost nv = names_of(rv);
    let mut names: Vec<String> = Vec::new();
    let mut i: usize = 0;
    while i < rs.len()
        invariant
            i <= rs@.len(),
            rv == entries_view(rs@),
            nv == names_of(rv),
            names@.len() == i,
            forall|k: int|
                0 <= k < i ==> #[trigger] names@[k]@ == decorated(
                    rv[k].name,
                    count_in(nv.subrange(0, k), rv[k].name),
                ),
        decreases rs@.len() - i,
    {
        let mut cnt: usize = 0;
        let mut j: usize = 0;
        while j < i
            invariant
                j <= i,
                i < rs@.len(),
                rv == entries_view(rs@),
                nv == names_of(rv),
                cnt <= j,
                cnt == count_in(nv.subrange(0, j as int), rv[i as int].name),
            decreases i - j,
        {
            assert(nv.subrange(0, j + 1).drop_last() =~= nv.subrange(0, j as int));
            if rs[j].name == rs[i].name {
                cnt = cnt + 1;
            }
            j = j + 1;
        }
        let mut v = chars_of(rs[i].name.as_str());
        v.push('_');
        let ghost base = v@;
        push_decimal(&mut v, cnt);
        assert(v@ =~= decorated(rv[i as int].name, cnt as nat));
        names.push(string_of(v.as_slice()));
        i = i + 1;
    }
    let mut out = rs;
    let mut k: usize = 0;
    while k < out.len()
        invariant
            k <= out@.len(),
            nv == names_of(rv),
            out@.len() == rv.len(),
            names@.len() == rv.len(),
            forall|m: int|
                0 <= m < rv.len() ==> #[trigger] names@[m]@ == decorated(
                    rv[m].name,
                    count_in(nv.subrange(0, m), rv[m].name),
                ),
            forall|m: int| 0 <= m < k ==> #[trigger] out@[m]@ == decorate(rv)[m],
            forall|m: int| k <= m < out@.len() ==> #[trigger] out@[m]@ == rv[m],
        decreases out@.len() - k,
    {
        let mut tmp = Entry { name: String::new(), variables: Vec::new(), children: Vec::new(), end_terminator: false };
        assert(out@[k as int]@ == rv[k as int]);
        out.set_and_swap(k, &mut tmp);
        let ghost t0 = tmp;
        tmp.name = names[k].clone();
        assert(tmp@ == EntryView { name: names@[k as int]@, ..t0@ });
        assert(names@[k as int]@ == decorated(rv[k as int].name, count_in(nv.subrange(0, k as int), rv[k as int].name)));
        let ghost dk = decorate(rv)[k as int];
        assert(dk.name == names@[k as int]@);
        assert(dk.variables == rv[k as int].variables);
        assert(dk.children == rv[k as int].children);
        assert(dk.end_terminator == rv[k as int].end_terminator);
        assert(t0@ == rv[k as int]);
        assert(tmp@ == dk);
        out.set(k, tmp);
        assert(out@[k as int]@ == decorate(rv)[k as int]);
        k = k + 1;
    }
    assert forall|m: int| 0 <= m < rv.len() implies #[trigger] entries_view(out@)[m] == decorate(rv)[m] by {
        assert(out@[m]@ == decorate(rv)[m]);
    }
    assert(entries_view(out@) =~= decorate(rv));
    out
}

impl CfgBin {
    /// Reads `entries_count` records, names each by its occurrence, and
    /// rebuilds their tree.
    pub fn parse_entries(
        entries_count: usize,
        data: &[u8],
        key_table: &Vec<(u32, String)>,
        string_table_data: &[u8],
        encoding: &CfgBinEncoding,
    ) -> (r: Result<Vec<Entry>, CfgBinError>)
        ensures
            match parse_records(
                data@,
                0,
                entries_count as nat,
                keys_view(key_table@),
                string_table_data@,
                *encoding,
            ) {
                Ok(rs) => r matches Ok(v) && entries_view(v@) == tree_of(decorate(rs)),
                Err(e) => r == Err::<Vec<Entry>, CfgBinError>(e),
            },
    {
        let raw = parse_records_exec(entries_count, data, key_table, string_table_data, encoding)?;
        let named = decorate_exec(raw);
        Ok(Self::process_entries(named))
    }

    /// Reads the header, the footer's encoding word and the key table:
    /// everything the record stream needs.
    pub fn parse_sections(data: &[u8]) -> (r: Result<
        (CfgBinEncoding, u16, usize, usize, usize, usize, Vec<(u32, String)>),
        CfgBinError,
    >)
        ensures
            match r {
                Ok((enc, fe, n, sto, stl, kt, keys)) => {
                    &&& fe == footer_word_of(data@)
                    &&& enc == encoding_of(fe)
                    &&& data@.len() >= 16
                    &&& n as int == (le_u32(data@, 0) as i32) as int
                    &&& sto as int == (le_u32(data@, 4) as i32) as int
                    &&& stl as int == (le_u32(data@, 8) as i32) as int
                    &&& 16 <= sto && sto + stl <= data@.len()
                    &&& kt as int == ((sto + stl + 15) / 16) * 16
                    &&& kt + 4 <= data@.len()
                    &&& kt + (le_u32(data@, kt as int) as i32) as int <= data@.len()
                    &&& parse_key_table(
                        data@.subrange(kt as int, kt + (le_u32(data@, kt as int) as i32) as int),
                        enc,
                    ) == Some(keys_view(keys@))
                    &&& parse_document(data@) == parse_records(
                        data@.subrange(16, sto as int),
                        0,
                        n as nat,
                        keys_view(keys@),
                        data@.subrange(sto as int, sto + stl),
                        enc,
                    )
                },
                Err(e) => parse_document(data@) == Err::<Seq<EntryView>, CfgBinError>(e),
            },
    {
        let len = data.len();
        let footer_encoding: u16 = if len >= 10 {
            read_u16(data, len - 10)
        } else {
            1
        };
        let encoding = if footer_encoding == 0 {
            CfgBinEncoding::ShiftJis
        } else {
            CfgBinEncoding::Utf8
        };
        if len < 16 {
            return Err(CfgBinError::MalformedHeader);
        }
        let n = read_i32(data, 0);
        let sto = read_i32(data, 4);
        let stl = read_i32(data, 8);
        if n < 0 || sto < 16 || stl < 0 {
            return Err(CfgBinError::MalformedHeader);
        }
        let sto = sto as usize;
        let stl = stl as usize;
        if sto > len || stl > len - sto {
            return Err(CfgBinError::MalformedHeader);
        }
        let end = sto + stl;
        let rem = end % 16;
        if rem != 0 && 16 - rem > len - end {
            return Err(CfgBinError::MalformedHeader);
        }
        let kt = if rem == 0 {
            end
        } else {
            end + (16 - rem)
        };
        assert(kt == ((end + 15) / 16) * 16) by (nonlinear_arith)
            requires
                rem == end % 16,
                kt == if rem == 0 {
                    end as int
                } else {
                    end + (16 - rem)
                },
        ;
        if len - kt < 4 {
            return Err(CfgBinError::MalformedHeader);
        }
        let ksz = read_i32(data, kt);
        if ksz < 0 || ksz as usize > len - kt {
            return Err(CfgBinError::MalformedHeader);
        }
        let key_table_data = vstd::slice::slice_subrange(data, kt, kt + ksz as usize);
        let key_table = match Self::parse_key_table(key_table_data, &encoding) {
            None => {
                return Err(CfgBinError::MalformedHeader);
            },
            Some(t) => t,
        };
        Ok((encoding, footer_encoding, n as usize, sto, stl, kt, key_table))
    }

    /// Decodes a whole document.
    pub fn open(data: &[u8]) -> (r: Result<CfgBin, CfgBinError>)
        ensures
            match parse_document(data@) {
                Ok(rs) => r matches Ok(c) && c.entries_view() == tree_of(decorate(rs))
                    && c.footer_encoding == footer_word_of(data@) && c.encoding == encoding_of(
                    footer_word_of(data@),
                ),
                Err(e) => r == Err::<CfgBin, CfgBinError>(e),
            },
    {
        let (encoding, footer_encoding, n, sto, stl, _kt, key_table) = Self::parse_sections(data)?;
        let string_table_data = vstd::slice::slice_subrange(data, sto, sto + stl);
        let entries_data = vstd::slice::slice_subrange(data, 16, sto);
        let entries = Self::parse_entries(n, entries_data, &key_table, string_table_data, &encoding)?;
        Ok(CfgBin { encoding, footer_encoding, entries })
    }
}

} // verus!

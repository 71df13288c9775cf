//! Address-keyed text correlation: text fields keyed by the string-table
//! offset the file stores for them, and patched into a copy of the file in
//! place, leaving every other byte as it was.
use vstd::prelude::*;
use crate::bytes::{le_u16, le_u32, read_i32, read_u16, read_u32};
use crate::decode::{
    encoding_of, footer_word_of, keys_view, param_type, params_start, parse_document, parse_key_table,
    parse_record, parse_records,
};
use crate::model::{CfgBin, CfgBinEncoding, CfgBinError, VarType};
use crate::text::{decode_string, encode_string_bytes, encode_text, nul_end, lemma_nul_end_bounds, text_at};

verus! {

/// A text field keyed by its offset in the string table.
#[derive(Debug, Clone)]
pub struct AddressText {
    pub address: usize,
    pub value: String,
}

/// The stored words of the first `k` text parameters of the record whose
/// type bitmap is `tb` and whose parameters start at `r`.
pub open spec fn refs_upto(d: Seq<u8>, tb: Seq<u8>, r: int, k: nat) -> Seq<i32>
    decreases k,
{
    if k == 0 {
        Seq::empty()
    } else {
        let j = k - 1;
        let prev = refs_upto(d, tb, r, j as nat);
        if param_type(tb, j) == VarType::String {
            prev.push(le_u32(d, r + 4 * j) as i32)
        } else {
            prev
        }
    }
}

/// The stored offsets of the text parameters of the record at `p`.
pub open spec fn record_refs(d: Seq<u8>, p: int) -> Seq<i32> {
    let pc = d[p + 4] as int;
    let tbc = (pc + 3) / 4;
    let q = p + 5;
    refs_upto(d, d.subrange(q, q + tbc), params_start(q + tbc, tbc), pc as nat)
}

/// The stored text offsets of `n` records from `p` on.
pub open spec fn records_refs(
    d: Seq<u8>,
    p: int,
    n: nat,
    keys: Seq<(u32, Seq<char>)>,
    blob: Seq<u8>,
    enc: CfgBinEncoding,
) -> Seq<i32>
    decreases n,
{
    if n == 0 {
        Seq::empty()
    } else {
        match parse_record(d, p, keys, blob, enc) {
            Ok((_, next)) => record_refs(d, p) + records_refs(d, next, (n - 1) as nat, keys, blob, enc),
            Err(_) => Seq::empty(),
        }
    }
}

pub open spec fn header_i32(d: Seq<u8>, p: int) -> int {
    (le_u32(d, p) as i32) as int
}

pub open spec fn key_table_at(d: Seq<u8>) -> int {
    ((header_i32(d, 4) + header_i32(d, 8) + 15) / 16) * 16
}

/// The string table of a document whose header is valid.
pub open spec fn string_blob(d: Seq<u8>) -> Seq<u8> {
    d.subrange(header_i32(d, 4), header_i32(d, 4) + header_i32(d, 8))
}

/// The stored text offsets of every record of a document that decodes.
pub open spec fn document_refs(d: Seq<u8>) -> Seq<i32> {
    let enc = encoding_of(footer_word_of(d));
    let kt = key_table_at(d);
    let keys = parse_key_table(d.subrange(kt, kt + header_i32(d, kt)), enc)->Some_0;
    records_refs(d.subrange(16, header_i32(d, 4)), 0, header_i32(d, 0) as nat, keys, string_blob(d), enc)
}

/// An offset that reads a text: stored for some text field and inside the
/// string table.
pub open spec fn is_address(d: Seq<u8>, a: int) -> bool {
    0 <= a < string_blob(d).len() && exists|k: int|
        0 <= k < document_refs(d).len() && document_refs(d)[k] as int == a
}

/// The stored text offsets of the record at `p`, which parses.
fn record_refs_exec(
    d: &[u8],
    p: usize,
    Ghost(keys): Ghost<Seq<(u32, Seq<char>)>>,
    Ghost(blob): Ghost<Seq<u8>>,
    Ghost(enc): Ghost<CfgBinEncoding>,
) -> (r: Vec<i32>)
    requires
        parse_record(d@, p as int, keys, blob, enc) is Ok,
    ensures
        r@ == record_refs(d@, p as int),
{
    let _n = d.len();
    let pc = d[p + 4] as usize;
    let tbc = (pc + 3) / 4;
    let q = p + 5;
    let qe = q + tbc;
    let r0: usize = if (tbc + 1) % 4 != 0 {
        qe + (4 - qe % 4)
    } else {
        qe
    };
    let ghost tb = d@.subrange(q as int, qe as int);
    assert(r0 == params_start(qe as int, tbc as int));
    let mut out: Vec<i32> = Vec::new();
    let mut j: usize = 0;
    while j < pc
        invariant
            j <= pc,
            pc == d@[p + 4] as int,
            tbc == (pc + 3) / 4,
            q == p + 5,
            qe == q + tbc,
            qe <= d@.len(),
            r0 + 4 * pc <= d@.len(),
            tb == d@.subrange(q as int, qe as int),
            out@ == refs_upto(d@, tb, r0 as int, j as nat),
        decreases pc - j,
    {
        let byte = d[q + j / 4];
        assert(byte == tb[(j / 4) as int]);
        let t = (byte >> ((2 * (j % 4)) as u8)) & 3u8;
        if t == 0 {
            out.push(read_u32(d, r0 + 4 * j) as i32);
        }
        j = j + 1;
    }
    out
}

pub open spec fn err_of<T>(r: Result<T, CfgBinError>) -> Option<CfgBinError> {
    match r {
        Ok(_) => None,
        Err(e) => Some(e),
    }
}

/// The stored text offsets of `count` records from the start of `d`.
fn parse_refs_exec(
    count: usize,
    d: &[u8],
    keys: &Vec<(u32, String)>,
    blob: &[u8],
    enc: &CfgBinEncoding,
) -> (r: Result<Vec<i32>, CfgBinError>)
    ensures
        match r {
            Ok(v) => parse_records(d@, 0, count as nat, keys_view(keys@), blob@, *enc) is Ok && v@
                == records_refs(d@, 0, count as nat, keys_view(keys@), blob@, *enc),
            Err(e) => err_of(parse_records(d@, 0, count as nat, keys_view(keys@), blob@, *enc)) == Some(
                e,
            ),
        },
{
    let ghost kv = keys_view(keys@);
    let mut refs: Vec<i32> = Vec::new();
    let mut pos: usize = 0;
    let mut i: usize = 0;
    assert(refs@ + records_refs(d@, 0, count as nat, kv, blob@, *enc) =~= records_refs(d@, 0, count as nat, kv, blob@, *enc));
    while i < count
        invariant
            i <= count,
            kv == keys_view(keys@),
            err_of(parse_records(d@, 0, count as nat, kv, blob@, *enc)) == err_of(
                parse_records(d@, pos as int, (count - i) as nat, kv, blob@, *enc),
            ),
            records_refs(d@, 0, count as nat, kv, blob@, *enc) == refs@ + records_refs(
                d@,
                pos as int,
                (count - i) as nat,
                kv,
                blob@,
                *enc,
            ),
        decreases count - i,
    {
        match crate::decode::parse_record_pub(d, pos, keys, blob, enc) {
            Err(e) => {
                return Err(e);
            },
            Ok(next) => {
                let more = record_refs_exec(d, pos, Ghost(kv), Ghost(blob@), Ghost(*enc));
                let ghost before = refs@;
                let mut k: usize = 0;
                while k < more.len()
                    invariant
                        k <= more@.len(),
                        refs@ == before + more@.subrange(0, k as int),
                    decreases more@.len() - k,
                {
                    refs.push(more[k]);
                    k = k + 1;
                    assert(refs@ =~= before + more@.subrange(0, k as int));
                }
                assert(more@.subrange(0, k as int) =~= more@);
                let ghost rest = records_refs(d@, next as int, (count - i - 1) as nat, kv, blob@, *enc);
                assert(before + (more@ + rest) =~= refs@ + rest);
                pos = next;
                i = i + 1;
            },
        }
    }
    proof {
        assert(refs@ + Seq::<i32>::empty() =~= refs@);
    }
    Ok(refs)
}

pub open spec fn strictly_sorted(s: Seq<usize>) -> bool {
    forall|i: int, j: int| 0 <= i < j < s.len() ==> s[i] < s[j]
}

/// Adds `x` to a strictly increasing list, keeping it so.
fn insert_sorted(v: &mut Vec<usize>, x: usize)
    requires
        strictly_sorted(old(v)@),
    ensures
        strictly_sorted(final(v)@),
        forall|y: usize| final(v)@.contains(y) <==> (old(v)@.contains(y) || y == x),
{
    let mut i: usize = 0;
    while i < v.len() && v[i] < x
        invariant
            i <= v@.len(),
            v@ == old(v)@,
            forall|j: int| 0 <= j < i ==> v@[j] < x,
        decreases v@.len() - i,
    {
        i = i + 1;
    }
    if i < v.len() && v[i] == x {
        assert forall|y: usize| v@.contains(y) <==> (old(v)@.contains(y) || y == x) by {
            if y == x {
                assert(v@[i as int] == y);
            }
        }
        return;
    }
    let ghost s = v@;
    assert(s == old(v)@);
    v.insert(i, x);
    assert(v@ == s.insert(i as int, x));
    assert forall|a: int, b: int| 0 <= a < b < v@.len() implies v@[a] < v@[b] by {
        if b < i {
            assert(v@[a] == s[a] && v@[b] == s[b]);
        } else if b == i {
            assert(v@[a] == s[a]);
        } else if a < i {
            assert(v@[a] == s[a] && v@[b] == s[b - 1]);
            assert(s[b - 1] >= s[i as int]);
        } else if a == i {
            assert(v@[b] == s[b - 1]);
            assert(s[b - 1] >= s[i as int]);
        } else {
            assert(v@[a] == s[a - 1] && v@[b] == s[b - 1]);
        }
    }
    proof {
        lemma_insert_contains(s, i as int, x);
    }
}

proof fn lemma_insert_contains(s: Seq<usize>, i: int, x: usize)
    requires
        0 <= i <= s.len(),
    ensures
        forall|y: usize| #[trigger] s.insert(i, x).contains(y) <==> (s.contains(y) || y == x),
{
    let t = s.insert(i, x);
    assert forall|y: usize| #[trigger] t.contains(y) <==> (s.contains(y) || y == x) by {
        if s.contains(y) {
            let k = choose|k: int| 0 <= k < s.len() && s[k] == y;
            if k < i {
                assert(t[k] == y);
            } else {
                assert(t[k + 1] == y);
            }
        }
        if y == x {
            assert(t[i] == y);
        }
        if t.contains(y) {
            let k = choose|k: int| 0 <= k < t.len() && t[k] == y;
            if k < i {
                assert(s[k] == y);
            } else if k > i {
                assert(s[k - 1] == y);
            }
        }
    }
}

impl CfgBin {
    /// The text fields of a document keyed by the string-table offset the
    /// file stores for them: each offset inside the string table once, in
    /// increasing order, with the text read there.
    pub fn extract_texts_by_address(data: &[u8]) -> (r: Result<Vec<AddressText>, CfgBinError>)
        ensures
            match r {
                Ok(v) => {
                    &&& parse_document(data@) is Ok
                    &&& forall|i: int, j: int| 0 <= i < j < v@.len() ==> v@[i].address < v@[j].address
                    &&& forall|i: int| 0 <= i < v@.len() ==> is_address(data@, #[trigger] v@[i].address as int)
                    &&& forall|a: int| is_address(data@, a) ==> exists|i: int| 0 <= i < v@.len() && #[trigger] v@[i].address == a
                    &&& forall|i: int| 0 <= i < v@.len() ==> text_at(string_blob(data@), #[trigger] v@[i].address as int, encoding_of(footer_word_of(data@))) == Some(v@[i].value@)
                },
                Err(e) => parse_document(data@) == Err::<Seq<crate::model::EntryView>, CfgBinError>(e),
            },
    {
        let (enc, _fe, n, sto, stl, _kt, keys) = Self::parse_sections(data)?;
        let blob = vstd::slice::slice_subrange(data, sto, sto + stl);
        let ed = vstd::slice::slice_subrange(data, 16, sto);
        let refs = match parse_refs_exec(n, ed, &keys, blob, &enc) {
            Ok(r) => r,
            Err(e) => {
                return Err(e);
            },
        };
        let ghost dr = document_refs(data@);
        assert(dr == refs@);
        let mut addrs: Vec<usize> = Vec::new();
        let mut k: usize = 0;
        while k < refs.len()
            invariant
                k <= refs@.len(),
                dr == refs@,
                dr == document_refs(data@),
                stl == string_blob(data@).len(),
                strictly_sorted(addrs@),
                forall|i: int| 0 <= i < addrs@.len() ==> is_address(data@, (#[trigger] addrs@[i]) as int),
                forall|m: int| 0 <= m < k && 0 <= #[trigger] refs@[m] && (refs@[m] as int) < stl ==> addrs@.contains(refs@[m] as usize),
            decreases refs@.len() - k,
        {
            let w = refs[k];
            if w >= 0 && (w as usize) < stl {
                let ghost old_a = addrs@;
                insert_sorted(&mut addrs, w as usize);
                assert forall|i: int| 0 <= i < addrs@.len() implies is_address(data@, (#[trigger] addrs@[i]) as int) by {
                    assert(addrs@.contains(addrs@[i]));
                    if addrs@[i] != w as usize {
                        let j = choose|j: int| 0 <= j < old_a.len() && old_a[j] == addrs@[i];
                        assert(is_address(data@, old_a[j] as int));
                    } else {
                        assert(document_refs(data@)[k as int] as int == addrs@[i] as int);
                        assert(0 <= k < document_refs(data@).len());
                    }
                }
                assert forall|m: int| 0 <= m < k + 1 && 0 <= #[trigger] refs@[m] && (refs@[m] as int) < stl implies addrs@.contains(refs@[m] as usize) by {
                    if m < k {
                        assert(old_a.contains(refs@[m] as usize));
                    }
                }
            }
            k = k + 1;
        }
        let mut out: Vec<AddressText> = Vec::new();
        let mut i: usize = 0;
        while i < addrs.len()
            invariant
                i <= addrs@.len(),
                out@.len() == i,
                stl == string_blob(data@).len(),
                blob@ == string_blob(data@),
                enc == encoding_of(footer_word_of(data@)),
                forall|m: int| 0 <= m < addrs@.len() ==> is_address(data@, (#[trigger] addrs@[m]) as int),
                forall|m: int| 0 <= m < i ==> #[trigger] out@[m].address == addrs@[m],
                forall|m: int| 0 <= m < i ==> text_at(string_blob(data@), #[trigger] out@[m].address as int, enc) == Some(out@[m].value@),
            decreases addrs@.len() - i,
        {
            let a = addrs[i];
            assert(is_address(data@, addrs@[i as int] as int));
            let value = match crate::text::read_null_terminated_string_at(blob, a, &enc) {
                Some(t) => t,
                None => String::new(),
            };
            out.push(AddressText { address: a, value });
            i = i + 1;
        }
        assert forall|a: int| is_address(data@, a) implies exists|i: int| 0 <= i < out@.len() && #[trigger] out@[i].address == a by {
            let m = choose|m: int| 0 <= m < dr.len() && dr[m] as int == a;
            assert(0 <= refs@[m] && (refs@[m] as int) < stl);
            assert(addrs@.contains(refs@[m] as usize));
            let j = choose|j: int| 0 <= j < addrs@.len() && addrs@[j] == refs@[m] as usize;
            assert(out@[j].address == a);
        }
        Ok(out)
    }
}

/// Whether the header names a string table inside the buffer.
pub open spec fn header_ok(d: Seq<u8>) -> bool {
    &&& d.len() >= 16
    &&& header_i32(d, 4) >= 16
    &&& header_i32(d, 8) >= 0
    &&& header_i32(d, 4) + header_i32(d, 8) <= d.len()
}

/// `b` with the text at string-table offset `a` replaced by `new`, the rest
/// of the old text's bytes set to NUL.
pub open spec fn patch_one(b: Seq<u8>, sto: int, stl: int, a: int, new: Seq<u8>) -> Result<Seq<u8>, CfgBinError> {
    if a >= stl {
        Err(CfgBinError::AddressOutOfRange(a as usize))
    } else {
        let end = nul_end(b.subrange(sto, sto + stl), a);
        let avail = end - a;
        if new.len() > avail {
            Err(CfgBinError::LengthExceeded { address: a as usize, available: avail as usize, needed: new.len() as usize })
        } else {
            Ok(b.subrange(0, sto + a) + new + crate::bytes::fill(0, (avail - new.len()) as nat) + b.subrange(sto + end, b.len() as int))
        }
    }
}

/// The patches applied one after the other.
pub open spec fn patch_all(b: Seq<u8>, sto: int, stl: int, ts: Seq<AddressText>, enc: CfgBinEncoding) -> Result<Seq<u8>, CfgBinError>
    decreases ts.len(),
{
    if ts.len() == 0 {
        Ok(b)
    } else {
        match patch_all(b, sto, stl, ts.drop_last(), enc) {
            Err(e) => Err(e),
            Ok(b2) => patch_one(b2, sto, stl, ts.last().address as int, encode_text(ts.last().value@, enc)),
        }
    }
}

proof fn lemma_patch_err_extends(b: Seq<u8>, sto: int, stl: int, ts: Seq<AddressText>, enc: CfgBinEncoding, i: int, e: CfgBinError)
    requires
        0 <= i <= ts.len(),
        patch_all(b, sto, stl, ts.subrange(0, i), enc) == Err::<Seq<u8>, CfgBinError>(e),
    ensures
        patch_all(b, sto, stl, ts, enc) == Err::<Seq<u8>, CfgBinError>(e),
    decreases ts.len() - i,
{
    if i == ts.len() {
        assert(ts.subrange(0, i) =~= ts);
    } else {
        assert(ts.subrange(0, i + 1).drop_last() =~= ts.subrange(0, i));
        lemma_patch_err_extends(b, sto, stl, ts, enc, i + 1, e);
    }
}

impl CfgBin {
    /// A copy of `data` with each text written over the stored text at its
    /// address, in order. Structure, keys and offsets stay as they were; a
    /// text that does not fit the bytes of the one it replaces is refused.
    pub fn patch_texts_by_address_in_place(data: &[u8], texts: &[AddressText]) -> (r: Result<Vec<u8>, CfgBinError>)
        ensures
            !header_ok(data@) ==> r == Err::<Vec<u8>, CfgBinError>(CfgBinError::MalformedHeader),
            header_ok(data@) ==> match patch_all(
                data@,
                header_i32(data@, 4),
                header_i32(data@, 8),
                texts@,
                encoding_of(footer_word_of(data@)),
            ) {
                Ok(b) => r matches Ok(v) && v@ == b,
                Err(e) => r == Err::<Vec<u8>, CfgBinError>(e),
            },
    {
        let len = data.len();
        let footer_encoding: u16 = if len >= 10 {
            read_u16(data, len - 10)
        } else {
            1
        };
        let enc = if footer_encoding == 0 {
            CfgBinEncoding::ShiftJis
        } else {
            CfgBinEncoding::Utf8
        };
        if len < 16 {
            return Err(CfgBinError::MalformedHeader);
        }
        let sto = read_i32(data, 4);
        let stl = read_i32(data, 8);
        if sto < 16 || stl < 0 {
            return Err(CfgBinError::MalformedHeader);
        }
        let sto = sto as usize;
        let stl = stl as usize;
        if sto > len || stl > len - sto {
            return Err(CfgBinError::MalformedHeader);
        }
        let ghost st = sto as int;
        let ghost sl = stl as int;
        assert(header_ok(data@));
        let mut buf = vstd::slice::slice_to_vec(data);
        let mut i: usize = 0;
        assert(texts@.subrange(0, 0).len() == 0);
        while i < texts.len()
            invariant
                i <= texts@.len(),
                buf@.len() == len,
                len == data@.len(),
                sto + stl <= len,
                enc == encoding_of(footer_word_of(data@)),
                patch_all(data@, st, sl, texts@.subrange(0, i as int), enc) == Ok::<Seq<u8>, CfgBinError>(buf@),
                header_ok(data@),
                st == sto && sl == stl,
                st == header_i32(data@, 4) && sl == header_i32(data@, 8),
            decreases texts@.len() - i,
        {
            assert(texts@.subrange(0, i + 1).drop_last() =~= texts@.subrange(0, i as int));
            let a = texts[i].address;
            let new = encode_string_bytes(texts[i].value.as_str(), &enc);
            if a >= stl {
                proof {
                    lemma_patch_err_extends(data@, st, sl, texts@, enc, i + 1, CfgBinError::AddressOutOfRange(a));
                }
                return Err(CfgBinError::AddressOutOfRange(a));
            }
            let ghost blob = buf@.subrange(st, st + sl);
            proof {
                lemma_nul_end_bounds(blob, a as int);
            }
            let mut end: usize = a;
            while end < stl && buf[sto + end] != 0
                invariant
                    a <= end <= stl,
                    sto + stl <= len,
                    buf@.len() == len,
                    blob == buf@.subrange(st, st + sl),
                    st == sto && sl == stl,
                    nul_end(blob, end as int) == nul_end(blob, a as int),
                decreases stl - end,
            {
                assert(blob[end as int] == buf@[sto + end]);
                end = end + 1;
            }
            if end < stl {
                assert(blob[end as int] == buf@[sto + end]);
            }
            let avail = end - a;
            if new.len() > avail {
                let e = CfgBinError::LengthExceeded { address: a, available: avail, needed: new.len() };
                proof {
                    lemma_patch_err_extends(data@, st, sl, texts@, enc, i + 1, e);
                }
                return Err(e);
            }
            let ghost b0 = buf@;
            let base = sto + a;
            let nl = new.len();
            let mut m: usize = 0;
            while m < nl
                invariant
                    m <= nl,
                    nl == new@.len(),
                    nl <= avail,
                    avail == end - a,
                    base == sto + a,
                    sto + end <= len,
                    buf@.len() == len,
                    b0.len() == len,
                    buf@ == b0.subrange(0, base as int) + new@.subrange(0, m as int) + b0.subrange(base + m, len as int),
                decreases nl - m,
            {
                buf.set(base + m, new[m]);
                m = m + 1;
                assert(buf@ =~= b0.subrange(0, base as int) + new@.subrange(0, m as int) + b0.subrange(base + m, len as int));
            }
            assert(new@.subrange(0, nl as int) =~= new@);
            while m < avail
                invariant
                    nl <= m <= avail,
                    nl == new@.len(),
                    avail == end - a,
                    base == sto + a,
                    sto + end <= len,
                    buf@.len() == len,
                    b0.len() == len,
                    buf@ == b0.subrange(0, base as int) + new@ + crate::bytes::fill(0, (m - nl) as nat) + b0.subrange(base + m, len as int),
                decreases avail - m,
            {
                buf.set(base + m, 0);
                m = m + 1;
                assert(buf@ =~= b0.subrange(0, base as int) + new@ + crate::bytes::fill(0, (m - nl) as nat) + b0.subrange(base + m, len as int));
            }
            assert(new@.subrange(0, new@.len() as int) =~= new@);
            i = i + 1;
        }
        assert(texts@.subrange(0, i as int) =~= texts@);
        Ok(buf)
    }
}

/// Overwrites the values of `texts` from position `offset` on with
/// `lines`, as far as both go.
pub fn apply_address_lines(texts: &mut Vec<AddressText>, lines: &Vec<String>, offset: usize)
    ensures
        final(texts)@.len() == old(texts)@.len(),
        forall|k: int|
            0 <= k < old(texts)@.len() ==> {
                &&& (#[trigger] final(texts)@[k]).address == old(texts)@[k].address
                &&& final(texts)@[k].value@ == if offset <= k < offset + lines@.len() {
                    lines@[k - offset]@
                } else {
                    old(texts)@[k].value@
                }
            },
{
    let mut k: usize = offset;
    while k < texts.len() && k - offset < lines.len()
        invariant
            offset <= k,
            texts@.len() == old(texts)@.len(),
            forall|m: int|
                0 <= m < old(texts)@.len() ==> {
                    &&& (#[trigger] texts@[m]).address == old(texts)@[m].address
                    &&& texts@[m].value@ == if offset <= m < k && m < offset + lines@.len() {
                        lines@[m - offset]@
                    } else {
                        old(texts)@[m].value@
                    }
                },
        decreases texts@.len() - k,
    {
        let mut t = AddressText { address: 0, value: String::new() };
        texts.set_and_swap(k, &mut t);
        t.value = lines[k - offset].clone();
        texts.set(k, t);
        k = k + 1;
    }
}

} // verus!

//! Text encodings of the string and key tables, and character-level helpers.
use vstd::prelude::*;
use vstd::string::StrSliceExecFns;
use vstd::utf8::{decode_utf8, encode_utf8, valid_utf8};
use crate::model::CfgBinEncoding;

verus! {

/// What `String::from_utf8_lossy` makes of a byte sequence that is not
/// valid UTF-8.
pub uninterp spec fn utf8_lossy(b: Seq<u8>) -> Seq<char>;

/// UTF-8 decoding that replaces malformed sequences.
pub open spec fn utf8_decoded(b: Seq<u8>) -> Seq<char> {
    if valid_utf8(b) {
        decode_utf8(b)
    } else {
        utf8_lossy(b)
    }
}

/// What encoding_rs's Shift-JIS decoder makes of a byte sequence.
pub uninterp spec fn shift_jis_decoded(b: Seq<u8>) -> Seq<char>;

/// What encoding_rs's Shift-JIS encoder makes of a text.
pub uninterp spec fn shift_jis_encoded(s: Seq<char>) -> Seq<u8>;

/// What `str::to_lowercase` makes of a text.
pub uninterp spec fn lower_of(s: Seq<char>) -> Seq<char>;

pub open spec fn decode_text(b: Seq<u8>, enc: CfgBinEncoding) -> Seq<char> {
    match enc {
        CfgBinEncoding::Utf8 => utf8_decoded(b),
        CfgBinEncoding::ShiftJis => shift_jis_decoded(b),
    }
}

pub open spec fn encode_text(s: Seq<char>, enc: CfgBinEncoding) -> Seq<u8> {
    match enc {
        CfgBinEncoding::Utf8 => encode_utf8(s),
        CfgBinEncoding::ShiftJis => shift_jis_encoded(s),
    }
}

/// Relies on `String::from_utf8_lossy`: malformed sequences are replaced,
/// valid UTF-8 is decoded as it stands.
#[verifier::external_body]
fn utf8_decode_lossy(b: &[u8]) -> (r: String)
    ensures
        r@ == if valid_utf8(b@) {
            decode_utf8(b@)
        } else {
            utf8_lossy(b@)
        },
{
    String::from_utf8_lossy(b).into_owned()
}

/// Relies on `encoding_rs::Encoding::decode` on `SHIFT_JIS`: a function of
/// the bytes alone.
#[verifier::external_body]
fn shift_jis_decode(b: &[u8]) -> (r: String)
    ensures
        r@ == shift_jis_decoded(b@),
{
    let (cow, _, _) = encoding_rs::SHIFT_JIS.decode(b);
    cow.into_owned()
}

/// Relies on `encoding_rs::Encoding::encode` on `SHIFT_JIS`: a function of
/// the text alone.
#[verifier::external_body]
fn shift_jis_encode(s: &str) -> (r: Vec<u8>)
    ensures
        r@ == shift_jis_encoded(s@),
{
    let (cow, _, _) = encoding_rs::SHIFT_JIS.encode(s);
    cow.into_owned()
}

/// Relies on `str::to_lowercase`: a function of the text alone.
#[verifier::external_body]
pub(crate) fn lowercase(s: &str) -> (r: String)
    ensures
        r@ == lower_of(s@),
{
    s.to_lowercase()
}

/// Relies on `String::push`: appends one character.
#[verifier::external_body]
pub(crate) fn push_char(s: &mut String, c: char)
    ensures
        final(s)@ == old(s)@.push(c),
{
    s.push(c)
}

pub fn decode_string(data: &[u8], encoding: &CfgBinEncoding) -> (r: String)
    ensures
        r@ == decode_text(data@, *encoding),
{
    match encoding {
        CfgBinEncoding::Utf8 => utf8_decode_lossy(data),
        CfgBinEncoding::ShiftJis => shift_jis_decode(data),
    }
}

pub fn encode_string_bytes(s: &str, encoding: &CfgBinEncoding) -> (r: Vec<u8>)
    ensures
        r@ == encode_text(s@, *encoding),
{
    match encoding {
        CfgBinEncoding::Utf8 => s.as_bytes_vec(),
        CfgBinEncoding::ShiftJis => shift_jis_encode(s),
    }
}

/// Index of the first NUL byte at or after `o`, or the length of `s`.
pub open spec fn nul_end(s: Seq<u8>, o: int) -> int
    decreases s.len() - o,
{
    if o >= s.len() {
        s.len() as int
    } else if s[o] == 0 {
        o
    } else {
        nul_end(s, o + 1)
    }
}

pub proof fn lemma_nul_end_bounds(s: Seq<u8>, o: int)
    requires
        0 <= o <= s.len(),
    ensures
        o <= nul_end(s, o) <= s.len(),
        forall|i: int| o <= i < nul_end(s, o) ==> s[i] != 0,
        nul_end(s, o) < s.len() ==> s[nul_end(s, o)] == 0,
    decreases s.len() - o,
{
    if o < s.len() && s[o] != 0 {
        lemma_nul_end_bounds(s, o + 1);
    }
}

/// The text stored at `offset` of a string blob, read up to the next NUL.
pub open spec fn text_at(blob: Seq<u8>, offset: int, enc: CfgBinEncoding) -> Option<Seq<char>> {
    if 0 <= offset < blob.len() {
        Some(decode_text(blob.subrange(offset, nul_end(blob, offset)), enc))
    } else {
        None
    }
}

/// Reads the NUL-terminated text that starts at `offset`, which may lie
/// inside another stored text.
pub fn read_null_terminated_string_at(data: &[u8], offset: usize, encoding: &CfgBinEncoding) -> (r:
    Option<String>)
    ensures
        r matches Some(s) ==> text_at(data@, offset as int, *encoding) == Some(s@),
        r is None <==> text_at(data@, offset as int, *encoding) is None,
{
    if offset >= data.len() {
        return None;
    }
    proof {
        lemma_nul_end_bounds(data@, offset as int);
    }
    let mut end: usize = offset;
    while end < data.len() && data[end] != 0
        invariant
            offset <= end <= data@.len(),
            nul_end(data@, end as int) == nul_end(data@, offset as int),
        decreases data@.len() - end,
    {
        end = end + 1;
    }
    let sub = vstd::slice::slice_subrange(data, offset, end);
    Some(decode_string(sub, encoding))
}

/// The characters of `s`.
pub fn chars_of(s: &str) -> (r: Vec<char>)
    ensures
        r@ == s@,
{
    let n = s.unicode_len();
    let mut r: Vec<char> = Vec::new();
    let mut i: usize = 0;
    while i < n
        invariant
            n == s@.len(),
            i <= n,
            r@ == s@.subrange(0, i as int),
        decreases n - i,
    {
        r.push(s.get_char(i));
        i = i + 1;
        assert(r@ =~= s@.subrange(0, i as int));
    }
    assert(r@ =~= s@);
    r
}

/// The string made of `v`'s characters.
pub fn string_of(v: &[char]) -> (r: String)
    ensures
        r@ == v@,
{
    let mut r = String::new();
    let mut i: usize = 0;
    while i < v.len()
        invariant
            i <= v@.len(),
            r@ == v@.subrange(0, i as int),
        decreases v@.len() - i,
    {
        push_char(&mut r, v[i]);
        i = i + 1;
        assert(r@ =~= v@.subrange(0, i as int));
    }
    assert(r@ =~= v@);
    r
}

} // verus!

//! The line-oriented text form: one text field per line, with backslash,
//! carriage return and line feed escaped.
use vstd::prelude::*;
use vstd::utf8::encode_utf8;
use crate::model::{CfgBinError, TextEntry};
use crate::names::{replace_all, replace_all_exec};
use crate::text::{chars_of, string_of};
use crate::texts::texts_view;

verus! {

pub open spec fn escape_char(c: char) -> Seq<char> {
    if c == '\\' {
        seq!['\\', '\\']
    } else if c == '\r' {
        seq!['\\', 'r']
    } else if c == '\n' {
        seq!['\\', 'n']
    } else {
        seq![c]
    }
}

/// A text with `\`, CR and LF written as `\\`, `\r` and `\n`.
pub open spec fn escape(s: Seq<char>) -> Seq<char>
    decreases s.len(),
{
    if s.len() == 0 {
        s
    } else {
        escape(s.drop_last()) + escape_char(s.last())
    }
}

pub open spec fn unescape_pair(c: char) -> Seq<char> {
    if c == 'n' {
        seq!['\n']
    } else if c == 'r' {
        seq!['\r']
    } else if c == 't' {
        seq!['\t']
    } else if c == '\\' {
        seq!['\\']
    } else {
        seq!['\\', c]
    }
}

/// A line read back: `\n`, `\r`, `\t` and `\\` decoded, any other
/// backslash kept as it stands.
pub open spec fn unescape(s: Seq<char>) -> Seq<char>
    decreases s.len(),
{
    if s.len() == 0 {
        s
    } else if s[0] != '\\' {
        seq![s[0]] + unescape(s.drop_first())
    } else if s.len() == 1 {
        seq!['\\']
    } else {
        unescape_pair(s[1]) + unescape(s.subrange(2, s.len() as int))
    }
}

/// Escapes a text for one line of the text form.
pub fn normalize_txt_line(s: &str) -> (r: String)
    ensures
        r@ == escape(s@),
{
    let v = chars_of(s);
    let mut out: Vec<char> = Vec::new();
    let mut i: usize = 0;
    while i < v.len()
        invariant
            i <= v@.len(),
            v@ == s@,
            out@ == escape(v@.subrange(0, i as int)),
        decreases v@.len() - i,
    {
        let c = v[i];
        if c == '\\' {
            out.push('\\');
            out.push('\\');
        } else if c == '\r' {
            out.push('\\');
            out.push('r');
        } else if c == '\n' {
            out.push('\\');
            out.push('n');
        } else {
            out.push(c);
        }
        assert(v@.subrange(0, i + 1).drop_last() =~= v@.subrange(0, i as int));
        i = i + 1;
        assert(out@ =~= escape(v@.subrange(0, i as int)));
    }
    assert(v@.subrange(0, i as int) =~= v@);
    string_of(out.as_slice())
}

/// Decodes one line of the text form.
pub fn decode_txt_line(s: &str) -> (r: String)
    ensures
        r@ == unescape(s@),
{
    let v = chars_of(s);
    let n = v.len();
    let mut out: Vec<char> = Vec::new();
    let mut i: usize = 0;
    assert(v@.subrange(0, n as int) =~= v@);
    while i < n
        invariant
            i <= n,
            n == v@.len(),
            v@ == s@,
            out@ + unescape(v@.subrange(i as int, n as int)) == unescape(s@),
        decreases n - i,
    {
        let ghost rest = v@.subrange(i as int, n as int);
        let ghost before = out@;
        let c = v[i];
        if c != '\\' {
            out.push(c);
            assert(rest.drop_first() =~= v@.subrange(i + 1, n as int));
            assert(out@ + unescape(v@.subrange(i + 1, n as int)) =~= before + unescape(rest));
            i = i + 1;
        } else if i + 1 == n {
            out.push('\\');
            assert(v@.subrange(n as int, n as int).len() == 0);
            assert(out@ + unescape(v@.subrange(n as int, n as int)) =~= before + unescape(rest));
            i = i + 1;
        } else {
            let d = v[i + 1];
            if d == 'n' {
                out.push('\n');
            } else if d == 'r' {
                out.push('\r');
            } else if d == 't' {
                out.push('\t');
            } else if d == '\\' {
                out.push('\\');
            } else {
                out.push('\\');
                out.push(d);
            }
            assert(rest.subrange(2, rest.len() as int) =~= v@.subrange(i + 2, n as int));
            assert(out@ =~= before + unescape_pair(d));
            assert(out@ + unescape(v@.subrange(i + 2, n as int)) =~= before + unescape(rest));
            i = i + 2;
        }
    }
    string_of(out.as_slice())
}

pub open spec fn is_digit(b: u8) -> bool {
    48 <= b <= 57
}

/// `YYYY/MM/DD HH:MM:SS`, as bytes.
pub open spec fn is_timestamp_bytes(b: Seq<u8>) -> bool {
    &&& b.len() == 19
    &&& is_digit(b[0]) && is_digit(b[1]) && is_digit(b[2]) && is_digit(b[3])
    &&& b[4] == 47
    &&& is_digit(b[5]) && is_digit(b[6])
    &&& b[7] == 47
    &&& is_digit(b[8]) && is_digit(b[9])
    &&& b[10] == 32
    &&& is_digit(b[11]) && is_digit(b[12])
    &&& b[13] == 58
    &&& is_digit(b[14]) && is_digit(b[15])
    &&& b[16] == 58
    &&& is_digit(b[17]) && is_digit(b[18])
}

pub open spec fn is_timestamp(s: Seq<char>) -> bool {
    is_timestamp_bytes(encode_utf8(s))
}

/// Whether a line is a 19-character `YYYY/MM/DD HH:MM:SS` timestamp.
pub fn is_datetime_timestamp_line(s: &str) -> (r: bool)
    ensures
        r == is_timestamp(s@),
{
    let b = s.as_bytes();
    if b.len() != 19 {
        return false;
    }
    let d = |c: u8| -> (r: bool)
        ensures
            r == is_digit(c),
        { 48 <= c && c <= 57 };
    d(b[0]) && d(b[1]) && d(b[2]) && d(b[3]) && b[4] == 47 && d(b[5]) && d(b[6]) && b[7] == 47
        && d(b[8]) && d(b[9]) && b[10] == 32 && d(b[11]) && d(b[12]) && b[13] == 58 && d(b[14])
        && d(b[15]) && b[16] == 58 && d(b[17]) && d(b[18])
}

pub open spec fn first_is_timestamp(first: Option<Seq<char>>) -> bool {
    match first {
        Some(s) => is_timestamp(s),
        None => false,
    }
}

/// Where supplied lines start applying: 0 when the counts agree; 3 when
/// three lines fewer were supplied and the document's first text is a
/// timestamp; otherwise a count mismatch.
pub fn resolve_txt_update_offset(expected: usize, actual: usize, first_text: Option<&str>) -> (r:
    Result<usize, CfgBinError>)
    ensures
        expected == actual ==> r == Ok::<usize, CfgBinError>(0),
        expected != actual ==> {
            let ts = first_is_timestamp(
                match first_text {
                    Some(s) => Some(s@),
                    None => None,
                },
            );
            if expected >= 3 && expected - 3 == actual && ts {
                r == Ok::<usize, CfgBinError>(3)
            } else {
                r == Err::<usize, CfgBinError>(
                    CfgBinError::LineCountMismatch { expected, actual, timestamp_header: ts },
                )
            }
        },
{
    if expected == actual {
        return Ok(0);
    }
    let ts = match first_text {
        Some(s) => is_datetime_timestamp_line(s),
        None => false,
    };
    if expected >= 3 && expected - 3 == actual && ts {
        return Ok(3);
    }
    Err(CfgBinError::LineCountMismatch { expected, actual, timestamp_header: ts })
}

/// `s` split at each line feed (an empty text gives one empty line).
pub open spec fn split_lines(s: Seq<char>) -> Seq<Seq<char>>
    decreases s.len(),
{
    if s.len() == 0 {
        seq![Seq::empty()]
    } else if s.last() == '\n' {
        split_lines(s.drop_last()).push(Seq::empty())
    } else {
        let p = split_lines(s.drop_last());
        p.update(p.len() - 1, p.last().push(s.last()))
    }
}

proof fn lemma_split_lines_nonempty(s: Seq<char>)
    ensures
        split_lines(s).len() >= 1,
    decreases s.len(),
{
    if s.len() > 0 {
        lemma_split_lines_nonempty(s.drop_last());
    }
}

/// The decoded lines of a text file's content: a leading byte order mark
/// dropped, CRLF and CR read as LF, no line after a final line feed.
pub open spec fn txt_lines(c: Seq<char>) -> Seq<Seq<char>> {
    let c1 = if c.len() > 0 && c[0] == '\u{FEFF}' {
        c.drop_first()
    } else {
        c
    };
    if c1.len() == 0 {
        Seq::empty()
    } else {
        let c2 = replace_all(replace_all(c1, seq!['\r', '\n'], seq!['\n']), seq!['\r'], seq!['\n']);
        let parts = split_lines(c2);
        let kept = if c2.len() > 0 && c2.last() == '\n' {
            parts.drop_last()
        } else {
            parts
        };
        kept.map_values(|l: Seq<char>| unescape(l))
    }
}

fn split_lines_exec(v: &[char]) -> (r: Vec<Vec<char>>)
    ensures
        r@.map_values(|l: Vec<char>| l@) == split_lines(v@),
{
    let mut out: Vec<Vec<char>> = Vec::new();
    let mut cur: Vec<char> = Vec::new();
    let mut i: usize = 0;
    assert(out@.map_values(|l: Vec<char>| l@).push(cur@) =~= split_lines(v@.subrange(0, 0)));
    while i < v.len()
        invariant
            i <= v@.len(),
            out@.map_values(|l: Vec<char>| l@).push(cur@) == split_lines(v@.subrange(0, i as int)),
        decreases v@.len() - i,
    {
        let ghost pre = split_lines(v@.subrange(0, i as int));
        assert(v@.subrange(0, i + 1).drop_last() =~= v@.subrange(0, i as int));
        if v[i] == '\n' {
            out.push(cur);
            cur = Vec::new();
            assert(out@.map_values(|l: Vec<char>| l@).push(cur@) =~= pre.push(Seq::empty()));
        } else {
            let ghost ov = out@.map_values(|l: Vec<char>| l@);
            cur.push(v[i]);
            assert(out@.map_values(|l: Vec<char>| l@).push(cur@) =~= pre.update(pre.len() - 1, pre.last().push(v@[i as int])));
        }
        i = i + 1;
    }
    assert(v@.subrange(0, i as int) =~= v@);
    out.push(cur);
    out
}

/// The lines of a text file's content, each decoded.
pub fn parse_txt_lines(content: &str) -> (r: Vec<String>)
    ensures
        r@.map_values(|l: String| l@) == txt_lines(content@),
{
    let v0 = chars_of(content);
    let v1: Vec<char> = if v0.len() > 0 && v0[0] == '\u{FEFF}' {
        vstd::slice::slice_to_vec(vstd::slice::slice_subrange(v0.as_slice(), 1, v0.len()))
    } else {
        v0
    };
    let ghost c = content@;
    let ghost c1 = if c.len() > 0 && c[0] == '\u{FEFF}' {
        c.drop_first()
    } else {
        c
    };
    assert(v1@ =~= c1);
    if v1.len() == 0 {
        let r: Vec<String> = Vec::new();
        assert(r@.map_values(|l: String| l@) =~= txt_lines(content@));
        return r;
    }
    let crlf = vec!['\r', '\n'];
    let cr = vec!['\r'];
    let lf = vec!['\n'];
    let v2 = replace_all_exec(v1.as_slice(), crlf.as_slice(), lf.as_slice());
    let v3 = replace_all_exec(v2.as_slice(), cr.as_slice(), lf.as_slice());
    let mut parts = split_lines_exec(v3.as_slice());
    proof {
        lemma_split_lines_nonempty(v3@);
    }
    let ghost sp = split_lines(v3@);
    if v3.len() > 0 && v3[v3.len() - 1] == '\n' {
        parts.pop();
        assert(parts@.map_values(|l: Vec<char>| l@) =~= sp.drop_last());
    }
    let ghost kept = parts@.map_values(|l: Vec<char>| l@);
    assert(kept == if v3@.len() > 0 && v3@.last() == '\n' {
        sp.drop_last()
    } else {
        sp
    });
    let mut out: Vec<String> = Vec::new();
    let mut i: usize = 0;
    while i < parts.len()
        invariant
            i <= parts@.len(),
            kept == parts@.map_values(|l: Vec<char>| l@),
            out@.map_values(|l: String| l@) == kept.subrange(0, i as int).map_values(|l: Seq<char>| unescape(l)),
        decreases parts@.len() - i,
    {
        let line = string_of(parts[i].as_slice());
        let d = decode_txt_line(line.as_str());
        assert(kept[i as int] == line@);
        let ghost before = out@;
        out.push(d);
        assert(out@.map_values(|l: String| l@) =~= before.map_values(|l: String| l@).push(unescape(kept[i as int])));
        assert(kept.subrange(0, i + 1).map_values(|l: Seq<char>| unescape(l)) =~= kept.subrange(0, i as int).map_values(|l: Seq<char>| unescape(l)).push(unescape(kept[i as int])));
        i = i + 1;
        assert(out@.map_values(|l: String| l@) =~= kept.subrange(0, i as int).map_values(|l: Seq<char>| unescape(l)));
    }
    assert(kept.subrange(0, i as int) =~= kept);
    let ghost c2 = replace_all(replace_all(c1, seq!['\r', '\n'], seq!['\n']), seq!['\r'], seq!['\n']);
    assert(crlf@ =~= seq!['\r', '\n'] && cr@ =~= seq!['\r'] && lf@ =~= seq!['\n']);
    assert(v3@ == c2);
    assert(out@.map_values(|l: String| l@) =~= txt_lines(content@));
    out
}

/// Overwrites the values of `texts` from position `offset` on with
/// `lines`, as far as both go.
pub fn apply_txt_lines(texts: &mut Vec<TextEntry>, lines: &Vec<String>, offset: usize)
    ensures
        final(texts)@.len() == old(texts)@.len(),
        forall|k: int|
            0 <= k < old(texts)@.len() ==> {
                &&& (#[trigger] final(texts)@[k]).index == old(texts)@[k].index
                &&& final(texts)@[k].entry == old(texts)@[k].entry
                &&& final(texts)@[k].variable_index == old(texts)@[k].variable_index
                &&& final(texts)@[k].value@ == if offset <= k < offset + lines@.len() {
                    lines@[k - offset]@
                } else {
                    old(texts)@[k].value@
                }
            },
{
    let mut k: usize = offset;
    while k < texts.len() && k - offset < lines.len()
        invariant
            offset <= k,
            texts@.len() == old(texts)@.len(),
            forall|m: int|
                0 <= m < old(texts)@.len() ==> {
                    &&& (#[trigger] texts@[m]).index == old(texts)@[m].index
                    &&& texts@[m].entry == old(texts)@[m].entry
                    &&& texts@[m].variable_index == old(texts)@[m].variable_index
                    &&& texts@[m].value@ == if offset <= m < k && m < offset + lines@.len() {
                        lines@[m - offset]@
                    } else {
                        old(texts)@[m].value@
                    }
                },
        decreases texts@.len() - k,
    {
        let mut t = TextEntry { index: 0, entry: String::new(), variable_index: 0, value: String::new() };
        texts.set_and_swap(k, &mut t);
        t.value = lines[k - offset].clone();
        texts.set(k, t);
        k = k + 1;
    }
}

} // verus!

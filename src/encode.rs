//! Writing a document: records in pre-order, the string table, the key
//! table and the footer.
use vstd::prelude::*;
use crate::bytes::{append_bytes, push_i32, push_u16, push_u32, write_alignment};
use crate::crc32::compute;
use crate::layout::{
    lemma_first_index_skip,
    assemble,
    footer_bytes,
    blob, document_bytes, entry_bytes, entry_count, entry_keys, entry_strings, first_index, key_records,
    key_table_bytes, list_bytes, list_count, list_keys, list_strings, pack_tags, payloads,
    record_bytes, string_offset, tag_at, terminator_bytes, type_groups, types_bytes, var_payload,
    var_strings, var_types, dedup, end_name, name_crc,
};
use crate::model::{CfgBin, CfgBinEncoding, Entry, EntryView, VarType, VarValue, Variable};
use crate::names::{canonical, canonical_chars, replace_all_exec, starts_with_exec};
use crate::text::{chars_of, encode_string_bytes, string_of};

verus! {

pub open spec fn strs_view(ds: Seq<String>) -> Seq<Seq<char>> {
    ds.map_values(|s: String| s@)
}

/// `offs` holds, for each string of `ds`, its offset in the blob of `ds`.
pub open spec fn offsets_wf(ds: Seq<String>, offs: Seq<i32>, enc: CfgBinEncoding) -> bool {
    &&& ds.len() == offs.len()
    &&& forall|i: int|
        0 <= i < ds.len() ==> #[trigger] offs[i] == blob(strs_view(ds).subrange(0, i), enc).len()
            as i32
}

/// Looks a text up in the string table: its offset, or -1.
fn lookup_offset(ds: &Vec<String>, offs: &Vec<i32>, s: &String, Ghost(enc): Ghost<CfgBinEncoding>) -> (r:
    i32)
    requires
        offsets_wf(ds@, offs@, enc),
    ensures
        r == string_offset(strs_view(ds@), enc, s@),
{
    let ghost v = strs_view(ds@);
    let mut i: usize = 0;
    while i < ds.len()
        invariant
            i <= ds@.len(),
            v == strs_view(ds@),
            offsets_wf(ds@, offs@, enc),
            forall|j: int| 0 <= j < i ==> v[j] != s@,
        decreases ds@.len() - i,
    {
        if ds[i] == *s {
            proof {
                lemma_first_index_skip(v, s@, i as int);
            }
            return offs[i];
        }
        i = i + 1;
    }
    proof {
        lemma_first_index_skip(v, s@, i as int);
    }
    -1
}

impl Entry {
    /// The canonical name: the stored name without its occurrence index.
    pub fn get_name(&self) -> (r: String)
        ensures
            r@ == canonical(self.name@),
    {
        let v = chars_of(self.name.as_str());
        let c = canonical_chars(v.as_slice());
        string_of(c.as_slice())
    }

    /// The type bitmap of a parameter list.
    pub fn encode_types(types: &[VarType]) -> (r: Vec<u8>)
        ensures
            r@ == types_bytes(types@),
    {
        let n = types.len();
        let groups: usize = n / 4 + if n % 4 == 0 {
            0
        } else {
            1
        };
        assert(groups == type_groups(n as nat));
        let mut bytes: Vec<u8> = Vec::new();
        let mut i: usize = 0;
        while i < groups
            invariant
                n == types@.len(),
                groups == type_groups(n as nat),
                i <= groups,
                bytes@ == Seq::new(i as nat, |g: int| pack_tags(types@, g, 4)),
            decreases groups - i,
        {
            let mut desc: u8 = 0;
            let mut k: usize = 0;
            while k < 4
                invariant
                    n == types@.len(),
                    i < groups,
                    groups == type_groups(n as nat),
                    k <= 4,
                    desc == pack_tags(types@, i as int, k as nat),
                decreases 4 - k,
            {
                let j = 4 * i + k;
                let tag: u8 = if j < n {
                    match types[j] {
                        VarType::String => 0,
                        VarType::Int => 1,
                        VarType::Float => 2,
                        VarType::Unknown => 3,
                    }
                } else {
                    0
                };
                assert(tag == tag_at(types@, 4 * i + k));
                desc = desc | (tag << ((2 * k) as u8));
                k = k + 1;
            }
            bytes.push(desc);
            i = i + 1;
            assert(bytes@ =~= Seq::new(i as nat, |g: int| pack_tags(types@, g, 4)));
        }
        let ghost body = bytes@;
        let mut p: usize = 0;
        let pad: usize = (4 - (groups + 1) % 4) % 4;
        while p < pad
            invariant
                p <= pad,
                bytes@ == body + crate::bytes::fill(0xFF, p as nat),
            decreases pad - p,
        {
            bytes.push(0xFF);
            p = p + 1;
            assert(bytes@ =~= body + crate::bytes::fill(0xFF, p as nat));
        }
        bytes
    }

    /// The name of the terminator record for the canonical name `c`.
    pub fn end_name_of(c: &[char]) -> (r: Vec<char>)
        ensures
            r@ == end_name(c@),
    {
        let ptree = vec!['P', 'T', 'R', 'E', 'E'];
        if starts_with_exec(c, ptree.as_slice()) {
            vec!['_', 'P', 'T', 'R', 'E', 'E']
        } else {
            let end = vec!['E', 'N', 'D'];
            let begin = vec!['B', 'E', 'G', 'I', 'N'];
            let beg = vec!['B', 'E', 'G'];
            let a = replace_all_exec(c, begin.as_slice(), end.as_slice());
            replace_all_exec(a.as_slice(), beg.as_slice(), end.as_slice())
        }
    }

    /// Appends this entry's parameter payloads.
    fn encode_payloads(
        &self,
        buf: &mut Vec<u8>,
        ds: &Vec<String>,
        offs: &Vec<i32>,
        Ghost(enc): Ghost<CfgBinEncoding>,
    )
        requires
            offsets_wf(ds@, offs@, enc),
        ensures
            final(buf)@ == old(buf)@ + payloads(self@.variables, strs_view(ds@), enc),
    {
        let ghost vs = self@.variables;
        let mut i: usize = 0;
        while i < self.variables.len()
            invariant
                i <= self.variables@.len(),
                vs == self@.variables,
                vs.len() == self.variables@.len(),
                offsets_wf(ds@, offs@, enc),
                buf@ == old(buf)@ + payloads(vs.subrange(0, i as int), strs_view(ds@), enc),
            decreases self.variables@.len() - i,
        {
            let ghost before = buf@;
            match &self.variables[i].value {
                VarValue::String(Some(s)) => {
                    let off = lookup_offset(ds, offs, s, Ghost(enc));
                    push_i32(buf, off);
                },
                VarValue::String(None) => push_i32(buf, -1),
                VarValue::Int(v) => push_i32(buf, *v),
                VarValue::Float(v) => push_u32(buf, *v),
                VarValue::Unknown(v) => push_i32(buf, *v),
            }
            assert(buf@ == before + var_payload(vs[i as int], strs_view(ds@), enc));
            assert(vs.subrange(0, i + 1).drop_last() =~= vs.subrange(0, i as int));
            i = i + 1;
        }
        assert(vs.subrange(0, vs.len() as int) =~= vs);
    }

    /// Appends this entry in pre-order, and counts the records written.
    fn encode_entry(
        &self,
        buf: &mut Vec<u8>,
        ds: &Vec<String>,
        offs: &Vec<i32>,
        encoding: &CfgBinEncoding,
        count: &mut usize,
    )
        requires
            offsets_wf(ds@, offs@, *encoding),
            *old(count) * 8 <= old(buf)@.len(),
        ensures
            final(buf)@ == old(buf)@ + entry_bytes(self@, strs_view(ds@), *encoding),
            *final(count) == *old(count) + entry_count(self@),
            *final(count) * 8 <= final(buf)@.len(),
        decreases self,
    {
        let ghost e = self@;
        let ghost dv = strs_view(ds@);
        let entry_name = self.get_name();
        let name_bytes = encode_string_bytes(entry_name.as_str(), encoding);
        let crc = compute(name_bytes.as_slice());
        push_u32(buf, crc);
        let mut types: Vec<VarType> = Vec::new();
        let mut i: usize = 0;
        while i < self.variables.len()
            invariant
                i <= self.variables@.len(),
                types@ == var_types(e.variables).subrange(0, i as int),
                e == self@,
            decreases self.variables@.len() - i,
        {
            types.push(self.variables[i].var_type);
            i = i + 1;
            assert(types@ =~= var_types(e.variables).subrange(0, i as int));
        }
        assert(types@ =~= var_types(e.variables));
        buf.push(types.len() as u8);
        let tb = Self::encode_types(types.as_slice());
        append_bytes(buf, tb.as_slice());
        self.encode_payloads(buf, ds, offs, Ghost(*encoding));
        assert(buf@ =~= old(buf)@ + record_bytes(e, dv, *encoding));
        let ghost after_record = buf@;
        let len0 = buf.len();
        *count = *count + 1;
        let mut c: usize = 0;
        while c < self.children.len()
            invariant
                e == self@,
                c <= self.children@.len(),
                offsets_wf(ds@, offs@, *encoding),
                dv == strs_view(ds@),
                buf@ == after_record + list_bytes(e.children.subrange(0, c as int), dv, *encoding),
                *count == *old(count) + 1 + list_count(e.children.subrange(0, c as int)),
                *count * 8 <= buf@.len(),
            decreases self.children@.len() - c,
        {
            let ghost before = buf@;
            let ghost cnt = *count;
            self.children[c].encode_entry(buf, ds, offs, encoding, count);
            assert(e.children[c as int] == self.children@[c as int]@);
            assert(e.children.subrange(0, c + 1).drop_last() =~= e.children.subrange(0, c as int));
            c = c + 1;
            assert(buf@ =~= after_record + list_bytes(e.children.subrange(0, c as int), dv, *encoding));
        }
        assert(e.children.subrange(0, c as int) =~= e.children);
        if self.end_terminator {
            let v = chars_of(entry_name.as_str());
            let end = Self::end_name_of(v.as_slice());
            let end_str = string_of(end.as_slice());
            let end_bytes = encode_string_bytes(end_str.as_str(), encoding);
            let end_crc = compute(end_bytes.as_slice());
            push_u32(buf, end_crc);
            buf.push(0x00);
            buf.push(0xFF);
            buf.push(0xFF);
            buf.push(0xFF);
            let _ = buf.len();
            *count = *count + 1;
        }
        assert(buf@ =~= old(buf)@ + entry_bytes(e, dv, *encoding));
    }

    /// Appends the texts of this entry and its descendants, entries before
    /// children.
    fn collect_strings(&self, out: &mut Vec<String>)
        ensures
            strs_view(final(out)@) == strs_view(old(out)@) + entry_strings(self@),
        decreases self,
    {
        let ghost e = self@;
        let mut i: usize = 0;
        while i < self.variables.len()
            invariant
                e == self@,
                i <= self.variables@.len(),
                strs_view(out@) == strs_view(old(out)@) + var_strings(e.variables.subrange(0, i as int)),
            decreases self.variables@.len() - i,
        {
            assert(e.variables.subrange(0, i + 1).drop_last() =~= e.variables.subrange(0, i as int));
            assert(e.variables[i as int] == self.variables@[i as int]@);
            let ghost before = strs_view(out@);
            let ghost sub = e.variables.subrange(0, i + 1);
            assert(sub.last() == e.variables[i as int]);
            match &self.variables[i].value {
                VarValue::String(Some(s)) => {
                    out.push(s.clone());
                    assert(strs_view(out@) =~= before.push(s@));
                    assert(var_strings(sub) == var_strings(sub.drop_last()).push(s@));
                },
                _ => {
                    assert(strs_view(out@) =~= before);
                    assert(var_strings(sub) == var_strings(sub.drop_last()));
                },
            }
            i = i + 1;
        }
        assert(e.variables.subrange(0, i as int) =~= e.variables);
        let ghost mid = strs_view(out@);
        let mut c: usize = 0;
        while c < self.children.len()
            invariant
                e == self@,
                c <= self.children@.len(),
                strs_view(out@) == mid + list_strings(e.children.subrange(0, c as int)),
            decreases self.children@.len() - c,
        {
            self.children[c].collect_strings(out);
            assert(e.children[c as int] == self.children@[c as int]@);
            assert(e.children.subrange(0, c + 1).drop_last() =~= e.children.subrange(0, c as int));
            c = c + 1;
            assert(strs_view(out@) =~= mid + list_strings(e.children.subrange(0, c as int)));
        }
        assert(e.children.subrange(0, c as int) =~= e.children);
        assert(strs_view(out@) =~= strs_view(old(out)@) + entry_strings(e));
    }

    /// Appends the key names this entry and its descendants use: the
    /// canonical name, the children's names, then the terminator's name.
    fn collect_keys(&self, out: &mut Vec<String>)
        ensures
            strs_view(final(out)@) == strs_view(old(out)@) + entry_keys(self@),
        decreases self,
    {
        let ghost e = self@;
        let current = self.get_name();
        let v = chars_of(current.as_str());
        out.push(current);
        let ghost mid = strs_view(out@);
        assert(mid =~= strs_view(old(out)@) + seq![canonical(e.name)]);
        let mut c: usize = 0;
        while c < self.children.len()
            invariant
                e == self@,
                c <= self.children@.len(),
                strs_view(out@) == mid + list_keys(e.children.subrange(0, c as int)),
            decreases self.children@.len() - c,
        {
            self.children[c].collect_keys(out);
            assert(e.children[c as int] == self.children@[c as int]@);
            assert(e.children.subrange(0, c + 1).drop_last() =~= e.children.subrange(0, c as int));
            c = c + 1;
            assert(strs_view(out@) =~= mid + list_keys(e.children.subrange(0, c as int)));
        }
        assert(e.children.subrange(0, c as int) =~= e.children);
        let ghost before = strs_view(out@);
        if self.end_terminator {
            let end = Self::end_name_of(v.as_slice());
            out.push(string_of(end.as_slice()));
            assert(strs_view(out@) =~= before.push(end_name(canonical(e.name))));
        } else {
            assert(strs_view(out@) =~= before);
        }
        assert(strs_view(out@) =~= strs_view(old(out)@) + entry_keys(e));
    }

    /// The distinct key names this entry and its descendants use, in order
    /// of first use.
    pub fn get_unique_keys(&self) -> (r: Vec<String>)
        ensures
            strs_view(r@) == dedup(entry_keys(self@)),
    {
        let mut all: Vec<String> = Vec::new();
        self.collect_keys(&mut all);
        assert(strs_view(all@) =~= entry_keys(self@));
        dedup_strings(&all)
    }
}

/// The first occurrence of each text, in order.
pub fn dedup_strings(v: &Vec<String>) -> (r: Vec<String>)
    ensures
        strs_view(r@) == dedup(strs_view(v@)),
{
    let ghost sv = strs_view(v@);
    let mut out: Vec<String> = Vec::new();
    let mut i: usize = 0;
    while i < v.len()
        invariant
            i <= v@.len(),
            sv == strs_view(v@),
            strs_view(out@) == dedup(sv.subrange(0, i as int)),
        decreases v@.len() - i,
    {
        let ghost pre = sv.subrange(0, i as int);
        assert(sv.subrange(0, i + 1).drop_last() =~= pre);
        assert(sv.subrange(0, i + 1).last() == v@[i as int]@);
        let mut found = false;
        let mut j: usize = 0;
        while j < out.len()
            invariant
                j <= out@.len(),
                !found ==> forall|k: int| 0 <= k < j ==> strs_view(out@)[k] != v@[i as int]@,
                found ==> strs_view(out@).contains(v@[i as int]@),
                i < v@.len(),
            decreases out@.len() - j,
        {
            if out[j] == v[i] {
                found = true;
                assert(strs_view(out@)[j as int] == v@[i as int]@);
            }
            j = j + 1;
        }
        if !found {
            out.push(v[i].clone());
            assert(strs_view(out@) =~= dedup(pre).push(v@[i as int]@));
        }
        i = i + 1;
    }
    assert(sv.subrange(0, i as int) =~= sv);
    out
}

/// The NUL-terminated encodings of `ds` one after the other, and the
/// offset of each in that blob.
fn encode_blob(ds: &Vec<String>, encoding: &CfgBinEncoding) -> (r: (Vec<u8>, Vec<i32>))
    ensures
        r.0@ == blob(strs_view(ds@), *encoding),
        offsets_wf(ds@, r.1@, *encoding),
{
    let ghost dv = strs_view(ds@);
    let mut out: Vec<u8> = Vec::new();
    let mut offs: Vec<i32> = Vec::new();
    let mut i: usize = 0;
    while i < ds.len()
        invariant
            i <= ds@.len(),
            dv == strs_view(ds@),
            out@ == blob(dv.subrange(0, i as int), *encoding),
            offs@.len() == i,
            forall|j: int|
                0 <= j < i ==> #[trigger] offs@[j] == blob(dv.subrange(0, j), *encoding).len() as i32,
        decreases ds@.len() - i,
    {
        offs.push(out.len() as i32);
        let b = encode_string_bytes(ds[i].as_str(), encoding);
        append_bytes(&mut out, b.as_slice());
        out.push(0);
        assert(dv.subrange(0, i + 1).drop_last() =~= dv.subrange(0, i as int));
        assert(out@ =~= blob(dv.subrange(0, i + 1), *encoding));
        i = i + 1;
    }
    assert(dv.subrange(0, i as int) =~= dv);
    (out, offs)
}

/// `head` followed by `buf` without its first 16 bytes.
fn with_header(head: Vec<u8>, buf: &Vec<u8>) -> (r: Vec<u8>)
    requires
        buf@.len() >= 16,
    ensures
        r@ == head@ + buf@.subrange(16, buf@.len() as int),
{
    let mut out = head;
    let tail = vstd::slice::slice_subrange(buf.as_slice(), 16, buf.len());
    append_bytes(&mut out, tail);
    out
}

fn header(a: i32, b: i32, c: i32, d: i32) -> (r: Vec<u8>)
    ensures
        r@ == crate::bytes::i32_bytes(a) + crate::bytes::i32_bytes(b) + crate::bytes::i32_bytes(c)
            + crate::bytes::i32_bytes(d),
{
    let mut h: Vec<u8> = Vec::new();
    push_i32(&mut h, a);
    push_i32(&mut h, b);
    push_i32(&mut h, c);
    push_i32(&mut h, d);
    h
}

impl CfgBin {
    pub open spec fn entries_view(&self) -> Seq<EntryView> {
        crate::model::entries_view(self.entries@)
    }

    /// The distinct texts of the document, in order of first appearance.
    fn get_distinct_strings(&self) -> (r: Vec<String>)
        ensures
            strs_view(r@) == dedup(list_strings(self.entries_view())),
    {
        let ghost es = self.entries_view();
        let mut all: Vec<String> = Vec::new();
        let mut i: usize = 0;
        while i < self.entries.len()
            invariant
                es == self.entries_view(),
                i <= self.entries@.len(),
                strs_view(all@) == list_strings(es.subrange(0, i as int)),
            decreases self.entries@.len() - i,
        {
            self.entries[i].collect_strings(&mut all);
            assert(es.subrange(0, i + 1).drop_last() =~= es.subrange(0, i as int));
            i = i + 1;
        }
        assert(es.subrange(0, i as int) =~= es);
        dedup_strings(&all)
    }

    /// The key table section for `key_list`.
    pub fn encode_key_table(&self, key_list: &[String]) -> (r: Vec<u8>)
        ensures
            r@ == key_table_bytes(strs_view(key_list@), self.encoding),
    {
        let ghost kv = strs_view(key_list@);
        let mut buf: Vec<u8> = Vec::new();
        push_i32(&mut buf, 0);
        push_i32(&mut buf, 0);
        push_i32(&mut buf, 0);
        push_i32(&mut buf, 0);
        let ghost head = buf@;
        let mut names: Vec<u8> = Vec::new();
        let mut i: usize = 0;
        while i < key_list.len()
            invariant
                i <= key_list@.len(),
                kv == strs_view(key_list@),
                head.len() == 16,
                buf@ == head + key_records(kv.subrange(0, i as int), self.encoding),
                names@ == blob(kv.subrange(0, i as int), self.encoding),
            decreases key_list@.len() - i,
        {
            let b = encode_string_bytes(key_list[i].as_str(), &self.encoding);
            let crc = compute(b.as_slice());
            push_u32(&mut buf, crc);
            push_i32(&mut buf, names.len() as i32);
            append_bytes(&mut names, b.as_slice());
            names.push(0);
            assert(kv.subrange(0, i + 1).drop_last() =~= kv.subrange(0, i as int));
            assert(buf@ =~= head + key_records(kv.subrange(0, i + 1), self.encoding));
            assert(names@ =~= blob(kv.subrange(0, i + 1), self.encoding));
            i = i + 1;
        }
        assert(kv.subrange(0, i as int) =~= kv);
        let ghost recs = key_records(kv, self.encoding);
        let ghost a = 16 + recs.len();
        write_alignment(&mut buf, 16, 0xFF);
        let key_string_offset = buf.len();
        append_bytes(&mut buf, names.as_slice());
        let ghost b = buf@.len();
        write_alignment(&mut buf, 16, 0xFF);
        let key_length = buf.len();
        assert(buf@.subrange(16, buf@.len() as int) =~= recs + crate::bytes::fill(0xFF, crate::bytes::pad_len(a, 16)) + names@
            + crate::bytes::fill(0xFF, crate::bytes::pad_len(b, 16)));
        let h = header(key_length as i32, key_list.len() as i32, key_string_offset as i32, names.len() as i32);
        let out = with_header(h, &buf);
        assert(out@ =~= key_table_bytes(kv, self.encoding));
        out
    }

    /// Sixteen header bytes, then every record in pre-order; with the
    /// number of records and the key names they use.
    fn encode_records(&self, distinct_strings: &Vec<String>, offsets: &Vec<i32>) -> (r: (
        Vec<u8>,
        usize,
        Vec<String>,
    ))
        requires
            offsets_wf(distinct_strings@, offsets@, self.encoding),
        ensures
            r.0@ == crate::bytes::i32_bytes(0) + crate::bytes::i32_bytes(0) + crate::bytes::i32_bytes(0)
                + crate::bytes::i32_bytes(0) + list_bytes(
                self.entries_view(),
                strs_view(distinct_strings@),
                self.encoding,
            ),
            r.1 == list_count(self.entries_view()),
            strs_view(r.2@) == list_keys(self.entries_view()),
    {
        let ghost es = self.entries_view();
        let ghost ds = strs_view(distinct_strings@);
        let mut buf: Vec<u8> = Vec::new();
        push_i32(&mut buf, 0);
        push_i32(&mut buf, 0);
        push_i32(&mut buf, 0);
        push_i32(&mut buf, 0);
        let ghost head = buf@;
        let mut count: usize = 0;
        let mut keys: Vec<String> = Vec::new();
        let mut i: usize = 0;
        while i < self.entries.len()
            invariant
                es == self.entries_view(),
                ds == strs_view(distinct_strings@),
                offsets_wf(distinct_strings@, offsets@, self.encoding),
                i <= self.entries@.len(),
                head.len() == 16,
                buf@ == head + list_bytes(es.subrange(0, i as int), ds, self.encoding),
                count == list_count(es.subrange(0, i as int)),
                count * 8 <= buf@.len(),
                strs_view(keys@) == list_keys(es.subrange(0, i as int)),
            decreases self.entries@.len() - i,
        {
            self.entries[i].encode_entry(&mut buf, distinct_strings, offsets, &self.encoding, &mut count);
            self.entries[i].collect_keys(&mut keys);
            assert(es.subrange(0, i + 1).drop_last() =~= es.subrange(0, i as int));
            i = i + 1;
            assert(buf@ =~= head + list_bytes(es.subrange(0, i as int), ds, self.encoding));
        }
        assert(es.subrange(0, i as int) =~= es);
        assert(es.subrange(0, i as int) =~= es);
        (buf, count, keys)
    }

    /// The document as bytes: records in pre-order, then the string table,
    /// the key table and the footer.
    #[verifier::rlimit(100)]
    pub fn save(&self) -> (r: Vec<u8>)
        ensures
            r@ == document_bytes(self.encoding, self.footer_encoding, self.entries_view()),
    {
        let ghost es = self.entries_view();
        let distinct_strings = self.get_distinct_strings();
        let ghost ds = strs_view(distinct_strings@);
        let (strings_data, offsets) = encode_blob(&distinct_strings, &self.encoding);
        let (mut buf, count, keys) = self.encode_records(&distinct_strings, &offsets);
        let ghost recs = list_bytes(es, ds, self.encoding);
        let ghost z = crate::bytes::i32_bytes(0) + crate::bytes::i32_bytes(0) + crate::bytes::i32_bytes(0)
            + crate::bytes::i32_bytes(0);
        let ghost a = buf@.len();
        write_alignment(&mut buf, 16, 0xFF);
        let ghost fill_a = crate::bytes::fill(0xFF, crate::bytes::pad_len(a, 16));
        let string_table_offset = buf.len();
        append_bytes(&mut buf, strings_data.as_slice());
        let ghost b = buf@.len();
        write_alignment(&mut buf, 16, 0xFF);
        let ghost fill_b = crate::bytes::fill(0xFF, crate::bytes::pad_len(b, 16));
        let unique_keys = dedup_strings(&keys);
        let key_table_data = self.encode_key_table(unique_keys.as_slice());
        append_bytes(&mut buf, key_table_data.as_slice());
        let ghost c0 = buf@;
        assert(c0 == z + recs + fill_a + strings_data@ + fill_b + key_table_data@);
        buf.push(0x01);
        buf.push(0x74);
        buf.push(0x32);
        buf.push(0x62);
        push_u16(&mut buf, 0x01FE);
        let footer_encoding: u16 = match self.encoding {
            CfgBinEncoding::ShiftJis => 0,
            CfgBinEncoding::Utf8 => if self.footer_encoding == 0 {
                1
            } else {
                self.footer_encoding
            },
        };
        push_u16(&mut buf, footer_encoding);
        push_u16(&mut buf, 1);
        let ghost footer = footer_bytes(self.encoding, self.footer_encoding);
        assert(buf@ =~= c0 + footer);
        let ghost c = buf@.len();
        write_alignment(&mut buf, 16, 0xFF);
        let ghost fill_c = crate::bytes::fill(0xFF, crate::bytes::pad_len(c, 16));
        assert(buf@ == z + recs + fill_a + strings_data@ + fill_b + key_table_data@ + footer + fill_c);
        assert(z.len() == 16);
        assert(buf@.subrange(16, buf@.len() as int) =~= recs + fill_a + strings_data@ + fill_b
            + key_table_data@ + footer + fill_c);
        let h = header(
            count as i32,
            string_table_offset as i32,
            strings_data.len() as i32,
            distinct_strings.len() as i32,
        );
        let out = with_header(h, &buf);
        assert(out@ =~= assemble(
            count as nat,
            recs,
            distinct_strings@.len(),
            strings_data@,
            key_table_data@,
            footer,
        ));
        out
    }
}

} // verus!

use cfgbin::address::{apply_address_lines, AddressText};
use cfgbin::bytes::{read_i32, write_alignment};
use cfgbin::crc32;
use cfgbin::model::{CfgBin, CfgBinEncoding, CfgBinError, Entry, TextEntry, VarType, VarValue, Variable};
use cfgbin::names::canonical_name;
use cfgbin::tree::{record_kind, RecordKind};
use cfgbin::text::{decode_string, encode_string_bytes};
use cfgbin::txt::{
    apply_txt_lines, decode_txt_line, is_datetime_timestamp_line, normalize_txt_line, parse_txt_lines,
    resolve_txt_update_offset,
};

fn leaf(name: &str, variables: Vec<Variable>) -> Entry {
    Entry { name: name.to_string(), variables, children: Vec::new(), end_terminator: false }
}

fn text_var(s: Option<&str>) -> Variable {
    Variable { var_type: VarType::String, value: VarValue::String(s.map(|x| x.to_string())) }
}

fn int_var(v: i32) -> Variable {
    Variable { var_type: VarType::Int, value: VarValue::Int(v) }
}

fn names_of(es: &[Entry]) -> Vec<String> {
    es.iter().map(|e| e.name.clone()).collect()
}

#[test]
fn open_resolves_suffix_offsets_in_string_table() -> Result<(), CfgBinError> {
    let encoding = CfgBinEncoding::Utf8;
    let entry_name = "TEST";
    let entry_crc = crc32::compute(&encode_string_bytes(entry_name, &encoding));

    // One entry with a single string value pointing to offset 2 inside "abcdef\0" -> "cdef".
    let mut entry_bytes = Vec::new();
    entry_bytes.extend_from_slice(&entry_crc.to_le_bytes());
    entry_bytes.push(1); // param_count
    entry_bytes.push(0); // types: 1x string
    entry_bytes.extend_from_slice(&[0xFF, 0xFF]); // padding to 4-byte alignment
    entry_bytes.extend_from_slice(&2i32.to_le_bytes()); // string offset

    let mut buf = vec![0u8; 16]; // header placeholder
    buf.extend_from_slice(&entry_bytes);
    write_alignment(&mut buf, 16, 0xFF);

    let string_table_offset = buf.len() as i32;
    let strings_data = b"abcdef\0".to_vec();
    let string_table_length = strings_data.len() as i32;
    let string_table_count = 1i32;

    buf.extend_from_slice(&strings_data);
    write_alignment(&mut buf, 16, 0xFF);

    // Key table: only needs the entry name for CRC resolution.
    let tmp_cfg = CfgBin { encoding, footer_encoding: 1, entries: Vec::new() };
    let key_table_data = tmp_cfg.encode_key_table(&[entry_name.to_string()]);
    buf.extend_from_slice(&key_table_data);

    // Footer (UTF-8).
    buf.extend_from_slice(&[0x01, 0x74, 0x32, 0x62]);
    buf.extend_from_slice(&(0x01FEu16).to_le_bytes());
    buf.extend_from_slice(&(1u16).to_le_bytes());
    buf.extend_from_slice(&(1u16).to_le_bytes());
    write_alignment(&mut buf, 16, 0xFF);

    // Header
    buf[0..4].copy_from_slice(&(1i32).to_le_bytes());
    buf[4..8].copy_from_slice(&string_table_offset.to_le_bytes());
    buf[8..12].copy_from_slice(&string_table_length.to_le_bytes());
    buf[12..16].copy_from_slice(&string_table_count.to_le_bytes());

    let cfg = CfgBin::open(&buf)?;
    let texts = cfg.extract_texts();
    assert_eq!(texts.len(), 1);
    assert_eq!(texts[0].value, "cdef");

    Ok(())
}

#[test]
fn save_writes_distinct_strings_without_suffix_cache() {
    let entry = Entry {
        name: "TEST_0".to_string(),
        variables: vec![
            Variable { var_type: VarType::String, value: VarValue::String(Some("abcdef".to_string())) },
            Variable { var_type: VarType::String, value: VarValue::String(Some("cdef".to_string())) },
        ],
        children: Vec::new(),
        end_terminator: false,
    };

    let cfg = CfgBin { encoding: CfgBinEncoding::Utf8, footer_encoding: 1, entries: vec![entry] };

    let out = cfg.save();

    let entries_count = read_i32(&out, 0);
    let string_table_offset = read_i32(&out, 4) as usize;
    let string_table_length = read_i32(&out, 8) as usize;
    let string_table_count = read_i32(&out, 12);

    assert_eq!(entries_count, 1);
    assert_eq!(string_table_count, 2);

    let string_blob = &out[string_table_offset..string_table_offset + string_table_length];
    assert_eq!(string_blob, b"abcdef\0cdef\0");

    // Parse first entry's two string offsets.
    let entries_blob = &out[0x10..string_table_offset];
    let mut p = 0usize;
    p += 4; // crc
    let param_count = entries_blob[p] as usize;
    p += 1;
    assert_eq!(param_count, 2);

    // Read type bytes (ceil(2/4)=1), then align to 4.
    p += 1;
    if (1 + 1) % 4 != 0 {
        let rem = p % 4;
        if rem != 0 {
            p += 4 - rem;
        }
    }

    let off0 = read_i32(entries_blob, p);
    let off1 = read_i32(entries_blob, p + 4);
    assert_eq!(off0, 0);
    assert_eq!(off1, 7);
}

#[test]
fn crc32_check_values() {
    assert_eq!(crc32::compute(b"123456789"), 0xCBF43926);
    assert_eq!(crc32::compute(b""), 0x00000000);
    assert_eq!(crc32::compute(b"a"), 0xE8B7BE43);
}

#[test]
fn canonical_name_strips_occurrence_index() {
    assert_eq!(canonical_name("FOO_BEG_12"), "FOO_BEG");
    assert_eq!(canonical_name("PLAIN"), "PLAIN");
    let base = canonical_name("ITEM_LIST_3");
    assert_eq!(canonical_name(&format!("{}_{}", base, 41)), base);
}

#[test]
fn tree_builder_nests_plain_record_in_begin_end_pair() {
    let flat = vec![leaf("FOO_BEG_0", vec![]), leaf("BAR_0", vec![]), leaf("FOO_END_0", vec![])];
    let tree = CfgBin::process_entries(flat);
    assert_eq!(tree.len(), 1);
    assert_eq!(tree[0].name, "FOO_BEG_0");
    assert!(tree[0].end_terminator);
    assert_eq!(names_of(&tree[0].children), vec!["BAR_0".to_string()]);
    assert_eq!(tree[0].get_name(), "FOO_BEG");
}

#[test]
fn tree_builder_reads_type_segment_case_insensitively() {
    let flat = vec![leaf("Foo_Begin_0", vec![]), leaf("Foo_Item_0", vec![]), leaf("Foo_End_0", vec![])];
    let tree = CfgBin::process_entries(flat);
    assert_eq!(tree.len(), 1);
    assert_eq!(names_of(&tree[0].children), vec!["Foo_Item_0".to_string()]);
}

#[test]
fn bare_top_level_record_gains_a_terminator_on_re_encoding() {
    let doc = CfgBin {
        encoding: CfgBinEncoding::Utf8,
        footer_encoding: 1,
        entries: vec![Entry { name: "A_0".to_string(), variables: vec![], children: vec![], end_terminator: true }],
    };
    let back = CfgBin::open(&doc.save()).unwrap();
    assert_eq!(names_of(&back.entries), vec!["A_0".to_string(), "A_1".to_string()]);
}

#[test]
fn tree_builder_keeps_bare_top_level_records_terminated() {
    let flat = vec![leaf("A_0", vec![int_var(1)]), leaf("B_0", vec![])];
    let tree = CfgBin::process_entries(flat);
    assert_eq!(names_of(&tree), vec!["A_0".to_string(), "B_0".to_string()]);
    assert!(tree[0].end_terminator && tree[1].end_terminator);
}

#[test]
fn tree_builder_nests_scopes() {
    let flat = vec![
        leaf("OUTER_BEGIN_0", vec![]),
        leaf("INNER_BEGIN_0", vec![]),
        leaf("X_0", vec![]),
        leaf("INNER_END_0", vec![]),
        leaf("OUTER_END_0", vec![]),
    ];
    let tree = CfgBin::process_entries(flat);
    assert_eq!(names_of(&tree), vec!["OUTER_BEGIN_0".to_string()]);
    assert_eq!(names_of(&tree[0].children), vec!["INNER_BEGIN_0".to_string()]);
    assert_eq!(names_of(&tree[0].children[0].children), vec!["X_0".to_string()]);
    assert!(tree[0].end_terminator);
    assert!(tree[0].children[0].end_terminator);
}

fn sample_document() -> CfgBin {
    let child = Entry {
        name: "LIST_ITEM_0".to_string(),
        variables: vec![text_var(Some("hello")), int_var(-5), text_var(None)],
        children: Vec::new(),
        end_terminator: false,
    };
    let root = Entry {
        name: "LIST_BEG_0".to_string(),
        variables: vec![int_var(2), Variable { var_type: VarType::Float, value: VarValue::Float(1.5f32.to_bits()) }],
        children: vec![child],
        end_terminator: true,
    };
    let other = Entry {
        name: "NAME_BEGIN_0".to_string(),
        variables: vec![text_var(Some("hello")), text_var(Some("world"))],
        children: Vec::new(),
        end_terminator: true,
    };
    CfgBin { encoding: CfgBinEncoding::Utf8, footer_encoding: 1, entries: vec![root, other] }
}

fn describe(es: &[Entry], out: &mut Vec<String>) {
    for e in es {
        out.push(format!("{} {} {:?}", e.name, e.end_terminator, e.variables));
        describe(&e.children, out);
        out.push("<".to_string());
    }
}

#[test]
fn decode_encode_decode_keeps_the_tree() {
    let bytes = sample_document().save();
    let first = CfgBin::open(&bytes).unwrap();
    let again = CfgBin::open(&first.save()).unwrap();
    let (mut a, mut b) = (Vec::new(), Vec::new());
    describe(&first.entries, &mut a);
    describe(&again.entries, &mut b);
    assert_eq!(a, b);
    assert_eq!(first.entries.len(), 2);
    assert_eq!(first.entries[0].name, "LIST_BEG_0");
    assert_eq!(names_of(&first.entries[0].children), vec!["LIST_ITEM_0".to_string()]);
    assert_eq!(first.entries[1].name, "NAME_BEGIN_0");
    assert!(first.entries[0].end_terminator);
    match &first.entries[0].variables[1].value {
        VarValue::Float(bits) => assert_eq!(f32::from_bits(*bits), 1.5f32),
        other => panic!("unexpected {:?}", other),
    }
    assert_eq!(first.save(), again.save());
}

#[test]
fn save_header_counts_records_and_terminators() {
    let out = sample_document().save();
    // LIST_BEG + LIST_ITEM + LIST_END, NAME_BEGIN + NAME_END
    assert_eq!(read_i32(&out, 0), 5);
    assert_eq!(read_i32(&out, 12), 2);
    assert_eq!(out.len() % 16, 0);
    let n = out.len();
    assert_eq!(&out[n - 16..n - 10], &[0x01, 0x74, 0x32, 0x62, 0xFE, 0x01]);
}

#[test]
fn save_writes_shift_jis_footer_word() {
    let mut doc = sample_document();
    doc.encoding = CfgBinEncoding::ShiftJis;
    let out = doc.save();
    let n = out.len();
    assert_eq!(&out[n - 10..n - 8], &[0, 0]);
    let back = CfgBin::open(&out).unwrap();
    assert_eq!(back.encoding, CfgBinEncoding::ShiftJis);
    assert_eq!(back.footer_encoding, 0);
}

#[test]
fn save_keeps_nonzero_footer_word() {
    let mut doc = sample_document();
    doc.footer_encoding = 0x0101;
    let out = doc.save();
    let back = CfgBin::open(&out).unwrap();
    assert_eq!(back.footer_encoding, 0x0101);
    assert_eq!(back.encoding, CfgBinEncoding::Utf8);
}

#[test]
fn extract_texts_numbers_fields_in_document_order() {
    let doc = sample_document();
    let texts = doc.extract_texts();
    let got: Vec<(usize, String, usize, String)> =
        texts.iter().map(|t| (t.index, t.entry.clone(), t.variable_index, t.value.clone())).collect();
    assert_eq!(
        got,
        vec![
            (0, "LIST_ITEM".to_string(), 0, "hello".to_string()),
            (1, "LIST_ITEM".to_string(), 2, String::new()),
            (2, "NAME_BEGIN".to_string(), 0, "hello".to_string()),
            (3, "NAME_BEGIN".to_string(), 1, "world".to_string()),
        ]
    );
}

#[test]
fn update_with_empty_value_reads_back_absent() {
    let bytes = sample_document().save();
    let mut cfg = CfgBin::open(&bytes).unwrap();
    let mut texts = cfg.extract_texts();
    texts[3].value = String::new();
    texts[0].value = "bye".to_string();
    cfg.update_texts(&texts);
    let back = CfgBin::open(&cfg.save()).unwrap();
    match &back.entries[1].variables[1].value {
        VarValue::String(v) => assert_eq!(v, &None),
        other => panic!("unexpected {:?}", other),
    }
    match &back.entries[0].children[0].variables[0].value {
        VarValue::String(v) => assert_eq!(v.as_deref(), Some("bye")),
        other => panic!("unexpected {:?}", other),
    }
}

#[test]
fn update_uses_first_entry_for_an_index() {
    let mut cfg = sample_document();
    let t = |i: usize, v: &str| TextEntry { index: i, entry: String::new(), variable_index: 0, value: v.to_string() };
    cfg.update_texts(&[t(2, "first"), t(2, "second"), t(99, "none")]);
    let texts = cfg.extract_texts();
    assert_eq!(texts[2].value, "first");
    assert_eq!(texts[3].value, "world");
}

#[test]
fn open_rejects_short_buffer() {
    assert_eq!(CfgBin::open(&[0u8; 8]).err(), Some(CfgBinError::MalformedHeader));
}

#[test]
fn open_rejects_unknown_key() {
    let doc = CfgBin {
        encoding: CfgBinEncoding::Utf8,
        footer_encoding: 1,
        entries: vec![Entry { name: "K_0".to_string(), variables: vec![], children: vec![], end_terminator: true }],
    };
    let mut out = doc.save();
    // corrupt the first record's key
    out[16] ^= 0xFF;
    let crc = u32::from_le_bytes([out[16], out[17], out[18], out[19]]);
    assert_eq!(CfgBin::open(&out).err(), Some(CfgBinError::UnknownKey(crc)));
}

#[test]
fn open_rejects_out_of_range_string_table() {
    let mut out = sample_document().save();
    out[8..12].copy_from_slice(&(100000i32).to_le_bytes());
    assert_eq!(CfgBin::open(&out).err(), Some(CfgBinError::MalformedHeader));
}

#[test]
fn encode_types_pads_with_ff() {
    assert_eq!(Entry::encode_types(&[]), vec![0xFF, 0xFF, 0xFF]);
    assert_eq!(Entry::encode_types(&[VarType::Int, VarType::Float]), vec![0b1001, 0xFF, 0xFF]);
    let five = [VarType::Int, VarType::Int, VarType::Int, VarType::Float, VarType::Unknown];
    assert_eq!(Entry::encode_types(&five), vec![0b1001_0101, 0x03, 0xFF]);
    assert_eq!(Entry::encode_types(&[VarType::Unknown]), vec![0x03, 0xFF, 0xFF]);
}

#[test]
fn end_names_replace_begin_markers() {
    let e = |s: &str| Entry::end_name_of(&s.chars().collect::<Vec<char>>()).into_iter().collect::<String>();
    assert_eq!(e("FOO_BEGIN"), "FOO_END");
    assert_eq!(e("FOO_BEG"), "FOO_END");
    assert_eq!(e("PTREE_X"), "_PTREE");
    let root = Entry { name: "A_BEG_0".to_string(), variables: vec![], children: vec![], end_terminator: true };
    assert_eq!(root.get_unique_keys(), vec!["A_BEG".to_string(), "A_END".to_string()]);
}

#[test]
fn shift_jis_text_round_trips_through_the_codec() {
    let bytes = encode_string_bytes("あ", &CfgBinEncoding::ShiftJis);
    assert_eq!(bytes, vec![0x82, 0xA0]);
    assert_eq!(decode_string(&bytes, &CfgBinEncoding::ShiftJis), "あ");
    assert_eq!(encode_string_bytes("あ", &CfgBinEncoding::Utf8), vec![0xE3, 0x81, 0x82]);
}

#[test]
fn utf8_decoding_is_lossy() {
    assert_eq!(decode_string(&[0x61, 0xFF, 0x62], &CfgBinEncoding::Utf8), "a\u{FFFD}b");
}

#[test]
fn txt_lines_escape_and_unescape() {
    assert_eq!(normalize_txt_line("a\\b\r\nc"), "a\\\\b\\r\\nc");
    assert_eq!(decode_txt_line("a\\\\b\\r\\nc\\t\\q\\"), "a\\b\r\nc\t\\q\\");
    assert_eq!(decode_txt_line(&normalize_txt_line("x\ny\\z")), "x\ny\\z");
}

#[test]
fn txt_content_splits_into_decoded_lines() {
    assert_eq!(parse_txt_lines("\u{FEFF}one\r\ntwo\rthree\\n\n"), vec!["one", "two", "three\n"]);
    assert_eq!(parse_txt_lines(""), Vec::<String>::new());
    assert_eq!(parse_txt_lines("a\n\nb"), vec!["a", "", "b"]);
}

#[test]
fn timestamp_lines_are_recognised() {
    assert!(is_datetime_timestamp_line("2024/01/31 23:59:00"));
    assert!(!is_datetime_timestamp_line("2024-01-31 23:59:00"));
    assert!(!is_datetime_timestamp_line("2024/01/31 23:59:0"));
}

#[test]
fn txt_update_offset_resolution() {
    assert_eq!(resolve_txt_update_offset(23, 20, Some("2024/05/01 10:20:30")), Ok(3));
    assert_eq!(
        resolve_txt_update_offset(23, 21, Some("plain text")),
        Err(CfgBinError::LineCountMismatch { expected: 23, actual: 21, timestamp_header: false })
    );
    assert_eq!(resolve_txt_update_offset(5, 5, None), Ok(0));
    assert_eq!(
        resolve_txt_update_offset(23, 21, Some("2024/05/01 10:20:30")),
        Err(CfgBinError::LineCountMismatch { expected: 23, actual: 21, timestamp_header: true })
    );
}

#[test]
fn txt_lines_apply_from_offset() {
    let mut texts = sample_document().extract_texts();
    apply_txt_lines(&mut texts, &vec!["x".to_string(), "y".to_string()], 3);
    let values: Vec<String> = texts.iter().map(|t| t.value.clone()).collect();
    assert_eq!(values, vec!["hello", "", "hello", "x"]);
}

#[test]
fn address_mode_lists_stored_offsets_once_in_order() {
    let out = sample_document().save();
    let texts = CfgBin::extract_texts_by_address(&out).unwrap();
    let got: Vec<(usize, String)> = texts.iter().map(|t| (t.address, t.value.clone())).collect();
    assert_eq!(got, vec![(0, "hello".to_string()), (6, "world".to_string())]);
}

#[test]
fn address_mode_patches_in_place() {
    let out = sample_document().save();
    let patched = CfgBin::patch_texts_by_address_in_place(
        &out,
        &[AddressText { address: 6, value: "wow".to_string() }, AddressText { address: 0, value: "hi".to_string() }],
    )
    .unwrap();
    assert_eq!(patched.len(), out.len());
    let back = CfgBin::open(&patched).unwrap();
    let values: Vec<String> = back.extract_texts().iter().map(|t| t.value.clone()).collect();
    assert_eq!(values, vec!["hi", "", "hi", "wow"]);
    let st = read_i32(&out, 4) as usize;
    assert_eq!(&patched[st..st + 12], b"hi\0\0\0\0wow\0\0\0");
}

#[test]
fn address_mode_refuses_longer_text_and_bad_address() {
    let out = sample_document().save();
    assert_eq!(
        CfgBin::patch_texts_by_address_in_place(&out, &[AddressText { address: 0, value: "too long".to_string() }]),
        Err(CfgBinError::LengthExceeded { address: 0, available: 5, needed: 8 })
    );
    assert_eq!(
        CfgBin::patch_texts_by_address_in_place(&out, &[AddressText { address: 500, value: String::new() }]),
        Err(CfgBinError::AddressOutOfRange(500))
    );
}

#[test]
fn key_table_reads_back_names_and_crcs() {
    let cfg = CfgBin { encoding: CfgBinEncoding::Utf8, footer_encoding: 1, entries: Vec::new() };
    let names = vec!["ALPHA".to_string(), "BETA_BEG".to_string(), "ALPHA".to_string()];
    let section = cfg.encode_key_table(&names);
    assert_eq!(section.len() % 16, 0);
    let table = CfgBin::parse_key_table(&section, &CfgBinEncoding::Utf8).unwrap();
    let expected: Vec<(u32, String)> = names.iter().map(|n| (crc32::compute(n.as_bytes()), n.clone())).collect();
    assert_eq!(table, expected);
}

#[test]
fn round_up_to_multiples() {
    assert_eq!(cfgbin::bytes::round_up(17, 16), 32);
    assert_eq!(cfgbin::bytes::round_up(16, 16), 16);
    assert_eq!(cfgbin::bytes::round_up(0, 16), 0);
}

fn chars(s: &str) -> Vec<char> {
    s.chars().collect()
}

#[test]
fn unknown_parameters_keep_type_and_value() {
    let entry = Entry {
        name: "U_BEG_0".to_string(),
        variables: vec![
            Variable { var_type: VarType::Unknown, value: VarValue::Unknown(0) },
            text_var(Some("x")),
            text_var(Some("y")),
            Variable { var_type: VarType::Unknown, value: VarValue::Unknown(-7) },
        ],
        children: vec![],
        end_terminator: true,
    };
    let doc = CfgBin { encoding: CfgBinEncoding::Utf8, footer_encoding: 1, entries: vec![entry] };
    let mut back = CfgBin::open(&doc.save()).unwrap();
    let vars = &back.entries[0].variables;
    assert_eq!(vars[0].var_type, VarType::Unknown);
    assert!(matches!(vars[0].value, VarValue::Unknown(0)));
    assert!(matches!(vars[3].value, VarValue::Unknown(-7)));
    // emptying the first text leaves it absent after saving and reopening
    let mut texts = back.extract_texts();
    assert_eq!(texts.len(), 2);
    texts[0].value = String::new();
    back.update_texts(&texts);
    let again = CfgBin::open(&back.save()).unwrap();
    let vars = &again.entries[0].variables;
    assert!(matches!(vars[0].value, VarValue::Unknown(0)));
    match &vars[1].value {
        VarValue::String(v) => assert_eq!(v, &None),
        other => panic!("unexpected {:?}", other),
    }
    match &vars[2].value {
        VarValue::String(v) => assert_eq!(v.as_deref(), Some("y")),
        other => panic!("unexpected {:?}", other),
    }
}

#[test]
fn open_rejects_text_offset_past_string_table() {
    let doc = CfgBin {
        encoding: CfgBinEncoding::Utf8,
        footer_encoding: 1,
        entries: vec![Entry { name: "T_BEG_0".to_string(), variables: vec![text_var(Some("ab"))], children: vec![], end_terminator: true }],
    };
    let mut out = doc.save();
    assert!(CfgBin::open(&out).is_ok());
    // the text offset of the first record: crc(4) + count(1) + types(1) + padding(2)
    out[24..28].copy_from_slice(&3i32.to_le_bytes());
    assert_eq!(CfgBin::open(&out).err(), Some(CfgBinError::MalformedHeader));
    out[24..28].copy_from_slice(&2i32.to_le_bytes());
    assert!(CfgBin::open(&out).is_ok());
}

#[test]
fn record_kinds_from_lowered_types() {
    let k = |n: &str, t: &str| record_kind(&chars(n), &chars(t));
    assert_eq!(k("FOO_BEG_0", "beg"), RecordKind { begin: true, end: false, plain_begin: true });
    assert_eq!(k("FOO_START_0", "start"), RecordKind { begin: true, end: false, plain_begin: false });
    assert_eq!(k("FOO_END_0", "end"), RecordKind { begin: false, end: true, plain_begin: false });
    assert_eq!(k("X_PTREE_0", "x"), RecordKind { begin: false, end: true, plain_begin: false });
    assert_eq!(k("BAR_0", "bar"), RecordKind { begin: false, end: false, plain_begin: false });
}

#[test]
fn build_tree_with_given_types() {
    let flat = vec![leaf("FOO_BEG_0", vec![]), leaf("BAR_0", vec![]), leaf("FOO_END_0", vec![])];
    let types = vec![chars("beg"), chars("bar"), chars("end")];
    let tree = CfgBin::build_tree(flat, &types);
    assert_eq!(names_of(&tree), vec!["FOO_BEG_0".to_string()]);
    assert!(tree[0].end_terminator);
    assert_eq!(names_of(&tree[0].children), vec!["BAR_0".to_string()]);
}

#[test]
fn address_lines_apply_from_offset() {
    let mut texts = vec![
        AddressText { address: 0, value: "a".to_string() },
        AddressText { address: 4, value: "b".to_string() },
        AddressText { address: 9, value: "c".to_string() },
    ];
    apply_address_lines(&mut texts, &vec!["x".to_string(), "y".to_string(), "z".to_string()], 1);
    let got: Vec<(usize, String)> = texts.iter().map(|t| (t.address, t.value.clone())).collect();
    assert_eq!(got, vec![(0, "a".to_string()), (4, "x".to_string()), (9, "y".to_string())]);
}

#[test]
fn round_up_at_the_top_of_the_range() {
    assert_eq!(cfgbin::bytes::round_up(usize::MAX - 15, 16), usize::MAX - 15);
}

use sto::model::ProfiledBinary;
use sto::perf::{chars_of, parse_record, process_record};
use sto::store::AggregationStore;
use sto::symcache::SymbolCache;

fn lines(v: &[&str]) -> Vec<String> {
    v.iter().map(|s| s.to_string()).collect()
}

fn binary() -> ProfiledBinary {
    ProfiledBinary {
        id: 9,
        event: "Cycles".to_string(),
        build_id: None,
        basename: "binary identifier".to_string(),
        updated_at: None,
        created_at: None,
        sample_count: 0,
        raw_data_size: 0,
        processed_data_size: 0,
    }
}

fn record() -> Vec<String> {
    lines(&[
        "      250000 cycles:u:",
        "\t    55d0c2a1 leaf_fn+0x12 (/usr/bin/prog)",
        "  /src/leaf.c:42",
        "\t    55d0c100 main+0x40 (/usr/bin/prog)",
        "  /src/main.c:7",
        "",
    ])
}

#[test]
fn chars_of_keeps_every_character() {
    assert_eq!(chars_of("a\u{e9}b"), vec!['a', '\u{e9}', 'b']);
    assert_eq!(chars_of(""), Vec::<char>::new());
}

#[test]
fn record_is_read_root_first() {
    let mut cache = SymbolCache::new(8);
    let t = parse_record(&mut cache, &record()).unwrap();
    assert_eq!(t.event, "cycles:u");
    assert_eq!(t.stack_node_datas.len(), 2);
    let root = &t.stack_node_datas[0];
    let leaf = &t.stack_node_datas[1];
    assert_eq!(root.symbol, "main+0x40 (/usr/bin/prog)");
    assert_eq!(root.file, Some("/src/main.c".to_string()));
    assert_eq!(root.line_number, Some(7));
    assert_eq!(leaf.symbol, "leaf_fn+0x12 (/usr/bin/prog)");
    assert_eq!(leaf.line_number, Some(42));
}

#[test]
fn unrecognised_header_and_source_lines_leave_fields_empty() {
    let mut cache = SymbolCache::new(8);
    let rec = lines(&["perf 209124 [000]  7006.226761: 1 cycles:uk:", "  ffff0001 f", "no source", ""]);
    let t = parse_record(&mut cache, &rec).unwrap();
    assert_eq!(t.event, "");
    assert_eq!(t.stack_node_datas[0].symbol, "f");
    assert_eq!(t.stack_node_datas[0].file, None);
    assert_eq!(t.stack_node_datas[0].line_number, None);
}

#[test]
fn oversized_line_number_is_dropped() {
    let mut cache = SymbolCache::new(8);
    let rec = lines(&["  1 cycles:", "  ab f", "  /x.c:99999999999", ""]);
    let t = parse_record(&mut cache, &rec).unwrap();
    assert_eq!(t.stack_node_datas[0].file, Some("/x.c".to_string()));
    assert_eq!(t.stack_node_datas[0].line_number, None);
}

#[test]
fn malformed_symbol_discards_the_record() {
    let mut cache = SymbolCache::new(8);
    let rec = lines(&["  1 cycles:", "nonsense", "  /x.c:1", ""]);
    assert!(parse_record(&mut cache, &rec).is_none());
}

#[test]
fn unterminated_record_is_not_read() {
    let mut cache = SymbolCache::new(8);
    let rec = lines(&["  1 cycles:", "  ab f", "  /x.c:1"]);
    assert!(parse_record(&mut cache, &rec).is_none());
}

#[test]
fn process_record_folds_into_the_store() {
    let mut store = AggregationStore::new();
    let mut cache = SymbolCache::new(8);
    let (t, r) = process_record(&mut store, &mut cache, &record(), &binary());
    r.unwrap();
    assert!(t.is_some());
    let (_, r) = process_record(&mut store, &mut cache, &record(), &binary());
    r.unwrap();
    assert_eq!(store.counts(), (2, 2, 1));
    let b = store.binary(9).unwrap();
    assert_eq!((b.sample_count, b.raw_data_size), (2, 32));
    let (t, r) = process_record(&mut store, &mut cache, &lines(&["x", "y"]), &binary());
    assert!(t.is_none());
    r.unwrap();
    assert_eq!(store.counts(), (2, 2, 1));
}

#[test]
fn header_only_record_counts_a_sample_without_nodes() {
    let mut store = AggregationStore::new();
    let mut cache = SymbolCache::new(8);
    process_record(&mut store, &mut cache, &record(), &binary()).1.unwrap();
    let (t, r) = process_record(&mut store, &mut cache, &lines(&["      3 cycles:u:", ""]), &binary());
    r.unwrap();
    let t = t.unwrap();
    assert!(t.stack_node_datas.is_empty());
    assert_eq!(t.event, "cycles:u");
    assert_eq!(store.counts(), (2, 2, 1));
    let b = store.binary(9).unwrap();
    assert_eq!((b.sample_count, b.raw_data_size), (2, 16));
}

#[test]
fn header_event_names_a_new_executable() {
    let mut store = AggregationStore::new();
    let mut cache = SymbolCache::new(8);
    process_record(&mut store, &mut cache, &record(), &binary()).1.unwrap();
    assert_eq!(store.binary(9).unwrap().event, "cycles:u");
    let mut other = binary();
    other.id = 10;
    process_record(&mut store, &mut cache, &lines(&["no header", ""]), &other).1.unwrap();
    assert_eq!(store.binary(10).unwrap().event, "Cycles");
}

#[test]
fn unicode_blanks_delimit_fields() {
    let mut cache = SymbolCache::new(8);
    let rec = lines(&["\u{3000}7\u{a0}cycles:", "\u{2003}abc0\u{a0}sym", "\u{85}/y.c:3", ""]);
    let t = parse_record(&mut cache, &rec).unwrap();
    assert_eq!(t.event, "cycles");
    assert_eq!(t.stack_node_datas[0].symbol, "sym");
    assert_eq!(t.stack_node_datas[0].file, Some("/y.c".to_string()));
    assert_eq!(t.stack_node_datas[0].line_number, Some(3));
}

#[test]
fn splitter_hands_out_records_in_order() {
    let mut sp = sto::perf::RecordSplitter::new();
    assert_eq!(sp.push_line("  1 cycles:".to_string()), None);
    assert_eq!(sp.push_line("".to_string()), Some(lines(&["  1 cycles:", ""])));
    assert_eq!(sp.push_line("a".to_string()), None);
    assert_eq!(sp.push_line("b".to_string()), None);
    assert_eq!(sp.push_line("".to_string()), Some(lines(&["a", "b", ""])));
    assert_eq!(sp.push_line("tail".to_string()), None);
    assert_eq!(sp.unfinished(), 1);
}

use sto::flamegraph::{build_flamegraph, D3FlamegraphData};
use sto::ids::frame_id;
use sto::model::{ProfiledBinary, StackNode, StackNodeData, StoData, TemplateData};
use sto::reconstruct::ReconstructError;
use sto::store::AggregationStore;

fn frame(symbol: &str, line: Option<u32>) -> StackNodeData {
    StackNodeData {
        id: frame_id(symbol, &None, line, &None),
        symbol: symbol.to_string(),
        file: None,
        line_number: line,
        bin_file: None,
    }
}

fn binary() -> ProfiledBinary {
    ProfiledBinary {
        id: 1,
        event: "Cycles".to_string(),
        build_id: None,
        basename: "prog".to_string(),
        updated_at: None,
        created_at: Some(86400),
        sample_count: 0,
        raw_data_size: 0,
        processed_data_size: 0,
    }
}

fn child<'a>(t: &'a D3FlamegraphData, name: &str) -> &'a D3FlamegraphData {
    t.children.as_ref().unwrap().iter().find(|c| c.name == name).unwrap()
}

#[test]
fn tree_mirrors_the_aggregated_nodes() {
    let mut store = AggregationStore::new();
    let a = frame("A", Some(3));
    let b = frame("B", None);
    let c = frame("C", None);
    for _ in 0..4 {
        store.fold_trace(&vec![a.clone(), b.clone()], 1, 1).unwrap();
    }
    store.fold_trace(&vec![a.clone(), c.clone()], 1, 1).unwrap();
    store.fold_trace(&vec![c.clone()], 1, 1).unwrap();
    store.merge_insert_executable(binary(), 0, 0, 0).unwrap();
    let t = build_flamegraph(&store.snapshot()).unwrap();
    assert_eq!(t.name, "prog");
    assert_eq!(t.value, 6);
    assert_eq!(t.children.as_ref().unwrap().len(), 2);
    let ta = child(&t, "A");
    assert_eq!(ta.value, 5);
    assert_eq!(ta.line_number, Some(3));
    assert_eq!(child(ta, "B").value, 4);
    assert!(child(ta, "B").children.is_none());
    assert_eq!(child(ta, "C").value, 1);
    assert_eq!(child(&t, "C").value, 1);
}

#[test]
fn flamegraph_refuses_overflowing_totals() {
    let a = frame("A", None);
    let roots = vec![
        StackNode { id: 1, parent_id: None, stack_node_data_id: a.id, executable_id: 1, sample_count: u64::MAX, depth: 0 },
        StackNode { id: 2, parent_id: None, stack_node_data_id: a.id, executable_id: 1, sample_count: 1, depth: 0 },
    ];
    let sto = StoData { stack_nodes: roots, stack_node_datas: vec![a], profiled_binaries: vec![binary()] };
    assert_eq!(build_flamegraph(&sto).err(), Some(ReconstructError::CountOverflow));
}

#[test]
fn flamegraph_of_empty_snapshot_has_no_boxes() {
    let sto = StoData { stack_nodes: vec![], stack_node_datas: vec![], profiled_binaries: vec![binary()] };
    let t = build_flamegraph(&sto).unwrap();
    assert_eq!(t.value, 0);
    assert_eq!(t.children.unwrap().len(), 0);
    let none = StoData { stack_nodes: vec![], stack_node_datas: vec![], profiled_binaries: vec![] };
    assert_eq!(build_flamegraph(&none).err(), Some(ReconstructError::MissingExecutable));
}

#[test]
fn listing_has_one_line_per_executable() {
    let data = TemplateData::from_binaries(&vec![binary()], &vec!["1970-01-02 00:00:00".to_string()]);
    assert_eq!(data.binaries.len(), 1);
    assert_eq!(data.binaries[0].name, "prog");
    assert_eq!(data.binaries[0].id, 1);
    assert_eq!(data.binaries[0].date, "1970-01-02 00:00:00");
}

use sto::ids::frame_id;
use sto::model::{ProfiledBinary, StackNode, StackNodeData, StoData};
use sto::reconstruct::{construct_template_data, ReconstructError, StackNodeDataListTemplate};
use sto::store::AggregationStore;

fn frame(symbol: &str) -> StackNodeData {
    StackNodeData {
        id: frame_id(symbol, &None, None, &None),
        symbol: symbol.to_string(),
        file: None,
        line_number: None,
        bin_file: None,
    }
}

fn binary() -> ProfiledBinary {
    ProfiledBinary {
        id: 1,
        event: "Cycles".to_string(),
        build_id: None,
        basename: "prog".to_string(),
        updated_at: None,
        created_at: None,
        sample_count: 0,
        raw_data_size: 0,
        processed_data_size: 0,
    }
}

fn snapshot_of(stacks: &[(&[&str], u64)]) -> StoData {
    let mut store = AggregationStore::new();
    for (path, times) in stacks.iter() {
        let frames: Vec<StackNodeData> = path.iter().map(|s| frame(s)).collect();
        for _ in 0..*times {
            store.fold_trace(&frames, 1, 1).unwrap();
        }
    }
    store.merge_insert_executable(binary(), 0, 0, 0).unwrap();
    store.snapshot()
}

fn as_pairs(recs: &[StackNodeDataListTemplate]) -> Vec<(Vec<String>, u64)> {
    let mut v: Vec<(Vec<String>, u64)> =
        recs.iter().map(|r| (r.data_list.iter().map(|d| d.symbol.clone()).collect(), r.count)).collect();
    v.sort();
    v
}

fn path(p: &[&str]) -> Vec<String> {
    p.iter().map(|s| s.to_string()).collect()
}

#[test]
fn three_stacks_round_trip() {
    let sto = snapshot_of(&[(&["A", "B", "C"], 5), (&["A", "B", "D"], 3), (&["A", "E"], 2)]);
    let recs = construct_template_data(&sto).unwrap();
    assert_eq!(
        as_pairs(&recs),
        vec![(path(&["A", "B", "C"]), 5), (path(&["A", "B", "D"]), 3), (path(&["A", "E"]), 2)]
    );
    assert!(recs.iter().all(|r| r.event == "Cycles"));
}

#[test]
fn counts_through_a_root_add_up_to_its_count() {
    let sto = snapshot_of(&[(&["A", "B"], 4), (&["A"], 3), (&["A", "C", "D"], 1), (&["X", "B"], 6)]);
    let recs = construct_template_data(&sto).unwrap();
    let through_a: u64 = recs.iter().filter(|r| r.data_list[0].symbol == "A").map(|r| r.count).sum();
    let through_x: u64 = recs.iter().filter(|r| r.data_list[0].symbol == "X").map(|r| r.count).sum();
    assert_eq!(through_a, 8);
    assert_eq!(through_x, 6);
    assert_eq!(
        as_pairs(&recs),
        vec![
            (path(&["A"]), 3),
            (path(&["A", "B"]), 4),
            (path(&["A", "C", "D"]), 1),
            (path(&["X", "B"]), 6)
        ]
    );
}

#[test]
fn fully_claimed_nodes_are_not_emitted() {
    let sto = snapshot_of(&[(&["A", "B", "C"], 2)]);
    let recs = construct_template_data(&sto).unwrap();
    assert_eq!(as_pairs(&recs), vec![(path(&["A", "B", "C"]), 2)]);
}

#[test]
fn zero_count_leaf_is_skipped() {
    let a = frame("A");
    let b = frame("B");
    let sto = StoData {
        stack_nodes: vec![
            StackNode { id: 10, parent_id: None, stack_node_data_id: a.id, executable_id: 1, sample_count: 2, depth: 0 },
            StackNode { id: 11, parent_id: Some(10), stack_node_data_id: b.id, executable_id: 1, sample_count: 0, depth: 1 },
        ],
        stack_node_datas: vec![a, b],
        profiled_binaries: vec![binary()],
    };
    let recs = construct_template_data(&sto).unwrap();
    assert_eq!(as_pairs(&recs), vec![(path(&["A"]), 2)]);
}

#[test]
fn absent_fields_are_written_empty() {
    let d = StackNodeData {
        id: 3,
        symbol: "f".to_string(),
        file: Some("/a.c".to_string()),
        line_number: None,
        bin_file: None,
    };
    let sto = StoData {
        stack_nodes: vec![StackNode { id: 1, parent_id: None, stack_node_data_id: 3, executable_id: 1, sample_count: 1, depth: 0 }],
        stack_node_datas: vec![d],
        profiled_binaries: vec![binary()],
    };
    let recs = construct_template_data(&sto).unwrap();
    assert_eq!(recs.len(), 1);
    assert_eq!(recs[0].data_list[0].file, "/a.c");
    assert_eq!(recs[0].data_list[0].line_number, 0);
    assert_eq!(recs[0].data_list[0].bin_file, "");
}

fn one_node(n: StackNode) -> StoData {
    StoData { stack_nodes: vec![n], stack_node_datas: vec![frame("A")], profiled_binaries: vec![binary()] }
}

fn root(id: u64, count: u64) -> StackNode {
    StackNode { id, parent_id: None, stack_node_data_id: frame("A").id, executable_id: 1, sample_count: count, depth: 0 }
}

#[test]
fn snapshot_without_executable_is_refused() {
    let mut sto = one_node(root(1, 1));
    sto.profiled_binaries.clear();
    assert_eq!(construct_template_data(&sto), Err(ReconstructError::MissingExecutable));
}

#[test]
fn repeated_node_id_is_refused() {
    let mut sto = one_node(root(1, 1));
    sto.stack_nodes.push(root(1, 2));
    assert_eq!(construct_template_data(&sto), Err(ReconstructError::DuplicateNode));
}

#[test]
fn repeated_frame_id_is_refused() {
    let mut sto = one_node(root(1, 1));
    sto.stack_node_datas.push(frame("A"));
    assert_eq!(construct_template_data(&sto), Err(ReconstructError::DuplicateFrame));
}

#[test]
fn missing_frame_is_refused() {
    let mut n = root(1, 1);
    n.stack_node_data_id = 77;
    assert_eq!(construct_template_data(&one_node(n)), Err(ReconstructError::MissingFrame));
}

#[test]
fn broken_parent_links_are_refused() {
    let mut orphan = root(2, 1);
    orphan.parent_id = Some(99);
    orphan.depth = 1;
    assert_eq!(construct_template_data(&one_node(orphan)), Err(ReconstructError::MalformedTree));
    let mut deep_root = root(1, 1);
    deep_root.depth = 3;
    assert_eq!(construct_template_data(&one_node(deep_root)), Err(ReconstructError::MalformedTree));
}

#[test]
fn child_count_above_parent_is_refused() {
    let mut sto = one_node(root(1, 1));
    sto.stack_nodes.push(StackNode { id: 2, parent_id: Some(1), stack_node_data_id: frame("A").id, executable_id: 1, sample_count: 5, depth: 1 });
    assert_eq!(construct_template_data(&sto), Err(ReconstructError::CountUnderflow));
}

use sto::ids::{frame_id, node_id};
use sto::model::{ProfiledBinary, StackNode, StackNodeData, StoData};
use sto::store::{AggregationStore, StoreError};

fn frame(symbol: &str) -> StackNodeData {
    StackNodeData {
        id: frame_id(symbol, &None, None, &None),
        symbol: symbol.to_string(),
        file: None,
        line_number: None,
        bin_file: None,
    }
}

fn binary(id: u64) -> ProfiledBinary {
    ProfiledBinary {
        id,
        event: "Cycles".to_string(),
        build_id: None,
        basename: "prog".to_string(),
        updated_at: Some(100),
        created_at: None,
        sample_count: 0,
        raw_data_size: 0,
        processed_data_size: 0,
    }
}

fn node(id: u64, count: u64) -> StackNode {
    StackNode { id, parent_id: None, stack_node_data_id: 9, executable_id: 1, sample_count: count, depth: 0 }
}

#[test]
fn inserting_a_frame_twice_keeps_one_record() {
    let mut store = AggregationStore::new();
    let a = frame("A");
    assert!(store.merge_insert_frame(a.clone()));
    let mut changed = a.clone();
    changed.symbol = "other".to_string();
    assert!(!store.merge_insert_frame(changed));
    assert_eq!(store.counts(), (0, 1, 0));
    assert_eq!(store.data(a.id), Some(a));
}

#[test]
fn merging_a_node_n_times_gives_n_times_k() {
    let mut store = AggregationStore::new();
    for i in 1..=6u64 {
        assert_eq!(store.merge_insert_node(node(5, 4)), Ok(4 * i));
    }
    assert_eq!(store.node(5).unwrap().sample_count, 24);
    assert_eq!(store.counts(), (1, 0, 0));
}

#[test]
fn merge_order_does_not_change_counts() {
    let batches = vec![vec![node(1, 2), node(2, 5)], vec![node(2, 1), node(1, 7), node(3, 1)]];
    let mut forward = AggregationStore::new();
    let mut backward = AggregationStore::new();
    for b in batches.iter() {
        for n in b.iter() {
            forward.merge_insert_node(*n).unwrap();
        }
    }
    for b in batches.iter().rev() {
        for n in b.iter().rev() {
            backward.merge_insert_node(*n).unwrap();
        }
    }
    for id in 1..=3u64 {
        assert_eq!(forward.node(id), backward.node(id));
    }
    assert_eq!(forward.node(1).unwrap().sample_count, 9);
    assert_eq!(forward.node(2).unwrap().sample_count, 6);
}

#[test]
fn node_collision_and_overflow_are_refused() {
    let mut store = AggregationStore::new();
    store.merge_insert_node(node(5, 1)).unwrap();
    let mut other = node(5, 1);
    other.executable_id = 2;
    assert_eq!(store.merge_insert_node(other), Err(StoreError::IdCollision));
    assert_eq!(store.merge_insert_node(node(5, u64::MAX)), Err(StoreError::CountOverflow));
    assert_eq!(store.node(5).unwrap().sample_count, 1);
}

#[test]
fn executable_counters_accumulate() {
    let mut store = AggregationStore::new();
    store.merge_insert_executable(binary(3), 1, 64, 0).unwrap();
    let mut later = binary(3);
    later.updated_at = Some(200);
    store.merge_insert_executable(later, 2, 16, 5).unwrap();
    let b = store.binary(3).unwrap();
    assert_eq!((b.sample_count, b.raw_data_size, b.processed_data_size), (3, 80, 5));
    assert_eq!(b.updated_at, Some(200));
    assert_eq!(
        store.merge_insert_executable(binary(3), u64::MAX, 0, 0),
        Err(StoreError::CountOverflow)
    );
}

#[test]
fn fold_trace_chains_nodes_from_the_root() {
    let mut store = AggregationStore::new();
    let frames = vec![frame("A"), frame("B")];
    store.fold_trace(&frames, 11, 1).unwrap();
    store.fold_trace(&frames, 11, 1).unwrap();
    let batch = store.snapshot();
    assert_eq!(batch.stack_nodes.len(), 2);
    assert_eq!(batch.stack_node_datas.len(), 2);
    let root = batch.stack_nodes.iter().find(|n| n.parent_id.is_none()).unwrap();
    let leaf = batch.stack_nodes.iter().find(|n| n.parent_id.is_some()).unwrap();
    assert_eq!(leaf.parent_id, Some(root.id));
    assert_eq!((root.depth, leaf.depth), (0, 1));
    assert_eq!((root.sample_count, leaf.sample_count), (2, 2));
    assert_eq!(root.stack_node_data_id, frame("A").id);
}

#[test]
fn identical_paths_of_two_executables_never_share_nodes() {
    let mut store = AggregationStore::new();
    let frames = vec![frame("A"), frame("B"), frame("C")];
    store.fold_trace(&frames, 1, 1).unwrap();
    store.fold_trace(&frames, 2, 1).unwrap();
    let batch = store.snapshot();
    assert_eq!(batch.stack_nodes.len(), 6);
    assert_eq!(batch.stack_node_datas.len(), 3);
    for a in batch.stack_nodes.iter().filter(|n| n.executable_id == 1) {
        assert!(batch.stack_nodes.iter().filter(|n| n.executable_id == 2).all(|b| b.id != a.id));
    }
}

#[test]
fn drain_hands_out_everything_and_empties() {
    let mut store = AggregationStore::new();
    store.fold_trace(&vec![frame("A")], 1, 1).unwrap();
    store.merge_insert_executable(binary(1), 1, 8, 0).unwrap();
    let batch = store.drain();
    assert_eq!((batch.stack_nodes.len(), batch.stack_node_datas.len(), batch.profiled_binaries.len()), (1, 1, 1));
    assert_eq!(store.counts(), (0, 0, 0));
}

#[test]
fn absorb_upserts_like_the_sink() {
    let mut sink = AggregationStore::new();
    let batch = StoData {
        stack_nodes: vec![node(1, 2)],
        stack_node_datas: vec![frame("A")],
        profiled_binaries: vec![ProfiledBinary { sample_count: 2, raw_data_size: 16, ..binary(1) }],
    };
    sink.absorb(&batch).unwrap();
    sink.absorb(&batch).unwrap();
    assert_eq!(sink.node(1).unwrap().sample_count, 4);
    assert_eq!(sink.binary(1).unwrap().sample_count, 4);
    assert_eq!(sink.binary(1).unwrap().raw_data_size, 32);
    assert_eq!(sink.counts(), (1, 1, 1));
}

#[test]
fn refused_fold_keeps_the_nodes_before_the_refusal() {
    let mut store = AggregationStore::new();
    let a = frame("A");
    let b = frame("B");
    let root_id = node_id(None, a.id, 4);
    let leaf_id = node_id(Some(root_id), b.id, 4);
    let squatter = StackNode { id: leaf_id, parent_id: None, stack_node_data_id: 1, executable_id: 4, sample_count: 7, depth: 0 };
    store.merge_insert_node(squatter).unwrap();
    assert_eq!(store.fold_trace(&vec![a, b], 4, 1), Err(StoreError::IdCollision));
    assert_eq!(store.node(root_id).unwrap().sample_count, 1);
    assert_eq!(store.node(leaf_id), Some(squatter));
    assert_eq!(store.counts(), (2, 2, 0));
}

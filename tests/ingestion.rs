use sto::ids::frame_id;
use sto::ingest::{canonical_frames, frame_record, ingest_sample, should_enqueue, Batcher, BoundedQueue, SymbolizedFrame};
use sto::model::{Args, EventType, ProfiledBinary, StackInfo};
use sto::store::AggregationStore;
use sto::symcache::SymbolCache;

fn args() -> Args {
    Args {
        pid: 42,
        total_samples: 10,
        event_type: EventType::Clock,
        sample_freq: 99,
        binary: Some("prog".to_string()),
        version: None,
        url: "http://localhost:8000/data/samples".to_string(),
    }
}

fn sym(symbol: &str, path: &str, line_no: u32) -> SymbolizedFrame {
    SymbolizedFrame { symbol: symbol.to_string(), path: path.to_string(), line_no }
}

fn binary() -> ProfiledBinary {
    ProfiledBinary {
        id: 5,
        event: EventType::Clock.name(),
        build_id: None,
        basename: "prog".to_string(),
        updated_at: None,
        created_at: None,
        sample_count: 0,
        raw_data_size: 0,
        processed_data_size: 0,
    }
}

#[test]
fn kernel_only_samples_are_not_enqueued() {
    let mut info = StackInfo { pid: 0, ustack: vec![1, 2], args: args() };
    assert!(!should_enqueue(&info));
    info.pid = 7;
    assert!(should_enqueue(&info));
}

#[test]
fn event_names() {
    assert_eq!(EventType::Cycles.name(), "Cycles");
    assert_eq!(EventType::Clock.name(), "Clock");
}

#[test]
fn full_queue_hands_the_item_back() {
    let mut q: BoundedQueue<u32> = BoundedQueue::new(2);
    assert_eq!(q.try_push(1), Ok(()));
    assert_eq!(q.try_push(2), Ok(()));
    assert!(q.is_full());
    assert_eq!(q.try_push(3), Err(3));
    assert_eq!(q.len(), 2);
    assert_eq!(q.pop(), Some(1));
    assert_eq!(q.try_push(3), Ok(()));
    assert_eq!(q.len(), 2);
    assert_eq!(q.pop(), Some(2));
    assert_eq!(q.pop(), Some(3));
    assert_eq!(q.pop(), None);
}

#[test]
fn fast_producer_never_overfills_the_queue() {
    let mut q: BoundedQueue<u32> = BoundedQueue::new(3);
    let mut pending: Vec<u32> = (0..20).collect();
    let mut consumed = Vec::new();
    let mut step = 0;
    while !pending.is_empty() || q.len() > 0 {
        for _ in 0..4 {
            if let Some(item) = pending.first().copied() {
                match q.try_push(item) {
                    Ok(()) => {
                        pending.remove(0);
                    }
                    Err(back) => assert_eq!(back, item),
                }
            }
            assert!(q.len() <= 3);
        }
        if step % 2 == 0 {
            if let Some(x) = q.pop() {
                consumed.push(x);
            }
        }
        step += 1;
    }
    assert_eq!(consumed, (0..20).collect::<Vec<u32>>());
}

#[test]
fn batcher_loses_nothing() {
    let mut b: Batcher<u32> = Batcher::new(3);
    assert_eq!(b.offer(1), None);
    assert_eq!(b.offer(2), None);
    assert_eq!(b.offer(3), Some(vec![1, 2, 3]));
    assert_eq!(b.offer(4), None);
    assert_eq!(b.flush(), Some(vec![4]));
    assert_eq!(b.flush(), None);
}

#[test]
fn frame_record_trims_and_drops_unknowns() {
    let mut cache = SymbolCache::new(8);
    let d = frame_record(&mut cache, &sym("_ZN3foo3barEv", "  /src/foo.cc \n", 0));
    assert_eq!(d.symbol, "foo::bar");
    assert_eq!(d.file, Some("/src/foo.cc".to_string()));
    assert_eq!(d.line_number, None);
    assert_eq!(d.bin_file, None);
    assert_eq!(d.id, frame_id("foo::bar", &Some("/src/foo.cc".to_string()), None, &None));
    let blank = frame_record(&mut cache, &sym("main", "   ", 17));
    assert_eq!(blank.file, None);
    assert_eq!(blank.line_number, Some(17));
}

#[test]
fn canonical_frames_take_first_candidates_root_first() {
    let mut cache = SymbolCache::new(8);
    let sample = vec![
        vec![sym("leaf", "", 0), sym("inlined", "", 0)],
        vec![],
        vec![sym("root", "", 0)],
    ];
    let frames = canonical_frames(&mut cache, &sample);
    let names: Vec<&str> = frames.iter().map(|d| d.symbol.as_str()).collect();
    assert_eq!(names, vec!["root", "leaf"]);
}

#[test]
fn ingest_sample_folds_and_counts() {
    let mut store = AggregationStore::new();
    let mut cache = SymbolCache::new(8);
    let sample = vec![vec![sym("leaf", "/a.c", 3)], vec![sym("root", "/a.c", 1)]];
    let (frames, r) = ingest_sample(&mut store, &mut cache, &binary(), &sample);
    r.unwrap();
    assert_eq!(frames.len(), 2);
    let (_, r) = ingest_sample(&mut store, &mut cache, &binary(), &sample);
    r.unwrap();
    assert_eq!(store.counts(), (2, 2, 1));
    let b = store.binary(5).unwrap();
    assert_eq!((b.sample_count, b.raw_data_size), (2, 32));
    let batch = store.snapshot();
    assert!(batch.stack_nodes.iter().all(|n| n.sample_count == 2 && n.executable_id == 5));
}

#[test]
fn empty_sample_still_counts() {
    let mut store = AggregationStore::new();
    let mut cache = SymbolCache::new(8);
    let (frames, r) = ingest_sample(&mut store, &mut cache, &binary(), &vec![vec![]]);
    r.unwrap();
    assert!(frames.is_empty());
    assert_eq!(store.counts(), (0, 0, 1));
    assert_eq!(store.binary(5).unwrap().sample_count, 1);
}

#[test]
fn unicode_blank_path_has_no_file() {
    let mut cache = SymbolCache::new(8);
    let d = frame_record(&mut cache, &sym("main", "\u{a0}\u{2003}", 0));
    assert_eq!(d.file, None);
    let e = frame_record(&mut cache, &sym("main", "\u{3000}/a b.c\u{2028}", 0));
    assert_eq!(e.file, Some("/a b.c".to_string()));
}

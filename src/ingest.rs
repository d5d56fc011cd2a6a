//! Ingestion decisions: the bounded queue between capture and workers, the
//! batcher in front of the sink, and the fold of one symbolized sample.
use std::collections::VecDeque;
use vstd::prelude::*;
use crate::ids::{frame_id_of, opt_view};
use crate::model::{ProfiledBinary, StackInfo, StackNodeData};
use crate::store::{
    binary_merged, frame_ids_of, frames_merged, nodes_merged, nodes_refused_at, trace_nodes, AggregationStore, StoreError,
};
use crate::perf::trimmed;
use crate::symcache::{demangled_of, SymbolCache};

verus! {

/// A sample is admitted to the queue only when it names a process: pid 0
/// marks kernel-only frames.
pub fn should_enqueue(info: &StackInfo) -> (r: bool)
    ensures
        r == (info.pid != 0),
{
    info.pid != 0
}

/// A FIFO queue that never holds more than its capacity. A push onto a full
/// queue hands the item back, so the producer keeps it and retries: nothing
/// is dropped and memory does not grow.
pub struct BoundedQueue<T> {
    items: VecDeque<T>,
    capacity: usize,
}

impl<T> BoundedQueue<T> {
    pub closed spec fn view(&self) -> Seq<T> {
        self.items@
    }

    pub closed spec fn cap(&self) -> nat {
        self.capacity as nat
    }

    pub closed spec fn wf(&self) -> bool {
        &&& self.capacity > 0
        &&& self.items@.len() <= self.capacity
    }

    pub fn new(capacity: usize) -> (r: BoundedQueue<T>)
        requires
            capacity > 0,
        ensures
            r.wf(),
            r.view() == Seq::<T>::empty(),
            r.cap() == capacity,
    {
        BoundedQueue { items: VecDeque::new(), capacity }
    }

    pub fn len(&self) -> (r: usize)
        ensures
            r == self.view().len(),
    {
        self.items.len()
    }

    pub fn is_full(&self) -> (r: bool)
        ensures
            r == (self.view().len() >= self.cap()),
    {
        self.items.len() >= self.capacity
    }

    /// Appends the item when there is room; otherwise returns it unchanged.
    pub fn try_push(&mut self, item: T) -> (r: Result<(), T>)
        requires
            old(self).wf(),
        ensures
            final(self).wf(),
            final(self).cap() == old(self).cap(),
            old(self).view().len() < old(self).cap() ==> r is Ok && final(self).view() == old(self).view().push(item),
            old(self).view().len() >= old(self).cap() ==> r == Err::<(), T>(item) && final(self).view() == old(self).view(),
    {
        if self.items.len() >= self.capacity {
            Err(item)
        } else {
            self.items.push_back(item);
            Ok(())
        }
    }

    /// Removes the oldest item, if any.
    pub fn pop(&mut self) -> (r: Option<T>)
        requires
            old(self).wf(),
        ensures
            final(self).wf(),
            final(self).cap() == old(self).cap(),
            old(self).view().len() == 0 ==> r is None && final(self).view() == old(self).view(),
            old(self).view().len() > 0 ==> r == Some(old(self).view()[0]) && final(self).view() == old(self).view().drop_first(),
    {
        self.items.pop_front()
    }
}

/// Backpressure: whatever sequence of pushes and pops is applied, the queue
/// never holds more than its capacity, and a refused push returns the very
/// item offered.
pub proof fn lemma_queue_bounded<T>(q: BoundedQueue<T>)
    requires
        q.wf(),
    ensures
        q.view().len() <= q.cap(),
{
}

/// Collects items into batches of `threshold`; a tick or the end of a run
/// flushes what is left. Every offered item leaves in exactly one batch.
pub struct Batcher<T> {
    buf: Vec<T>,
    threshold: usize,
}

impl<T> Batcher<T> {
    pub closed spec fn pending(&self) -> Seq<T> {
        self.buf@
    }

    pub closed spec fn limit(&self) -> nat {
        self.threshold as nat
    }

    pub closed spec fn wf(&self) -> bool {
        &&& self.threshold > 0
        &&& self.buf@.len() < self.threshold
    }

    pub fn new(threshold: usize) -> (r: Batcher<T>)
        requires
            threshold > 0,
        ensures
            r.wf(),
            r.pending() == Seq::<T>::empty(),
            r.limit() == threshold,
    {
        Batcher { buf: Vec::new(), threshold }
    }

    /// Buffers the item; when the buffer reaches the threshold it is handed
    /// out whole and the buffer starts again empty.
    pub fn offer(&mut self, item: T) -> (r: Option<Vec<T>>)
        requires
            old(self).wf(),
        ensures
            final(self).wf(),
            final(self).limit() == old(self).limit(),
            old(self).pending().len() + 1 < old(self).limit() ==> r is None && final(self).pending() == old(
                self,
            ).pending().push(item),
            old(self).pending().len() + 1 >= old(self).limit() ==> r is Some && r->Some_0@ == old(self).pending().push(item)
                && final(self).pending() == Seq::<T>::empty(),
    {
        self.buf.push(item);
        if self.buf.len() >= self.threshold {
            let batch = self.buf.split_off(0);
            Some(batch)
        } else {
            None
        }
    }

    /// Hands out whatever is buffered, if anything.
    pub fn flush(&mut self) -> (r: Option<Vec<T>>)
        requires
            old(self).wf(),
        ensures
            final(self).wf(),
            final(self).limit() == old(self).limit(),
            final(self).pending() == Seq::<T>::empty(),
            old(self).pending().len() == 0 ==> r is None,
            old(self).pending().len() > 0 ==> r is Some && r->Some_0@ == old(self).pending(),
    {
        if self.buf.len() == 0 {
            None
        } else {
            let batch = self.buf.split_off(0);
            Some(batch)
        }
    }
}

/// One candidate frame as the symbolizer reports it.
#[derive(Clone, Debug)]
pub struct SymbolizedFrame {
    /// The mangled symbol.
    pub symbol: String,
    /// The source file; blank when unknown.
    pub path: String,
    /// The source line; 0 when unknown.
    pub line_no: u32,
}

/// Relies on `str::trim`: the slice without its leading and trailing
/// characters of the Unicode `White_Space` property.
#[verifier::external_body]
fn trim_text(s: &str) -> (r: &str)
    ensures
        r@ == trimmed(s@),
{
    s.trim()
}

/// The file of a frame: the trimmed path, absent when blank.
pub open spec fn file_of(path: Seq<char>) -> Option<Seq<char>> {
    if trimmed(path).len() == 0 {
        None
    } else {
        Some(trimmed(path))
    }
}

/// `d` is the frame record folded for candidate `f`.
pub open spec fn record_of(d: StackNodeData, f: SymbolizedFrame) -> bool {
    &&& d.symbol@ == demangled_of(f.symbol@)
    &&& opt_view(d.file) == file_of(f.path@)
    &&& d.line_number == (if f.line_no > 0 { Some(f.line_no) } else { None::<u32> })
    &&& d.bin_file is None
    &&& d.id == frame_id_of(d.symbol@, opt_view(d.file), d.line_number, opt_view(d.bin_file))
}

/// The canonical frame of each address, root first: a sample lists its
/// addresses innermost first, and of an address's candidates the first one
/// is folded; an address without candidates is skipped.
pub open spec fn primary_frames(sample: Seq<Vec<SymbolizedFrame>>) -> Seq<SymbolizedFrame>
    decreases sample.len(),
{
    if sample.len() == 0 {
        Seq::empty()
    } else {
        primary_frames(sample.drop_first()) + if sample[0]@.len() > 0 {
            seq![sample[0]@[0]]
        } else {
            Seq::empty()
        }
    }
}

proof fn lemma_primary_len(sample: Seq<Vec<SymbolizedFrame>>)
    ensures
        primary_frames(sample).len() <= sample.len(),
    decreases sample.len(),
{
    if sample.len() > 0 {
        lemma_primary_len(sample.drop_first());
    }
}

/// The frame record of one candidate, through the symbol cache.
pub fn frame_record(cache: &mut SymbolCache, f: &SymbolizedFrame) -> (d: StackNodeData)
    requires
        old(cache).wf(),
    ensures
        final(cache).wf(),
        record_of(d, *f),
{
    let symbol = cache.demangle(f.symbol.as_str());
    let trimmed = trim_text(f.path.as_str());
    let file: Option<String> = if trimmed.is_empty() {
        None
    } else {
        Some(trimmed.to_owned())
    };
    let line_number: Option<u32> = if f.line_no > 0 {
        Some(f.line_no)
    } else {
        None
    };
    let bin_file: Option<String> = None;
    let id = cache.frame_id(symbol.as_str(), &file, line_number, &bin_file);
    StackNodeData { id, symbol, file, line_number, bin_file }
}

/// The frame records of a sample, root first.
pub fn canonical_frames(cache: &mut SymbolCache, sample: &Vec<Vec<SymbolizedFrame>>) -> (r: Vec<StackNodeData>)
    requires
        old(cache).wf(),
    ensures
        final(cache).wf(),
        r@.len() == primary_frames(sample@).len(),
        forall|i: int| 0 <= i < r@.len() ==> record_of(#[trigger] r@[i], primary_frames(sample@)[i]),
{
    let mut out: Vec<StackNodeData> = Vec::new();
    let mut i: usize = sample.len();
    while i > 0
        invariant
            cache.wf(),
            i <= sample@.len(),
            out@.len() == primary_frames(sample@.subrange(i as int, sample@.len() as int)).len(),
            forall|k: int| 0 <= k < out@.len() ==> record_of(#[trigger] out@[k], primary_frames(
                sample@.subrange(i as int, sample@.len() as int),
            )[k]),
        decreases i,
    {
        let ghost before = sample@.subrange(i as int, sample@.len() as int);
        i = i - 1;
        let ghost now = sample@.subrange(i as int, sample@.len() as int);
        assert(now.drop_first() =~= before);
        if sample[i].len() > 0 {
            let d = frame_record(cache, &sample[i][0]);
            out.push(d);
        }
    }
    assert(sample@.subrange(0, sample@.len() as int) =~= sample@);
    out
}

/// Folds one symbolized sample: its canonical frames become one path of the
/// call tree with count 1, seeded by the executable's id, and the
/// executable record counts one more sample of 8 bytes per address. A
/// sample without frames still counts as a sample. When a node is refused,
/// the nodes before it stay merged and the executable record is left as it
/// was. Returns the frames folded.
pub fn ingest_sample(
    store: &mut AggregationStore,
    cache: &mut SymbolCache,
    exec: &ProfiledBinary,
    sample: &Vec<Vec<SymbolizedFrame>>,
) -> (r: (Vec<StackNodeData>, Result<(), StoreError>))
    requires
        old(store).wf(),
        old(cache).wf(),
        sample@.len() <= u32::MAX,
    ensures
        final(store).wf(),
        final(cache).wf(),
        r.0@.len() == primary_frames(sample@).len(),
        forall|i: int| 0 <= i < r.0@.len() ==> record_of(#[trigger] r.0@[i], primary_frames(sample@)[i]),
        final(store).data_map() == frames_merged(old(store).data_map(), r.0@),
        match nodes_merged(old(store).node_map(), trace_nodes(frame_ids_of(r.0@), exec.id, 1)) {
            Err(e) => r.1 == Err::<(), StoreError>(e) && final(store).binary_map() == old(store).binary_map()
                && exists|k: int| #[trigger] nodes_refused_at(
                    old(store).node_map(),
                    trace_nodes(frame_ids_of(r.0@), exec.id, 1),
                    k,
                    final(store).node_map(),
                ),
            Ok(nm) => final(store).node_map() == nm && match binary_merged(
                old(store).binary_map(),
                *exec,
                1,
                (8 * sample@.len()) as u64,
                0,
            ) {
                Err(e) => r.1 == Err::<(), StoreError>(e) && final(store).binary_map() == old(store).binary_map(),
                Ok(bm) => r.1 is Ok && final(store).binary_map() == bm,
            },
        },
{
    let frames = canonical_frames(cache, sample);
    proof {
        lemma_primary_len(sample@);
    }
    let folded = store.fold_trace(&frames, exec.id, 1);
    if let Err(e) = folded {
        return (frames, Err(e));
    }
    let raw: u64 = 8 * (sample.len() as u64);
    let merged = store.merge_insert_executable(exec.duplicate(), 1, raw, 0);
    (frames, merged)
}

} // verus!

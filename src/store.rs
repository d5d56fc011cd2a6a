//! Aggregation store: three maps keyed by derived ids, changed only through
//! merge-insert (insert, or accumulate into the record already there).
use std::collections::HashMap;
use vstd::prelude::*;
use crate::ids::{content_id, lemma_seed_scopes_node_preimage, node_id, node_id_of, node_preimage};
use crate::model::{ProfiledBinary, StackNode, StackNodeData, StoData};

verus! {

broadcast use vstd::std_specs::hash::group_hash_axioms;

/// Why a merge was refused; the store is then left as it was.
#[derive(Clone, Copy, Debug, PartialEq, Eq, Structural)]
pub enum StoreError {
    /// The id is held by a node at another position (parent, frame,
    /// executable or depth): a collision of the identity hash.
    IdCollision,
    /// An accumulated counter would pass `u64::MAX`.
    CountOverflow,
}

/// Two nodes stand for the same path prefix.
pub open spec fn same_position(a: StackNode, b: StackNode) -> bool {
    &&& a.parent_id == b.parent_id
    &&& a.stack_node_data_id == b.stack_node_data_id
    &&& a.executable_id == b.executable_id
    &&& a.depth == b.depth
}

/// Frames: insert when the id is new, otherwise keep what is there.
pub open spec fn frame_merged(m: Map<u64, StackNodeData>, d: StackNodeData) -> Map<u64, StackNodeData> {
    if m.contains_key(d.id) {
        m
    } else {
        m.insert(d.id, d)
    }
}

/// Nodes: insert when the id is new, otherwise add the incoming count.
pub open spec fn node_merged(m: Map<u64, StackNode>, n: StackNode) -> Result<Map<u64, StackNode>, StoreError> {
    if !m.contains_key(n.id) {
        Ok(m.insert(n.id, n))
    } else if !same_position(m[n.id], n) {
        Err(StoreError::IdCollision)
    } else if m[n.id].sample_count + n.sample_count > u64::MAX {
        Err(StoreError::CountOverflow)
    } else {
        Ok(m.insert(n.id, StackNode { sample_count: (m[n.id].sample_count + n.sample_count) as u64, ..m[n.id] }))
    }
}

/// Executables: a record seen for the first time starts from zero counters;
/// the deltas are then added, and `updated_at` takes the incoming value.
pub open spec fn binary_merged(
    m: Map<u64, ProfiledBinary>,
    b: ProfiledBinary,
    samples: u64,
    raw_bytes: u64,
    processed_bytes: u64,
) -> Result<Map<u64, ProfiledBinary>, StoreError> {
    let base = if m.contains_key(b.id) {
        m[b.id]
    } else {
        ProfiledBinary { sample_count: 0, raw_data_size: 0, processed_data_size: 0, ..b }
    };
    if base.sample_count + samples > u64::MAX || base.raw_data_size + raw_bytes > u64::MAX
        || base.processed_data_size + processed_bytes > u64::MAX {
        Err(StoreError::CountOverflow)
    } else {
        Ok(m.insert(b.id, ProfiledBinary {
            sample_count: (base.sample_count + samples) as u64,
            raw_data_size: (base.raw_data_size + raw_bytes) as u64,
            processed_data_size: (base.processed_data_size + processed_bytes) as u64,
            updated_at: b.updated_at,
            ..base
        }))
    }
}

/// Every node of `s` merged in order; the first refusal ends the fold.
pub open spec fn nodes_merged(m: Map<u64, StackNode>, s: Seq<StackNode>) -> Result<Map<u64, StackNode>, StoreError>
    decreases s.len(),
{
    if s.len() == 0 {
        Ok(m)
    } else {
        match nodes_merged(m, s.drop_last()) {
            Ok(m2) => node_merged(m2, s.last()),
            Err(e) => Err(e),
        }
    }
}

/// Every frame of `s` merged in order.
pub open spec fn frames_merged(m: Map<u64, StackNodeData>, s: Seq<StackNodeData>) -> Map<u64, StackNodeData>
    decreases s.len(),
{
    if s.len() == 0 {
        m
    } else {
        frame_merged(frames_merged(m, s.drop_last()), s.last())
    }
}

/// Every executable record of `s` merged in order, its own counters as deltas.
pub open spec fn binaries_merged(m: Map<u64, ProfiledBinary>, s: Seq<ProfiledBinary>) -> Result<Map<u64, ProfiledBinary>, StoreError>
    decreases s.len(),
{
    if s.len() == 0 {
        Ok(m)
    } else {
        match binaries_merged(m, s.drop_last()) {
            Ok(m2) => binary_merged(m2, s.last(), s.last().sample_count, s.last().raw_data_size, s.last().processed_data_size),
            Err(e) => Err(e),
        }
    }
}

/// Merging the nodes of `s` in order into `m` was refused at position `k`:
/// the nodes before it were merged, giving `held`, and node `k` was refused.
pub open spec fn nodes_refused_at(m: Map<u64, StackNode>, s: Seq<StackNode>, k: int, held: Map<u64, StackNode>) -> bool {
    &&& 0 <= k < s.len()
    &&& nodes_merged(m, s.take(k)) == Ok::<Map<u64, StackNode>, StoreError>(held)
    &&& node_merged(held, s[k]) is Err
}

/// Merging the executable records of `s` in order into `m` was refused at
/// position `k`: the records before it were merged, giving `held`.
pub open spec fn binaries_refused_at(
    m: Map<u64, ProfiledBinary>,
    s: Seq<ProfiledBinary>,
    k: int,
    held: Map<u64, ProfiledBinary>,
) -> bool {
    &&& 0 <= k < s.len()
    &&& binaries_merged(m, s.take(k)) == Ok::<Map<u64, ProfiledBinary>, StoreError>(held)
    &&& binary_merged(held, s[k], s[k].sample_count, s[k].raw_data_size, s[k].processed_data_size) is Err
}

/// `s` lists the records of `m`, each once.
pub open spec fn lists_nodes(s: Seq<StackNode>, m: Map<u64, StackNode>) -> bool {
    &&& s.len() == m.dom().len()
    &&& forall|i: int| 0 <= i < s.len() ==> #[trigger] m.contains_key(s[i].id) && m[s[i].id] == s[i]
    &&& forall|i: int, j: int| 0 <= i < j < s.len() ==> #[trigger] s[i].id != #[trigger] s[j].id
}

pub open spec fn lists_datas(s: Seq<StackNodeData>, m: Map<u64, StackNodeData>) -> bool {
    &&& s.len() == m.dom().len()
    &&& forall|i: int| 0 <= i < s.len() ==> #[trigger] m.contains_key(s[i].id) && m[s[i].id] == s[i]
    &&& forall|i: int, j: int| 0 <= i < j < s.len() ==> #[trigger] s[i].id != #[trigger] s[j].id
}

pub open spec fn lists_binaries(s: Seq<ProfiledBinary>, m: Map<u64, ProfiledBinary>) -> bool {
    &&& s.len() == m.dom().len()
    &&& forall|i: int| 0 <= i < s.len() ==> #[trigger] m.contains_key(s[i].id) && m[s[i].id] == s[i]
    &&& forall|i: int, j: int| 0 <= i < j < s.len() ==> #[trigger] s[i].id != #[trigger] s[j].id
}

/// Node ids along one stack, root first: each is derived from the one
/// before it, the frame at its position and the executable's seed.
pub open spec fn path_node_ids(frame_ids: Seq<u64>, seed: u64) -> Seq<u64>
    decreases frame_ids.len(),
{
    if frame_ids.len() == 0 {
        seq![]
    } else {
        let p = path_node_ids(frame_ids.drop_last(), seed);
        p.push(node_id_of(if frame_ids.len() == 1 { None } else { Some(p.last()) }, frame_ids.last(), seed))
    }
}

/// The nodes of one stack of frame ids, root first, each carrying `weight`.
pub open spec fn trace_nodes(frame_ids: Seq<u64>, seed: u64, weight: u64) -> Seq<StackNode> {
    let ids = path_node_ids(frame_ids, seed);
    Seq::new(frame_ids.len(), |i: int| StackNode {
        id: ids[i],
        parent_id: if i == 0 { None } else { Some(ids[i - 1]) },
        stack_node_data_id: frame_ids[i],
        executable_id: seed,
        sample_count: weight,
        depth: i as u32,
    })
}

pub open spec fn frame_ids_of(frames: Seq<StackNodeData>) -> Seq<u64> {
    frames.map_values(|d: StackNodeData| d.id)
}

proof fn lemma_path_len(frame_ids: Seq<u64>, seed: u64)
    ensures
        path_node_ids(frame_ids, seed).len() == frame_ids.len(),
    decreases frame_ids.len(),
{
    if frame_ids.len() > 0 {
        lemma_path_len(frame_ids.drop_last(), seed);
    }
}

proof fn lemma_path_prefix(frame_ids: Seq<u64>, seed: u64, i: int)
    requires
        0 <= i <= frame_ids.len(),
    ensures
        path_node_ids(frame_ids.take(i), seed) == path_node_ids(frame_ids, seed).take(i),
    decreases frame_ids.len(),
{
    lemma_path_len(frame_ids, seed);
    if i == frame_ids.len() {
        assert(frame_ids.take(i) =~= frame_ids);
        assert(path_node_ids(frame_ids, seed).take(i) =~= path_node_ids(frame_ids, seed));
    } else {
        let d = frame_ids.drop_last();
        lemma_path_prefix(d, seed, i);
        assert(d.take(i) =~= frame_ids.take(i));
        lemma_path_len(d, seed);
        assert(path_node_ids(frame_ids, seed).take(i) =~= path_node_ids(d, seed).take(i));
    }
}

/// The three entity maps of one ingestion run. Each map is kept with the
/// order in which its keys first arrived.
pub struct AggregationStore {
    nodes: HashMap<u64, StackNode>,
    node_keys: Vec<u64>,
    datas: HashMap<u64, StackNodeData>,
    data_keys: Vec<u64>,
    binaries: HashMap<u64, ProfiledBinary>,
    binary_keys: Vec<u64>,
}

/// `keys` lists the domain of `m` without repetition.
pub open spec fn keyed_by<V>(keys: Seq<u64>, m: Map<u64, V>) -> bool {
    &&& m.dom().finite()
    &&& keys.no_duplicates()
    &&& keys.len() == m.dom().len()
    &&& forall|i: int| 0 <= i < keys.len() ==> #[trigger] m.contains_key(keys[i])
    &&& forall|k: u64| #[trigger] m.contains_key(k) ==> keys.contains(k)
}

proof fn lemma_keyed_by_insert<V>(keys: Seq<u64>, m: Map<u64, V>, k: u64, v: V)
    requires
        keyed_by(keys, m),
    ensures
        m.contains_key(k) ==> keyed_by(keys, m.insert(k, v)),
        !m.contains_key(k) ==> keyed_by(keys.push(k), m.insert(k, v)),
{
    if m.contains_key(k) {
        assert(m.insert(k, v).dom() =~= m.dom());
    } else {
        assert(m.insert(k, v).dom() =~= m.dom().insert(k));
        let ks = keys.push(k);
        assert forall|i: int, j: int| 0 <= i < ks.len() && 0 <= j < ks.len() && i != j implies ks[i]
            != ks[j] by {
            if i < keys.len() && j < keys.len() {
            } else if i < keys.len() {
                assert(m.contains_key(keys[i]));
            } else {
                assert(m.contains_key(keys[j]));
            }
        }
        assert forall|q: u64| #[trigger] m.insert(k, v).contains_key(q) implies ks.contains(q) by {
            if q == k {
                assert(ks[keys.len() as int] == q);
            } else {
                assert(keys.contains(q));
                let i = choose|i: int| 0 <= i < keys.len() && keys[i] == q;
                assert(ks[i] == q);
            }
        }
    }
}

impl AggregationStore {
    pub closed spec fn node_map(&self) -> Map<u64, StackNode> {
        self.nodes@
    }

    pub closed spec fn data_map(&self) -> Map<u64, StackNodeData> {
        self.datas@
    }

    pub closed spec fn binary_map(&self) -> Map<u64, ProfiledBinary> {
        self.binaries@
    }

    /// Keys agree with the maps, and every record sits under its own id.
    pub closed spec fn wf(&self) -> bool {
        &&& keyed_by(self.node_keys@, self.nodes@)
        &&& keyed_by(self.data_keys@, self.datas@)
        &&& keyed_by(self.binary_keys@, self.binaries@)
        &&& forall|k: u64| #[trigger] self.nodes@.contains_key(k) ==> self.nodes@[k].id == k
        &&& forall|k: u64| #[trigger] self.datas@.contains_key(k) ==> self.datas@[k].id == k
        &&& forall|k: u64| #[trigger] self.binaries@.contains_key(k) ==> self.binaries@[k].id == k
    }

    /// An empty store.
    pub fn new() -> (r: AggregationStore)
        ensures
            r.wf(),
            r.node_map().is_empty(),
            r.data_map().is_empty(),
            r.binary_map().is_empty(),
    {
        let r = AggregationStore {
            nodes: HashMap::new(),
            node_keys: Vec::new(),
            datas: HashMap::new(),
            data_keys: Vec::new(),
            binaries: HashMap::new(),
            binary_keys: Vec::new(),
        };
        assert(r.nodes@.dom() =~= Set::empty());
        assert(r.datas@.dom() =~= Set::empty());
        assert(r.binaries@.dom() =~= Set::empty());
        r
    }

    /// Inserts a frame record unless its id is already present; returns
    /// whether it was inserted.
    pub fn merge_insert_frame(&mut self, data: StackNodeData) -> (r: bool)
        requires
            old(self).wf(),
        ensures
            final(self).wf(),
            r == !old(self).data_map().contains_key(data.id),
            final(self).data_map() == frame_merged(old(self).data_map(), data),
            final(self).node_map() == old(self).node_map(),
            final(self).binary_map() == old(self).binary_map(),
    {
        if self.datas.contains_key(&data.id) {
            false
        } else {
            proof {
                lemma_keyed_by_insert(self.data_keys@, self.datas@, data.id, data);
            }
            self.data_keys.push(data.id);
            self.datas.insert(data.id, data);
            true
        }
    }

    /// Inserts a node when its id is new; otherwise adds its count to the
    /// node already there. Returns the count now stored under the id.
    pub fn merge_insert_node(&mut self, node: StackNode) -> (r: Result<u64, StoreError>)
        requires
            old(self).wf(),
        ensures
            final(self).wf(),
            final(self).data_map() == old(self).data_map(),
            final(self).binary_map() == old(self).binary_map(),
            match node_merged(old(self).node_map(), node) {
                Ok(m) => r == Ok::<u64, StoreError>(m[node.id].sample_count)
                    && final(self).node_map() == m,
                Err(e) => r == Err::<u64, StoreError>(e) && final(self).node_map() == old(self).node_map(),
            },
    {
        match self.nodes.get(&node.id) {
            None => {
                proof {
                    lemma_keyed_by_insert(self.node_keys@, self.nodes@, node.id, node);
                }
                self.node_keys.push(node.id);
                self.nodes.insert(node.id, node);
                Ok(node.sample_count)
            },
            Some(existing) => {
                let existing: StackNode = *existing;
                if existing.parent_id != node.parent_id
                    || existing.stack_node_data_id != node.stack_node_data_id
                    || existing.executable_id != node.executable_id || existing.depth != node.depth {
                    return Err(StoreError::IdCollision);
                }
                if existing.sample_count > u64::MAX - node.sample_count {
                    return Err(StoreError::CountOverflow);
                }
                let updated = StackNode { sample_count: existing.sample_count + node.sample_count, ..existing };
                proof {
                    lemma_keyed_by_insert(self.node_keys@, self.nodes@, node.id, updated);
                }
                self.nodes.insert(node.id, updated);
                Ok(updated.sample_count)
            },
        }
    }

    /// Inserts the executable record if absent, then adds the three deltas
    /// to its counters and takes the incoming `updated_at`.
    pub fn merge_insert_executable(
        &mut self,
        exec: ProfiledBinary,
        sample_delta: u64,
        raw_bytes_delta: u64,
        processed_bytes_delta: u64,
    ) -> (r: Result<(), StoreError>)
        requires
            old(self).wf(),
        ensures
            final(self).wf(),
            final(self).data_map() == old(self).data_map(),
            final(self).node_map() == old(self).node_map(),
            match binary_merged(old(self).binary_map(), exec, sample_delta, raw_bytes_delta, processed_bytes_delta) {
                Ok(m) => r is Ok && final(self).binary_map() == m,
                Err(e) => r == Err::<(), StoreError>(e) && final(self).binary_map() == old(self).binary_map(),
            },
    {
        let base = match self.binaries.get(&exec.id) {
            Some(b) => b.duplicate(),
            None => ProfiledBinary {
                sample_count: 0,
                raw_data_size: 0,
                processed_data_size: 0,
                ..exec.duplicate()
            },
        };
        if base.sample_count > u64::MAX - sample_delta || base.raw_data_size > u64::MAX - raw_bytes_delta
            || base.processed_data_size > u64::MAX - processed_bytes_delta {
            return Err(StoreError::CountOverflow);
        }
        let updated = ProfiledBinary {
            sample_count: base.sample_count + sample_delta,
            raw_data_size: base.raw_data_size + raw_bytes_delta,
            processed_data_size: base.processed_data_size + processed_bytes_delta,
            updated_at: exec.updated_at,
            ..base
        };
        proof {
            lemma_keyed_by_insert(self.binary_keys@, self.binaries@, exec.id, updated);
        }
        if !self.binaries.contains_key(&exec.id) {
            self.binary_keys.push(exec.id);
        }
        self.binaries.insert(exec.id, updated);
        Ok(())
    }

    /// The records as three lists, each listing its map once per id, in the
    /// order in which the ids first arrived.
    pub fn snapshot(&self) -> (r: StoData)
        requires
            self.wf(),
        ensures
            lists_nodes(r.stack_nodes@, self.node_map()),
            lists_datas(r.stack_node_datas@, self.data_map()),
            lists_binaries(r.profiled_binaries@, self.binary_map()),
    {
        let mut nodes: Vec<StackNode> = Vec::new();
        let mut i: usize = 0;
        while i < self.node_keys.len()
            invariant
                self.wf(),
                i <= self.node_keys@.len(),
                nodes@.len() == i,
                forall|j: int| 0 <= j < i ==> #[trigger] nodes@[j] == self.nodes@[self.node_keys@[j]],
            decreases self.node_keys@.len() - i,
        {
            let k = self.node_keys[i];
            assert(self.nodes@.contains_key(k));
            let n = *self.nodes.get(&k).unwrap();
            nodes.push(n);
            i = i + 1;
        }
        let mut datas: Vec<StackNodeData> = Vec::new();
        let mut i: usize = 0;
        while i < self.data_keys.len()
            invariant
                self.wf(),
                i <= self.data_keys@.len(),
                datas@.len() == i,
                forall|j: int| 0 <= j < i ==> #[trigger] datas@[j] == self.datas@[self.data_keys@[j]],
            decreases self.data_keys@.len() - i,
        {
            let k = self.data_keys[i];
            assert(self.datas@.contains_key(k));
            let d = self.datas.get(&k).unwrap().duplicate();
            datas.push(d);
            i = i + 1;
        }
        let mut bins: Vec<ProfiledBinary> = Vec::new();
        let mut i: usize = 0;
        while i < self.binary_keys.len()
            invariant
                self.wf(),
                i <= self.binary_keys@.len(),
                bins@.len() == i,
                forall|j: int| 0 <= j < i ==> #[trigger] bins@[j] == self.binaries@[self.binary_keys@[j]],
            decreases self.binary_keys@.len() - i,
        {
            let k = self.binary_keys[i];
            assert(self.binaries@.contains_key(k));
            let b = self.binaries.get(&k).unwrap().duplicate();
            bins.push(b);
            i = i + 1;
        }
        proof {
            assert forall|a: int, b: int| 0 <= a < b < nodes@.len() implies #[trigger] nodes@[a].id
                != #[trigger] nodes@[b].id by {
                assert(self.nodes@.contains_key(self.node_keys@[a]));
                assert(self.nodes@.contains_key(self.node_keys@[b]));
            }
            assert forall|j: int| 0 <= j < nodes@.len() implies #[trigger] self.nodes@.contains_key(
                nodes@[j].id,
            ) && self.nodes@[nodes@[j].id] == nodes@[j] by {
                assert(self.nodes@.contains_key(self.node_keys@[j]));
            }
            assert forall|a: int, b: int| 0 <= a < b < datas@.len() implies #[trigger] datas@[a].id
                != #[trigger] datas@[b].id by {
                assert(self.datas@.contains_key(self.data_keys@[a]));
                assert(self.datas@.contains_key(self.data_keys@[b]));
            }
            assert forall|j: int| 0 <= j < datas@.len() implies #[trigger] self.datas@.contains_key(
                datas@[j].id,
            ) && self.datas@[datas@[j].id] == datas@[j] by {
                assert(self.datas@.contains_key(self.data_keys@[j]));
            }
            assert forall|a: int, b: int| 0 <= a < b < bins@.len() implies #[trigger] bins@[a].id
                != #[trigger] bins@[b].id by {
                assert(self.binaries@.contains_key(self.binary_keys@[a]));
                assert(self.binaries@.contains_key(self.binary_keys@[b]));
            }
            assert forall|j: int| 0 <= j < bins@.len() implies #[trigger] self.binaries@.contains_key(
                bins@[j].id,
            ) && self.binaries@[bins@[j].id] == bins@[j] by {
                assert(self.binaries@.contains_key(self.binary_keys@[j]));
            }
        }
        StoData { stack_nodes: nodes, stack_node_datas: datas, profiled_binaries: bins }
    }

    /// Hands out everything held as one batch and leaves the store empty.
    pub fn drain(&mut self) -> (r: StoData)
        requires
            old(self).wf(),
        ensures
            final(self).wf(),
            lists_nodes(r.stack_nodes@, old(self).node_map()),
            lists_datas(r.stack_node_datas@, old(self).data_map()),
            lists_binaries(r.profiled_binaries@, old(self).binary_map()),
            final(self).node_map().is_empty(),
            final(self).data_map().is_empty(),
            final(self).binary_map().is_empty(),
    {
        let r = self.snapshot();
        *self = AggregationStore::new();
        r
    }

    /// The node stored under `id`.
    pub fn node(&self, id: u64) -> (r: Option<StackNode>)
        ensures
            r == (if self.node_map().contains_key(id) { Some(self.node_map()[id]) } else { None }),
    {
        match self.nodes.get(&id) {
            Some(n) => Some(*n),
            None => None,
        }
    }

    /// The frame record stored under `id`.
    pub fn data(&self, id: u64) -> (r: Option<StackNodeData>)
        ensures
            r == (if self.data_map().contains_key(id) { Some(self.data_map()[id]) } else { None }),
    {
        match self.datas.get(&id) {
            Some(d) => Some(d.duplicate()),
            None => None,
        }
    }

    /// The executable record stored under `id`.
    pub fn binary(&self, id: u64) -> (r: Option<ProfiledBinary>)
        ensures
            r == (if self.binary_map().contains_key(id) { Some(self.binary_map()[id]) } else { None }),
    {
        match self.binaries.get(&id) {
            Some(b) => Some(b.duplicate()),
            None => None,
        }
    }

    /// Numbers of nodes, frame records and executable records held.
    pub fn counts(&self) -> (r: (usize, usize, usize))
        requires
            self.wf(),
        ensures
            r.0 == self.node_map().dom().len(),
            r.1 == self.data_map().dom().len(),
            r.2 == self.binary_map().dom().len(),
    {
        (self.node_keys.len(), self.data_keys.len(), self.binary_keys.len())
    }

    /// Merges a batch as a sink persists it: frames are kept when present,
    /// executables add their counters and take `updated_at`, nodes add their
    /// counts. Frames go first, then executables, then nodes.
    pub fn absorb(&mut self, batch: &StoData) -> (r: Result<(), StoreError>)
        requires
            old(self).wf(),
        ensures
            final(self).wf(),
            final(self).data_map() == frames_merged(old(self).data_map(), batch.stack_node_datas@),
            match binaries_merged(old(self).binary_map(), batch.profiled_binaries@) {
                Err(e) => r == Err::<(), StoreError>(e) && final(self).node_map() == old(self).node_map()
                    && exists|k: int| #[trigger] binaries_refused_at(old(self).binary_map(), batch.profiled_binaries@, k, final(self).binary_map()),
                Ok(bm) => final(self).binary_map() == bm && match nodes_merged(
                    old(self).node_map(),
                    batch.stack_nodes@,
                ) {
                    Err(e) => r == Err::<(), StoreError>(e)
                        && exists|k: int| #[trigger] nodes_refused_at(old(self).node_map(), batch.stack_nodes@, k, final(self).node_map()),
                    Ok(nm) => r is Ok && final(self).node_map() == nm,
                },
            },
    {
        let ghost d0 = self.datas@;
        let ghost b0 = self.binaries@;
        let ghost n0 = self.nodes@;
        let mut i: usize = 0;
        while i < batch.stack_node_datas.len()
            invariant
                self.wf(),
                i <= batch.stack_node_datas@.len(),
                self.datas@ == frames_merged(d0, batch.stack_node_datas@.take(i as int)),
                self.binaries@ == b0,
                self.nodes@ == n0,
            decreases batch.stack_node_datas@.len() - i,
        {
            let d = batch.stack_node_datas[i].duplicate();
            self.merge_insert_frame(d);
            assert(batch.stack_node_datas@.take(i + 1).drop_last() =~= batch.stack_node_datas@.take(i as int));
            i = i + 1;
        }
        assert(batch.stack_node_datas@.take(i as int) =~= batch.stack_node_datas@);
        let mut i: usize = 0;
        while i < batch.profiled_binaries.len()
            invariant
                self.wf(),
                i <= batch.profiled_binaries@.len(),
                binaries_merged(b0, batch.profiled_binaries@.take(i as int)) == Ok::<Map<u64, ProfiledBinary>, StoreError>(self.binaries@),
                self.datas@ == frames_merged(d0, batch.stack_node_datas@),
                self.nodes@ == n0,
                d0 == old(self).datas@,
                b0 == old(self).binaries@,
                n0 == old(self).nodes@,
            decreases batch.profiled_binaries@.len() - i,
        {
            let b = &batch.profiled_binaries[i];
            assert(batch.profiled_binaries@.take(i + 1).drop_last() =~= batch.profiled_binaries@.take(i as int));
            let res = self.merge_insert_executable(b.duplicate(), b.sample_count, b.raw_data_size, b.processed_data_size);
            if res.is_err() {
                proof {
                    lemma_binaries_err_sticks(b0, batch.profiled_binaries@, (i + 1) as int);
                    assert(binaries_refused_at(b0, batch.profiled_binaries@, i as int, self.binaries@));
                }
                return res;
            }
            i = i + 1;
        }
        assert(batch.profiled_binaries@.take(i as int) =~= batch.profiled_binaries@);
        let mut i: usize = 0;
        while i < batch.stack_nodes.len()
            invariant
                self.wf(),
                i <= batch.stack_nodes@.len(),
                nodes_merged(n0, batch.stack_nodes@.take(i as int)) == Ok::<Map<u64, StackNode>, StoreError>(self.nodes@),
                self.datas@ == frames_merged(d0, batch.stack_node_datas@),
                binaries_merged(b0, batch.profiled_binaries@) == Ok::<Map<u64, ProfiledBinary>, StoreError>(self.binaries@),
                d0 == old(self).datas@,
                b0 == old(self).binaries@,
                n0 == old(self).nodes@,
            decreases batch.stack_nodes@.len() - i,
        {
            let n = batch.stack_nodes[i];
            assert(batch.stack_nodes@.take(i + 1).drop_last() =~= batch.stack_nodes@.take(i as int));
            let res = self.merge_insert_node(n);
            match res {
                Err(e) => {
                    proof {
                        lemma_nodes_err_sticks(n0, batch.stack_nodes@, (i + 1) as int);
                        assert(nodes_refused_at(n0, batch.stack_nodes@, i as int, self.nodes@));
                    }
                    return Err(e);
                },
                Ok(_) => {},
            }
            i = i + 1;
        }
        assert(batch.stack_nodes@.take(i as int) =~= batch.stack_nodes@);
        Ok(())
    }

    /// Folds one stack, root first, into the store: each frame record is
    /// merged, then each node, chained from the root with the executable's
    /// id as seed and `weight` as its count.
    pub fn fold_trace(&mut self, frames: &Vec<StackNodeData>, executable_id: u64, weight: u64) -> (r: Result<(), StoreError>)
        requires
            old(self).wf(),
            frames@.len() <= u32::MAX,
        ensures
            final(self).wf(),
            final(self).data_map() == frames_merged(old(self).data_map(), frames@),
            final(self).binary_map() == old(self).binary_map(),
            match nodes_merged(old(self).node_map(), trace_nodes(frame_ids_of(frames@), executable_id, weight)) {
                Err(e) => r == Err::<(), StoreError>(e) && exists|k: int| #[trigger] nodes_refused_at(
                    old(self).node_map(),
                    trace_nodes(frame_ids_of(frames@), executable_id, weight),
                    k,
                    final(self).node_map(),
                ),
                Ok(nm) => r is Ok && final(self).node_map() == nm,
            },
    {
        let ghost d0 = self.datas@;
        let ghost n0 = self.nodes@;
        let ghost fids = frame_ids_of(frames@);
        let ghost tn = trace_nodes(fids, executable_id, weight);
        let mut i: usize = 0;
        while i < frames.len()
            invariant
                self.wf(),
                i <= frames@.len(),
                self.datas@ == frames_merged(d0, frames@.take(i as int)),
                self.binaries@ == old(self).binaries@,
                self.nodes@ == n0,
            decreases frames@.len() - i,
        {
            let d = frames[i].duplicate();
            self.merge_insert_frame(d);
            assert(frames@.take(i + 1).drop_last() =~= frames@.take(i as int));
            i = i + 1;
        }
        assert(frames@.take(i as int) =~= frames@);
        proof {
            lemma_path_len(fids, executable_id);
        }
        let mut parent: Option<u64> = None;
        let mut i: usize = 0;
        while i < frames.len()
            invariant
                self.wf(),
                i <= frames@.len() <= u32::MAX,
                fids == frame_ids_of(frames@),
                tn == trace_nodes(fids, executable_id, weight),
                path_node_ids(fids, executable_id).len() == fids.len(),
                parent == (if i == 0 { None } else { Some(path_node_ids(fids, executable_id)[i - 1]) }),
                nodes_merged(n0, tn.take(i as int)) == Ok::<Map<u64, StackNode>, StoreError>(self.nodes@),
                self.datas@ == frames_merged(d0, frames@),
                self.binaries@ == old(self).binaries@,
                d0 == old(self).datas@,
                n0 == old(self).nodes@,
            decreases frames@.len() - i,
        {
            let fid = frames[i].id;
            let id = node_id(parent, fid, executable_id);
            proof {
                let ids = path_node_ids(fids, executable_id);
                lemma_path_prefix(fids, executable_id, i + 1);
                lemma_path_prefix(fids, executable_id, i as int);
                let t1 = fids.take(i + 1);
                assert(t1.drop_last() =~= fids.take(i as int));
                lemma_path_len(fids.take(i as int), executable_id);
                assert(path_node_ids(t1, executable_id)[i as int] == ids[i as int]);
                if i > 0 {
                    assert(path_node_ids(fids.take(i as int), executable_id).last() == ids[i - 1]);
                }
                assert(id == ids[i as int]);
            }
            let n = StackNode {
                id,
                parent_id: parent,
                stack_node_data_id: fid,
                executable_id,
                sample_count: weight,
                depth: i as u32,
            };
            assert(n == tn[i as int]);
            assert(tn.take(i + 1).drop_last() =~= tn.take(i as int));
            let res = self.merge_insert_node(n);
            match res {
                Err(e) => {
                    proof {
                        lemma_nodes_err_sticks(n0, tn, (i + 1) as int);
                        assert(nodes_refused_at(n0, tn, i as int, self.nodes@));
                    }
                    return Err(e);
                },
                Ok(_) => {},
            }
            parent = Some(id);
            i = i + 1;
        }
        assert(tn.take(i as int) =~= tn);
        Ok(())
    }
}

proof fn lemma_nodes_err_sticks(m: Map<u64, StackNode>, s: Seq<StackNode>, i: int)
    requires
        0 <= i <= s.len(),
        nodes_merged(m, s.take(i)) is Err,
    ensures
        nodes_merged(m, s) == nodes_merged(m, s.take(i)),
    decreases s.len() - i,
{
    if i < s.len() {
        assert(s.take(i + 1).drop_last() =~= s.take(i));
        lemma_nodes_err_sticks(m, s, i + 1);
    } else {
        assert(s.take(i) =~= s);
    }
}

proof fn lemma_binaries_err_sticks(m: Map<u64, ProfiledBinary>, s: Seq<ProfiledBinary>, i: int)
    requires
        0 <= i <= s.len(),
        binaries_merged(m, s.take(i)) is Err,
    ensures
        binaries_merged(m, s) == binaries_merged(m, s.take(i)),
    decreases s.len() - i,
{
    if i < s.len() {
        assert(s.take(i + 1).drop_last() =~= s.take(i));
        lemma_binaries_err_sticks(m, s, i + 1);
    } else {
        assert(s.take(i) =~= s);
    }
}

/// Merging a node `times` times in a row.
pub open spec fn repeated_merges(m: Map<u64, StackNode>, n: StackNode, times: nat) -> Result<Map<u64, StackNode>, StoreError>
    decreases times,
{
    if times == 0 {
        Ok(m)
    } else {
        match repeated_merges(m, n, (times - 1) as nat) {
            Ok(m2) => node_merged(m2, n),
            Err(e) => Err(e),
        }
    }
}

/// Merging `a`, then `b`.
pub open spec fn merged_twice(m: Map<u64, StackNode>, a: StackNode, b: StackNode) -> Result<Map<u64, StackNode>, StoreError> {
    match node_merged(m, a) {
        Ok(m1) => node_merged(m1, b),
        Err(e) => Err(e),
    }
}

/// Merge idempotence: inserting the same frame record twice leaves exactly
/// one record under its id, with the attributes it had after the first
/// insert.
pub proof fn lemma_frame_merge_idempotent(m: Map<u64, StackNodeData>, d: StackNodeData)
    ensures
        frame_merged(frame_merged(m, d), d) == frame_merged(m, d),
        frame_merged(m, d).dom() == m.dom().insert(d.id),
        frame_merged(m, d)[d.id] == (if m.contains_key(d.id) { m[d.id] } else { d }),
{
    assert(frame_merged(m, d).dom() =~= m.dom().insert(d.id));
}

/// Accumulation: merging the same node `times` times into a store that does
/// not hold its id leaves one node there, at its position, whose count is
/// `times` times the node's count.
pub proof fn lemma_repeated_merges_multiply(m: Map<u64, StackNode>, n: StackNode, times: nat)
    requires
        !m.contains_key(n.id),
        times >= 1,
        times * n.sample_count <= u64::MAX,
    ensures
        repeated_merges(m, n, times) == Ok::<Map<u64, StackNode>, StoreError>(
            m.insert(n.id, StackNode { sample_count: (times * n.sample_count) as u64, ..n }),
        ),
    decreases times,
{
    let k = n.sample_count as int;
    if times == 1 {
        assert(StackNode { sample_count: (1 * n.sample_count) as u64, ..n } == n);
    } else {
        let t = (times - 1) as nat;
        assert(t * k <= times * k) by (nonlinear_arith)
            requires t == times - 1, k >= 0;
        assert(t * k + k == times * k) by (nonlinear_arith)
            requires t == times - 1;
        lemma_repeated_merges_multiply(m, n, t);
        let m2 = m.insert(n.id, StackNode { sample_count: (t * n.sample_count) as u64, ..n });
        assert(m2.contains_key(n.id));
        assert(same_position(m2[n.id], n));
        assert(m2.insert(n.id, StackNode { sample_count: (m2[n.id].sample_count + n.sample_count) as u64, ..m2[n.id] })
            =~= m.insert(n.id, StackNode { sample_count: (times * n.sample_count) as u64, ..n }));
    }
}

/// Order independence: when merging `a` then `b` succeeds, merging `b` then
/// `a` gives the same store, so the final counts are the sums of the
/// increments whatever the interleaving.
pub proof fn lemma_node_merges_commute(m: Map<u64, StackNode>, a: StackNode, b: StackNode)
    requires
        merged_twice(m, a, b) is Ok,
    ensures
        merged_twice(m, b, a) == merged_twice(m, a, b),
{
    if a.id != b.id {
        let ma = node_merged(m, a)->Ok_0;
        let mb = node_merged(m, b)->Ok_0;
        assert(node_merged(mb, a) is Ok);
        assert(node_merged(mb, a)->Ok_0 =~= node_merged(ma, b)->Ok_0);
    } else if m.contains_key(a.id) {
        let x = m[a.id];
        assert(same_position(x, b));
        assert(node_merged(node_merged(m, b)->Ok_0, a)->Ok_0 =~= node_merged(node_merged(m, a)->Ok_0, b)->Ok_0);
    } else {
        assert(same_position(a, b));
        assert(node_merged(node_merged(m, b)->Ok_0, a)->Ok_0 =~= node_merged(node_merged(m, a)->Ok_0, b)->Ok_0);
    }
}

/// Scoping: a node id held by one executable is never granted to a node of
/// another executable; such a merge is refused and the store is unchanged.
pub proof fn lemma_executables_never_share_node(m: Map<u64, StackNode>, n: StackNode)
    requires
        m.contains_key(n.id),
        m[n.id].executable_id != n.executable_id,
    ensures
        node_merged(m, n) == Err::<Map<u64, StackNode>, StoreError>(StoreError::IdCollision),
{
}

/// The parent of position `i` of a folded path: none for the root.
pub open spec fn path_parent(frame_ids: Seq<u64>, seed: u64, i: int) -> Option<u64> {
    if i == 0 {
        None
    } else {
        Some(path_node_ids(frame_ids, seed)[i - 1])
    }
}

/// Each node of a folded path is identified by its parent, its frame and
/// the executable's seed.
pub proof fn lemma_path_ids_under_seed(frame_ids: Seq<u64>, seed: u64, i: int)
    requires
        0 <= i < frame_ids.len(),
    ensures
        path_node_ids(frame_ids, seed)[i] == node_id_of(path_parent(frame_ids, seed, i), frame_ids[i], seed),
{
    lemma_path_prefix(frame_ids, seed, i + 1);
    lemma_path_prefix(frame_ids, seed, i);
    lemma_path_len(frame_ids, seed);
    lemma_path_len(frame_ids.take(i), seed);
    assert(frame_ids.take(i + 1).drop_last() =~= frame_ids.take(i));
    let p = path_node_ids(frame_ids.take(i), seed);
    assert(path_node_ids(frame_ids.take(i + 1), seed)[i] == path_node_ids(frame_ids, seed)[i]);
    if i > 0 {
        assert(p.last() == path_node_ids(frame_ids, seed)[i - 1]);
    }
}

/// Scoping: when two executables fold call paths, even structurally
/// identical ones, every node of one path is hashed from bytes that differ
/// from those of every node of the other, so no node id is shared unless
/// the 64-bit keyed hash collides.
pub proof fn lemma_paths_scoped(frames_a: Seq<u64>, seed_a: u64, i: int, frames_b: Seq<u64>, seed_b: u64, j: int)
    requires
        seed_a != seed_b,
        0 <= i < frames_a.len(),
        0 <= j < frames_b.len(),
    ensures
        path_node_ids(frames_a, seed_a)[i] == content_id(node_preimage(path_parent(frames_a, seed_a, i), frames_a[i], seed_a)),
        path_node_ids(frames_b, seed_b)[j] == content_id(node_preimage(path_parent(frames_b, seed_b, j), frames_b[j], seed_b)),
        node_preimage(path_parent(frames_a, seed_a, i), frames_a[i], seed_a) != node_preimage(
            path_parent(frames_b, seed_b, j),
            frames_b[j],
            seed_b,
        ),
{
    lemma_path_ids_under_seed(frames_a, seed_a, i);
    lemma_path_ids_under_seed(frames_b, seed_b, j);
    lemma_seed_scopes_node_preimage(path_parent(frames_a, seed_a, i), frames_a[i], seed_a, path_parent(frames_b, seed_b, j), frames_b[j], seed_b);
}

/// Merging `p` and then `t` is merging `p + t`.
pub proof fn lemma_nodes_merged_concat(m: Map<u64, StackNode>, p: Seq<StackNode>, t: Seq<StackNode>)
    ensures
        nodes_merged(m, p + t) == match nodes_merged(m, p) {
            Ok(m1) => nodes_merged(m1, t),
            Err(e) => Err(e),
        },
    decreases t.len(),
{
    if t.len() == 0 {
        assert(p + t =~= p);
    } else {
        lemma_nodes_merged_concat(m, p, t.drop_last());
        assert((p + t).drop_last() =~= p + t.drop_last());
        assert((p + t).last() == t.last());
    }
}

proof fn lemma_move_to_front(m: Map<u64, StackNode>, s: Seq<StackNode>, x: StackNode)
    requires
        nodes_merged(m, s.push(x)) is Ok || nodes_merged(m, seq![x] + s) is Ok,
    ensures
        nodes_merged(m, seq![x] + s) == nodes_merged(m, s.push(x)),
    decreases s.len(),
{
    if s.len() == 0 {
        assert(seq![x] + s =~= s.push(x));
    } else {
        let sd = s.drop_last();
        let y = s.last();
        assert(sd.push(y) =~= s);
        assert(s.push(x).drop_last() =~= s);
        assert((seq![x] + s).drop_last() =~= seq![x] + sd);
        assert((seq![x] + s).last() == y);
        assert(sd.push(x).drop_last() =~= sd);
        assert(nodes_merged(m, s.push(x)) == match nodes_merged(m, s) {
            Ok(m2) => node_merged(m2, x),
            Err(e) => Err(e),
        });
        assert(nodes_merged(m, s) == match nodes_merged(m, sd) {
            Ok(m2) => node_merged(m2, y),
            Err(e) => Err(e),
        });
        assert(nodes_merged(m, sd.push(x)) == match nodes_merged(m, sd) {
            Ok(m2) => node_merged(m2, x),
            Err(e) => Err(e),
        });
        assert(nodes_merged(m, seq![x] + s) == match nodes_merged(m, seq![x] + sd) {
            Ok(m2) => node_merged(m2, y),
            Err(e) => Err(e),
        });
        if nodes_merged(m, s.push(x)) is Ok {
            let m1 = nodes_merged(m, sd)->Ok_0;
            assert(merged_twice(m1, y, x) == nodes_merged(m, s.push(x)));
            lemma_node_merges_commute(m1, y, x);
            assert(nodes_merged(m, sd.push(x)) == node_merged(m1, x));
            lemma_move_to_front(m, sd, x);
        } else {
            lemma_move_to_front(m, sd, x);
            let m1 = nodes_merged(m, sd)->Ok_0;
            assert(nodes_merged(m, sd.push(x)) == node_merged(m1, x));
            assert(merged_twice(m1, x, y) == nodes_merged(m, seq![x] + s));
            lemma_node_merges_commute(m1, x, y);
        }
    }
}

/// Order independence: when merging the nodes of `a` and then those of `b`
/// (say, the paths of two folded records) succeeds, merging `b` first gives
/// the same store, so every count is the sum of its increments whatever the
/// interleaving of whole folds.
pub proof fn lemma_node_batches_commute(m: Map<u64, StackNode>, a: Seq<StackNode>, b: Seq<StackNode>)
    requires
        nodes_merged(m, a + b) is Ok,
    ensures
        nodes_merged(m, b + a) == nodes_merged(m, a + b),
    decreases b.len(),
{
    if b.len() == 0 {
        assert(a + b =~= a);
        assert(b + a =~= a);
    } else {
        let bd = b.drop_last();
        let y = b.last();
        assert((a + bd).push(y) =~= a + b);
        lemma_move_to_front(m, a + bd, y);
        assert(seq![y] + (a + bd) =~= seq![y] + a + bd);
        lemma_nodes_merged_concat(m, seq![y], a + bd);
        assert(seq![y] =~= Seq::<StackNode>::empty().push(y));
        assert(nodes_merged(m, seq![y]) == node_merged(m, y)) by {
            assert(seq![y].drop_last() =~= Seq::<StackNode>::empty());
            assert(nodes_merged(m, Seq::<StackNode>::empty()) == Ok::<Map<u64, StackNode>, StoreError>(m));
        }
        let m1 = node_merged(m, y)->Ok_0;
        lemma_node_batches_commute(m1, a, bd);
        lemma_nodes_merged_concat(m, seq![y], bd + a);
        assert(seq![y] + (bd + a) =~= (seq![y] + bd) + a);
        lemma_nodes_merged_concat(m, seq![y] + bd, a);
        lemma_move_to_front(m, bd, y);
        assert(bd.push(y) =~= b);
        lemma_nodes_merged_concat(m, b, a);
    }
}

/// Merge idempotence over a fold: a frame record present before keeps its
/// attributes, every id of `s` ends up with exactly one record, no other id
/// appears, and folding the same frames again changes nothing.
pub proof fn lemma_frames_merged_keeps(m: Map<u64, StackNodeData>, s: Seq<StackNodeData>)
    ensures
        forall|k: u64| #[trigger] m.contains_key(k) ==> frames_merged(m, s).contains_key(k) && frames_merged(m, s)[k] == m[k],
        forall|i: int| 0 <= i < s.len() ==> frames_merged(m, s).contains_key(#[trigger] s[i].id),
        forall|k: u64| #[trigger] frames_merged(m, s).contains_key(k) ==> m.contains_key(k) || exists|i: int|
            0 <= i < s.len() && #[trigger] s[i].id == k,
        frames_merged(frames_merged(m, s), s) == frames_merged(m, s),
    decreases s.len(),
{
    if s.len() > 0 {
        let d = s.drop_last();
        lemma_frames_merged_keeps(m, d);
        assert forall|i: int| 0 <= i < s.len() implies frames_merged(m, s).contains_key(#[trigger] s[i].id) by {
            if i < d.len() {
                assert(d[i] == s[i]);
            }
        }
        assert forall|k: u64| #[trigger] frames_merged(m, s).contains_key(k) implies m.contains_key(k) || exists|i: int|
            0 <= i < s.len() && #[trigger] s[i].id == k by {
            if !m.contains_key(k) && k != s.last().id {
                let i = choose|i: int| 0 <= i < d.len() && #[trigger] d[i].id == k;
                assert(s[i].id == k);
            }
        }
    }
    let f = frames_merged(m, s);
    lemma_frames_merged_stable(f, s);
}

proof fn lemma_frames_merged_stable(f: Map<u64, StackNodeData>, s: Seq<StackNodeData>)
    requires
        forall|i: int| 0 <= i < s.len() ==> f.contains_key(#[trigger] s[i].id),
    ensures
        frames_merged(f, s) == f,
    decreases s.len(),
{
    if s.len() > 0 {
        let d = s.drop_last();
        assert forall|i: int| 0 <= i < d.len() implies f.contains_key(#[trigger] d[i].id) by {
            assert(d[i] == s[i]);
        }
        lemma_frames_merged_stable(f, d);
        assert(f.contains_key(s[s.len() - 1].id));
    }
}

} // verus!

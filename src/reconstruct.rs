//! Reconstructor: decompresses one executable's aggregated call tree back
//! into per-path records whose counts add up, at every node, to the count the
//! tree holds there.
use std::collections::HashMap;
use vstd::prelude::*;
use crate::model::{StackNode, StackNodeData, StoData};
use crate::tree::{
    chain, check_frames, check_tree, children_of, count_sum, counts_consistent, frame_ids_unique,
    frame_index, frames_present, has_frame, has_node, index_frames, index_nodes, index_of, lemma_chain,
    lemma_chain_child, lemma_chain_distinct, lemma_chain_parent, lemma_children, node_ids_unique,
    parent_ok, tree_shaped,
};

verus! {

broadcast use vstd::std_specs::hash::group_hash_axioms;

/// One frame of an emitted path, with absent fields written as `""` or 0.
#[derive(Clone, Debug, PartialEq, Eq)]
pub struct StackNodeDataTemplate {
    pub symbol: String,
    pub file: String,
    pub line_number: u32,
    pub bin_file: String,
}

/// One emitted record: a full path, root first, and how many samples took it.
#[derive(Clone, Debug, PartialEq, Eq)]
pub struct StackNodeDataListTemplate {
    pub data_list: Vec<StackNodeDataTemplate>,
    pub event: String,
    pub count: u64,
}

/// Why a snapshot could not be reconstructed.
#[derive(Clone, Copy, Debug, PartialEq, Eq, Structural)]
pub enum ReconstructError {
    /// The snapshot holds no executable record.
    MissingExecutable,
    /// Two nodes share an id.
    DuplicateNode,
    /// Two frame records share an id.
    DuplicateFrame,
    /// A node refers to a frame record that the snapshot lacks.
    MissingFrame,
    /// A parent is missing, or depths do not grow by one from parent to child.
    MalformedTree,
    /// A node's count is smaller than the sum of its children's counts.
    CountUnderflow,
    /// A sum of counts passes `u64::MAX`.
    CountOverflow,
}

/// The snapshot can be decompressed as far as its shape goes.
pub open spec fn well_formed(sto: StoData) -> bool {
    &&& sto.profiled_binaries@.len() > 0
    &&& node_ids_unique(sto.stack_nodes@)
    &&& frame_ids_unique(sto.stack_node_datas@)
    &&& frames_present(sto.stack_nodes@, sto.stack_node_datas@)
    &&& tree_shaped(sto.stack_nodes@)
}

pub open spec fn text_or_empty(s: Option<String>) -> Seq<char> {
    match s {
        Some(t) => t@,
        None => Seq::<char>::empty(),
    }
}

/// `t` shows frame record `d`.
pub open spec fn shows_frame(t: StackNodeDataTemplate, d: StackNodeData) -> bool {
    &&& t.symbol@ == d.symbol@
    &&& t.file@ == text_or_empty(d.file)
    &&& t.line_number == (match d.line_number {
        Some(n) => n,
        None => 0u32,
    })
    &&& t.bin_file@ == text_or_empty(d.bin_file)
}

/// `path` shows, in order, the frames of the nodes at indices `c`.
pub open spec fn shows_path(
    path: Seq<StackNodeDataTemplate>,
    nodes: Seq<StackNode>,
    datas: Seq<StackNodeData>,
    c: Seq<int>,
) -> bool {
    &&& path.len() == c.len()
    &&& forall|t: int| 0 <= t < c.len() ==> shows_frame(#[trigger] path[t], datas[frame_index(datas, nodes[c[t]].stack_node_data_id)])
}

pub open spec fn counts_of(recs: Seq<StackNodeDataListTemplate>) -> Seq<u64> {
    recs.map_values(|r: StackNodeDataListTemplate| r.count)
}

/// Total count of the records, ending at the nodes `leaves`, whose path
/// passes through node `a`.
pub open spec fn through(nodes: Seq<StackNode>, counts: Seq<u64>, leaves: Seq<int>, a: int) -> int
    decreases leaves.len(),
{
    if leaves.len() == 0 {
        0
    } else {
        through(nodes, counts.drop_last(), leaves.drop_last(), a) + if chain(nodes, leaves.last()).contains(a) {
            counts.last() as int
        } else {
            0
        }
    }
}

/// `recs` is a decompression of the snapshot: record `r` ends at node
/// `leaves[r]`, shows the path from the root to it, and has a positive
/// count; no node ends two records; and at every node the counts of the
/// records through it add up to the node's count.
pub open spec fn decompresses(sto: StoData, recs: Seq<StackNodeDataListTemplate>, leaves: Seq<int>) -> bool {
    let nodes = sto.stack_nodes@;
    let datas = sto.stack_node_datas@;
    &&& leaves.len() == recs.len()
    &&& forall|r: int| 0 <= r < recs.len() ==> {
        &&& 0 <= #[trigger] leaves[r] < nodes.len()
        &&& recs[r].count > 0
        &&& recs[r].event@ == sto.profiled_binaries@[0].event@
        &&& shows_path(recs[r].data_list@, nodes, datas, chain(nodes, leaves[r]))
    }
    &&& forall|r: int, q: int| 0 <= r < q < recs.len() ==> #[trigger] leaves[r] != #[trigger] leaves[q]
    &&& forall|a: int| 0 <= a < nodes.len() ==> #[trigger] nodes[a].sample_count == through(nodes, counts_of(recs), leaves, a)
}

pub open spec fn rev_ints(s: Seq<usize>) -> Seq<int> {
    Seq::new(s.len(), |t: int| s[s.len() - 1 - t] as int)
}

proof fn lemma_through_push(nodes: Seq<StackNode>, recs: Seq<StackNodeDataListTemplate>, leaves: Seq<int>, rec: StackNodeDataListTemplate, j: int, a: int)
    ensures
        through(nodes, counts_of(recs.push(rec)), leaves.push(j), a) == through(nodes, counts_of(recs), leaves, a)
            + if chain(nodes, j).contains(a) { rec.count as int } else { 0 },
{
    assert(counts_of(recs.push(rec)).drop_last() =~= counts_of(recs));
    assert(leaves.push(j).drop_last() =~= leaves);
}

fn template_of(d: &StackNodeData) -> (t: StackNodeDataTemplate)
    ensures
        shows_frame(t, *d),
{
    let file = match &d.file {
        Some(f) => f.clone(),
        None => String::new(),
    };
    let bin_file = match &d.bin_file {
        Some(f) => f.clone(),
        None => String::new(),
    };
    let line_number: u32 = match d.line_number {
        Some(n) => n,
        None => 0,
    };
    StackNodeDataTemplate { symbol: d.symbol.clone(), file, line_number, bin_file }
}

/// Decompresses one executable's snapshot. Nodes are taken deepest first;
/// a node whose remaining count is `c > 0` yields the record of its full
/// path with count `c`, and `c` is subtracted from each of its strict
/// ancestors; a node whose remaining count is 0 yields nothing.
pub fn construct_template_data(sto: &StoData) -> (r: Result<Vec<StackNodeDataListTemplate>, ReconstructError>)
    ensures
        sto.profiled_binaries@.len() == 0 ==> r == Err::<Vec<StackNodeDataListTemplate>, ReconstructError>(ReconstructError::MissingExecutable),
        sto.profiled_binaries@.len() > 0 && !node_ids_unique(sto.stack_nodes@)
            ==> r == Err::<Vec<StackNodeDataListTemplate>, ReconstructError>(ReconstructError::DuplicateNode),
        sto.profiled_binaries@.len() > 0 && node_ids_unique(sto.stack_nodes@) && !frame_ids_unique(sto.stack_node_datas@)
            ==> r == Err::<Vec<StackNodeDataListTemplate>, ReconstructError>(ReconstructError::DuplicateFrame),
        sto.profiled_binaries@.len() > 0 && node_ids_unique(sto.stack_nodes@) && frame_ids_unique(sto.stack_node_datas@)
            && !frames_present(sto.stack_nodes@, sto.stack_node_datas@)
            ==> r == Err::<Vec<StackNodeDataListTemplate>, ReconstructError>(ReconstructError::MissingFrame),
        sto.profiled_binaries@.len() > 0 && node_ids_unique(sto.stack_nodes@) && frame_ids_unique(sto.stack_node_datas@)
            && frames_present(sto.stack_nodes@, sto.stack_node_datas@) && !tree_shaped(sto.stack_nodes@)
            ==> r == Err::<Vec<StackNodeDataListTemplate>, ReconstructError>(ReconstructError::MalformedTree),
        well_formed(*sto) ==> (r == Err::<Vec<StackNodeDataListTemplate>, ReconstructError>(ReconstructError::CountUnderflow)
            <==> !counts_consistent(sto.stack_nodes@)),
        well_formed(*sto) && counts_consistent(sto.stack_nodes@) ==> r is Ok,
        r is Ok ==> well_formed(*sto),
        r matches Ok(recs) ==> exists|leaves: Seq<int>| #[trigger] decompresses(*sto, recs@, leaves),
{
    if sto.profiled_binaries.len() == 0 {
        return Err(ReconstructError::MissingExecutable);
    }
    let ni = match index_nodes(&sto.stack_nodes) {
        None => {
            return Err(ReconstructError::DuplicateNode);
        },
        Some(m) => m,
    };
    let di = match index_frames(&sto.stack_node_datas) {
        None => {
            return Err(ReconstructError::DuplicateFrame);
        },
        Some(m) => m,
    };
    if !check_frames(&sto.stack_nodes, &di, Ghost(sto.stack_node_datas@)) {
        return Err(ReconstructError::MissingFrame);
    }
    if !check_tree(&sto.stack_nodes, &ni) {
        return Err(ReconstructError::MalformedTree);
    }
    let nodes = &sto.stack_nodes;
    let datas = &sto.stack_node_datas;
    let ghost ns = nodes@;
    let ghost ds = datas@;
    let n = nodes.len();
    let mut cur: Vec<u64> = Vec::new();
    let mut maxd: u32 = 0;
    let mut i: usize = 0;
    while i < n
        invariant
            n == ns.len(),
            ns == nodes@,
            i <= n,
            cur@.len() == i,
            forall|k: int| 0 <= k < i ==> #[trigger] cur@[k] == ns[k].sample_count,
            forall|k: int| 0 <= k < i ==> #[trigger] ns[k].depth <= maxd,
        decreases n - i,
    {
        cur.push(nodes[i].sample_count);
        if nodes[i].depth > maxd {
            maxd = nodes[i].depth;
        }
        i = i + 1;
    }
    let event = &sto.profiled_binaries[0].event;
    let mut out: Vec<StackNodeDataListTemplate> = Vec::new();
    let ghost mut leaves: Seq<int> = Seq::empty();
    let mut level: u64 = maxd as u64 + 1;
    proof {
        if counts_consistent(ns) {
            assert forall|a: int| 0 <= a < ns.len() && #[trigger] below(ns, level as int)(a) implies cur@[a] >= live_sum(
                cur@,
                children_of(ns, a),
                below(ns, level as int),
            ) by {
                lemma_children(ns, a);
                let kids = children_of(ns, a);
                lemma_live_sum_counts(ns, cur@, kids, below(ns, level as int));
            }
        }
    }
    while level > 0
        invariant
            counts_consistent(ns) ==> covers(ns, cur@, below(ns, level as int)),
            well_formed(*sto),
            n == ns.len(),
            ns == nodes@,
            ds == datas@,
            nodes == &sto.stack_nodes,
            datas == &sto.stack_node_datas,
            event@ == sto.profiled_binaries@[0].event@,
            forall|id: u64| #[trigger] ni@.contains_key(id) <==> has_node(ns, id),
            forall|id: u64| #[trigger] ni@.contains_key(id) ==> ni@[id] as int == index_of(ns, id),
            forall|id: u64| #[trigger] di@.contains_key(id) <==> has_frame(ds, id),
            forall|id: u64| #[trigger] di@.contains_key(id) ==> di@[id] as int == frame_index(ds, id),
            cur@.len() == n,
            level <= maxd as u64 + 1,
            forall|k: int| 0 <= k < n ==> #[trigger] ns[k].depth <= maxd,
            leaves.len() == out@.len(),
            forall|a: int| 0 <= a < n && ns[a].depth < level ==> #[trigger] ns[a].sample_count == cur@[a]
                + through(ns, counts_of(out@), leaves, a),
            forall|a: int| 0 <= a < n && ns[a].depth >= level ==> #[trigger] ns[a].sample_count == through(
                ns,
                counts_of(out@),
                leaves,
                a,
            ),
            forall|r: int| 0 <= r < out@.len() ==> {
                &&& 0 <= #[trigger] leaves[r] < n
                &&& ns[leaves[r]].depth >= level
                &&& out@[r].count > 0
                &&& out@[r].event@ == sto.profiled_binaries@[0].event@
                &&& shows_path(out@[r].data_list@, ns, ds, chain(ns, leaves[r]))
            },
            forall|r: int, q: int| 0 <= r < q < out@.len() ==> #[trigger] leaves[r] != #[trigger] leaves[q],
        decreases level,
    {
        level = level - 1;
        let d = level as u32;
        proof {
            if counts_consistent(ns) {
                lemma_covers_same(ns, cur@, below(ns, level + 1), alive_at(ns, d as int, 0));
            }
        }
        let mut j: usize = 0;
        while j < n
            invariant
                counts_consistent(ns) ==> covers(ns, cur@, alive_at(ns, d as int, j as int)),
                well_formed(*sto),
                n == ns.len(),
                ns == nodes@,
                ds == datas@,
                nodes == &sto.stack_nodes,
                datas == &sto.stack_node_datas,
                event@ == sto.profiled_binaries@[0].event@,
                forall|id: u64| #[trigger] ni@.contains_key(id) <==> has_node(ns, id),
                forall|id: u64| #[trigger] ni@.contains_key(id) ==> ni@[id] as int == index_of(ns, id),
                forall|id: u64| #[trigger] di@.contains_key(id) <==> has_frame(ds, id),
                forall|id: u64| #[trigger] di@.contains_key(id) ==> di@[id] as int == frame_index(ds, id),
                cur@.len() == n,
                d == level,
                level <= maxd,
                j <= n,
                leaves.len() == out@.len(),
                forall|a: int| 0 <= a < n && (ns[a].depth < d || (ns[a].depth == d && a >= j))
                    ==> #[trigger] ns[a].sample_count == cur@[a] + through(ns, counts_of(out@), leaves, a),
                forall|a: int| 0 <= a < n && (ns[a].depth > d || (ns[a].depth == d && a < j))
                    ==> #[trigger] ns[a].sample_count == through(ns, counts_of(out@), leaves, a),
                forall|r: int| 0 <= r < out@.len() ==> {
                    &&& 0 <= #[trigger] leaves[r] < n
                    &&& (ns[leaves[r]].depth > d || (ns[leaves[r]].depth == d && leaves[r] < j))
                    &&& out@[r].count > 0
                    &&& out@[r].event@ == sto.profiled_binaries@[0].event@
                    &&& shows_path(out@[r].data_list@, ns, ds, chain(ns, leaves[r]))
                },
                forall|r: int, q: int| 0 <= r < q < out@.len() ==> #[trigger] leaves[r] != #[trigger] leaves[q],
            decreases n - j,
        {
            if nodes[j].depth == d && cur[j] > 0 {
                let c = cur[j];
                proof {
                    lemma_chain(ns, j as int);
                    lemma_chain_distinct(ns, j as int);
                }
                // Walk from the node up to its root.
                let mut up: Vec<usize> = Vec::new();
                let mut k: usize = j;
                loop
                    invariant_except_break
                        chain(ns, j as int) == chain(ns, k as int) + rev_ints(up@),
                    invariant
                        well_formed(*sto),
                        n == ns.len(),
                        ns == nodes@,
                        nodes == &sto.stack_nodes,
                        forall|id: u64| #[trigger] ni@.contains_key(id) <==> has_node(ns, id),
                        forall|id: u64| #[trigger] ni@.contains_key(id) ==> ni@[id] as int == index_of(ns, id),
                        k < n,
                        j < n,
                    ensures
                        chain(ns, j as int) == rev_ints(up@),
                    decreases ns[k as int].depth,
                {
                    proof {
                        assert(parent_ok(ns, k as int));
                        assert(rev_ints(up@.push(k)) =~= seq![k as int] + rev_ints(up@));
                    }
                    up.push(k);
                    match nodes[k].parent_id {
                        None => {
                            assert(chain(ns, k as int) =~= seq![k as int]);
                            break;
                        },
                        Some(p) => {
                            let pk = *ni.get(&p).unwrap();
                            assert(chain(ns, k as int) == chain(ns, pk as int).push(k as int));
                            assert(chain(ns, j as int) =~= chain(ns, pk as int) + rev_ints(up@));
                            k = pk;
                        },
                    }
                }
                let ghost ch = chain(ns, j as int);
                let ghost cur0 = cur@;
                assert(up@.len() == ch.len());
                assert forall|x: int| 0 <= x < up@.len() implies #[trigger] up@[x] < n by {
                    assert(ch[up@.len() - 1 - x] == up@[x] as int);
                }
                assert(up@[0] == j) by {
                    assert(ch.last() == j);
                    assert(rev_ints(up@)[up@.len() - 1] == up@[0] as int);
                }
                proof {
                    if counts_consistent(ns) {
                        assert forall|s: int| 0 <= s < ch.len() implies alive_at(ns, d as int, j as int)(#[trigger] ch[s]) by {
                            assert(ch.contains(ch[s]));
                        }
                        assert forall|x: int| 1 <= x < up@.len() implies cur0[#[trigger] up@[x] as int] >= c by {
                            assert(ch[up@.len() - 1 - x] == up@[x] as int);
                            lemma_ancestors_cover(ns, cur0, alive_at(ns, d as int, j as int), j as int, up@.len() - 1 - x);
                        }
                    }
                }
                // Subtract from each strict ancestor.
                let mut t: usize = 1;
                while t < up.len()
                    invariant
                        counts_consistent(ns) ==> forall|x: int| 1 <= x < up@.len() ==> cur0[#[trigger] up@[x] as int] >= c,
                        c == cur0[j as int],
                        ns == nodes@,
                        nodes == &sto.stack_nodes,
                        well_formed(*sto),
                        n == ns.len(),
                        cur@.len() == n,
                        cur0.len() == n,
                        up@.len() == ch.len(),
                        ch == rev_ints(up@),
                        ch.no_duplicates(),
                        forall|x: int| 0 <= x < up@.len() ==> #[trigger] up@[x] < n,
                        1 <= t <= up@.len(),
                        up@[0] == j,
                        forall|a: int| 0 <= a < n ==> #[trigger] cur@[a] as int == if exists|x: int| 1 <= x < t && up@[x] == a {
                            cur0[a] - c
                        } else {
                            cur0[a] as int
                        },
                    decreases up@.len() - t,
                {
                    let a = up[t];
                    proof {
                        assert forall|x: int| 1 <= x < t implies up@[x] != a by {
                            assert(ch[up@.len() - 1 - x] == up@[x] as int);
                            assert(ch[up@.len() - 1 - t] == up@[t as int] as int);
                        }
                    }
                    if cur[a] < c {
                        assert(!counts_consistent(ns)) by {
                            assert(!exists|x: int| 1 <= x < t && up@[x] == a);
                            assert(cur@[a as int] == cur0[a as int]);
                            if counts_consistent(ns) {
                                assert(cur0[up@[t as int] as int] >= c);
                            }
                        }
                        return Err(ReconstructError::CountUnderflow);
                    }
                    cur.set(a, cur[a] - c);
                    proof {
                        assert forall|b: int| 0 <= b < n implies #[trigger] cur@[b] as int == if exists|x: int| 1 <= x < t + 1 && up@[x] == b {
                            cur0[b] - c
                        } else {
                            cur0[b] as int
                        } by {
                            if b == a {
                                assert(up@[t as int] == b);
                            } else {
                                if exists|x: int| 1 <= x < t + 1 && up@[x] == b {
                                    let x = choose|x: int| 1 <= x < t + 1 && up@[x] == b;
                                    assert(1 <= x < t);
                                }
                            }
                        }
                    }
                    t = t + 1;
                }
                // The path, root first.
                let mut path: Vec<StackNodeDataTemplate> = Vec::new();
                let mut t: usize = up.len();
                while t > 0
                    invariant
                        well_formed(*sto),
                        n == ns.len(),
                        ns == nodes@,
                        ds == datas@,
                        nodes == &sto.stack_nodes,
                        datas == &sto.stack_node_datas,
                        forall|id: u64| #[trigger] di@.contains_key(id) <==> has_frame(ds, id),
                        forall|id: u64| #[trigger] di@.contains_key(id) ==> di@[id] as int == frame_index(ds, id),
                        ch == rev_ints(up@),
                        forall|x: int| 0 <= x < up@.len() ==> #[trigger] up@[x] < n,
                        t <= up@.len(),
                        path@.len() == up@.len() - t,
                        forall|x: int| 0 <= x < path@.len() ==> shows_frame(#[trigger] path@[x], ds[frame_index(ds, ns[ch[x]].stack_node_data_id)]),
                    decreases t,
                {
                    t = t - 1;
                    let node = nodes[up[t]];
                    assert(has_frame(ds, node.stack_node_data_id));
                    let fi = *di.get(&node.stack_node_data_id).unwrap();
                    let tmpl = template_of(&datas[fi]);
                    assert(ch[path@.len() as int] == up@[t as int] as int);
                    path.push(tmpl);
                }
                let rec = StackNodeDataListTemplate { data_list: path, event: event.clone(), count: c };
                proof {
                    assert forall|a: int| 0 <= a < n implies #[trigger] cur@[a] as int == if ch.contains(a) && a != j {
                        cur0[a] - c
                    } else {
                        cur0[a] as int
                    } by {
                        if exists|x: int| 1 <= x < up@.len() && up@[x] == a {
                            let x = choose|x: int| 1 <= x < up@.len() && up@[x] == a;
                            assert(ch[up@.len() - 1 - x] == a);
                            assert(ch[up@.len() - 1] == j);
                        }
                        if ch.contains(a) && a != j {
                            let y = choose|y: int| 0 <= y < ch.len() && ch[y] == a;
                            let x = up@.len() - 1 - y;
                            assert(up@[x] as int == ch[y]);
                            assert(ch[up@.len() - 1] == j);
                            assert(1 <= x < up@.len() && up@[x] == a);
                        }
                    }
                    assert forall|a: int| 0 <= a < n implies #[trigger] through(ns, counts_of(out@.push(rec)), leaves.push(j as int), a)
                        == through(ns, counts_of(out@), leaves, a) + if ch.contains(a) { c as int } else { 0 } by {
                        lemma_through_push(ns, out@, leaves, rec, j as int, a);
                    }
                    assert forall|r: int| 0 <= r < out@.len() implies leaves[r] != j by {
                        assert(0 <= leaves[r] < n);
                    }
                }
                out.push(rec);
                proof {
                    leaves = leaves.push(j as int);
                    if counts_consistent(ns) {
                        lemma_take_keeps_cover(ns, d as int, j as int, cur0, cur@);
                    }
                }
            } else {
                proof {
                    if counts_consistent(ns) {
                        if ns[j as int].depth == d {
                            lemma_take_keeps_cover(ns, d as int, j as int, cur@, cur@);
                        } else {
                            lemma_covers_same(ns, cur@, alive_at(ns, d as int, j as int), alive_at(ns, d as int, j + 1));
                        }
                    }
                }
            }
            j = j + 1;
        }
        proof {
            if counts_consistent(ns) {
                lemma_covers_same(ns, cur@, alive_at(ns, d as int, n as int), below(ns, level as int));
            }
        }
    }
    proof {
        assert(decompresses(*sto, out@, leaves));
        lemma_decompressed_consistent(*sto, out@, leaves);
    }
    let ghost outv = out@;
    let r: Result<Vec<StackNodeDataListTemplate>, ReconstructError> = Ok(out);
    assert(r->Ok_0@ == outv);
    assert(decompresses(*sto, r->Ok_0@, leaves));
    r
}

/// The remaining count of node `x` while it is still to be taken, else 0.
pub open spec fn term(cur: Seq<u64>, alive: spec_fn(int) -> bool, x: int) -> int {
    if alive(x) {
        cur[x] as int
    } else {
        0
    }
}

pub open spec fn live_sum(cur: Seq<u64>, kids: Seq<int>, alive: spec_fn(int) -> bool) -> int
    decreases kids.len(),
{
    if kids.len() == 0 {
        0
    } else {
        live_sum(cur, kids.drop_last(), alive) + term(cur, alive, kids.last())
    }
}

pub open spec fn below(nodes: Seq<StackNode>, level: int) -> spec_fn(int) -> bool {
    |x: int| nodes[x].depth < level
}

pub open spec fn alive_at(nodes: Seq<StackNode>, d: int, j: int) -> spec_fn(int) -> bool {
    |x: int| nodes[x].depth < d || (nodes[x].depth == d && x >= j)
}

/// Nodes still to be taken each cover what their live children still hold.
pub open spec fn covers(nodes: Seq<StackNode>, cur: Seq<u64>, alive: spec_fn(int) -> bool) -> bool {
    forall|a: int| 0 <= a < nodes.len() && #[trigger] alive(a) ==> cur[a] >= live_sum(cur, children_of(nodes, a), alive)
}

proof fn lemma_live_sum_ge(cur: Seq<u64>, kids: Seq<int>, alive: spec_fn(int) -> bool, x: int)
    ensures
        live_sum(cur, kids, alive) >= 0,
        kids.contains(x) && alive(x) ==> live_sum(cur, kids, alive) >= cur[x],
    decreases kids.len(),
{
    if kids.len() > 0 {
        lemma_live_sum_ge(cur, kids.drop_last(), alive, x);
        if kids.contains(x) && kids.last() != x {
            let k = choose|k: int| 0 <= k < kids.len() && kids[k] == x;
            assert(kids.drop_last()[k] == x);
        }
    }
}

proof fn lemma_live_sum_same(cur1: Seq<u64>, alive1: spec_fn(int) -> bool, cur2: Seq<u64>, alive2: spec_fn(int) -> bool, kids: Seq<int>)
    requires
        forall|k: int| 0 <= k < kids.len() ==> term(cur1, alive1, #[trigger] kids[k]) == term(cur2, alive2, kids[k]),
    ensures
        live_sum(cur1, kids, alive1) == live_sum(cur2, kids, alive2),
    decreases kids.len(),
{
    if kids.len() > 0 {
        let d = kids.drop_last();
        assert forall|k: int| 0 <= k < d.len() implies term(cur1, alive1, #[trigger] d[k]) == term(cur2, alive2, d[k]) by {
            assert(d[k] == kids[k]);
        }
        lemma_live_sum_same(cur1, alive1, cur2, alive2, d);
        assert(term(cur1, alive1, kids[kids.len() - 1]) == term(cur2, alive2, kids[kids.len() - 1]));
    }
}

proof fn lemma_live_sum_one(
    cur1: Seq<u64>,
    alive1: spec_fn(int) -> bool,
    cur2: Seq<u64>,
    alive2: spec_fn(int) -> bool,
    kids: Seq<int>,
    x: int,
)
    requires
        kids.no_duplicates(),
        kids.contains(x),
        forall|k: int| 0 <= k < kids.len() && kids[k] != x ==> term(cur1, alive1, #[trigger] kids[k]) == term(cur2, alive2, kids[k]),
    ensures
        live_sum(cur2, kids, alive2) == live_sum(cur1, kids, alive1) - (term(cur1, alive1, x) - term(cur2, alive2, x)),
    decreases kids.len(),
{
    let d = kids.drop_last();
    if kids.last() == x {
        assert forall|k: int| 0 <= k < d.len() implies term(cur1, alive1, #[trigger] d[k]) == term(cur2, alive2, d[k]) by {
            assert(d[k] == kids[k]);
            assert(kids[k] != kids[kids.len() - 1]);
        }
        lemma_live_sum_same(cur1, alive1, cur2, alive2, d);
    } else {
        let k = choose|k: int| 0 <= k < kids.len() && kids[k] == x;
        assert(d[k] == x);
        assert forall|q: int| 0 <= q < d.len() && d[q] != x implies term(cur1, alive1, #[trigger] d[q]) == term(cur2, alive2, d[q]) by {
            assert(d[q] == kids[q]);
        }
        assert(d.no_duplicates()) by {
            assert forall|a: int, b: int| 0 <= a < d.len() && 0 <= b < d.len() && a != b implies d[a] != d[b] by {
                assert(d[a] == kids[a] && d[b] == kids[b]);
            }
        }
        lemma_live_sum_one(cur1, alive1, cur2, alive2, d, x);
        assert(term(cur1, alive1, kids[kids.len() - 1]) == term(cur2, alive2, kids[kids.len() - 1]));
    }
}

proof fn lemma_live_sum_counts(nodes: Seq<StackNode>, cur: Seq<u64>, kids: Seq<int>, alive: spec_fn(int) -> bool)
    requires
        forall|k: int| 0 <= k < kids.len() ==> 0 <= #[trigger] kids[k] < nodes.len() && alive(kids[k]) && cur[kids[k]] == nodes[kids[k]].sample_count,
    ensures
        live_sum(cur, kids, alive) == count_sum(nodes, kids),
    decreases kids.len(),
{
    if kids.len() > 0 {
        let d = kids.drop_last();
        assert forall|k: int| 0 <= k < d.len() implies 0 <= #[trigger] d[k] < nodes.len() && alive(d[k]) && cur[d[k]] == nodes[d[k]].sample_count by {
            assert(d[k] == kids[k]);
        }
        lemma_live_sum_counts(nodes, cur, d, alive);
        assert(alive(kids[kids.len() - 1]));
    }
}

proof fn lemma_covers_same(nodes: Seq<StackNode>, cur: Seq<u64>, alive1: spec_fn(int) -> bool, alive2: spec_fn(int) -> bool)
    requires
        covers(nodes, cur, alive1),
        forall|x: int| 0 <= x < nodes.len() ==> #[trigger] alive1(x) == alive2(x),
    ensures
        covers(nodes, cur, alive2),
{
    assert forall|a: int| 0 <= a < nodes.len() && #[trigger] alive2(a) implies cur[a] >= live_sum(cur, children_of(nodes, a), alive2) by {
        lemma_children(nodes, a);
        let kids = children_of(nodes, a);
        assert forall|k: int| 0 <= k < kids.len() implies term(cur, alive1, #[trigger] kids[k]) == term(cur, alive2, kids[k]) by {
            assert(0 <= kids[k] < nodes.len());
        }
        lemma_live_sum_same(cur, alive1, cur, alive2, kids);
        assert(alive1(a));
    }
}

/// Along the chain to `j`, each node still covers what `j` holds.
proof fn lemma_ancestors_cover(nodes: Seq<StackNode>, cur: Seq<u64>, alive: spec_fn(int) -> bool, j: int, t: int)
    requires
        tree_shaped(nodes),
        node_ids_unique(nodes),
        0 <= j < nodes.len(),
        cur.len() == nodes.len(),
        covers(nodes, cur, alive),
        forall|s: int| 0 <= s < chain(nodes, j).len() ==> alive(#[trigger] chain(nodes, j)[s]),
        0 <= t < chain(nodes, j).len(),
    ensures
        cur[chain(nodes, j)[t]] >= cur[j],
    decreases chain(nodes, j).len() - t,
{
    lemma_chain(nodes, j);
    let ch = chain(nodes, j);
    if t < ch.len() - 1 {
        lemma_ancestors_cover(nodes, cur, alive, j, t + 1);
        let a = ch[t];
        let x = ch[t + 1];
        lemma_chain_parent(nodes, j, t + 1);
        lemma_children(nodes, a);
        assert(children_of(nodes, a).contains(x));
        assert(alive(a));
        assert(alive(x));
        lemma_live_sum_ge(cur, children_of(nodes, a), alive, x);
    }
}

/// Taking node `j` (depth `d`, remaining count `c`) and subtracting `c` from
/// its strict ancestors keeps every node still to be taken covering its
/// live children.
proof fn lemma_take_keeps_cover(nodes: Seq<StackNode>, d: int, j: int, cur1: Seq<u64>, cur2: Seq<u64>)
    requires
        tree_shaped(nodes),
        node_ids_unique(nodes),
        0 <= j < nodes.len(),
        nodes[j].depth == d,
        cur1.len() == nodes.len(),
        cur2.len() == nodes.len(),
        covers(nodes, cur1, alive_at(nodes, d, j)),
        forall|a: int| 0 <= a < nodes.len() ==> #[trigger] cur2[a] as int == if chain(nodes, j).contains(a) && a != j {
            cur1[a] - cur1[j]
        } else {
            cur1[a] as int
        },
    ensures
        covers(nodes, cur2, alive_at(nodes, d, j + 1)),
{
    let ch = chain(nodes, j);
    let c = cur1[j] as int;
    let alive1 = alive_at(nodes, d, j);
    let alive2 = alive_at(nodes, d, j + 1);
    lemma_chain(nodes, j);
    lemma_chain_distinct(nodes, j);
    assert forall|a: int| 0 <= a < nodes.len() && #[trigger] alive2(a) implies cur2[a] >= live_sum(cur2, children_of(nodes, a), alive2) by {
        lemma_children(nodes, a);
        let kids = children_of(nodes, a);
        assert(alive1(a));
        assert(a != j);
        if ch.contains(a) {
            let t = choose|t: int| 0 <= t < ch.len() && ch[t] == a;
            assert(t < ch.len() - 1);
            let x = ch[t + 1];
            lemma_chain_parent(nodes, j, t + 1);
            assert(kids.contains(x));
            assert forall|k: int| 0 <= k < kids.len() && kids[k] != x implies term(cur1, alive1, #[trigger] kids[k]) == term(cur2, alive2, kids[k]) by {
                let y = kids[k];
                if ch.contains(y) {
                    lemma_chain_child(nodes, j, a, y);
                    let s = choose|s: int| 1 <= s < ch.len() && #[trigger] ch[s] == y && ch[s - 1] == a;
                    assert(s - 1 == t);
                }
                assert(!ch.contains(y));
                assert(y != j);
            }
            if x == j {
                assert(term(cur1, alive1, x) - term(cur2, alive2, x) == c);
            } else {
                assert(ch.contains(x));
                assert(nodes[x].depth < d);
                assert(term(cur1, alive1, x) - term(cur2, alive2, x) == c);
            }
            lemma_live_sum_one(cur1, alive1, cur2, alive2, kids, x);
        } else {
            assert forall|k: int| 0 <= k < kids.len() implies term(cur1, alive1, #[trigger] kids[k]) == term(cur2, alive2, kids[k]) by {
                let y = kids[k];
                if ch.contains(y) {
                    lemma_chain_child(nodes, j, a, y);
                    let s = choose|s: int| 1 <= s < ch.len() && #[trigger] ch[s] == y && ch[s - 1] == a;
                    assert(ch.contains(a));
                }
                assert(y != j);
            }
            lemma_live_sum_same(cur1, alive1, cur2, alive2, kids);
        }
    }
}

/// How many of `kids` lie on the chain `ch`.
pub open spec fn hits(kids: Seq<int>, ch: Seq<int>) -> int
    decreases kids.len(),
{
    if kids.len() == 0 {
        0
    } else {
        hits(kids.drop_last(), ch) + if ch.contains(kids.last()) {
            1int
        } else {
            0int
        }
    }
}

/// The records' counts through each of `kids`, added up.
pub open spec fn kids_through(nodes: Seq<StackNode>, counts: Seq<u64>, leaves: Seq<int>, kids: Seq<int>) -> int
    decreases kids.len(),
{
    if kids.len() == 0 {
        0
    } else {
        kids_through(nodes, counts, leaves, kids.drop_last()) + through(nodes, counts, leaves, kids.last())
    }
}

proof fn lemma_hits_single(kids: Seq<int>, ch: Seq<int>, x: int)
    requires
        kids.no_duplicates(),
        forall|k: int| 0 <= k < kids.len() && ch.contains(#[trigger] kids[k]) ==> kids[k] == x,
    ensures
        hits(kids, ch) <= if kids.contains(x) { 1int } else { 0int },
        hits(kids, ch) >= 0,
    decreases kids.len(),
{
    if kids.len() > 0 {
        let d = kids.drop_last();
        assert(d.no_duplicates()) by {
            assert forall|a: int, b: int| 0 <= a < d.len() && 0 <= b < d.len() && a != b implies d[a] != d[b] by {
                assert(d[a] == kids[a] && d[b] == kids[b]);
            }
        }
        assert forall|k: int| 0 <= k < d.len() && ch.contains(#[trigger] d[k]) implies d[k] == x by {
            assert(d[k] == kids[k]);
        }
        lemma_hits_single(d, ch, x);
        if kids.last() == x {
            if d.contains(x) {
                let k = choose|k: int| 0 <= k < d.len() && d[k] == x;
                assert(kids[k] == kids[kids.len() - 1]);
            }
        }
        if d.contains(x) {
            let k = choose|k: int| 0 <= k < d.len() && d[k] == x;
            assert(kids[k] == x);
        }
        if ch.contains(kids.last()) {
            assert(kids[kids.len() - 1] == x);
            assert(kids.contains(x));
        }
    }
}

/// A chain passes through at most one child of `a`, and only when it passes
/// through `a`.
proof fn lemma_hits_le(nodes: Seq<StackNode>, j: int, a: int)
    requires
        tree_shaped(nodes),
        node_ids_unique(nodes),
        0 <= j < nodes.len(),
        0 <= a < nodes.len(),
    ensures
        0 <= hits(children_of(nodes, a), chain(nodes, j)) <= if chain(nodes, j).contains(a) { 1int } else { 0int },
        a == j ==> hits(children_of(nodes, a), chain(nodes, j)) == 0,
        chain(nodes, j).contains(a) && a != j ==> hits(children_of(nodes, a), chain(nodes, j)) == 1,
{
    lemma_children(nodes, a);
    lemma_chain(nodes, j);
    lemma_chain_distinct(nodes, j);
    let kids = children_of(nodes, a);
    let ch = chain(nodes, j);
    if ch.contains(a) {
        let t = choose|t: int| 0 <= t < ch.len() && ch[t] == a;
        let x = if t + 1 < ch.len() { ch[t + 1] } else { -1 };
        assert forall|k: int| 0 <= k < kids.len() && ch.contains(#[trigger] kids[k]) implies kids[k] == x by {
            lemma_chain_child(nodes, j, a, kids[k]);
            let s = choose|s: int| 1 <= s < ch.len() && #[trigger] ch[s] == kids[k] && ch[s - 1] == a;
            assert(s - 1 == t);
        }
        lemma_hits_single(kids, ch, x);
        if a == j {
            assert(ch[ch.len() - 1] == j);
            assert(t == ch.len() - 1);
            assert(!kids.contains(-1)) by {
                if kids.contains(-1) {
                    let k = choose|k: int| 0 <= k < kids.len() && kids[k] == -1;
                    assert(0 <= kids[k]);
                }
            }
        } else {
            assert(t != ch.len() - 1) by {
                assert(ch[ch.len() - 1] == j);
            }
            lemma_chain_parent(nodes, j, t + 1);
            assert(kids.contains(x));
            lemma_hits_ge(kids, ch, x);
        }
    } else {
        assert forall|k: int| 0 <= k < kids.len() && ch.contains(#[trigger] kids[k]) implies kids[k] == -1 by {
            lemma_chain_child(nodes, j, a, kids[k]);
            let s = choose|s: int| 1 <= s < ch.len() && #[trigger] ch[s] == kids[k] && ch[s - 1] == a;
            assert(ch.contains(a));
        }
        lemma_hits_single(kids, ch, -1);
    }
}

proof fn lemma_kids_through_push(nodes: Seq<StackNode>, counts: Seq<u64>, leaves: Seq<int>, c: u64, l: int, kids: Seq<int>)
    ensures
        kids_through(nodes, counts.push(c), leaves.push(l), kids) == kids_through(nodes, counts, leaves, kids) + hits(
            kids,
            chain(nodes, l),
        ) * c,
    decreases kids.len(),
{
    if kids.len() > 0 {
        lemma_kids_through_push(nodes, counts, leaves, c, l, kids.drop_last());
        let y = kids.last();
        assert(counts.push(c).drop_last() =~= counts);
        assert(leaves.push(l).drop_last() =~= leaves);
        let h = hits(kids.drop_last(), chain(nodes, l));
        if chain(nodes, l).contains(y) {
            assert((h + 1) * c == h * c + c) by (nonlinear_arith);
        }
    }
}

/// The records through the children of `a` are among those through `a`.
proof fn lemma_kids_le_through(nodes: Seq<StackNode>, counts: Seq<u64>, leaves: Seq<int>, a: int)
    requires
        tree_shaped(nodes),
        node_ids_unique(nodes),
        0 <= a < nodes.len(),
        counts.len() == leaves.len(),
        forall|r: int| 0 <= r < leaves.len() ==> 0 <= #[trigger] leaves[r] < nodes.len(),
    ensures
        kids_through(nodes, counts, leaves, children_of(nodes, a)) <= through(nodes, counts, leaves, a),
    decreases leaves.len(),
{
    let kids = children_of(nodes, a);
    if leaves.len() == 0 {
        lemma_kids_through_zero(nodes, counts, leaves, kids);
    } else {
        let ld = leaves.drop_last();
        let cd = counts.drop_last();
        let l = leaves.last();
        let c = counts.last();
        assert(ld.push(l) =~= leaves);
        assert(cd.push(c) =~= counts);
        lemma_kids_le_through(nodes, cd, ld, a);
        lemma_kids_through_push(nodes, cd, ld, c, l, kids);
        lemma_hits_le(nodes, l, a);
        let h = hits(kids, chain(nodes, l));
        if chain(nodes, l).contains(a) {
            assert(h * c <= c) by (nonlinear_arith)
                requires 0 <= h <= 1, c >= 0;
        } else {
            assert(h * c == 0) by (nonlinear_arith)
                requires h == 0;
        }
    }
}

proof fn lemma_kids_through_zero(nodes: Seq<StackNode>, counts: Seq<u64>, leaves: Seq<int>, kids: Seq<int>)
    requires
        leaves.len() == 0,
    ensures
        kids_through(nodes, counts, leaves, kids) == 0,
    decreases kids.len(),
{
    if kids.len() > 0 {
        lemma_kids_through_zero(nodes, counts, leaves, kids.drop_last());
    }
}

proof fn lemma_count_sum_through(nodes: Seq<StackNode>, counts: Seq<u64>, leaves: Seq<int>, kids: Seq<int>)
    requires
        forall|k: int| 0 <= k < kids.len() ==> 0 <= #[trigger] kids[k] < nodes.len(),
        forall|y: int| 0 <= y < nodes.len() ==> #[trigger] nodes[y].sample_count == through(nodes, counts, leaves, y),
    ensures
        count_sum(nodes, kids) == kids_through(nodes, counts, leaves, kids),
    decreases kids.len(),
{
    if kids.len() > 0 {
        let d = kids.drop_last();
        assert forall|k: int| 0 <= k < d.len() implies 0 <= #[trigger] d[k] < nodes.len() by {
            assert(d[k] == kids[k]);
        }
        lemma_count_sum_through(nodes, counts, leaves, d);
        assert(0 <= kids[kids.len() - 1] < nodes.len());
    }
}

/// Counts that decompress are consistent: every node covers its children.
proof fn lemma_decompressed_consistent(sto: StoData, recs: Seq<StackNodeDataListTemplate>, leaves: Seq<int>)
    requires
        well_formed(sto),
        decompresses(sto, recs, leaves),
    ensures
        counts_consistent(sto.stack_nodes@),
{
    let nodes = sto.stack_nodes@;
    let counts = counts_of(recs);
    assert forall|i: int| 0 <= i < nodes.len() implies #[trigger] nodes[i].sample_count >= count_sum(nodes, children_of(nodes, i)) by {
        lemma_children(nodes, i);
        assert forall|r: int| 0 <= r < leaves.len() implies 0 <= #[trigger] leaves[r] < nodes.len() by {
            assert(0 <= leaves[r] < nodes.len());
        }
        lemma_kids_le_through(nodes, counts, leaves, i);
        assert forall|y: int| 0 <= y < nodes.len() implies #[trigger] nodes[y].sample_count == through(nodes, counts, leaves, y) by {
            assert(nodes[y].sample_count == through(nodes, counts_of(recs), leaves, y));
        }
        lemma_count_sum_through(nodes, counts, leaves, children_of(nodes, i));
    }
}

proof fn lemma_hits_ge(kids: Seq<int>, ch: Seq<int>, x: int)
    requires
        kids.contains(x),
        ch.contains(x),
    ensures
        hits(kids, ch) >= 1,
    decreases kids.len(),
{
    lemma_hits_nonneg(kids.drop_last(), ch);
    if kids.last() != x {
        let k = choose|k: int| 0 <= k < kids.len() && kids[k] == x;
        assert(kids.drop_last()[k] == x);
        lemma_hits_ge(kids.drop_last(), ch, x);
    }
}

proof fn lemma_hits_nonneg(kids: Seq<int>, ch: Seq<int>)
    ensures
        hits(kids, ch) >= 0,
    decreases kids.len(),
{
    if kids.len() > 0 {
        lemma_hits_nonneg(kids.drop_last(), ch);
    }
}

/// Total count of the records whose path starts at node `r`.
pub open spec fn starting_at(nodes: Seq<StackNode>, counts: Seq<u64>, leaves: Seq<int>, r: int) -> int
    decreases leaves.len(),
{
    if leaves.len() == 0 {
        0
    } else {
        starting_at(nodes, counts.drop_last(), leaves.drop_last(), r) + if chain(nodes, leaves.last())[0] == r {
            counts.last() as int
        } else {
            0
        }
    }
}

/// Total count of the records that end at node `a`.
pub open spec fn ending_at(counts: Seq<u64>, leaves: Seq<int>, a: int) -> int
    decreases leaves.len(),
{
    if leaves.len() == 0 {
        0
    } else {
        ending_at(counts.drop_last(), leaves.drop_last(), a) + if leaves.last() == a {
            counts.last() as int
        } else {
            0
        }
    }
}

proof fn lemma_starting_is_through(nodes: Seq<StackNode>, counts: Seq<u64>, leaves: Seq<int>, r: int)
    requires
        tree_shaped(nodes),
        0 <= r < nodes.len(),
        nodes[r].parent_id is None,
        forall|k: int| 0 <= k < leaves.len() ==> 0 <= #[trigger] leaves[k] < nodes.len(),
    ensures
        starting_at(nodes, counts, leaves, r) == through(nodes, counts, leaves, r),
    decreases leaves.len(),
{
    if leaves.len() > 0 {
        let d = leaves.drop_last();
        assert forall|k: int| 0 <= k < d.len() implies 0 <= #[trigger] d[k] < nodes.len() by {
            assert(d[k] == leaves[k]);
        }
        lemma_starting_is_through(nodes, counts.drop_last(), d, r);
        let l = leaves.last();
        assert(0 <= l < nodes.len());
        lemma_chain(nodes, l);
        assert(parent_ok(nodes, r));
        let ch = chain(nodes, l);
        if ch.contains(r) {
            let t = choose|t: int| 0 <= t < ch.len() && ch[t] == r;
            assert(nodes[ch[t]].depth == t);
        }
        if ch[0] == r {
            assert(ch.contains(r));
        }
    }
}

proof fn lemma_through_splits(nodes: Seq<StackNode>, counts: Seq<u64>, leaves: Seq<int>, a: int)
    requires
        tree_shaped(nodes),
        node_ids_unique(nodes),
        0 <= a < nodes.len(),
        counts.len() == leaves.len(),
        forall|k: int| 0 <= k < leaves.len() ==> 0 <= #[trigger] leaves[k] < nodes.len(),
    ensures
        through(nodes, counts, leaves, a) == ending_at(counts, leaves, a) + kids_through(nodes, counts, leaves, children_of(nodes, a)),
    decreases leaves.len(),
{
    let kids = children_of(nodes, a);
    if leaves.len() == 0 {
        lemma_kids_through_zero(nodes, counts, leaves, kids);
    } else {
        let ld = leaves.drop_last();
        let cd = counts.drop_last();
        let l = leaves.last();
        let c = counts.last();
        assert(ld.push(l) =~= leaves);
        assert(cd.push(c) =~= counts);
        assert forall|k: int| 0 <= k < ld.len() implies 0 <= #[trigger] ld[k] < nodes.len() by {
            assert(ld[k] == leaves[k]);
        }
        lemma_through_splits(nodes, cd, ld, a);
        lemma_kids_through_push(nodes, cd, ld, c, l, kids);
        assert(0 <= l < nodes.len());
        lemma_hits_le(nodes, l, a);
        lemma_chain(nodes, l);
        if l == a {
            assert(chain(nodes, l).contains(a)) by {
                assert(chain(nodes, l)[chain(nodes, l).len() - 1] == a);
            }
        }
        let h = hits(kids, chain(nodes, l));
        assert(h * c == if chain(nodes, l).contains(a) && l != a { c as int } else { 0 }) by (nonlinear_arith)
            requires h == if chain(nodes, l).contains(a) && l != a { 1int } else { 0int };
    }
}

proof fn lemma_ending_zero(counts: Seq<u64>, leaves: Seq<int>, a: int)
    requires
        counts.len() == leaves.len(),
        forall|k: int| 0 <= k < counts.len() ==> #[trigger] counts[k] > 0,
        ending_at(counts, leaves, a) == 0,
    ensures
        forall|k: int| 0 <= k < leaves.len() ==> #[trigger] leaves[k] != a,
    decreases leaves.len(),
{
    if leaves.len() > 0 {
        let cd = counts.drop_last();
        let ld = leaves.drop_last();
        lemma_ending_nonneg(cd, ld, a);
        assert forall|k: int| 0 <= k < cd.len() implies #[trigger] cd[k] > 0 by {
            assert(cd[k] == counts[k]);
        }
        assert(counts[counts.len() - 1] > 0);
        lemma_ending_zero(cd, ld, a);
        assert forall|k: int| 0 <= k < leaves.len() implies #[trigger] leaves[k] != a by {
            if k < ld.len() {
                assert(ld[k] == leaves[k]);
            }
        }
    }
}

proof fn lemma_ending_nonneg(counts: Seq<u64>, leaves: Seq<int>, a: int)
    ensures
        ending_at(counts, leaves, a) >= 0,
    decreases leaves.len(),
{
    if leaves.len() > 0 {
        lemma_ending_nonneg(counts.drop_last(), leaves.drop_last(), a);
    }
}

/// Conservation per root: the records whose path starts at root node `r`
/// add up to the count `r` had before reconstruction.
pub proof fn lemma_conservation_per_root(sto: StoData, recs: Seq<StackNodeDataListTemplate>, leaves: Seq<int>, r: int)
    requires
        well_formed(sto),
        decompresses(sto, recs, leaves),
        0 <= r < sto.stack_nodes@.len(),
        sto.stack_nodes@[r].parent_id is None,
    ensures
        starting_at(sto.stack_nodes@, counts_of(recs), leaves, r) == sto.stack_nodes@[r].sample_count,
{
    let nodes = sto.stack_nodes@;
    assert forall|k: int| 0 <= k < leaves.len() implies 0 <= #[trigger] leaves[k] < nodes.len() by {
        assert(0 <= leaves[k] < nodes.len());
    }
    lemma_starting_is_through(nodes, counts_of(recs), leaves, r);
    assert(nodes[r].sample_count == through(nodes, counts_of(recs), leaves, r));
}

/// Zero-sample discard: a node whose count is exactly the sum of its
/// children's counts (so nothing is left of it once they are taken) ends no
/// record.
pub proof fn lemma_claimed_node_ends_no_record(sto: StoData, recs: Seq<StackNodeDataListTemplate>, leaves: Seq<int>, a: int)
    requires
        well_formed(sto),
        decompresses(sto, recs, leaves),
        0 <= a < sto.stack_nodes@.len(),
        sto.stack_nodes@[a].sample_count == count_sum(sto.stack_nodes@, children_of(sto.stack_nodes@, a)),
    ensures
        forall|k: int| 0 <= k < leaves.len() ==> #[trigger] leaves[k] != a,
{
    let nodes = sto.stack_nodes@;
    let counts = counts_of(recs);
    assert forall|k: int| 0 <= k < leaves.len() implies 0 <= #[trigger] leaves[k] < nodes.len() by {
        assert(0 <= leaves[k] < nodes.len());
    }
    lemma_through_splits(nodes, counts, leaves, a);
    lemma_children(nodes, a);
    assert forall|y: int| 0 <= y < nodes.len() implies #[trigger] nodes[y].sample_count == through(nodes, counts, leaves, y) by {
        assert(nodes[y].sample_count == through(nodes, counts_of(recs), leaves, y));
    }
    lemma_count_sum_through(nodes, counts, leaves, children_of(nodes, a));
    assert(nodes[a].sample_count == through(nodes, counts, leaves, a));
    assert forall|k: int| 0 <= k < counts.len() implies #[trigger] counts[k] > 0 by {
        assert(0 <= leaves[k] < nodes.len());
        assert(recs[k].count > 0);
    }
    lemma_ending_zero(counts, leaves, a);
}

} // verus!

//! The aggregated call tree as nested records for a flame-graph viewer.
use std::collections::HashMap;
use vstd::prelude::*;
use crate::ids::opt_view;
use crate::model::{StackNode, StackNodeData, StoData};
use crate::reconstruct::{well_formed, ReconstructError};
use crate::tree::{
    check_frames, check_tree, children_of, count_sum, frame_ids_unique, frame_index, frames_present,
    has_frame, index_frames, index_nodes, indices, lemma_index_of, node_ids_unique, parent_is, parent_ok,
    roots_of, tree_shaped,
};

verus! {

broadcast use vstd::std_specs::hash::group_hash_axioms;

/// One box of a flame graph: a frame, the samples through it, and the
/// boxes stacked on it.
#[derive(Debug)]
pub struct D3FlamegraphData {
    pub name: String,
    pub value: u64,
    pub filename: Option<String>,
    pub line_number: Option<u32>,
    pub children: Option<Vec<D3FlamegraphData>>,
}

/// `t` shows node `i` and, box by box, everything above it.
pub open spec fn shows_node(t: D3FlamegraphData, nodes: Seq<StackNode>, datas: Seq<StackNodeData>, i: int) -> bool
    decreases 0x1_0000_0000 - nodes[i].depth,
{
    let d = datas[frame_index(datas, nodes[i].stack_node_data_id)];
    let c = children_of(nodes, i);
    &&& t.name@ == d.symbol@
    &&& t.value == nodes[i].sample_count
    &&& opt_view(t.filename) == opt_view(d.file)
    &&& t.line_number == d.line_number
    &&& if c.len() == 0 {
        t.children is None
    } else {
        &&& t.children is Some
        &&& t.children->Some_0@.len() == c.len()
        &&& forall|a: int| 0 <= a < c.len() ==> (0 <= #[trigger] c[a] < nodes.len() && nodes[i].depth < nodes[c[a]].depth
            && shows_node(t.children->Some_0@[a], nodes, datas, c[a]))
    }
}

pub open spec fn ints(s: Seq<usize>) -> Seq<int> {
    s.map_values(|x: usize| x as int)
}

/// Children indices keyed by parent id; roots under no key.
fn index_children(nodes: &Vec<StackNode>) -> (m: HashMap<u64, Vec<usize>>)
    ensures
        forall|p: u64| #[trigger] m@.contains_key(p) ==> ints(m@[p]@) == indices(nodes@.len()).filter(parent_is(nodes@, Some(p))),
        forall|p: u64| #[trigger] m@.contains_key(p) ==> m@[p]@.len() > 0,
        forall|p: u64| !(#[trigger] m@.contains_key(p)) ==> indices(nodes@.len()).filter(parent_is(nodes@, Some(p))).len() == 0,
{
    let mut m: HashMap<u64, Vec<usize>> = HashMap::new();
    let mut k: usize = 0;
    while k < nodes.len()
        invariant
            k <= nodes@.len(),
            forall|p: u64| #[trigger] m@.contains_key(p) ==> ints(m@[p]@) == indices(k as nat).filter(parent_is(nodes@, Some(p))),
            forall|p: u64| #[trigger] m@.contains_key(p) ==> m@[p]@.len() > 0,
            forall|p: u64| !(#[trigger] m@.contains_key(p)) ==> indices(k as nat).filter(parent_is(nodes@, Some(p))).len() == 0,
        decreases nodes@.len() - k,
    {
        let ghost before = m@;
        proof {
            assert forall|p: Option<u64>| #[trigger] indices((k + 1) as nat).filter(parent_is(nodes@, p))
                == if nodes@[k as int].parent_id == p {
                    indices(k as nat).filter(parent_is(nodes@, p)).push(k as int)
                } else {
                    indices(k as nat).filter(parent_is(nodes@, p))
                } by {
                reveal(Seq::filter);
                assert(indices((k + 1) as nat).drop_last() =~= indices(k as nat));
            }
        }
        match nodes[k].parent_id {
            None => {},
            Some(pid) => {
                let mut v = match m.remove(&pid) {
                    Some(v) => v,
                    None => Vec::new(),
                };
                let ghost old_v = v@;
                v.push(k);
                m.insert(pid, v);
                proof {
                    assert(ints(old_v.push(k)) =~= ints(old_v).push(k as int));
                    if !before.contains_key(pid) {
                        assert(ints(old_v) =~= Seq::<int>::empty());
                        assert(indices(k as nat).filter(parent_is(nodes@, Some(pid))) =~= Seq::<int>::empty());
                    }
                    assert(ints(old_v) == indices(k as nat).filter(parent_is(nodes@, Some(pid))));
                }
            },
        }
        proof {
            assert forall|p: u64| #[trigger] m@.contains_key(p) implies ints(m@[p]@) == indices((k + 1) as nat).filter(
                parent_is(nodes@, Some(p)),
            ) by {
                let step = indices((k + 1) as nat).filter(parent_is(nodes@, Some(p)));
                if nodes@[k as int].parent_id != Some(p) {
                    assert(before.contains_key(p));
                }
            }
            assert forall|p: u64| !(#[trigger] m@.contains_key(p)) implies indices((k + 1) as nat).filter(
                parent_is(nodes@, Some(p)),
            ).len() == 0 by {
                let step = indices((k + 1) as nat).filter(parent_is(nodes@, Some(p)));
                assert(!before.contains_key(p));
            }
        }
        k = k + 1;
    }
    m
}

fn node_box(
    nodes: &Vec<StackNode>,
    datas: &Vec<StackNodeData>,
    di: &HashMap<u64, usize>,
    kids: &HashMap<u64, Vec<usize>>,
    i: usize,
) -> (t: D3FlamegraphData)
    requires
        i < nodes@.len(),
        node_ids_unique(nodes@),
        tree_shaped(nodes@),
        frames_present(nodes@, datas@),
        forall|id: u64| #[trigger] di@.contains_key(id) <==> has_frame(datas@, id),
        forall|id: u64| #[trigger] di@.contains_key(id) ==> di@[id] as int == frame_index(datas@, id),
        forall|p: u64| #[trigger] kids@.contains_key(p) ==> ints(kids@[p]@) == indices(nodes@.len()).filter(parent_is(nodes@, Some(p))),
        forall|p: u64| #[trigger] kids@.contains_key(p) ==> kids@[p]@.len() > 0,
        forall|p: u64| !(#[trigger] kids@.contains_key(p)) ==> indices(nodes@.len()).filter(parent_is(nodes@, Some(p))).len() == 0,
    ensures
        shows_node(t, nodes@, datas@, i as int),
    decreases 0x1_0000_0000 - nodes@[i as int].depth,
{
    let node = nodes[i];
    assert(has_frame(datas@, node.stack_node_data_id));
    let fi = *di.get(&node.stack_node_data_id).unwrap();
    let d = &datas[fi];
    let ghost c = children_of(nodes@, i as int);
    proof {
        broadcast use vstd::seq_lib::group_filter_ensures;
        assert forall|a: int| 0 <= a < c.len() implies 0 <= #[trigger] c[a] < nodes@.len() && nodes@[i as int].depth < nodes@[c[a]].depth by {
            indices(nodes@.len()).lemma_filter_pred(parent_is(nodes@, Some(node.id)), a);
            let x = c[a];
            assert(c.contains(x));
            indices(nodes@.len()).lemma_filter_contains_rev(parent_is(nodes@, Some(node.id)), x);
            let y = choose|y: int| 0 <= y < indices(nodes@.len()).len() && indices(nodes@.len())[y] == x;
            assert(0 <= x < nodes@.len());
            assert(parent_ok(nodes@, x));
            lemma_index_of(nodes@, i as int);
        }
    }
    let children: Option<Vec<D3FlamegraphData>> = match kids.get(&node.id) {
        None => None,
        Some(list) => {
            let mut v: Vec<D3FlamegraphData> = Vec::new();
            let mut a: usize = 0;
            while a < list.len()
                invariant
                    ints(list@) == c,
                    a <= list@.len(),
                    v@.len() == a,
                    forall|q: int| 0 <= q < a ==> shows_node(#[trigger] v@[q], nodes@, datas@, c[q]),
                    forall|q: int| 0 <= q < c.len() ==> 0 <= #[trigger] c[q] < nodes@.len() && nodes@[i as int].depth < nodes@[c[q]].depth,
                    i < nodes@.len(),
                    node_ids_unique(nodes@),
                    tree_shaped(nodes@),
                    frames_present(nodes@, datas@),
                    forall|id: u64| #[trigger] di@.contains_key(id) <==> has_frame(datas@, id),
                    forall|id: u64| #[trigger] di@.contains_key(id) ==> di@[id] as int == frame_index(datas@, id),
                    forall|p: u64| #[trigger] kids@.contains_key(p) ==> ints(kids@[p]@) == indices(nodes@.len()).filter(parent_is(nodes@, Some(p))),
                    forall|p: u64| #[trigger] kids@.contains_key(p) ==> kids@[p]@.len() > 0,
                    forall|p: u64| !(#[trigger] kids@.contains_key(p)) ==> indices(nodes@.len()).filter(parent_is(nodes@, Some(p))).len() == 0,
                decreases list@.len() - a,
            {
                assert(c[a as int] == list@[a as int] as int);
                let child = node_box(nodes, datas, di, kids, list[a]);
                v.push(child);
                a = a + 1;
            }
            Some(v)
        },
    };
    let filename = match &d.file {
        Some(f) => Some(f.clone()),
        None => None,
    };
    D3FlamegraphData { name: d.symbol.clone(), value: node.sample_count, filename, line_number: d.line_number, children }
}

proof fn lemma_count_sum_add(nodes: Seq<StackNode>, a: Seq<int>, b: Seq<int>)
    ensures
        count_sum(nodes, a + b) == count_sum(nodes, a) + count_sum(nodes, b),
        count_sum(nodes, b) >= 0,
    decreases b.len(),
{
    if b.len() > 0 {
        lemma_count_sum_add(nodes, a, b.drop_last());
        assert((a + b).drop_last() =~= a + b.drop_last());
    }
}

/// The total of the roots' counts, when it fits in 64 bits.
pub open spec fn total_of_roots(nodes: Seq<StackNode>) -> int {
    count_sum(nodes, roots_of(nodes))
}

/// The flame-graph tree of one executable's snapshot: a top box named after
/// the executable whose value is the sum of the roots' counts, with one box
/// per root stacked on it, and so on up the call tree.
pub fn build_flamegraph(sto: &StoData) -> (r: Result<D3FlamegraphData, ReconstructError>)
    ensures
        sto.profiled_binaries@.len() == 0 ==> r == Err::<D3FlamegraphData, ReconstructError>(ReconstructError::MissingExecutable),
        sto.profiled_binaries@.len() > 0 && !node_ids_unique(sto.stack_nodes@)
            ==> r == Err::<D3FlamegraphData, ReconstructError>(ReconstructError::DuplicateNode),
        sto.profiled_binaries@.len() > 0 && node_ids_unique(sto.stack_nodes@) && !frame_ids_unique(sto.stack_node_datas@)
            ==> r == Err::<D3FlamegraphData, ReconstructError>(ReconstructError::DuplicateFrame),
        sto.profiled_binaries@.len() > 0 && node_ids_unique(sto.stack_nodes@) && frame_ids_unique(sto.stack_node_datas@)
            && !frames_present(sto.stack_nodes@, sto.stack_node_datas@)
            ==> r == Err::<D3FlamegraphData, ReconstructError>(ReconstructError::MissingFrame),
        sto.profiled_binaries@.len() > 0 && node_ids_unique(sto.stack_nodes@) && frame_ids_unique(sto.stack_node_datas@)
            && frames_present(sto.stack_nodes@, sto.stack_node_datas@) && !tree_shaped(sto.stack_nodes@)
            ==> r == Err::<D3FlamegraphData, ReconstructError>(ReconstructError::MalformedTree),
        well_formed(*sto) ==> (r == Err::<D3FlamegraphData, ReconstructError>(ReconstructError::CountOverflow)
            <==> total_of_roots(sto.stack_nodes@) > u64::MAX),
        r matches Ok(t) ==> {
            &&& well_formed(*sto)
            &&& t.name@ == sto.profiled_binaries@[0].basename@
            &&& t.value == total_of_roots(sto.stack_nodes@)
            &&& t.filename is None
            &&& t.line_number is None
            &&& t.children is Some
            &&& t.children->Some_0@.len() == roots_of(sto.stack_nodes@).len()
            &&& forall|a: int| 0 <= a < roots_of(sto.stack_nodes@).len() ==> shows_node(#[trigger] t.children->Some_0@[a], sto.stack_nodes@, sto.stack_node_datas@, roots_of(sto.stack_nodes@)[a])
        },
{
    if sto.profiled_binaries.len() == 0 {
        return Err(ReconstructError::MissingExecutable);
    }
    let ni = match index_nodes(&sto.stack_nodes) {
        None => {
            return Err(ReconstructError::DuplicateNode);
        },
        Some(m) => m,
    };
    let di = match index_frames(&sto.stack_node_datas) {
        None => {
            return Err(ReconstructError::DuplicateFrame);
        },
        Some(m) => m,
    };
    if !check_frames(&sto.stack_nodes, &di, Ghost(sto.stack_node_datas@)) {
        return Err(ReconstructError::MissingFrame);
    }
    if !check_tree(&sto.stack_nodes, &ni) {
        return Err(ReconstructError::MalformedTree);
    }
    let nodes = &sto.stack_nodes;
    let kids = index_children(nodes);
    let ghost ns = nodes@;
    let ghost pred = parent_is(ns, None);
    let mut v: Vec<D3FlamegraphData> = Vec::new();
    let mut total: u64 = 0;
    let mut k: usize = 0;
    while k < nodes.len()
        invariant
            well_formed(*sto),
            ns == nodes@,
            nodes == &sto.stack_nodes,
            pred == parent_is(ns, None),
            k <= ns.len(),
            v@.len() == indices(k as nat).filter(pred).len(),
            total == count_sum(ns, indices(k as nat).filter(pred)),
            forall|q: int| 0 <= q < v@.len() ==> shows_node(#[trigger] v@[q], ns, sto.stack_node_datas@, indices(k as nat).filter(pred)[q]),
            forall|id: u64| #[trigger] di@.contains_key(id) <==> has_frame(sto.stack_node_datas@, id),
            forall|id: u64| #[trigger] di@.contains_key(id) ==> di@[id] as int == frame_index(sto.stack_node_datas@, id),
            forall|p: u64| #[trigger] kids@.contains_key(p) ==> ints(kids@[p]@) == indices(ns.len()).filter(parent_is(ns, Some(p))),
            forall|p: u64| #[trigger] kids@.contains_key(p) ==> kids@[p]@.len() > 0,
            forall|p: u64| !(#[trigger] kids@.contains_key(p)) ==> indices(ns.len()).filter(parent_is(ns, Some(p))).len() == 0,
        decreases ns.len() - k,
    {
        let ghost f0 = indices(k as nat).filter(pred);
        let ghost f1 = indices((k + 1) as nat).filter(pred);
        proof {
            reveal(Seq::filter);
            assert(indices((k + 1) as nat).drop_last() =~= indices(k as nat));
            let rest = Seq::new((ns.len() - k - 1) as nat, |x: int| x + k + 1);
            assert(indices(ns.len()) =~= indices((k + 1) as nat) + rest);
            Seq::filter_distributes_over_add(indices((k + 1) as nat), rest, pred);
            assert(roots_of(ns) == f1 + rest.filter(pred));
            lemma_count_sum_add(ns, f1, rest.filter(pred));
        }
        if nodes[k].parent_id.is_none() {
            assert(f1 == f0.push(k as int));
            assert(f1.drop_last() =~= f0);
            let c = nodes[k].sample_count;
            if total > u64::MAX - c {
                return Err(ReconstructError::CountOverflow);
            }
            let b = node_box(nodes, &sto.stack_node_datas, &di, &kids, k);
            v.push(b);
            total = total + c;
        } else {
            assert(f1 == f0);
        }
        k = k + 1;
    }
    assert(indices(ns.len()) == indices(k as nat));
    let name = sto.profiled_binaries[0].basename.clone();
    Ok(D3FlamegraphData { name, value: total, filename: None, line_number: None, children: Some(v) })
}

} // verus!

//! Shape of an aggregated snapshot: node and frame lookups by id, parent
//! chains from a root, children, and the facts the tree algorithms rely on.
use std::collections::HashMap;
use vstd::prelude::*;
use crate::model::{StackNode, StackNodeData};

verus! {

broadcast use vstd::std_specs::hash::group_hash_axioms;

pub open spec fn node_ids_unique(nodes: Seq<StackNode>) -> bool {
    forall|i: int, j: int| 0 <= i < j < nodes.len() ==> #[trigger] nodes[i].id != #[trigger] nodes[j].id
}

pub open spec fn frame_ids_unique(datas: Seq<StackNodeData>) -> bool {
    forall|i: int, j: int| 0 <= i < j < datas.len() ==> #[trigger] datas[i].id != #[trigger] datas[j].id
}

pub open spec fn has_node(nodes: Seq<StackNode>, id: u64) -> bool {
    exists|k: int| 0 <= k < nodes.len() && #[trigger] nodes[k].id == id
}

pub open spec fn index_of(nodes: Seq<StackNode>, id: u64) -> int {
    choose|k: int| 0 <= k < nodes.len() && #[trigger] nodes[k].id == id
}

pub open spec fn has_frame(datas: Seq<StackNodeData>, id: u64) -> bool {
    exists|k: int| 0 <= k < datas.len() && #[trigger] datas[k].id == id
}

pub open spec fn frame_index(datas: Seq<StackNodeData>, id: u64) -> int {
    choose|k: int| 0 <= k < datas.len() && #[trigger] datas[k].id == id
}

/// Every node's frame record is in the snapshot.
pub open spec fn frames_present(nodes: Seq<StackNode>, datas: Seq<StackNodeData>) -> bool {
    forall|i: int| 0 <= i < nodes.len() ==> has_frame(datas, #[trigger] nodes[i].stack_node_data_id)
}

/// A root has depth 0; any other node's parent is present, one level up.
pub open spec fn parent_ok(nodes: Seq<StackNode>, i: int) -> bool {
    match nodes[i].parent_id {
        None => nodes[i].depth == 0,
        Some(p) => has_node(nodes, p) && nodes[index_of(nodes, p)].depth + 1 == nodes[i].depth,
    }
}

pub open spec fn tree_shaped(nodes: Seq<StackNode>) -> bool {
    forall|i: int| 0 <= i < nodes.len() ==> #[trigger] parent_ok(nodes, i)
}

pub open spec fn indices(n: nat) -> Seq<int> {
    Seq::new(n, |x: int| x)
}

pub open spec fn parent_is(nodes: Seq<StackNode>, p: Option<u64>) -> spec_fn(int) -> bool {
    |x: int| nodes[x].parent_id == p
}

/// Indices of the children of node `i`, in snapshot order.
pub open spec fn children_of(nodes: Seq<StackNode>, i: int) -> Seq<int> {
    indices(nodes.len()).filter(parent_is(nodes, Some(nodes[i].id)))
}

/// Indices of the roots, in snapshot order.
pub open spec fn roots_of(nodes: Seq<StackNode>) -> Seq<int> {
    indices(nodes.len()).filter(parent_is(nodes, None))
}

pub open spec fn count_sum(nodes: Seq<StackNode>, idx: Seq<int>) -> int
    decreases idx.len(),
{
    if idx.len() == 0 {
        0
    } else {
        count_sum(nodes, idx.drop_last()) + nodes[idx.last()].sample_count
    }
}

/// Every node's count covers the counts of its children.
pub open spec fn counts_consistent(nodes: Seq<StackNode>) -> bool {
    forall|i: int| 0 <= i < nodes.len() ==> #[trigger] nodes[i].sample_count >= count_sum(nodes, children_of(nodes, i))
}

pub(crate) proof fn lemma_index_of(nodes: Seq<StackNode>, k: int)
    requires
        node_ids_unique(nodes),
        0 <= k < nodes.len(),
    ensures
        has_node(nodes, nodes[k].id),
        index_of(nodes, nodes[k].id) == k,
{
    assert(has_node(nodes, nodes[k].id));
    let c = index_of(nodes, nodes[k].id);
    if c != k {
        if c < k {
            assert(nodes[c].id != nodes[k].id);
        } else {
            assert(nodes[k].id != nodes[c].id);
        }
    }
}

pub(crate) proof fn lemma_frame_index(datas: Seq<StackNodeData>, k: int)
    requires
        frame_ids_unique(datas),
        0 <= k < datas.len(),
    ensures
        has_frame(datas, datas[k].id),
        frame_index(datas, datas[k].id) == k,
{
    assert(has_frame(datas, datas[k].id));
    let c = frame_index(datas, datas[k].id);
    if c != k {
        if c < k {
            assert(datas[c].id != datas[k].id);
        } else {
            assert(datas[k].id != datas[c].id);
        }
    }
}

/// Index of the node holding each id; fails on a repeated id.
pub(crate) fn index_nodes(nodes: &Vec<StackNode>) -> (r: Option<HashMap<u64, usize>>)
    ensures
        r is None <==> !node_ids_unique(nodes@),
        r matches Some(m) ==> forall|id: u64| #[trigger] m@.contains_key(id) <==> has_node(nodes@, id),
        r matches Some(m) ==> forall|id: u64| #[trigger] m@.contains_key(id) ==> m@[id] as int == index_of(nodes@, id),
{
    let mut m: HashMap<u64, usize> = HashMap::new();
    let mut i: usize = 0;
    while i < nodes.len()
        invariant
            i <= nodes@.len(),
            forall|a: int, b: int| 0 <= a < b < i ==> #[trigger] nodes@[a].id != #[trigger] nodes@[b].id,
            forall|id: u64| #[trigger] m@.contains_key(id) <==> exists|k: int| 0 <= k < i && #[trigger] nodes@[k].id == id,
            forall|id: u64| #[trigger] m@.contains_key(id) ==> m@[id] < i && nodes@[m@[id] as int].id == id,
        decreases nodes@.len() - i,
    {
        let id = nodes[i].id;
        if m.contains_key(&id) {
            proof {
                let k = m@[id] as int;
                assert(nodes@[k].id == nodes@[i as int].id);
                assert(!node_ids_unique(nodes@));
            }
            return None;
        }
        m.insert(id, i);
        proof {
            assert forall|q: u64| #[trigger] m@.contains_key(q) <==> exists|k: int| 0 <= k < i + 1 && #[trigger] nodes@[k].id == q by {
                if m@.contains_key(q) && q != id {
                    let k = choose|k: int| 0 <= k < i && #[trigger] nodes@[k].id == q;
                    assert(0 <= k < i + 1 && nodes@[k].id == q);
                }
                if q == id {
                    assert(nodes@[i as int].id == q);
                }
            }
            assert forall|a: int, b: int| 0 <= a < b < i + 1 implies #[trigger] nodes@[a].id != #[trigger] nodes@[b].id by {
                if b == i {
                    if nodes@[a].id == id {
                        assert(exists|k: int| 0 <= k < i && #[trigger] nodes@[k].id == id);
                    }
                }
            }
        }
        i = i + 1;
    }
    proof {
        assert forall|id: u64| #[trigger] m@.contains_key(id) implies m@[id] as int == index_of(nodes@, id) by {
            lemma_index_of(nodes@, m@[id] as int);
        }
        assert forall|id: u64| #[trigger] m@.contains_key(id) <==> has_node(nodes@, id) by {
            if has_node(nodes@, id) {
                let k = choose|k: int| 0 <= k < nodes@.len() && #[trigger] nodes@[k].id == id;
                assert(0 <= k < i && nodes@[k].id == id);
            }
        }
    }
    Some(m)
}

/// Index of the frame record holding each id; fails on a repeated id.
pub(crate) fn index_frames(datas: &Vec<StackNodeData>) -> (r: Option<HashMap<u64, usize>>)
    ensures
        r is None <==> !frame_ids_unique(datas@),
        r matches Some(m) ==> forall|id: u64| #[trigger] m@.contains_key(id) <==> has_frame(datas@, id),
        r matches Some(m) ==> forall|id: u64| #[trigger] m@.contains_key(id) ==> m@[id] as int == frame_index(datas@, id),
{
    let mut m: HashMap<u64, usize> = HashMap::new();
    let mut i: usize = 0;
    while i < datas.len()
        invariant
            i <= datas@.len(),
            forall|a: int, b: int| 0 <= a < b < i ==> #[trigger] datas@[a].id != #[trigger] datas@[b].id,
            forall|id: u64| #[trigger] m@.contains_key(id) <==> exists|k: int| 0 <= k < i && #[trigger] datas@[k].id == id,
            forall|id: u64| #[trigger] m@.contains_key(id) ==> m@[id] < i && datas@[m@[id] as int].id == id,
        decreases datas@.len() - i,
    {
        let id = datas[i].id;
        if m.contains_key(&id) {
            proof {
                let k = m@[id] as int;
                assert(datas@[k].id == datas@[i as int].id);
                assert(!frame_ids_unique(datas@));
            }
            return None;
        }
        m.insert(id, i);
        proof {
            assert forall|q: u64| #[trigger] m@.contains_key(q) <==> exists|k: int| 0 <= k < i + 1 && #[trigger] datas@[k].id == q by {
                if m@.contains_key(q) && q != id {
                    let k = choose|k: int| 0 <= k < i && #[trigger] datas@[k].id == q;
                    assert(0 <= k < i + 1 && datas@[k].id == q);
                }
                if q == id {
                    assert(datas@[i as int].id == q);
                }
            }
            assert forall|a: int, b: int| 0 <= a < b < i + 1 implies #[trigger] datas@[a].id != #[trigger] datas@[b].id by {
                if b == i {
                    if datas@[a].id == id {
                        assert(exists|k: int| 0 <= k < i && #[trigger] datas@[k].id == id);
                    }
                }
            }
        }
        i = i + 1;
    }
    proof {
        assert forall|id: u64| #[trigger] m@.contains_key(id) implies m@[id] as int == frame_index(datas@, id) by {
            lemma_frame_index(datas@, m@[id] as int);
        }
        assert forall|id: u64| #[trigger] m@.contains_key(id) <==> has_frame(datas@, id) by {
            if has_frame(datas@, id) {
                let k = choose|k: int| 0 <= k < datas@.len() && #[trigger] datas@[k].id == id;
                assert(0 <= k < i && datas@[k].id == id);
            }
        }
    }
    Some(m)
}

pub(crate) fn check_frames(nodes: &Vec<StackNode>, di: &HashMap<u64, usize>, datas: Ghost<Seq<StackNodeData>>) -> (r: bool)
    requires
        forall|id: u64| #[trigger] di@.contains_key(id) <==> has_frame(datas@, id),
    ensures
        r == frames_present(nodes@, datas@),
{
    let mut i: usize = 0;
    while i < nodes.len()
        invariant
            i <= nodes@.len(),
            forall|id: u64| #[trigger] di@.contains_key(id) <==> has_frame(datas@, id),
            forall|k: int| 0 <= k < i ==> has_frame(datas@, #[trigger] nodes@[k].stack_node_data_id),
        decreases nodes@.len() - i,
    {
        if !di.contains_key(&nodes[i].stack_node_data_id) {
            return false;
        }
        i = i + 1;
    }
    true
}

pub(crate) fn check_tree(nodes: &Vec<StackNode>, ni: &HashMap<u64, usize>) -> (r: bool)
    requires
        forall|id: u64| #[trigger] ni@.contains_key(id) <==> has_node(nodes@, id),
        forall|id: u64| #[trigger] ni@.contains_key(id) ==> ni@[id] as int == index_of(nodes@, id),
    ensures
        r == tree_shaped(nodes@),
{
    let mut i: usize = 0;
    while i < nodes.len()
        invariant
            i <= nodes@.len(),
            forall|id: u64| #[trigger] ni@.contains_key(id) <==> has_node(nodes@, id),
            forall|id: u64| #[trigger] ni@.contains_key(id) ==> ni@[id] as int == index_of(nodes@, id),
            forall|k: int| 0 <= k < i ==> #[trigger] parent_ok(nodes@, k),
        decreases nodes@.len() - i,
    {
        let n = nodes[i];
        match n.parent_id {
            None => {
                if n.depth != 0 {
                    assert(!parent_ok(nodes@, i as int));
                    return false;
                }
            },
            Some(p) => {
                match ni.get(&p) {
                    None => {
                        assert(!parent_ok(nodes@, i as int));
                        return false;
                    },
                    Some(k) => {
                        let pd = nodes[*k].depth;
                        if pd >= n.depth || pd + 1 != n.depth {
                            assert(!parent_ok(nodes@, i as int));
                            return false;
                        }
                    },
                }
            },
        }
        assert(parent_ok(nodes@, i as int));
        i = i + 1;
    }
    true
}

/// Node indices from the root down to node `i`, following parents.
pub open spec fn chain(nodes: Seq<StackNode>, i: int) -> Seq<int>
    decreases nodes[i].depth,
{
    if 0 <= i < nodes.len() && nodes[i].parent_id is Some {
        let p = index_of(nodes, nodes[i].parent_id->Some_0);
        if 0 <= p < nodes.len() && nodes[p].depth < nodes[i].depth {
            chain(nodes, p).push(i)
        } else {
            seq![i]
        }
    } else {
        seq![i]
    }
}

pub(crate) proof fn lemma_chain(nodes: Seq<StackNode>, i: int)
    requires
        tree_shaped(nodes),
        0 <= i < nodes.len(),
    ensures
        chain(nodes, i).len() == nodes[i].depth + 1,
        chain(nodes, i).last() == i,
        forall|t: int| 0 <= t < chain(nodes, i).len() ==> 0 <= #[trigger] chain(nodes, i)[t] < nodes.len()
            && nodes[chain(nodes, i)[t]].depth == t,
    decreases nodes[i].depth,
{
    assert(parent_ok(nodes, i));
    if nodes[i].parent_id is Some {
        let p = index_of(nodes, nodes[i].parent_id->Some_0);
        lemma_chain(nodes, p);
    }
}

/// The elements of a chain are distinct, and all but its last lie strictly
/// above its last.
pub(crate) proof fn lemma_chain_distinct(nodes: Seq<StackNode>, i: int)
    requires
        tree_shaped(nodes),
        0 <= i < nodes.len(),
    ensures
        chain(nodes, i).no_duplicates(),
        forall|a: int| #[trigger] chain(nodes, i).contains(a) ==> 0 <= a < nodes.len() && nodes[a].depth <= nodes[i].depth
            && (a != i ==> nodes[a].depth < nodes[i].depth),
{
    lemma_chain(nodes, i);
    let c = chain(nodes, i);
    assert forall|x: int, y: int| 0 <= x < c.len() && 0 <= y < c.len() && x != y implies c[x] != c[y] by {
        assert(nodes[c[x]].depth == x);
        assert(nodes[c[y]].depth == y);
    }
    assert forall|a: int| #[trigger] c.contains(a) implies 0 <= a < nodes.len() && nodes[a].depth <= nodes[i].depth
        && (a != i ==> nodes[a].depth < nodes[i].depth) by {
        let t = choose|t: int| 0 <= t < c.len() && c[t] == a;
        assert(nodes[c[t]].depth == t);
        if t == c.len() - 1 {
            assert(c[t] == i);
        }
    }
}

pub(crate) proof fn lemma_filter_indices(n: nat, p: spec_fn(int) -> bool)
    ensures
        forall|a: int, b: int| 0 <= a < b < indices(n).filter(p).len() ==> #[trigger] indices(n).filter(p)[a] < #[trigger] indices(n).filter(p)[b],
        forall|a: int| 0 <= a < indices(n).filter(p).len() ==> 0 <= #[trigger] indices(n).filter(p)[a] < n && p(indices(n).filter(p)[a]),
        forall|x: int| 0 <= x < n && p(x) ==> #[trigger] indices(n).filter(p).contains(x),
    decreases n,
{
    reveal(Seq::filter);
    if n > 0 {
        let m = (n - 1) as nat;
        lemma_filter_indices(m, p);
        assert(indices(n).drop_last() =~= indices(m));
        let f0 = indices(m).filter(p);
        let f = indices(n).filter(p);
        assert forall|x: int| 0 <= x < n && p(x) implies #[trigger] f.contains(x) by {
            if x == n - 1 {
                assert(f[f.len() - 1] == x);
            } else {
                assert(f0.contains(x));
                let k = choose|k: int| 0 <= k < f0.len() && f0[k] == x;
                assert(f[k] == x);
            }
        }
    }
}

pub(crate) proof fn lemma_children(nodes: Seq<StackNode>, i: int)
    ensures
        children_of(nodes, i).no_duplicates(),
        forall|a: int| 0 <= a < children_of(nodes, i).len() ==> 0 <= #[trigger] children_of(nodes, i)[a] < nodes.len()
            && nodes[children_of(nodes, i)[a]].parent_id == Some(nodes[i].id),
        forall|x: int| 0 <= x < nodes.len() && nodes[x].parent_id == Some(nodes[i].id) ==> #[trigger] children_of(nodes, i).contains(x),
{
    let p = parent_is(nodes, Some(nodes[i].id));
    lemma_filter_indices(nodes.len(), p);
    let c = children_of(nodes, i);
    assert forall|a: int, b: int| 0 <= a < c.len() && 0 <= b < c.len() && a != b implies c[a] != c[b] by {
        if a < b {
            assert(c[a] < c[b]);
        } else {
            assert(c[b] < c[a]);
        }
    }
    assert forall|x: int| 0 <= x < nodes.len() && nodes[x].parent_id == Some(nodes[i].id) implies #[trigger] c.contains(x) by {
        assert(p(x));
    }
}

pub(crate) proof fn lemma_chain_parent(nodes: Seq<StackNode>, i: int, t: int)
    requires
        tree_shaped(nodes),
        0 <= i < nodes.len(),
        0 <= t < chain(nodes, i).len(),
    ensures
        t == 0 ==> nodes[chain(nodes, i)[t]].parent_id is None,
        t > 0 ==> nodes[chain(nodes, i)[t]].parent_id == Some(nodes[chain(nodes, i)[t - 1]].id),
    decreases nodes[i].depth,
{
    lemma_chain(nodes, i);
    let c = chain(nodes, i);
    assert(parent_ok(nodes, c[t]));
    if nodes[i].parent_id is Some {
        let p = index_of(nodes, nodes[i].parent_id->Some_0);
        assert(parent_ok(nodes, i));
        lemma_chain(nodes, p);
        if t < c.len() - 1 {
            lemma_chain_parent(nodes, p, t);
        }
    }
}

/// A chain member whose parent is node `a` sits right after `a` in the chain.
pub(crate) proof fn lemma_chain_child(nodes: Seq<StackNode>, j: int, a: int, y: int)
    requires
        tree_shaped(nodes),
        node_ids_unique(nodes),
        0 <= j < nodes.len(),
        0 <= a < nodes.len(),
        chain(nodes, j).contains(y),
        nodes[y].parent_id == Some(nodes[a].id),
    ensures
        exists|s: int| 1 <= s < chain(nodes, j).len() && #[trigger] chain(nodes, j)[s] == y && chain(nodes, j)[s - 1] == a,
{
    lemma_chain(nodes, j);
    let ch = chain(nodes, j);
    let s = choose|s: int| 0 <= s < ch.len() && ch[s] == y;
    lemma_chain_parent(nodes, j, s);
    if s > 0 {
        let b = ch[s - 1];
        if b != a {
            if a < b {
                assert(nodes[a].id != nodes[b].id);
            } else {
                assert(nodes[b].id != nodes[a].id);
            }
        }
    }
}

} // verus!

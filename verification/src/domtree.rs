//! A graph of numbered nodes, each with its list of successors, and the
//! tree of parents that a depth-first search from a start node builds.
use vstd::prelude::*;
use crate::rdef::kpos;
use crate::traversal::lemma_visit_depth;

verus! {

/// A node and the nodes that follow it.
#[derive(Debug)]
pub struct CFGNode {
    pub id: usize,
    pub successors: Vec<usize>,
}

/// A graph of numbered nodes: each number with its node, at most once.
#[derive(Debug)]
pub struct ControlFlowGraph {
    pub nodes: Vec<(usize, CFGNode)>,
}

/// The successor lists of a node list, by number.
pub open spec fn adjacency(nodes: Seq<(usize, CFGNode)>) -> Seq<(usize, Seq<usize>)> {
    nodes.map_values(|p: (usize, CFGNode)| (p.0, p.1.successors@))
}

/// The successors of node `n`: those of its first entry, or none.
pub open spec fn succ_list(adj: Seq<(usize, Seq<usize>)>, n: usize) -> Seq<usize> {
    if kpos(adj, n) >= 0 {
        adj[kpos(adj, n)].1
    } else {
        Seq::empty()
    }
}

/// Sets the entry of key `k` to `b`: the first entry with that key, or a new one at the end.
pub open spec fn put_entry<B>(s: Seq<(usize, B)>, k: usize, b: B) -> Seq<(usize, B)> {
    if kpos(s, k) >= 0 {
        s.update(kpos(s, k), (k, b))
    } else {
        s.push((k, b))
    }
}

/// Every node number and every successor, in order.
pub open spec fn all_numbers(adj: Seq<(usize, Seq<usize>)>) -> Seq<usize>
    decreases adj.len(),
{
    if adj.len() == 0 {
        Seq::empty()
    } else {
        all_numbers(adj.drop_last()).push(adj.last().0) + adj.last().1
    }
}

/// The depth-first visit of node `n` that records parents: `n` is marked
/// visited; each successor in order that is not visited yet gets `n` as its
/// parent and is visited. The search goes at most `fuel` levels deep.
pub open spec fn dt_visit(
    adj: Seq<(usize, Seq<usize>)>,
    fuel: nat,
    n: usize,
    vis: Set<usize>,
    dom: Seq<(usize, usize)>,
) -> (Set<usize>, Seq<(usize, usize)>)
    decreases fuel, 0int,
{
    if fuel == 0 {
        (vis, dom)
    } else {
        dt_list(adj, (fuel - 1) as nat, succ_list(adj, n), 0, n, vis.insert(n), dom)
    }
}

/// The steps of [`dt_visit`] of `parent` for its successors from position `k` on.
pub open spec fn dt_list(
    adj: Seq<(usize, Seq<usize>)>,
    fuel: nat,
    succs: Seq<usize>,
    k: int,
    parent: usize,
    vis: Set<usize>,
    dom: Seq<(usize, usize)>,
) -> (Set<usize>, Seq<(usize, usize)>)
    decreases fuel, succs.len() - k,
{
    if k < 0 || k >= succs.len() {
        (vis, dom)
    } else {
        let (v1, d1) = if !vis.contains(succs[k]) {
            dt_visit(adj, fuel, succs[k], vis, put_entry(dom, succs[k], parent))
        } else {
            (vis, dom)
        };
        dt_list(adj, fuel, succs, k + 1, parent, v1, d1)
    }
}

/// The depth a visit of `n` needs: the unvisited numbers among `n` and the graph's.
pub open spec fn dt_depth(adj: Seq<(usize, Seq<usize>)>, n: usize, vis: Set<usize>) -> nat {
    all_numbers(adj).to_set().insert(n).difference(vis).len() + if vis.contains(n) {
        1nat
    } else {
        0nat
    }
}

/// Every recorded child other than `start` has an edge from its recorded
/// parent, and `start` is recorded as its own parent.
pub open spec fn parent_edges(adj: Seq<(usize, Seq<usize>)>, dom: Seq<(usize, usize)>, start: usize) -> bool {
    &&& forall|j: int| 0 <= j < dom.len() ==> (#[trigger] dom[j]).0 == start || succ_list(adj, dom[j].1).contains(dom[j].0)
    &&& kpos(dom, start) >= 0
    &&& dom[kpos(dom, start)].1 == start
}

/// The first position of a key: in range, holding the key, with none before.
pub proof fn lemma_kpos<K, B>(s: Seq<(K, B)>, k: K)
    ensures
        -1 <= kpos(s, k) < s.len(),
        kpos(s, k) >= 0 ==> s[kpos(s, k)].0 == k,
        kpos(s, k) >= 0 ==> forall|j: int| 0 <= j < kpos(s, k) ==> s[j].0 != k,
        kpos(s, k) == -1 <==> forall|j: int| 0 <= j < s.len() ==> s[j].0 != k,
    decreases s.len(),
{
    if s.len() > 0 {
        lemma_kpos(s.drop_first(), k);
        assert forall|j: int| 1 <= j < s.len() implies s[j] == s.drop_first()[j - 1] by {}
    }
}

/// Two lists with the same key at every position have the same first positions.
pub proof fn lemma_kpos_same_keys<K, A, B>(s: Seq<(K, A)>, t: Seq<(K, B)>, k: K)
    requires
        s.len() == t.len(),
        forall|j: int| 0 <= j < s.len() ==> #[trigger] s[j].0 == t[j].0,
    ensures
        kpos(s, k) == kpos(t, k),
{
    lemma_kpos(s, k);
    lemma_kpos(t, k);
    let p = kpos(s, k);
    let q = kpos(t, k);
    if p >= 0 {
        assert(t[p].0 == k);
    }
    if q >= 0 {
        assert(s[q].0 == k);
    }
}

/// Setting an entry keeps the first positions of the keys that were there.
pub proof fn lemma_put_entry_kpos<B>(s: Seq<(usize, B)>, k: usize, b: B, q: usize)
    ensures
        kpos(s, q) >= 0 ==> kpos(put_entry(s, k, b), q) == kpos(s, q),
        kpos(put_entry(s, k, b), k) >= 0,
        kpos(s, k) >= 0 ==> kpos(put_entry(s, k, b), k) == kpos(s, k),
        kpos(s, k) < 0 ==> kpos(put_entry(s, k, b), k) == s.len(),
        put_entry(s, k, b)[kpos(put_entry(s, k, b), k)] == (k, b),
{
    lemma_kpos(s, k);
    lemma_kpos(s, q);
    let t = put_entry(s, k, b);
    lemma_kpos(t, q);
    lemma_kpos(t, k);
    if kpos(s, k) >= 0 {
        lemma_kpos_same_keys(s, t, q);
        lemma_kpos_same_keys(s, t, k);
    } else {
        if kpos(s, q) >= 0 {
            assert(t[kpos(s, q)].0 == q);
            assert forall|j: int| 0 <= j < kpos(s, q) implies t[j].0 != q by {
                assert(t[j] == s[j]);
            }
        }
        assert(t[s.len() as int].0 == k);
        assert forall|j: int| 0 <= j < s.len() implies t[j].0 != k by {
            assert(t[j] == s[j]);
        }
    }
}

/// Every successor of a node is among the numbers of the graph.
pub proof fn lemma_succ_in_numbers(adj: Seq<(usize, Seq<usize>)>, n: usize, s: usize)
    requires
        succ_list(adj, n).contains(s),
    ensures
        all_numbers(adj).contains(s),
{
    lemma_kpos(adj, n);
    lemma_entry_in_numbers(adj, kpos(adj, n), s);
}

/// The successors of each entry are among the numbers of the graph.
proof fn lemma_entry_in_numbers(adj: Seq<(usize, Seq<usize>)>, i: int, s: usize)
    requires
        0 <= i < adj.len(),
        adj[i].1.contains(s),
    ensures
        all_numbers(adj).contains(s),
    decreases adj.len(),
{
    let init = adj.drop_last();
    let a = all_numbers(init).push(adj.last().0);
    let j = choose|j: int| 0 <= j < adj[i].1.len() && adj[i].1[j] == s;
    if i == adj.len() - 1 {
        assert((a + adj.last().1)[a.len() + j] == s);
    } else {
        assert(init[i] == adj[i]);
        lemma_entry_in_numbers(init, i, s);
        let m = choose|m: int| 0 <= m < all_numbers(init).len() && all_numbers(init)[m] == s;
        assert((a + adj.last().1)[m] == s);
    }
}

/// Whether `x` is on the list.
pub(crate) fn contains_number(v: &Vec<usize>, x: usize) -> (r: bool)
    ensures
        r == v@.contains(x),
{
    let mut i: usize = 0;
    while i < v.len()
        invariant
            i <= v@.len(),
            forall|j: int| 0 <= j < i ==> v@[j] != x,
        decreases v.len() - i,
    {
        if v[i] == x {
            return true;
        }
        i += 1;
    }
    false
}

/// The first position of key `k`, if any.
pub(crate) fn find_number<B>(v: &Vec<(usize, B)>, k: usize) -> (r: Option<usize>)
    ensures
        match r {
            Some(i) => kpos(v@, k) == i && i < v@.len(),
            None => kpos(v@, k) == -1,
        },
{
    proof {
        lemma_kpos(v@, k);
    }
    let mut i: usize = 0;
    while i < v.len()
        invariant
            i <= v@.len(),
            forall|j: int| 0 <= j < i ==> v@[j].0 != k,
            kpos(v@, k) == -1 <==> forall|j: int| 0 <= j < v@.len() ==> v@[j].0 != k,
            kpos(v@, k) >= 0 ==> v@[kpos(v@, k)].0 == k && forall|j: int| 0 <= j < kpos(v@, k) ==> v@[j].0 != k,
            -1 <= kpos(v@, k) < v@.len(),
        decreases v.len() - i,
    {
        if v[i].0 == k {
            return Some(i);
        }
        i += 1;
    }
    None
}

/// Records `p` as the parent of `c`.
fn put_parent(dom: &mut Vec<(usize, usize)>, c: usize, p: usize)
    ensures
        final(dom)@ == put_entry(old(dom)@, c, p),
{
    match find_number(dom, c) {
        Some(i) => {
            dom.set(i, (c, p));
        },
        None => {
            dom.push((c, p));
        },
    }
}

impl ControlFlowGraph {
    /// A graph without nodes.
    pub fn new() -> (r: Self)
        ensures
            r.nodes@.len() == 0,
    {
        ControlFlowGraph { nodes: Vec::new() }
    }

    /// The successor lists of the graph, by number.
    pub open spec fn adj(&self) -> Seq<(usize, Seq<usize>)> {
        adjacency(self.nodes@)
    }

    /// Sets node `id` with its successors, in place of any node of that number.
    pub fn add_node(&mut self, id: usize, successors: Vec<usize>)
        ensures
            final(self).adj() == put_entry(old(self).adj(), id, successors@),
            final(self).nodes@[kpos(final(self).adj(), id)].1.id == id,
    {
        let ghost a = self.adj();
        let ghost sv = successors@;
        proof {
            lemma_kpos_same_keys(self.nodes@, a, id);
        }
        let node = CFGNode { id, successors };
        let ghost pos: int;
        match find_number(&self.nodes, id) {
            Some(i) => {
                self.nodes.set(i, (id, node));
                proof {
                    pos = i as int;
                }
            },
            None => {
                self.nodes.push((id, node));
                proof {
                    pos = self.nodes@.len() - 1;
                }
            },
        }
        assert(self.nodes@[pos].1.id == id);
        assert(self.adj() =~= put_entry(a, id, sv));
        proof {
            lemma_put_entry_kpos(a, id, sv, id);
            lemma_kpos_same_keys(self.nodes@, self.adj(), id);
            assert(kpos(self.adj(), id) == pos);
        }
    }

    /// The depth-first visit with an explicit depth.
    fn dfs_fuel(
        &self,
        current_node_id: usize,
        dominators: &mut Vec<(usize, usize)>,
        visited: &mut Vec<usize>,
        Ghost(fuel): Ghost<nat>,
        Ghost(start): Ghost<usize>,
    )
        requires
            fuel >= dt_depth(self.adj(), current_node_id, old(visited)@.to_set()),
        ensures
            (final(visited)@.to_set(), final(dominators)@) == dt_visit(
                self.adj(),
                fuel,
                current_node_id,
                old(visited)@.to_set(),
                old(dominators)@,
            ),
            old(visited)@.to_set().insert(current_node_id).subset_of(final(visited)@.to_set()),
            parent_edges(self.adj(), old(dominators)@, start) && (old(visited)@.to_set().contains(start)
                || current_node_id == start) ==> parent_edges(self.adj(), final(dominators)@, start),
        decreases fuel,
    {
        let ghost adj = self.adj();
        let ghost v0 = visited@.to_set();
        let ghost law = parent_edges(adj, dominators@, start) && (v0.contains(start) || current_node_id == start);
        proof {
            vstd::seq_lib::seq_to_set_is_finite(all_numbers(adj));
            if !v0.contains(current_node_id) {
                assert(all_numbers(adj).to_set().insert(current_node_id).difference(v0).contains(current_node_id));
            }
        }
        if !contains_number(visited, current_node_id) {
            let ghost old_v = visited@;
            visited.push(current_node_id);
            proof {
                Seq::lemma_to_set_insert_commutes(old_v, current_node_id);
                assert(visited@ =~= old_v + seq![current_node_id]);
                assert(old_v.push(current_node_id) =~= old_v + seq![current_node_id]);
            }
        }
        assert(visited@.to_set() =~= v0.insert(current_node_id));
        let ghost succs = succ_list(adj, current_node_id);
        proof {
            lemma_kpos_same_keys(self.nodes@, adj, current_node_id);
            lemma_kpos(adj, current_node_id);
        }
        match find_number(&self.nodes, current_node_id) {
            Some(i) => {
                let node = &self.nodes[i].1;
                assert(node.successors@ == succs);
                let mut k: usize = 0;
                while k < node.successors.len()
                    invariant
                        k <= node.successors@.len(),
                        succs == node.successors@,
                        adj == self.adj(),
                        succs == succ_list(adj, current_node_id),
                        fuel >= 1,
                        all_numbers(adj).to_set().finite(),
                        fuel >= dt_depth(adj, current_node_id, v0),
                        v0.insert(current_node_id).subset_of(visited@.to_set()),
                        law ==> visited@.to_set().contains(start),
                        law ==> parent_edges(adj, dominators@, start),
                        law == (parent_edges(adj, old(dominators)@, start) && (v0.contains(start) || current_node_id == start)),
                        dt_list(adj, (fuel - 1) as nat, succs, 0, current_node_id, v0.insert(current_node_id), old(dominators)@)
                            == dt_list(adj, (fuel - 1) as nat, succs, k as int, current_node_id, visited@.to_set(), dominators@),
                    decreases node.successors.len() - k,
                {
                    let s = node.successors[k];
                    let ghost vk = visited@.to_set();
                    assert(succs.contains(s)) by {
                        assert(succs[k as int] == s);
                    }
                    if !contains_number(visited, s) {
                        proof {
                            lemma_succ_in_numbers(adj, current_node_id, s);
                            lemma_visit_depth(all_numbers(adj).to_set(), v0, vk, current_node_id, s);
                            let d = dominators@;
                            let d2 = put_entry(d, s, current_node_id);
                            lemma_put_entry_kpos(d, s, current_node_id, start);
                            lemma_kpos(d, s);
                            if law {
                            assert(s != start);
                            assert forall|j: int| 0 <= j < d2.len() implies (#[trigger] d2[j]).0 == start || succ_list(
                                adj,
                                d2[j].1,
                            ).contains(d2[j].0) by {
                                if j < d.len() && d2[j] == d[j] {
                                } else {
                                    assert(d2[j] == (s, current_node_id));
                                }
                            }
                            lemma_kpos(d, start);
                            let ks = kpos(d, start);
                            assert(d[ks].0 == start);
                            assert(d2[ks] == d[ks]);
                            assert(parent_edges(adj, d2, start));
                            }
                        }
                        put_parent(dominators, s, current_node_id);
                        self.dfs_fuel(s, dominators, visited, Ghost((fuel - 1) as nat), Ghost(start));
                    }
                    k += 1;
                }
            },
            None => {
                assert(succs =~= Seq::<usize>::empty());
            },
        }
    }

    /// The depth-first visit of `current_node_id` that records, for each
    /// node it reaches first, the node it came from; see [`dt_visit`].
    pub fn dfs(&self, current_node_id: usize, dominators: &mut Vec<(usize, usize)>, visited: &mut Vec<usize>)
        ensures
            (final(visited)@.to_set(), final(dominators)@) == dt_visit(
                self.adj(),
                dt_depth(self.adj(), current_node_id, old(visited)@.to_set()),
                current_node_id,
                old(visited)@.to_set(),
                old(dominators)@,
            ),
    {
        let ghost f = dt_depth(self.adj(), current_node_id, visited@.to_set());
        self.dfs_fuel(current_node_id, dominators, visited, Ghost(f), Ghost(current_node_id));
    }

    /// The tree of first-reaching nodes of a depth-first search from
    /// `start_node_id`: each node that the search reaches, with the node it
    /// came from, and the start node with itself; see [`dt_visit`]. Every
    /// recorded node but the start has an edge from the node recorded with it.
    pub fn compute_dominator_tree(&self, start_node_id: usize) -> (r: Vec<(usize, usize)>)
        ensures
            r@ == dt_visit(
                self.adj(),
                dt_depth(self.adj(), start_node_id, Set::empty()),
                start_node_id,
                Set::empty(),
                seq![(start_node_id, start_node_id)],
            ).1,
            parent_edges(self.adj(), r@, start_node_id),
    {
        let mut dominators: Vec<(usize, usize)> = Vec::new();
        dominators.push((start_node_id, start_node_id));
        let mut visited: Vec<usize> = Vec::new();
        assert(visited@.to_set() =~= Set::<usize>::empty());
        proof {
            lemma_kpos(dominators@, start_node_id);
        }
        let ghost f = dt_depth(self.adj(), start_node_id, Set::empty());
        self.dfs_fuel(start_node_id, &mut dominators, &mut visited, Ghost(f), Ghost(start_node_id));
        dominators
    }
}

} // verus!

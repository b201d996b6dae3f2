//! A directed graph of numbered nodes, each with the list of nodes its
//! edges lead to: reachability, loop headers and dominators.
use vstd::prelude::*;
use crate::domtree::{all_numbers, contains_number, find_number, lemma_kpos, lemma_succ_in_numbers, succ_list};
use crate::rdef::kpos;
use crate::traversal::{
    closed_beyond, fresh_visit, is_walk, lemma_back_edge_cycle, lemma_visit_depth, lemma_closed_beyond_release, lemma_closed_beyond_trans,
    lemma_closed_walk, lemma_measure_shrinks, lemma_reaches_prepend, lemma_remove_unique, lemma_walk_push, lh_inv,
    on_cycle, reaches,
};

verus! {

/// A directed graph: each source node with the targets of its edges, in the
/// order they were added.
#[derive(Debug)]
pub struct Graph {
    pub edges: Vec<(usize, Vec<usize>)>,
}

/// The target lists of an edge table, by source.
pub open spec fn table_view(t: Seq<(usize, Vec<usize>)>) -> Seq<(usize, Seq<usize>)> {
    t.map_values(|p: (usize, Vec<usize>)| (p.0, p.1@))
}

/// No source occurs twice.
pub open spec fn keys_unique(adj: Seq<(usize, Seq<usize>)>) -> bool {
    forall|i: int, j: int| 0 <= i < j < adj.len() ==> adj[i].0 != adj[j].0
}

/// The edges of one source, in order.
pub open spec fn entry_pairs(k: usize, ts: Seq<usize>) -> Seq<(usize, usize)> {
    ts.map_values(|t: usize| (k, t))
}

/// All edges as pairs, source by source.
pub open spec fn edge_pairs(adj: Seq<(usize, Seq<usize>)>) -> Seq<(usize, usize)>
    decreases adj.len(),
{
    if adj.len() == 0 {
        Seq::empty()
    } else {
        edge_pairs(adj.drop_last()) + entry_pairs(adj.last().0, adj.last().1)
    }
}

/// The table after adding an edge: the target is appended to the list of
/// the source, which gets a list of its own if it had none.
pub open spec fn add_target(adj: Seq<(usize, Seq<usize>)>, from: usize, to: usize) -> Seq<(usize, Seq<usize>)> {
    let k = kpos(adj, from);
    if k >= 0 {
        adj.update(k, (from, adj[k].1.push(to)))
    } else {
        adj.push((from, seq![to]))
    }
}

/// An edge is a pair of some entry.
pub proof fn lemma_edge_pairs(adj: Seq<(usize, Seq<usize>)>, a: usize, b: usize)
    ensures
        edge_pairs(adj).contains((a, b)) <==> exists|i: int| 0 <= i < adj.len() && adj[i].0 == a && (#[trigger] adj[i].1).contains(b),
    decreases adj.len(),
{
    if adj.len() > 0 {
        let init = adj.drop_last();
        lemma_edge_pairs(init, a, b);
        let ep = edge_pairs(init);
        let last = entry_pairs(adj.last().0, adj.last().1);
        if edge_pairs(adj).contains((a, b)) {
            let j = choose|j: int| 0 <= j < ep.len() + last.len() && (ep + last)[j] == (a, b);
            if j < ep.len() {
                assert(ep[j] == (a, b));
                let i = choose|i: int| 0 <= i < init.len() && init[i].0 == a && (#[trigger] init[i].1).contains(b);
                assert(adj[i] == init[i]);
            } else {
                assert(last[j - ep.len()] == (a, b));
                assert(adj.last().1[j - ep.len()] == b);
                assert(adj[adj.len() - 1].1.contains(b));
            }
        }
        if exists|i: int| 0 <= i < adj.len() && adj[i].0 == a && (#[trigger] adj[i].1).contains(b) {
            let i = choose|i: int| 0 <= i < adj.len() && adj[i].0 == a && (#[trigger] adj[i].1).contains(b);
            if i < init.len() {
                assert(init[i] == adj[i]);
                assert(init[i].1.contains(b));
                let j = choose|j: int| 0 <= j < ep.len() && ep[j] == (a, b);
                assert((ep + last)[j] == (a, b));
            } else {
                let m = choose|m: int| 0 <= m < adj.last().1.len() && adj.last().1[m] == b;
                assert(last[m] == (a, b));
                assert((ep + last)[ep.len() + m] == (a, b));
            }
        }
    }
}

/// With distinct sources, the edges from `a` are those of its list.
pub proof fn lemma_edges_of(adj: Seq<(usize, Seq<usize>)>, a: usize, b: usize)
    requires
        keys_unique(adj),
    ensures
        edge_pairs(adj).contains((a, b)) == succ_list(adj, a).contains(b),
{
    lemma_edge_pairs(adj, a, b);
    lemma_kpos(adj, a);
    if edge_pairs(adj).contains((a, b)) {
        let i = choose|i: int| 0 <= i < adj.len() && adj[i].0 == a && (#[trigger] adj[i].1).contains(b);
        assert(kpos(adj, a) == i) by {
            if kpos(adj, a) < i {
                assert(adj[kpos(adj, a)].0 == a);
            }
        }
    }
    if succ_list(adj, a).contains(b) {
        let k = kpos(adj, a);
        assert(adj[k].1.contains(b));
    }
}

impl Graph {
    /// The edge table, by source.
    pub open spec fn adj(&self) -> Seq<(usize, Seq<usize>)> {
        table_view(self.edges@)
    }

    /// The edges as pairs.
    pub open spec fn edge_seq(&self) -> Seq<(usize, usize)> {
        edge_pairs(self.adj())
    }

    /// No source occurs twice in the table.
    pub open spec fn wf(&self) -> bool {
        keys_unique(self.adj())
    }

    /// A graph without edges.
    pub fn new() -> (r: Self)
        ensures
            r.adj().len() == 0,
            r.wf(),
    {
        Graph { edges: Vec::new() }
    }

    /// Adds an edge from `from` to `to`.
    pub fn add_edge(&mut self, from: usize, to: usize)
        requires
            old(self).wf(),
        ensures
            final(self).adj() == add_target(old(self).adj(), from, to),
            final(self).wf(),
    {
        let ghost a = self.adj();
        proof {
            crate::domtree::lemma_kpos_same_keys(self.edges@, a, from);
            lemma_kpos(a, from);
        }
        match find_number(&self.edges, from) {
            Some(i) => {
                let (k, mut list) = self.edges.remove(i);
                list.push(to);
                self.edges.insert(i, (k, list));
                assert(self.adj() =~= add_target(a, from, to));
            },
            None => {
                let mut list: Vec<usize> = Vec::new();
                list.push(to);
                self.edges.push((from, list));
                assert(self.adj() =~= add_target(a, from, to));
            },
        }
    }

    /// The depth-first search for a path from `node` to `target` that avoids
    /// the visited nodes (but may end at `target`). When it finds none, the
    /// nodes it newly visited, `node` among them, have all their successors
    /// visited.
    #[verifier::rlimit(40)]
    pub fn dfs1(&self, node: usize, target: usize, visited: &mut Vec<usize>) -> (r: bool)
        requires
            self.wf(),
        ensures
            old(visited)@.to_set().subset_of(final(visited)@.to_set()),
            r ==> reaches(self.edge_seq(), node, target),
            !r ==> node != target && final(visited)@.to_set().contains(node),
            !r && !old(visited)@.to_set().contains(target) ==> !final(visited)@.to_set().contains(target),
            !r ==> closed_beyond(self.edge_seq(), final(visited)@.to_set(), old(visited)@.to_set()),
        decreases all_numbers(self.adj()).to_set().insert(node).difference(old(visited)@.to_set()).len(),
    {
        let ghost e = self.edge_seq();
        let ghost adj = self.adj();
        if node == target {
            proof {
                let p = seq![node];
                assert(is_walk(e, p));
            }
            return true;
        }
        if contains_number(visited, node) {
            assert(closed_beyond(e, visited@.to_set(), visited@.to_set())) by {
                reveal(closed_beyond);
            }
            return false;
        }
        let ghost v0 = visited@.to_set();
        let ghost sv0 = visited@;
        visited.push(node);
        proof {
            assert(visited@ =~= sv0 + seq![node]);
            Seq::lemma_to_set_insert_commutes(sv0, node);
        }
        assert(visited@.to_set() =~= v0.insert(node));
        assert(closed_beyond(e, visited@.to_set(), v0.insert(node))) by {
            reveal(closed_beyond);
        }
        proof {
            crate::domtree::lemma_kpos_same_keys(self.edges@, adj, node);
            lemma_kpos(adj, node);
        }
        let ghost succs = succ_list(adj, node);
        match find_number(&self.edges, node) {
            Some(i) => {
                let neighbors = &self.edges[i].1;
                assert(neighbors@ == succs);
                let mut k: usize = 0;
                while k < neighbors.len()
                    invariant
                        k <= neighbors@.len(),
                        succs == neighbors@,
                        succs == succ_list(adj, node),
                        e == self.edge_seq(),
                        adj == self.adj(),
                        self.wf(),
                        !v0.contains(node),
                        node != target,
                        v0 == old(visited)@.to_set(),
                        v0.insert(node).subset_of(visited@.to_set()),
                        !v0.contains(target) ==> !visited@.to_set().contains(target),
                        forall|j: int| 0 <= j < k ==> visited@.to_set().contains(#[trigger] succs[j]),
                        closed_beyond(e, visited@.to_set(), v0.insert(node)),
                    decreases neighbors.len() - k,
                {
                    let ghost vk = visited@.to_set();
                    let next = neighbors[k];
                    proof {
                        assert(succs[k as int] == next);
                        assert(succs.contains(next));
                        lemma_edges_of(adj, node, next);
                        lemma_succ_in_numbers(adj, node, next);
                        vstd::seq_lib::seq_to_set_is_finite(all_numbers(adj));
                        lemma_measure_shrinks(all_numbers(adj).to_set(), v0, vk, node, next);
                    }
                    if self.dfs1(next, target, visited) {
                        proof {
                            lemma_reaches_prepend(e, node, next, target);
                        }
                        return true;
                    }
                    proof {
                        lemma_closed_beyond_trans(e, vk, visited@.to_set(), v0.insert(node));
                        assert forall|j: int| 0 <= j < k + 1 implies visited@.to_set().contains(#[trigger] succs[j]) by {
                            if j < k {
                                assert(vk.contains(succs[j]));
                            }
                        }
                    }
                    k += 1;
                }
            },
            None => {
                assert(succs =~= Seq::<usize>::empty());
            },
        }
        proof {
            assert forall|y: usize| #[trigger] e.contains((node, y)) implies visited@.to_set().contains(y) by {
                lemma_edges_of(adj, node, y);
                let j = choose|j: int| 0 <= j < succs.len() && succs[j] == y;
            }
            lemma_closed_beyond_release(e, visited@.to_set(), v0, node);
        }
        false
    }

    /// Whether a path leads from `src` to `dst` (every node reaches itself).
    pub fn is_path(&self, src: usize, dst: usize) -> (r: bool)
        requires
            self.wf(),
        ensures
            r == reaches(self.edge_seq(), src, dst),
    {
        let mut visited: Vec<usize> = Vec::new();
        assert(visited@.to_set() =~= Set::<usize>::empty());
        let r = self.dfs1(src, dst, &mut visited);
        proof {
            if !r && reaches(self.edge_seq(), src, dst) {
                let p = choose|p: Seq<usize>| #[trigger] is_walk(self.edge_seq(), p) && p[0] == src && p.last() == dst;
                reveal(closed_beyond);
                lemma_closed_walk(self.edge_seq(), visited@.to_set(), p, p.len() - 1);
            }
        }
        r
    }

    /// Whether the edge from `start` to `end` lies on a cycle: each reaches the other.
    pub fn is_edge_in_cycle(&self, start: usize, end: usize) -> (r: bool)
        requires
            self.wf(),
        ensures
            r == (reaches(self.edge_seq(), start, end) && reaches(self.edge_seq(), end, start)),
    {
        if self.is_path(start, end) && self.is_path(end, start) {
            return true;
        }
        false
    }
}

// ------------------------------------------------------------------
// Loop headers
// ------------------------------------------------------------------

/// A depth-first visit of `n` that records loop headers: `n` is marked
/// visited, pushed on the stack and put on the current path; for each
/// successor in order, an unvisited one is visited, and a visited one that
/// is on the current path is a loop header; then `n` leaves the stack and
/// the path. The search goes at most `fuel` levels deep.
pub open spec fn hv_visit(
    adj: Seq<(usize, Seq<usize>)>,
    fuel: nat,
    n: usize,
    vis: Set<usize>,
    stack: Seq<usize>,
    path: Set<usize>,
    hdrs: Set<usize>,
) -> (Set<usize>, Seq<usize>, Set<usize>, Set<usize>)
    decreases fuel, 0int,
{
    if fuel == 0 {
        (vis, stack, path, hdrs)
    } else {
        let (v1, s1, p1, h1) = hv_list(
            adj,
            (fuel - 1) as nat,
            succ_list(adj, n),
            0,
            vis.insert(n),
            stack.push(n),
            path.insert(n),
            hdrs,
        );
        (
            v1,
            if s1.len() > 0 {
                s1.drop_last()
            } else {
                s1
            },
            p1.remove(n),
            h1,
        )
    }
}

/// The steps of [`hv_visit`] for the successors `succs` from position `k` on.
pub open spec fn hv_list(
    adj: Seq<(usize, Seq<usize>)>,
    fuel: nat,
    succs: Seq<usize>,
    k: int,
    vis: Set<usize>,
    stack: Seq<usize>,
    path: Set<usize>,
    hdrs: Set<usize>,
) -> (Set<usize>, Seq<usize>, Set<usize>, Set<usize>)
    decreases fuel, succs.len() - k,
{
    if k < 0 || k >= succs.len() {
        (vis, stack, path, hdrs)
    } else {
        let (v1, s1, p1, h1) = if !vis.contains(succs[k]) {
            hv_visit(adj, fuel, succs[k], vis, stack, path, hdrs)
        } else if path.contains(succs[k]) {
            (vis, stack, path, hdrs.insert(succs[k]))
        } else {
            (vis, stack, path, hdrs)
        };
        hv_list(adj, fuel, succs, k + 1, v1, s1, p1, h1)
    }
}

/// The depth a visit of `n` needs: the unvisited numbers among `n` and the graph's.
pub open spec fn hv_depth(adj: Seq<(usize, Seq<usize>)>, n: usize, vis: Set<usize>) -> nat {
    all_numbers(adj).to_set().insert(n).difference(vis).len() + if vis.contains(n) {
        1nat
    } else {
        0nat
    }
}

/// The visits of [`hv_visit`] for the unvisited sources of the table from position `k` on.
pub open spec fn hv_from(
    adj: Seq<(usize, Seq<usize>)>,
    k: int,
    vis: Set<usize>,
    stack: Seq<usize>,
    path: Set<usize>,
    hdrs: Set<usize>,
) -> (Set<usize>, Seq<usize>, Set<usize>, Set<usize>)
    decreases adj.len() - k,
{
    if k < 0 || k >= adj.len() {
        (vis, stack, path, hdrs)
    } else {
        let (v1, s1, p1, h1) = if !vis.contains(adj[k].0) {
            hv_visit(adj, hv_depth(adj, adj[k].0, vis), adj[k].0, vis, stack, path, hdrs)
        } else {
            (vis, stack, path, hdrs)
        };
        hv_from(adj, k + 1, v1, s1, p1, h1)
    }
}

/// Adds a number to a list that stands for a set.
fn number_insert(v: &mut Vec<usize>, x: usize)
    ensures
        final(v)@.to_set() == old(v)@.to_set().insert(x),
        old(v)@.no_duplicates() ==> final(v)@.no_duplicates(),
{
    if !contains_number(v, x) {
        let ghost sv = v@;
        v.push(x);
        proof {
            assert(v@ =~= sv + seq![x]);
            Seq::lemma_to_set_insert_commutes(sv, x);
            assert(v@ =~= sv.push(x));
        }
    } else {
        assert(v@.to_set() =~= v@.to_set().insert(x));
    }
}

/// Removes a number from a list without repetitions that stands for a set.
fn number_remove(v: &mut Vec<usize>, x: usize)
    requires
        old(v)@.no_duplicates(),
    ensures
        final(v)@.to_set() == old(v)@.to_set().remove(x),
        final(v)@.no_duplicates(),
{
    let mut i: usize = 0;
    while i < v.len()
        invariant
            i <= v@.len(),
            v@ == old(v)@,
            old(v)@.no_duplicates(),
            forall|j: int| 0 <= j < i ==> v@[j] != x,
        decreases v.len() - i,
    {
        if v[i] == x {
            let ghost sv = v@;
            v.remove(i);
            proof {
                lemma_remove_unique(sv, i as int);
            }
            return;
        }
        i += 1;
    }
    assert(!v@.contains(x));
    assert(v@.to_set() =~= old(v)@.to_set().remove(x));
}

impl Graph {
    /// The loop-header visit with an explicit depth.
    #[verifier::rlimit(80)]
    #[verifier::spinoff_prover]
    fn dfs_fuel(
        &self,
        node: usize,
        visited: &mut Vec<usize>,
        stack: &mut Vec<usize>,
        in_current_path: &mut Vec<usize>,
        loop_headers: &mut Vec<usize>,
        Ghost(fuel): Ghost<nat>,
    )
        requires
            self.wf(),
            old(in_current_path)@.no_duplicates(),
            fuel >= hv_depth(self.adj(), node, old(visited)@.to_set()),
        ensures
            (final(visited)@.to_set(), final(stack)@, final(in_current_path)@.to_set(), final(loop_headers)@.to_set())
                == hv_visit(
                self.adj(),
                fuel,
                node,
                old(visited)@.to_set(),
                old(stack)@,
                old(in_current_path)@.to_set(),
                old(loop_headers)@.to_set(),
            ),
            final(stack)@ == old(stack)@,
            final(in_current_path)@.no_duplicates(),
            old(visited)@.to_set().insert(node).subset_of(final(visited)@.to_set()),
            fresh_visit(self.edge_seq(), old(visited)@.to_set(), old(stack)@, old(in_current_path)@, node) ==> {
                &&& final(in_current_path)@.to_set() == old(in_current_path)@.to_set()
                &&& lh_inv(self.edge_seq(), final(visited)@.to_set(), final(stack)@, final(in_current_path)@)
                &&& forall|h: usize|
                    final(loop_headers)@.to_set().contains(h) ==> old(loop_headers)@.to_set().contains(h) || on_cycle(
                        self.edge_seq(),
                        h,
                    )
            },
        decreases fuel,
    {
        let ghost e = self.edge_seq();
        let ghost adj = self.adj();
        let ghost v0 = visited@.to_set();
        let ghost s0 = stack@;
        let ghost p0 = in_current_path@.to_set();
        let ghost h0 = loop_headers@.to_set();
        let ghost good = fresh_visit(e, v0, s0, in_current_path@, node);
        proof {
            vstd::seq_lib::seq_to_set_is_finite(all_numbers(adj));
            if !v0.contains(node) {
                assert(all_numbers(adj).to_set().insert(node).difference(v0).contains(node));
            }
        }
        number_insert(visited, node);
        stack.push(node);
        number_insert(in_current_path, node);
        proof {
            if good {
                lemma_walk_push(e, s0, node);
                assert(stack@.to_set() =~= in_current_path@.to_set()) by {
                    Seq::lemma_to_set_insert_commutes(s0, node);
                    assert(s0.push(node) =~= s0 + seq![node]);
                }
                assert(!old(in_current_path)@.to_set().contains(node));
            }
        }
        proof {
            crate::domtree::lemma_kpos_same_keys(self.edges@, adj, node);
            lemma_kpos(adj, node);
        }
        let ghost succs = succ_list(adj, node);
        let empty: Vec<usize> = Vec::new();
        let neighbors = match find_number(&self.edges, node) {
            Some(i) => &self.edges[i].1,
            None => &empty,
        };
        assert(neighbors@ == succs);
        let mut k: usize = 0;
        while k < neighbors.len()
            invariant
                k <= neighbors@.len(),
                succs == neighbors@,
                succs == succ_list(adj, node),
                e == self.edge_seq(),
                adj == self.adj(),
                self.wf(),
                fuel >= 1,
                all_numbers(adj).to_set().finite(),
                fuel >= hv_depth(adj, node, v0),
                v0.insert(node).subset_of(visited@.to_set()),
                stack@ == s0.push(node),
                good ==> in_current_path@.to_set() == p0.insert(node),
                in_current_path@.no_duplicates(),
                good == fresh_visit(e, v0, s0, old(in_current_path)@, node),
                good ==> lh_inv(e, visited@.to_set(), stack@, in_current_path@),
                good ==> forall|h: usize| loop_headers@.to_set().contains(h) ==> h0.contains(h) || on_cycle(e, h),
                hv_list(adj, (fuel - 1) as nat, succs, 0, v0.insert(node), s0.push(node), p0.insert(node), h0) == hv_list(
                    adj,
                    (fuel - 1) as nat,
                    succs,
                    k as int,
                    visited@.to_set(),
                    stack@,
                    in_current_path@.to_set(),
                    loop_headers@.to_set(),
                ),
            decreases neighbors.len() - k,
        {
            let ghost vk = visited@.to_set();
            let ghost hk = loop_headers@.to_set();
            let next = neighbors[k];
            proof {
                assert(succs[k as int] == next);
                assert(succs.contains(next));
                lemma_edges_of(adj, node, next);
            }
            if !contains_number(visited, next) {
                proof {
                    lemma_succ_in_numbers(adj, node, next);
                    lemma_visit_depth(all_numbers(adj).to_set(), v0, vk, node, next);
                    assert(stack@.last() == node);
                }
                self.dfs_fuel(next, visited, stack, in_current_path, loop_headers, Ghost((fuel - 1) as nat));
                proof {
                    if good {
                        assert forall|h: usize| loop_headers@.to_set().contains(h) implies h0.contains(h) || on_cycle(
                            e,
                            h,
                        ) by {
                            if !hk.contains(h) {
                                assert(on_cycle(e, h));
                            }
                        }
                    }
                }
            } else if contains_number(in_current_path, next) {
                proof {
                    if good {
                        assert(stack@.to_set().contains(next));
                        lemma_back_edge_cycle(e, stack@, next);
                    }
                }
                number_insert(loop_headers, next);
            }
            k += 1;
        }
        number_remove(in_current_path, node);
        let ghost sl = stack@;
        stack.pop();
        proof {
            assert(stack@ =~= sl.drop_last());
            assert(sl.drop_last() =~= s0);
            if good {
                assert(p0.insert(node).remove(node) =~= p0) by {
                    assert(!p0.contains(node));
                }
            }
        }
    }

    /// A depth-first visit of `node` that records loop headers; see
    /// [`hv_visit`]. When the node is unvisited and the stack is a walk
    /// ending with an edge into `node` whose nodes are the current path,
    /// every node it records lies on a cycle.
    pub fn dfs(
        &self,
        node: usize,
        visited: &mut Vec<usize>,
        stack: &mut Vec<usize>,
        in_current_path: &mut Vec<usize>,
        loop_headers: &mut Vec<usize>,
    )
        requires
            self.wf(),
            old(in_current_path)@.no_duplicates(),
        ensures
            (final(visited)@.to_set(), final(stack)@, final(in_current_path)@.to_set(), final(loop_headers)@.to_set())
                == hv_visit(
                self.adj(),
                hv_depth(self.adj(), node, old(visited)@.to_set()),
                node,
                old(visited)@.to_set(),
                old(stack)@,
                old(in_current_path)@.to_set(),
                old(loop_headers)@.to_set(),
            ),
            final(stack)@ == old(stack)@,
            final(in_current_path)@.no_duplicates(),
            old(visited)@.to_set().insert(node).subset_of(final(visited)@.to_set()),
            fresh_visit(self.edge_seq(), old(visited)@.to_set(), old(stack)@, old(in_current_path)@, node) ==> {
                &&& final(in_current_path)@.to_set() == old(in_current_path)@.to_set()
                &&& lh_inv(self.edge_seq(), final(visited)@.to_set(), final(stack)@, final(in_current_path)@)
                &&& forall|h: usize|
                    final(loop_headers)@.to_set().contains(h) ==> old(loop_headers)@.to_set().contains(h) || on_cycle(
                        self.edge_seq(),
                        h,
                    )
            },
    {
        let ghost f = hv_depth(self.adj(), node, visited@.to_set());
        self.dfs_fuel(node, visited, stack, in_current_path, loop_headers, Ghost(f));
    }

    /// The loop headers found by searching from `start_node`, then from each
    /// unvisited source in table order ([`hv_from`]); each lies on a cycle.
    pub fn find_loop_headers(&self, start_node: usize) -> (r: Vec<usize>)
        requires
            self.wf(),
        ensures
            r@.to_set() == ({
                let adj = self.adj();
                let first = hv_visit(
                    adj,
                    hv_depth(adj, start_node, Set::empty()),
                    start_node,
                    Set::empty(),
                    Seq::empty(),
                    Set::empty(),
                    Set::empty(),
                );
                hv_from(adj, 0, first.0, first.1, first.2, first.3).3
            }),
            forall|h: usize| r@.to_set().contains(h) ==> on_cycle(self.edge_seq(), h),
    {
        let ghost e = self.edge_seq();
        let ghost adj = self.adj();
        let mut visited: Vec<usize> = Vec::new();
        let mut stack: Vec<usize> = Vec::new();
        let mut in_current_path: Vec<usize> = Vec::new();
        let mut loop_headers: Vec<usize> = Vec::new();
        assert(visited@.to_set() =~= Set::<usize>::empty());
        assert(loop_headers@.to_set() =~= Set::<usize>::empty());
        assert(in_current_path@.to_set() =~= Set::<usize>::empty());
        assert(stack@.to_set() =~= Set::<usize>::empty());
        self.dfs(start_node, &mut visited, &mut stack, &mut in_current_path, &mut loop_headers);
        let ghost first = (visited@.to_set(), stack@, in_current_path@.to_set(), loop_headers@.to_set());
        let mut k: usize = 0;
        while k < self.edges.len()
            invariant
                k <= self.edges@.len(),
                e == self.edge_seq(),
                adj == self.adj(),
                self.wf(),
                stack@ == Seq::<usize>::empty(),
                in_current_path@.no_duplicates(),
                lh_inv(e, visited@.to_set(), stack@, in_current_path@),
                forall|h: usize| loop_headers@.to_set().contains(h) ==> on_cycle(e, h),
                hv_from(adj, 0, first.0, first.1, first.2, first.3) == hv_from(
                    adj,
                    k as int,
                    visited@.to_set(),
                    stack@,
                    in_current_path@.to_set(),
                    loop_headers@.to_set(),
                ),
            decreases self.edges.len() - k,
        {
            let node = self.edges[k].0;
            assert(adj[k as int].0 == node);
            if !contains_number(&visited, node) {
                self.dfs(node, &mut visited, &mut stack, &mut in_current_path, &mut loop_headers);
            }
            k += 1;
        }
        loop_headers
    }
}

} // verus!

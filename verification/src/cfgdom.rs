//! Dominators of the blocks of a control-flow graph: the graph is numbered
//! by node position and the dominator iteration of numbered graphs runs from
//! the block labelled `entry`.
use vstd::prelude::*;
use crate::cfg::{dsts_from, labels_view, lemma_vkey_pos, node_labels, vkey_pos, ControlFlowGraph};
use crate::dominators::{dom_init, dom_step, sets_view, sets_within};
use crate::graph::{table_view, Graph};
use crate::lir::BlockV;
use crate::rdef::kpos;
use crate::domtree::lemma_kpos;

verus! {

/// The positions of the labels of a list that name nodes (the first node
/// with each label), in order.
pub open spec fn index_list(ns: Seq<(Seq<char>, BlockV)>, ls: Seq<Seq<char>>) -> Seq<usize>
    decreases ls.len(),
{
    if ls.len() == 0 {
        Seq::empty()
    } else {
        let r = index_list(ns, ls.drop_last());
        if vkey_pos(ns, ls.last()) >= 0 {
            r.push(vkey_pos(ns, ls.last()) as usize)
        } else {
            r
        }
    }
}

/// The labels of a set of node positions.
pub open spec fn labels_of(ns: Seq<(Seq<char>, BlockV)>, s: Set<usize>) -> Set<Seq<char>> {
    s.map(|j: usize| ns[j as int].0)
}

/// The greatest solution of the dominator equations of a numbered graph
/// from `s` ([`dom_step`]) within [`dom_init`].
pub open spec fn greatest_dominators(adj: Seq<(usize, Seq<usize>)>, s: usize, q: Seq<Set<usize>>) -> bool {
    &&& q.len() == adj.len()
    &&& q == dom_step(adj, s, q)
    &&& sets_within(q, dom_init(adj, s))
    &&& forall|p: Seq<Set<usize>>|
        #![trigger dom_step(adj, s, p)]
        p.len() == adj.len() && dom_step(adj, s, p) == p && sets_within(p, dom_init(adj, s)) ==> sets_within(p, q)
}

impl ControlFlowGraph {
    /// The graph numbered by node position: node `i` has the positions of its
    /// successors that are nodes.
    pub open spec fn numbered(&self) -> Seq<(usize, Seq<usize>)> {
        Seq::new(
            self.node_seq().len(),
            |i: int| (i as usize, index_list(self.node_seq(), dsts_from(self.edge_seq(), self.node_seq()[i].0))),
        )
    }

    /// The position of the first node with the label, if any.
    fn node_position(labels: &Vec<String>, l: &String, Ghost(ns): Ghost<Seq<(Seq<char>, BlockV)>>) -> (r: Option<usize>)
        requires
            labels_view(labels@) == node_labels(ns),
        ensures
            match r {
                Some(i) => vkey_pos(ns, l@) == i,
                None => vkey_pos(ns, l@) == -1,
            },
    {
        proof {
            lemma_vkey_pos(ns, l@);
            assert(labels_view(labels@).len() == labels@.len());
            assert(node_labels(ns).len() == ns.len());
        }
        let mut i: usize = 0;
        while i < labels.len()
            invariant
                i <= labels@.len(),
                labels_view(labels@) == node_labels(ns),
                labels@.len() == ns.len(),
                forall|j: int| 0 <= j < i ==> ns[j].0 != l@,
            decreases labels.len() - i,
        {
            assert(labels_view(labels@)[i as int] == labels@[i as int]@);
            assert(node_labels(ns)[i as int] == ns[i as int].0);
            if labels[i] == *l {
                proof {
                    lemma_vkey_pos(ns, l@);
                }
                return Some(i);
            }
            i += 1;
        }
        None
    }

    /// The dominators of the blocks, by node position, from the block
    /// labelled `entry`: entry `i` holds the label of node `i` and the labels
    /// of the nodes in its set of the greatest solution of the dominator
    /// equations of [`ControlFlowGraph::numbered`] ([`dom_step`]) within
    /// [`dom_init`] (the entry dominated by itself alone, a node without
    /// predecessors by every node).
    pub fn get_dominators(&self) -> (r: Vec<(String, Vec<String>)>)
        requires
            vkey_pos(self.node_seq(), "entry"@) >= 0,
        ensures
            r@.len() == self.node_seq().len(),
            exists|q: Seq<Set<usize>>|
                #[trigger] greatest_dominators(self.numbered(), vkey_pos(self.node_seq(), "entry"@) as usize, q)
                    && forall|i: int|
                    0 <= i < r@.len() ==> (#[trigger] r@[i]).0@ == self.node_seq()[i].0 && labels_view(
                        r@[i].1@,
                    ).to_set() == labels_of(self.node_seq(), q[i]),
    {
        let ghost ns = self.node_seq();
        let ghost e = self.edge_seq();
        let labels = self.get_all_block_labels();
        let n = labels.len();
        assert(labels_view(labels@).len() == labels@.len());
        assert(node_labels(ns).len() == ns.len());
        let mut g = Graph { edges: Vec::new() };
        let mut i: usize = 0;
        while i < n
            invariant
                n == labels@.len(),
                labels_view(labels@) == node_labels(ns),
                ns == self.node_seq(),
                e == self.edge_seq(),
                ns.len() == n,
                i <= n,
                table_view(g.edges@) == self.numbered().take(i as int),
            decreases n - i,
        {
            let succs = self.get_successor_labels(labels[i].as_str());
            assert(labels@[i as int]@ == ns[i as int].0) by {
                assert(labels_view(labels@)[i as int] == labels@[i as int]@);
                assert(node_labels(ns)[i as int] == ns[i as int].0);
            }
            let ghost sv = labels_view(succs@);
            let mut idx: Vec<usize> = Vec::new();
            let mut k: usize = 0;
            while k < succs.len()
                invariant
                    k <= succs@.len(),
                    sv == labels_view(succs@),
                    labels_view(labels@) == node_labels(ns),
                    ns.len() == n,
                    n == labels@.len(),
                    idx@ == index_list(ns, sv.take(k as int)),
                decreases succs.len() - k,
            {
                assert(sv.take(k + 1).drop_last() =~= sv.take(k as int));
                assert(sv.take(k + 1).last() == succs@[k as int]@);
                match Self::node_position(&labels, &succs[k], Ghost(ns)) {
                    Some(p) => {
                        idx.push(p);
                    },
                    None => {},
                }
                k += 1;
            }
            assert(sv.take(succs@.len() as int) =~= sv);
            let ghost before = table_view(g.edges@);
            g.edges.push((i, idx));
            assert(table_view(g.edges@) =~= self.numbered().take(i + 1)) by {
                assert(table_view(g.edges@) =~= before.push((i, idx@)));
                assert(self.numbered()[i as int] == (i, idx@));
            }
            i += 1;
        }
        let ghost adj = self.numbered();
        assert(self.numbered().take(n as int) =~= adj);
        assert(g.adj() == adj);
        assert(g.wf()) by {
            assert forall|a: int, b: int| 0 <= a < b < adj.len() implies adj[a].0 != adj[b].0 by {}
        }
        let entry = String::from_str("entry");
        let start = match Self::node_position(&labels, &entry, Ghost(ns)) {
            Some(p) => p,
            None => 0,
        };
        proof {
            lemma_vkey_pos(ns, "entry"@);
            assert(start == vkey_pos(ns, "entry"@));
            assert(start < n);
            lemma_kpos(adj, start);
            assert(adj[start as int].0 == start);
            if kpos(adj, start) < 0 {
                assert(adj[start as int].0 != start);
            }
        }
        let sets = g.dominator_sets(start);
        let ghost q = sets_view(sets@);
        proof {
            assert forall|i: int, x: usize| 0 <= i < q.len() && q[i].contains(x) implies x < n by {
                assert(q[i].subset_of(dom_init(adj, start)[i]));
                assert(dom_init(adj, start)[i].contains(x));
                if adj[i].0 == start {
                } else {
                    let j = choose|j: int| 0 <= j < adj.len() && crate::dominators::sources(adj)[j] == x;
                }
            }
        }
        let mut r: Vec<(String, Vec<String>)> = Vec::new();
        let mut i: usize = 0;
        while i < n
            invariant
                n == labels@.len(),
                labels_view(labels@) == node_labels(ns),
                ns.len() == n,
                sets@.len() == n,
                q == sets_view(sets@),
                forall|i: int, x: usize| 0 <= i < q.len() && q[i].contains(x) ==> x < n,
                i <= n,
                r@.len() == i,
                forall|j: int|
                    0 <= j < i ==> (#[trigger] r@[j]).0@ == ns[j].0 && labels_view(r@[j].1@).to_set() == labels_of(
                        ns,
                        q[j],
                    ),
            decreases n - i,
        {
            let set = &sets[i];
            let ghost sq = set@;
            let mut ls: Vec<String> = Vec::new();
            let mut k: usize = 0;
            assert(q[i as int] == sq.to_set());
            while k < set.len()
                invariant
                    k <= sq.len(),
                    sq == set@,
                    q[i as int] == sq.to_set(),
                    forall|x: usize| q[i as int].contains(x) ==> x < n,
                    n == labels@.len(),
                    labels_view(labels@) == node_labels(ns),
                    ns.len() == n,
                    labels_view(ls@) == sq.take(k as int).map_values(|j: usize| ns[j as int].0),
                decreases sq.len() - k,
            {
                let j = set[k];
                assert(sq.to_set().contains(sq[k as int]));
                assert(labels_view(labels@)[j as int] == labels@[j as int]@);
                assert(node_labels(ns)[j as int] == ns[j as int].0);
                let ghost prev = labels_view(ls@);
                ls.push(labels[j].clone());
                assert(labels_view(ls@) =~= prev.push(ns[j as int].0));
                assert(sq.take(k + 1) =~= sq.take(k as int).push(j));
                assert(sq.take(k + 1).map_values(|j: usize| ns[j as int].0) =~= sq.take(k as int).map_values(
                    |j: usize| ns[j as int].0,
                ).push(ns[j as int].0));
                k += 1;
            }
            assert(sq.take(sq.len() as int) =~= sq);
            proof {
                let m = sq.map_values(|j: usize| ns[j as int].0);
                assert forall|y: Seq<char>| m.to_set().contains(y) <==> labels_of(ns, q[i as int]).contains(y) by {
                    if m.to_set().contains(y) {
                        let t = choose|t: int| 0 <= t < m.len() && m[t] == y;
                        assert(q[i as int].contains(sq[t]));
                    }
                    if labels_of(ns, q[i as int]).contains(y) {
                        let x = choose|x: usize| q[i as int].contains(x) && ns[x as int].0 == y;
                        let t = choose|t: int| 0 <= t < sq.len() && sq[t] == x;
                        assert(m[t] == y);
                    }
                }
                assert(m.to_set() =~= labels_of(ns, q[i as int]));
            }
            assert(labels@[i as int]@ == ns[i as int].0) by {
                assert(labels_view(labels@)[i as int] == labels@[i as int]@);
                assert(node_labels(ns)[i as int] == ns[i as int].0);
            }
            r.push((labels[i].clone(), ls));
            i += 1;
        }
        assert(greatest_dominators(adj, start, q));
        r
    }
}

} // verus!

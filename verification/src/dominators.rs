//! Dominator sets of a numbered graph by iteration to a fixpoint: the start
//! node is dominated by itself alone; every other node with predecessors by
//! itself and the nodes that dominate all its predecessors.
use vstd::prelude::*;
use crate::domtree::{contains_number, find_number, lemma_kpos};
use crate::graph::Graph;
use crate::rdef::kpos;

verus! {

/// The sources of an edge table, in order.
pub open spec fn sources(adj: Seq<(usize, Seq<usize>)>) -> Seq<usize> {
    adj.map_values(|p: (usize, Seq<usize>)| p.0)
}

/// The nodes of the dominator computation: the sources of the table.
pub open spec fn node_set(adj: Seq<(usize, Seq<usize>)>) -> Set<usize> {
    sources(adj).to_set()
}

/// Whether some source has an edge to `n`.
pub open spec fn has_pred(adj: Seq<(usize, Seq<usize>)>, n: usize) -> bool {
    exists|j: int| 0 <= j < adj.len() && (#[trigger] adj[j].1).contains(n)
}

/// The nodes in the sets of all sources among the first `m` that have an
/// edge to `n` (the sets are given by position).
pub open spec fn meet_upto(adj: Seq<(usize, Seq<usize>)>, p: Seq<Set<usize>>, n: usize, m: int) -> Set<usize> {
    Set::new(
        |x: usize|
            node_set(adj).contains(x) && forall|j: int| 0 <= j < m && (#[trigger] adj[j].1).contains(n) ==> p[j].contains(x),
    )
}

/// One round: the start node and the nodes without predecessors keep their
/// sets; every other node gets the nodes in the sets of all its
/// predecessors, and itself.
pub open spec fn dom_step(adj: Seq<(usize, Seq<usize>)>, start: usize, p: Seq<Set<usize>>) -> Seq<Set<usize>> {
    Seq::new(
        adj.len(),
        |i: int|
            if adj[i].0 == start || !has_pred(adj, adj[i].0) {
                p[i]
            } else {
                meet_upto(adj, p, adj[i].0, adj.len() as int).insert(adj[i].0)
            },
    )
}

/// The sets the iteration starts from: the start node alone for the start
/// node, all nodes for every other.
pub open spec fn dom_init(adj: Seq<(usize, Seq<usize>)>, start: usize) -> Seq<Set<usize>> {
    Seq::new(
        adj.len(),
        |i: int|
            if adj[i].0 == start {
                set![start]
            } else {
                node_set(adj)
            },
    )
}

/// Every set of `p` is within the set at the same position of `q`.
pub open spec fn sets_within(p: Seq<Set<usize>>, q: Seq<Set<usize>>) -> bool {
    p.len() == q.len() && forall|i: int| 0 <= i < p.len() ==> (#[trigger] p[i]).subset_of(q[i])
}

/// The total size of the sets.
pub open spec fn total_size(p: Seq<Set<usize>>) -> nat
    decreases p.len(),
{
    if p.len() == 0 {
        0
    } else {
        total_size(p.drop_last()) + p.last().len()
    }
}

/// Lists of numbers as sets.
pub open spec fn sets_view(v: Seq<Vec<usize>>) -> Seq<Set<usize>> {
    v.map_values(|x: Vec<usize>| x@.to_set())
}

/// A round is monotone: smaller sets give smaller sets.
proof fn lemma_step_monotone(adj: Seq<(usize, Seq<usize>)>, start: usize, p: Seq<Set<usize>>, q: Seq<Set<usize>>)
    requires
        p.len() == adj.len(),
        sets_within(p, q),
    ensures
        sets_within(dom_step(adj, start, p), dom_step(adj, start, q)),
{
    assert forall|i: int| 0 <= i < adj.len() implies (#[trigger] dom_step(adj, start, p)[i]).subset_of(
        dom_step(adj, start, q)[i],
    ) by {
        let n = adj[i].0;
        if !(n == start || !has_pred(adj, n)) {
            assert forall|x: usize| meet_upto(adj, p, n, adj.len() as int).contains(x) implies meet_upto(
                adj,
                q,
                n,
                adj.len() as int,
            ).contains(x) by {
                assert forall|j: int| 0 <= j < adj.len() && (#[trigger] adj[j].1).contains(n) implies q[j].contains(x) by {
                    assert(p[j].contains(x));
                    assert(p[j].subset_of(q[j]));
                }
            }
        }
    }
}

/// Smaller sets, one of them strictly, have a smaller total size.
proof fn lemma_total_size(p: Seq<Set<usize>>, q: Seq<Set<usize>>)
    requires
        sets_within(p, q),
        forall|i: int| 0 <= i < q.len() ==> (#[trigger] q[i]).finite(),
    ensures
        total_size(p) <= total_size(q),
        p != q ==> total_size(p) < total_size(q),
    decreases p.len(),
{
    if p.len() > 0 {
        let pi = p.drop_last();
        let qi = q.drop_last();
        assert forall|i: int| 0 <= i < pi.len() implies (#[trigger] pi[i]).subset_of(qi[i]) by {
            assert(pi[i] == p[i]);
            assert(qi[i] == q[i]);
        }
        assert forall|i: int| 0 <= i < qi.len() implies (#[trigger] qi[i]).finite() by {
            assert(qi[i] == q[i]);
        }
        lemma_total_size(pi, qi);
        let n = p.len() - 1;
        assert(p.last().subset_of(q.last()));
        assert(q[n].finite());
        vstd::set_lib::lemma_len_subset(p.last(), q.last());
        if p != q {
            if pi == qi {
                assert(p.last() != q.last()) by {
                    if p.last() == q.last() {
                        assert(p =~= q) by {
                            assert forall|i: int| 0 <= i < p.len() implies p[i] == q[i] by {
                                if i < n {
                                    assert(pi[i] == qi[i]);
                                }
                            }
                        }
                    }
                }
                assert(exists|x: usize| q.last().contains(x) && !p.last().contains(x)) by {
                    if forall|x: usize| q.last().contains(x) ==> p.last().contains(x) {
                        assert(p.last() =~= q.last());
                    }
                }
                let x = choose|x: usize| q.last().contains(x) && !p.last().contains(x);
                assert(p.last().subset_of(q.last().remove(x)));
                vstd::set_lib::lemma_len_subset(p.last(), q.last().remove(x));
            }
        }
    } else {
        assert(p =~= q);
    }
}

/// A copy of a list of numbers.
fn copy_numbers(v: &Vec<usize>) -> (r: Vec<usize>)
    ensures
        r@ == v@,
{
    let mut r: Vec<usize> = Vec::new();
    let mut i: usize = 0;
    while i < v.len()
        invariant
            i <= v@.len(),
            r@ == v@.take(i as int),
        decreases v.len() - i,
    {
        r.push(v[i]);
        assert(v@.take(i + 1) =~= v@.take(i as int).push(v@[i as int]));
        i += 1;
    }
    assert(v@.take(v@.len() as int) =~= v@);
    r
}

/// The numbers of `a` that are also in `b`, in the order of `a`.
fn intersect(a: &Vec<usize>, b: &Vec<usize>) -> (r: Vec<usize>)
    ensures
        r@.to_set() == a@.to_set().intersect(b@.to_set()),
{
    let mut r: Vec<usize> = Vec::new();
    let mut i: usize = 0;
    while i < a.len()
        invariant
            i <= a@.len(),
            r@.to_set() == a@.take(i as int).to_set().intersect(b@.to_set()),
        decreases a.len() - i,
    {
        let ghost before = r@;
        let x = a[i];
        if contains_number(b, x) {
            r.push(x);
            proof {
                Seq::lemma_to_set_insert_commutes(before, x);
                assert(r@ =~= before + seq![x]);
            }
        }
        proof {
            assert(a@.take(i + 1) =~= a@.take(i as int).push(x));
            Seq::lemma_to_set_insert_commutes(a@.take(i as int), x);
            assert(a@.take(i as int).push(x) =~= a@.take(i as int) + seq![x]);
        }
        assert(r@.to_set() =~= a@.take(i + 1).to_set().intersect(b@.to_set()));
        i += 1;
    }
    assert(a@.take(a@.len() as int) =~= a@);
    r
}

/// Whether two lists of lists hold the same sets at every position.
fn same_sets(a: &Vec<Vec<usize>>, b: &Vec<Vec<usize>>) -> (r: bool)
    requires
        a@.len() == b@.len(),
    ensures
        r == (sets_view(a@) == sets_view(b@)),
{
    let mut i: usize = 0;
    while i < a.len()
        invariant
            i <= a@.len(),
            a@.len() == b@.len(),
            forall|j: int| 0 <= j < i ==> a@[j]@.to_set() == b@[j]@.to_set(),
        decreases a.len() - i,
    {
        if !subset_numbers(&a[i], &b[i]) || !subset_numbers(&b[i], &a[i]) {
            assert(sets_view(a@)[i as int] != sets_view(b@)[i as int]);
            return false;
        }
        assert(a@[i as int]@.to_set() =~= b@[i as int]@.to_set());
        i += 1;
    }
    assert(sets_view(a@) =~= sets_view(b@));
    true
}

/// Whether every number of `a` is in `b`.
fn subset_numbers(a: &Vec<usize>, b: &Vec<usize>) -> (r: bool)
    ensures
        r == a@.to_set().subset_of(b@.to_set()),
{
    let mut i: usize = 0;
    while i < a.len()
        invariant
            i <= a@.len(),
            forall|j: int| 0 <= j < i ==> b@.contains(a@[j]),
        decreases a.len() - i,
    {
        if !contains_number(b, a[i]) {
            assert(a@.to_set().contains(a@[i as int]));
            return false;
        }
        i += 1;
    }
    assert forall|x: usize| a@.to_set().contains(x) implies b@.to_set().contains(x) by {
        let j = choose|j: int| 0 <= j < a@.len() && a@[j] == x;
    }
    true
}

impl Graph {
    /// One round of the dominator iteration; see [`dom_step`].
    fn dominator_round(&self, start: usize, keys: &Vec<usize>, prev: &Vec<Vec<usize>>) -> (r: Vec<Vec<usize>>)
        requires
            keys@ == sources(self.adj()),
            prev@.len() == self.adj().len(),
        ensures
            sets_view(r@) == dom_step(self.adj(), start, sets_view(prev@)),
            forall|i: int| 0 <= i < r@.len() && keys@[i] == start ==> (#[trigger] r@[i])@ == prev@[i]@,
    {
        let ghost adj = self.adj();
        let ghost p = sets_view(prev@);
        let n = self.edges.len();
        let mut next: Vec<Vec<usize>> = Vec::new();
        let mut i: usize = 0;
        while i < n
            invariant
                n == self.edges@.len(),
                adj == self.adj(),
                adj.len() == n,
                keys@ == sources(adj),
                prev@.len() == n,
                p == sets_view(prev@),
                i <= n,
                next@.len() == i,
                forall|j: int| 0 <= j < i ==> (#[trigger] sets_view(next@)[j]) == dom_step(adj, start, p)[j],
                forall|j: int| 0 <= j < i && keys@[j] == start ==> (#[trigger] next@[j])@ == prev@[j]@,
            decreases n - i,
        {
            let node = keys[i];
            let ghost before = next@;
            assert(node == adj[i as int].0);
            if node == start {
                next.push(copy_numbers(&prev[i]));
            } else {
                let mut acc = copy_numbers(keys);
                let mut found = false;
                let mut j: usize = 0;
                assert(acc@.to_set() =~= meet_upto(adj, p, node, 0)) by {
                    assert(node_set(adj) == keys@.to_set());
                }
                while j < n
                    invariant
                        n == self.edges@.len(),
                        adj == self.adj(),
                        adj.len() == n,
                        prev@.len() == n,
                        p == sets_view(prev@),
                        keys@ == sources(adj),
                        j <= n,
                        acc@.to_set() == meet_upto(adj, p, node, j as int),
                        found == exists|m: int| 0 <= m < j && (#[trigger] adj[m].1).contains(node),
                    decreases n - j,
                {
                    assert(adj[j as int].1 == self.edges@[j as int].1@);
                    let has = contains_number(&self.edges[j].1, node);
                    if has {
                        found = true;
                        acc = intersect(&acc, &prev[j]);
                    }
                    assert(acc@.to_set() =~= meet_upto(adj, p, node, j + 1)) by {
                        assert(p[j as int] == prev@[j as int]@.to_set());
                    }
                    j += 1;
                }
                assert(found == has_pred(adj, node));
                if !found {
                    next.push(copy_numbers(&prev[i]));
                } else {
                    let ghost before = acc@;
                    if !contains_number(&acc, node) {
                        acc.push(node);
                        proof {
                            Seq::lemma_to_set_insert_commutes(before, node);
                            assert(acc@ =~= before + seq![node]);
                        }
                    } else {
                        assert(acc@.to_set() =~= acc@.to_set().insert(node));
                    }
                    next.push(acc);
                }
            }
            assert(sets_view(next@)[i as int] == next@[i as int]@.to_set());
            assert(sets_view(next@)[i as int] == dom_step(adj, start, p)[i as int]);
            assert forall|j: int| 0 <= j < i + 1 implies (#[trigger] sets_view(next@)[j]) == dom_step(adj, start, p)[j] by {
                if j < i {
                    assert(next@[j] == before[j]);
                    assert(sets_view(before)[j] == before[j]@.to_set());
                    assert(sets_view(next@)[j] == next@[j]@.to_set());
                }
            }
            assert forall|j: int| 0 <= j < i + 1 && keys@[j] == start implies (#[trigger] next@[j])@ == prev@[j]@ by {
                if j < i {
                    assert(next@[j] == before[j]);
                }
            }
            i += 1;
        }
        assert(sets_view(next@) =~= dom_step(adj, start, p));
        next
    }

    /// The dominator sets of the sources, by position, from `start_node`:
    /// the greatest sets within [`dom_init`] that one more round leaves
    /// unchanged.
    pub(crate) fn dominator_sets(&self, start_node: usize) -> (r: Vec<Vec<usize>>)
        requires
            self.wf(),
            kpos(self.adj(), start_node) >= 0,
        ensures
            sets_view(r@) == dom_step(self.adj(), start_node, sets_view(r@)),
            sets_within(sets_view(r@), dom_init(self.adj(), start_node)),
            forall|q: Seq<Set<usize>>|
                #![trigger dom_step(self.adj(), start_node, q)]
                q.len() == self.adj().len() && dom_step(self.adj(), start_node, q) == q && sets_within(
                    q,
                    dom_init(self.adj(), start_node),
                ) ==> sets_within(q, sets_view(r@)),
            r@[kpos(self.adj(), start_node)]@ == seq![start_node],
    {
        let ghost adj = self.adj();
        let ghost init = dom_init(adj, start_node);
        let ghost ks = kpos(adj, start_node);
        proof {
            lemma_kpos(adj, start_node);
        }
        let n = self.edges.len();
        let mut keys: Vec<usize> = Vec::new();
        let mut i: usize = 0;
        while i < n
            invariant
                n == self.edges@.len(),
                adj == self.adj(),
                i <= n,
                keys@ == sources(adj).take(i as int),
            decreases n - i,
        {
            keys.push(self.edges[i].0);
            assert(sources(adj).take(i + 1) =~= sources(adj).take(i as int).push(adj[i as int].0));
            i += 1;
        }
        assert(sources(adj).take(n as int) =~= sources(adj));
        let mut prev: Vec<Vec<usize>> = Vec::new();
        let mut i: usize = 0;
        while i < n
            invariant
                n == self.edges@.len(),
                adj == self.adj(),
                adj.len() == n,
                keys@ == sources(adj),
                init == dom_init(adj, start_node),
                i <= n,
                prev@.len() == i,
                forall|j: int| 0 <= j < i ==> (#[trigger] sets_view(prev@)[j]) == init[j],
                forall|j: int| 0 <= j < i && keys@[j] == start_node ==> (#[trigger] prev@[j])@ == seq![start_node],
            decreases n - i,
        {
            let ghost before = prev@;
            if keys[i] == start_node {
                let mut one: Vec<usize> = Vec::new();
                one.push(start_node);
                assert(one@.to_set() =~= set![start_node]) by {
                    Seq::lemma_to_set_insert_commutes(Seq::<usize>::empty(), start_node);
                    assert(one@ =~= Seq::<usize>::empty() + seq![start_node]);
                }
                prev.push(one);
            } else {
                prev.push(copy_numbers(&keys));
            }
            assert forall|j: int| 0 <= j < i + 1 implies (#[trigger] sets_view(prev@)[j]) == init[j] by {
                assert(sets_view(prev@)[j] == prev@[j]@.to_set());
                if j < i {
                    assert(prev@[j] == before[j]);
                    assert(sets_view(before)[j] == before[j]@.to_set());
                }
            }
            assert forall|j: int| 0 <= j < i + 1 && keys@[j] == start_node implies (#[trigger] prev@[j])@ == seq![start_node] by {
                if j < i {
                    assert(prev@[j] == before[j]);
                }
            }
            i += 1;
        }
        assert(sets_view(prev@) =~= init);
        proof {
            self.lemma_init_sets(start_node);
        }
        loop
            invariant
                adj == self.adj(),
                self.wf(),
                keys@ == sources(adj),
                init == dom_init(adj, start_node),
                prev@.len() == adj.len(),
                0 <= ks < adj.len(),
                adj[ks].0 == start_node,
                keys@[ks] == start_node,
                prev@[ks]@ == seq![start_node],
                sets_within(sets_view(prev@), init),
                sets_within(dom_step(adj, start_node, sets_view(prev@)), sets_view(prev@)),
                forall|i: int| 0 <= i < init.len() ==> (#[trigger] init[i]).finite(),
                forall|q: Seq<Set<usize>>|
                    #![trigger dom_step(adj, start_node, q)]
                    q.len() == adj.len() && dom_step(adj, start_node, q) == q && sets_within(q, init) ==> sets_within(
                        q,
                        sets_view(prev@),
                    ),
            ensures
                sets_view(prev@) == dom_step(adj, start_node, sets_view(prev@)),
                sets_within(sets_view(prev@), init),
                prev@[ks]@ == seq![start_node],
                forall|q: Seq<Set<usize>>|
                    #![trigger dom_step(adj, start_node, q)]
                    q.len() == adj.len() && dom_step(adj, start_node, q) == q && sets_within(q, init) ==> sets_within(
                        q,
                        sets_view(prev@),
                    ),
            decreases total_size(sets_view(prev@)),
        {
            let ghost pv = sets_view(prev@);
            let next = self.dominator_round(start_node, &keys, &prev);
            if same_sets(&next, &prev) {
                break;
            }
            proof {
                let nv = sets_view(next@);
                assert forall|i: int| 0 <= i < pv.len() implies (#[trigger] pv[i]).finite() by {
                    vstd::set_lib::lemma_len_subset(pv[i], init[i]);
                }
                lemma_total_size(nv, pv);
                lemma_step_monotone(adj, start_node, nv, pv);
                assert forall|i: int| 0 <= i < nv.len() implies (#[trigger] nv[i]).subset_of(init[i]) by {
                    assert(nv[i].subset_of(pv[i]));
                    assert(pv[i].subset_of(init[i]));
                }
                assert forall|q: Seq<Set<usize>>|
                    #![trigger dom_step(adj, start_node, q)]
                    q.len() == adj.len() && dom_step(adj, start_node, q) == q && sets_within(q, init) implies sets_within(
                        q,
                        nv,
                    ) by {
                    lemma_step_monotone(adj, start_node, q, pv);
                }
            }
            prev = next;
        }
        prev
    }

    /// The starting sets are finite and one round stays within them.
    proof fn lemma_init_sets(&self, start: usize)
        ensures
            sets_within(dom_step(self.adj(), start, dom_init(self.adj(), start)), dom_init(self.adj(), start)),
            forall|i: int|
                0 <= i < dom_init(self.adj(), start).len() ==> (#[trigger] dom_init(self.adj(), start)[i]).finite(),
    {
        let adj = self.adj();
        let init = dom_init(adj, start);
        vstd::seq_lib::seq_to_set_is_finite(sources(adj));
        assert forall|i: int| 0 <= i < init.len() implies (#[trigger] init[i]).finite() by {
            if adj[i].0 == start {
                assert(set![start].finite());
            }
        }
        assert forall|i: int| 0 <= i < adj.len() implies (#[trigger] dom_step(adj, start, init)[i]).subset_of(init[i]) by {
            let n = adj[i].0;
            if !(n == start || !has_pred(adj, n)) {
                assert(sources(adj)[i] == n);
                assert(node_set(adj).contains(n));
            }
        }
    }

    /// The dominators of `start_node` after the iteration to a fixpoint: the
    /// start node is never changed by a round, so they are `start_node` alone.
    pub fn get_dominators(&self, start_node: usize) -> (r: Vec<usize>)
        requires
            self.wf(),
            kpos(self.adj(), start_node) >= 0,
        ensures
            r@ == seq![start_node],
    {
        let sets = self.dominator_sets(start_node);
        let k = match find_number(&self.edges, start_node) {
            Some(k) => k,
            None => 0,
        };
        proof {
            crate::domtree::lemma_kpos_same_keys(self.edges@, self.adj(), start_node);
        }
        copy_numbers(&sets[k])
    }

    /// The dominators of every source, from itself; see [`Graph::get_dominators`].
    pub fn get_all_dominators(&self) -> (r: Vec<(usize, Vec<usize>)>)
        requires
            self.wf(),
        ensures
            r@.len() == self.adj().len(),
            forall|i: int| 0 <= i < r@.len() ==> (#[trigger] r@[i]).0 == self.adj()[i].0 && r@[i].1@ == seq![r@[i].0],
    {
        let mut r: Vec<(usize, Vec<usize>)> = Vec::new();
        let mut i: usize = 0;
        while i < self.edges.len()
            invariant
                i <= self.edges@.len(),
                self.wf(),
                r@.len() == i,
                forall|j: int| 0 <= j < i ==> (#[trigger] r@[j]).0 == self.adj()[j].0 && r@[j].1@ == seq![r@[j].0],
            decreases self.edges.len() - i,
        {
            let node = self.edges[i].0;
            proof {
                lemma_kpos(self.adj(), node);
                assert(self.adj()[i as int].0 == node);
            }
            let d = self.get_dominators(node);
            r.push((node, d));
            i += 1;
        }
        r
    }
}

} // verus!

//! Depth-first searches over a control-flow graph: reachability between
//! labels, depth-first finishing orders, and loop headers.
use vstd::prelude::*;
use crate::cfg::{dsts_from, keyed_insert, labels_view, ControlFlowGraph};
use crate::lir::Block;

verus! {

/// The labels that some edge enters.
pub open spec fn targets(e: Seq<(Seq<char>, Seq<char>)>) -> Set<Seq<char>> {
    e.map_values(|p: (Seq<char>, Seq<char>)| p.1).to_set()
}

/// The labels of a list, as a set.
pub open spec fn label_set(v: Seq<String>) -> Set<Seq<char>> {
    labels_view(v).to_set()
}

/// Whether `p` is a walk along the edges: consecutive labels are joined by an edge.
pub open spec fn is_walk<N>(e: Seq<(N, N)>, p: Seq<N>) -> bool {
    &&& p.len() >= 1
    &&& forall|i: int| 0 <= i < p.len() - 1 ==> e.contains((#[trigger] p[i], p[i + 1]))
}

/// Whether a walk leads from `a` to `b` (every label reaches itself).
pub open spec fn reaches<N>(e: Seq<(N, N)>, a: N, b: N) -> bool {
    exists|p: Seq<N>| #[trigger] is_walk(e, p) && p[0] == a && p.last() == b
}

/// The targets of the edges that leave `a` are exactly the labels `b` with an edge `(a, b)`.
pub proof fn lemma_dsts_from(e: Seq<(Seq<char>, Seq<char>)>, a: Seq<char>, b: Seq<char>)
    ensures
        dsts_from(e, a).contains(b) == e.contains((a, b)),
        e.contains((a, b)) ==> targets(e).contains(b),
    decreases e.len(),
{
    if e.len() > 0 {
        let init = e.drop_last();
        lemma_dsts_from(init, a, b);
        if e.contains((a, b)) {
            let j = choose|j: int| 0 <= j < e.len() && e[j] == (a, b);
            if j < init.len() {
                assert(init[j] == (a, b));
            }
            assert(e.map_values(|p: (Seq<char>, Seq<char>)| p.1)[j] == b);
        }
        if init.contains((a, b)) {
            let j = choose|j: int| 0 <= j < init.len() && init[j] == (a, b);
            assert(e[j] == (a, b));
        }
        if e.last().0 == a {
            let d = dsts_from(init, a);
            assert(dsts_from(e, a) == d.push(e.last().1));
            if d.push(e.last().1).contains(b) && e.last().1 != b {
                let j = choose|j: int| 0 <= j < d.len() + 1 && d.push(e.last().1)[j] == b;
                assert(d[j] == b);
            }
            if d.contains(b) {
                let j = choose|j: int| 0 <= j < d.len() && d[j] == b;
                assert(d.push(e.last().1)[j] == b);
            }
            if e.last().1 == b {
                assert(d.push(e.last().1)[d.len() as int] == b);
                assert(e[e.len() - 1] == (a, b));
            }
        }
    }
}

/// An edge followed by a walk is a walk.
pub proof fn lemma_reaches_prepend<N>(e: Seq<(N, N)>, a: N, b: N, c: N)
    requires
        e.contains((a, b)),
        reaches(e, b, c),
    ensures
        reaches(e, a, c),
{
    let p = choose|p: Seq<N>| #[trigger] is_walk(e, p) && p[0] == b && p.last() == c;
    let q = seq![a] + p;
    assert forall|i: int| 0 <= i < q.len() - 1 implies e.contains((#[trigger] q[i], q[i + 1])) by {
        if i > 0 {
            assert(q[i] == p[i - 1]);
            assert(q[i + 1] == p[i]);
        }
    }
    assert(is_walk(e, q));
    assert(q.last() == c);
}

/// A walk from inside a set that every edge leaving it stays in never leaves it.
pub proof fn lemma_closed_walk<N>(e: Seq<(N, N)>, s: Set<N>, p: Seq<N>, n: int)
    requires
        is_walk(e, p),
        s.contains(p[0]),
        forall|x: N, y: N| s.contains(x) && #[trigger] e.contains((x, y)) ==> s.contains(y),
        0 <= n < p.len(),
    ensures
        s.contains(p[n]),
    decreases n,
{
    if n > 0 {
        lemma_closed_walk(e, s, p, n - 1);
        assert(e.contains((p[n - 1], p[n])));
    }
}

/// Every label of `vis` outside `base` has all its successors in `vis`.
#[verifier::opaque]
pub open spec fn closed_beyond<N>(e: Seq<(N, N)>, vis: Set<N>, base: Set<N>) -> bool {
    forall|x: N, y: N|
        vis.contains(x) && !base.contains(x) && #[trigger] e.contains((x, y)) ==> vis.contains(y)
}

/// Closedness beyond a base carries over to a larger set that is closed beyond the smaller one.
pub proof fn lemma_closed_beyond_trans<N>(
    e: Seq<(N, N)>,
    v1: Set<N>,
    v2: Set<N>,
    base: Set<N>,
)
    requires
        closed_beyond(e, v1, base),
        closed_beyond(e, v2, v1),
        v1.subset_of(v2),
    ensures
        closed_beyond(e, v2, base),
{
    reveal(closed_beyond);
}

/// A label whose successors are all in `vis` can leave the base.
pub proof fn lemma_closed_beyond_release<N>(
    e: Seq<(N, N)>,
    vis: Set<N>,
    base: Set<N>,
    u: N,
)
    requires
        closed_beyond(e, vis, base.insert(u)),
        forall|y: N| #[trigger] e.contains((u, y)) ==> vis.contains(y),
    ensures
        closed_beyond(e, vis, base),
{
    reveal(closed_beyond);
}

/// The measure of the searches shrinks when a new label is visited.
pub proof fn lemma_measure_shrinks<A>(t: Set<A>, v0: Set<A>, v1: Set<A>, u: A, y: A)
    requires
        t.finite(),
        !v0.contains(u),
        v0.subset_of(v1),
        v1.contains(u),
        t.contains(y),
    ensures
        t.insert(y).difference(v1).len() < t.insert(u).difference(v0).len(),
{
    let a = t.insert(y).difference(v1);
    let b = t.insert(u).difference(v0);
    assert(b.finite());
    assert(a.subset_of(b.remove(u)));
    vstd::set_lib::lemma_len_subset(a, b.remove(u));
    assert(b.contains(u));
}

impl ControlFlowGraph {
    /// The depth-first search for a path from `src` to `dst` that avoids the
    /// visited labels (but may end at `dst`). When it finds none, the labels
    /// it newly visited, `src` among them, have all their successors visited.
    #[verifier::rlimit(40)]
    pub fn dfs_path(&self, src: &str, dst: &str, visited: &mut Vec<String>) -> (r: bool)
        ensures
            label_set(old(visited)@).subset_of(label_set(final(visited)@)),
            r ==> reaches(self.edge_seq(), src@, dst@),
            !r ==> src@ != dst@ && label_set(final(visited)@).contains(src@),
            !r && !label_set(old(visited)@).contains(dst@) ==> !label_set(final(visited)@).contains(dst@),
            !r ==> closed_beyond(self.edge_seq(), label_set(final(visited)@), label_set(old(visited)@)),
        decreases targets(self.edge_seq()).insert(src@).difference(label_set(old(visited)@)).len(),
    {
        let s = String::from_str(src);
        let d = String::from_str(dst);
        if s == d {
            proof {
                let p = seq![src@];
                assert(is_walk(self.edge_seq(), p));
            }
            return true;
        }
        if labels_contain_str(visited, &s) {
            assert(closed_beyond(self.edge_seq(), label_set(visited@), label_set(visited@))) by {
                reveal(closed_beyond);
            }
            return false;
        }
        let ghost v0 = label_set(visited@);
        let ghost lv0 = labels_view(visited@);
        visited.push(s);
        proof {
            assert(labels_view(visited@) =~= lv0 + seq![src@]);
            Seq::lemma_to_set_insert_commutes(lv0, src@);
        }
        assert(label_set(visited@) =~= v0.insert(src@));
        assert(closed_beyond(self.edge_seq(), label_set(visited@), v0.insert(src@))) by {
            reveal(closed_beyond);
        }
        let succs = self.get_successor_labels(src);
        let ghost sv = labels_view(succs@);
        let ghost e = self.edge_seq();
        let mut k: usize = 0;
        while k < succs.len()
            invariant
                k <= succs@.len(),
                sv == labels_view(succs@),
                e == self.edge_seq(),
                sv == dsts_from(e, src@),
                !v0.contains(src@),
                src@ != dst@,
                v0 == label_set(old(visited)@),
                v0.insert(src@).subset_of(label_set(visited@)),
                !v0.contains(dst@) ==> !label_set(visited@).contains(dst@),
                forall|j: int| 0 <= j < k ==> label_set(visited@).contains(#[trigger] sv[j]),
                closed_beyond(e, label_set(visited@), v0.insert(src@)),
            decreases succs.len() - k,
        {
            let ghost vk = label_set(visited@);
            proof {
                assert(sv[k as int] == succs@[k as int]@);
                assert(dsts_from(e, src@).contains(sv[k as int]));
                lemma_dsts_from(e, src@, sv[k as int]);
                vstd::seq_lib::seq_to_set_is_finite(e.map_values(|p: (Seq<char>, Seq<char>)| p.1));
                lemma_measure_shrinks(targets(e), v0, vk, src@, sv[k as int]);

            }
            let next = succs[k].as_str();
            assert(next@ == sv[k as int]);
            if self.dfs_path(next, dst, visited) {
                proof {
                    lemma_reaches_prepend(e, src@, sv[k as int], dst@);
                    assert(v0.subset_of(vk));
                    assert(v0.subset_of(label_set(visited@)));
                }
                return true;
            }
            proof {
                lemma_closed_beyond_trans(e, vk, label_set(visited@), v0.insert(src@));
                assert forall|j: int| 0 <= j < k + 1 implies label_set(visited@).contains(#[trigger] sv[j]) by {
                    if j < k {
                        assert(vk.contains(sv[j]));
                    }
                }
            }
            k += 1;
        }
        proof {
            assert forall|y: Seq<char>| #[trigger] e.contains((src@, y)) implies label_set(visited@).contains(y) by {
                lemma_dsts_from(e, src@, y);
                let j = choose|j: int| 0 <= j < sv.len() && sv[j] == y;
            }
            lemma_closed_beyond_release(e, label_set(visited@), v0, src@);
        }
        false
    }

    /// Whether a path leads from `src` to `dst` (every label reaches itself).
    pub fn is_path(&self, src: &str, dst: &str) -> (r: bool)
        ensures
            r == reaches(self.edge_seq(), src@, dst@),
    {
        let mut visited: Vec<String> = Vec::new();
        assert(label_set(visited@) =~= Set::<Seq<char>>::empty());
        let r = self.dfs_path(src, dst, &mut visited);
        proof {
            if !r && reaches(self.edge_seq(), src@, dst@) {
                let p = choose|p: Seq<Seq<char>>| #[trigger] is_walk(self.edge_seq(), p) && p[0] == src@ && p.last() == dst@;
                reveal(closed_beyond);
                lemma_closed_walk(self.edge_seq(), label_set(visited@), p, p.len() - 1);
            }
        }
        r
    }

    /// Whether the edge from `src` to `dst` lies on a cycle: each reaches the other.
    pub fn is_edge_in_cycle(&self, src: &str, dst: &str) -> (r: bool)
        ensures
            r == (reaches(self.edge_seq(), src@, dst@) && reaches(self.edge_seq(), dst@, src@)),
    {
        if self.is_path(src, dst) && self.is_path(dst, src) {
            return true;
        }
        false
    }
}

/// Whether a label with the view of `l` is on the list.
fn labels_contain_str(v: &Vec<String>, l: &String) -> (r: bool)
    ensures
        r == label_set(v@).contains(l@),
{
    let mut i: usize = 0;
    while i < v.len()
        invariant
            i <= v@.len(),
            forall|j: int| 0 <= j < i ==> v@[j]@ != l@,
        decreases v.len() - i,
    {
        if v[i] == *l {
            assert(labels_view(v@)[i as int] == l@);
            return true;
        }
        i += 1;
    }
    proof {
        if labels_view(v@).contains(l@) {
            let j = choose|j: int| 0 <= j < labels_view(v@).len() && labels_view(v@)[j] == l@;
            assert(v@[j]@ == l@);
        }
    }
    false
}

// ------------------------------------------------------------------
// Depth-first finishing order
// ------------------------------------------------------------------

/// A list of labelled numbers as views.
pub open spec fn ranked_view(s: Seq<(String, u32)>) -> Seq<(Seq<char>, u32)> {
    s.map_values(|p: (String, u32)| (p.0@, p.1))
}

/// The labels of a list of labelled numbers.
pub open spec fn ranked_keys(s: Seq<(Seq<char>, u32)>) -> Seq<Seq<char>> {
    s.map_values(|p: (Seq<char>, u32)| p.0)
}

/// A depth-first visit of `l` that numbers each label when it finishes:
/// the label is marked visited, its unvisited successors are visited in
/// edge order, then it gets the number `n - 1 - k` where `k` labels are
/// numbered so far. The search goes at most `fuel` levels deep.
pub open spec fn topo_visit(
    e: Seq<(Seq<char>, Seq<char>)>,
    n: nat,
    fuel: nat,
    l: Seq<char>,
    vis: Set<Seq<char>>,
    res: Seq<(Seq<char>, u32)>,
) -> (Set<Seq<char>>, Seq<(Seq<char>, u32)>)
    decreases fuel, 0int,
{
    if fuel == 0 {
        (vis, res)
    } else {
        let (v1, r1) = topo_list(e, n, (fuel - 1) as nat, dsts_from(e, l), 0, vis.insert(l), res);
        (v1, keyed_insert(r1, l, (n - r1.len() - 1) as u32))
    }
}

/// The visits of [`topo_visit`] for the unvisited labels of `succs` from position `k` on.
pub open spec fn topo_list(
    e: Seq<(Seq<char>, Seq<char>)>,
    n: nat,
    fuel: nat,
    succs: Seq<Seq<char>>,
    k: int,
    vis: Set<Seq<char>>,
    res: Seq<(Seq<char>, u32)>,
) -> (Set<Seq<char>>, Seq<(Seq<char>, u32)>)
    decreases fuel, succs.len() - k,
{
    if k < 0 || k >= succs.len() {
        (vis, res)
    } else {
        let (v1, r1) = if vis.contains(succs[k]) {
            (vis, res)
        } else {
            topo_visit(e, n, fuel, succs[k], vis, res)
        };
        topo_list(e, n, fuel, succs, k + 1, v1, r1)
    }
}

/// The visits of [`topo_visit`] for the unvisited labels of `labels` from
/// position `k` on, each with enough depth for all unvisited nodes.
pub open spec fn topo_from(
    e: Seq<(Seq<char>, Seq<char>)>,
    nodes: Set<Seq<char>>,
    n: nat,
    labels: Seq<Seq<char>>,
    k: int,
    vis: Set<Seq<char>>,
    res: Seq<(Seq<char>, u32)>,
) -> (Set<Seq<char>>, Seq<(Seq<char>, u32)>)
    decreases labels.len() - k,
{
    if k < 0 || k >= labels.len() {
        (vis, res)
    } else {
        let (v1, r1) = if vis.contains(labels[k]) {
            (vis, res)
        } else {
            topo_visit(e, n, nodes.difference(vis).len(), labels[k], vis, res)
        };
        topo_from(e, nodes, n, labels, k + 1, v1, r1)
    }
}

/// The state a finishing-order search keeps: visited labels are nodes,
/// numbered labels are visited, and no label is numbered twice.
pub open spec fn topo_inv(nodes: Set<Seq<char>>, vis: Set<Seq<char>>, res: Seq<(Seq<char>, u32)>) -> bool {
    &&& vis.subset_of(nodes)
    &&& ranked_keys(res).to_set().subset_of(vis)
    &&& ranked_keys(res).no_duplicates()
}

/// Every successor of a numbered label is visited.
pub open spec fn finished_closed(e: Seq<(Seq<char>, Seq<char>)>, vis: Set<Seq<char>>, res: Seq<(Seq<char>, u32)>) -> bool {
    forall|x: Seq<char>, y: Seq<char>| ranked_keys(res).contains(x) && #[trigger] e.contains((x, y)) ==> vis.contains(y)
}

/// An edge from a label numbered earlier to a label numbered later lies on
/// a cycle: the later one reaches the earlier one.
pub open spec fn finish_order(e: Seq<(Seq<char>, Seq<char>)>, res: Seq<(Seq<char>, u32)>) -> bool {
    forall|i: int, j: int|
        0 <= i < j < res.len() && #[trigger] e.contains((res[i].0, res[j].0)) ==> reaches(e, res[j].0, res[i].0)
}

/// Every visited label that is not numbered yet reaches `l`.
pub open spec fn open_reach(e: Seq<(Seq<char>, Seq<char>)>, vis: Set<Seq<char>>, res: Seq<(Seq<char>, u32)>, l: Seq<char>) -> bool {
    forall|g: Seq<char>| #[trigger] vis.contains(g) && !ranked_keys(res).contains(g) ==> reaches(e, g, l)
}

/// The entries are numbered down from `n - 1`, one per position.
pub open spec fn counted_down(n: nat, res: Seq<(Seq<char>, u32)>) -> bool {
    forall|i: int| 0 <= i < res.len() ==> #[trigger] res[i].1 == (n - 1 - i) as u32
}

/// Topological order: when no edge lies on a cycle, a finishing order numbered
/// down from `n` (with `n` within `u32`) gives every edge's source a smaller
/// number than its target.
pub proof fn lemma_topological_order(e: Seq<(Seq<char>, Seq<char>)>, n: nat, res: Seq<(Seq<char>, u32)>)
    requires
        finish_order(e, res),
        counted_down(n, res),
        res.len() <= n <= u32::MAX as nat + 1,
        forall|x: Seq<char>, y: Seq<char>| #[trigger] e.contains((x, y)) ==> !reaches(e, y, x),
    ensures
        forall|i: int, j: int|
            0 <= i < res.len() && 0 <= j < res.len() && #[trigger] e.contains((res[i].0, res[j].0)) ==> res[i].1
                < res[j].1,
{
    assert forall|i: int, j: int|
        0 <= i < res.len() && 0 <= j < res.len() && #[trigger] e.contains((res[i].0, res[j].0)) implies res[i].1
        < res[j].1 by {
        lemma_reaches_edge(e, res[i].0, res[j].0);
        if i < j {
            assert(reaches(e, res[j].0, res[i].0));
        }
        assert(res[i].1 == (n - 1 - i) as u32);
        assert(res[j].1 == (n - 1 - j) as u32);
    }
}

/// A walk followed by an edge is a walk.
pub proof fn lemma_reaches_append<N>(e: Seq<(N, N)>, a: N, b: N, c: N)
    requires
        reaches(e, a, b),
        e.contains((b, c)),
    ensures
        reaches(e, a, c),
{
    let p = choose|p: Seq<N>| #[trigger] is_walk(e, p) && p[0] == a && p.last() == b;
    let q = p.push(c);
    assert forall|i: int| 0 <= i < q.len() - 1 implies e.contains((#[trigger] q[i], q[i + 1])) by {
        if i < p.len() - 1 {
            assert(q[i] == p[i]);
            assert(q[i + 1] == p[i + 1]);
        } else {
            assert(q[i] == p.last());
        }
    }
    assert(is_walk(e, q));
    assert(q[0] == a);
}

/// Every label reaches itself, and an edge is a walk.
pub proof fn lemma_reaches_edge<N>(e: Seq<(N, N)>, a: N, b: N)
    ensures
        reaches(e, a, a),
        e.contains((a, b)) ==> reaches(e, a, b),
{
    assert(is_walk(e, seq![a]));
    if e.contains((a, b)) {
        let q = seq![a, b];
        assert forall|i: int| 0 <= i < q.len() - 1 implies e.contains((#[trigger] q[i], q[i + 1])) by {}
        assert(is_walk(e, q));
    }
}

impl ControlFlowGraph {
    /// The labels of the nodes, as a set.
    pub open spec fn node_set(&self) -> Set<Seq<char>> {
        crate::cfg::node_labels(self.node_seq()).to_set()
    }

    /// Every edge ends at a node, and no two nodes share a label.
    pub open spec fn closed_graph(&self) -> bool {
        &&& forall|j: int| 0 <= j < self.edge_seq().len() ==> self.node_set().contains(#[trigger] self.edge_seq()[j].1)
        &&& crate::cfg::node_labels(self.node_seq()).no_duplicates()
    }
}

/// With distinct keys, a numbered list is no longer than the node set that holds its keys and `l`.
proof fn lemma_room_for_one(nodes: Set<Seq<char>>, n: nat, res: Seq<(Seq<char>, u32)>, l: Seq<char>)
    requires
        nodes.finite(),
        nodes.len() == n,
        ranked_keys(res).no_duplicates(),
        ranked_keys(res).to_set().subset_of(nodes),
        !ranked_keys(res).contains(l),
        nodes.contains(l),
    ensures
        res.len() + 1 <= n,
{
    let ks = ranked_keys(res).push(l);
    assert(ks.no_duplicates());
    ks.unique_seq_to_set();
    assert(ks.to_set().subset_of(nodes));
    vstd::set_lib::lemma_len_subset(ks.to_set(), nodes);
}

impl ControlFlowGraph {
    /// The finishing-order visit with an explicit depth.
    fn dfs_fuel(
        &self,
        label: &String,
        visited: &mut Vec<String>,
        result: &mut Vec<(String, u32)>,
        Ghost(fuel): Ghost<nat>,
    )
        requires
            self.closed_graph(),
            self.node_set().contains(label@),
            !label_set(old(visited)@).contains(label@),
            topo_inv(self.node_set(), label_set(old(visited)@), ranked_view(old(result)@)),
            fuel >= self.node_set().difference(label_set(old(visited)@)).len(),
        ensures
            (label_set(final(visited)@), ranked_view(final(result)@)) == topo_visit(
                self.edge_seq(),
                self.nodes@.len() as nat,
                fuel,
                label@,
                label_set(old(visited)@),
                ranked_view(old(result)@),
            ),
            label_set(old(visited)@).insert(label@).subset_of(label_set(final(visited)@)),
            topo_inv(self.node_set(), label_set(final(visited)@), ranked_view(final(result)@)),
            forall|x: Seq<char>|
                ranked_keys(ranked_view(final(result)@)).contains(x) && !ranked_keys(ranked_view(old(result)@)).contains(x)
                    ==> !label_set(old(visited)@).contains(x),
            ranked_view(old(result)@).is_prefix_of(ranked_view(final(result)@)),
            forall|x: Seq<char>|
                label_set(final(visited)@).contains(x) && !label_set(old(visited)@).contains(x) ==> ranked_keys(
                    ranked_view(final(result)@),
                ).contains(x),
            forall|x: Seq<char>|
                ranked_keys(ranked_view(final(result)@)).contains(x) && !ranked_keys(ranked_view(old(result)@)).contains(x)
                    ==> reaches(self.edge_seq(), label@, x),
            counted_down(self.nodes@.len() as nat, ranked_view(old(result)@)) ==> counted_down(
                self.nodes@.len() as nat,
                ranked_view(final(result)@),
            ),
            finished_closed(self.edge_seq(), label_set(old(visited)@), ranked_view(old(result)@)) && finish_order(
                self.edge_seq(),
                ranked_view(old(result)@),
            ) && open_reach(self.edge_seq(), label_set(old(visited)@), ranked_view(old(result)@), label@)
                ==> finished_closed(self.edge_seq(), label_set(final(visited)@), ranked_view(final(result)@))
                && finish_order(self.edge_seq(), ranked_view(final(result)@)),
        decreases fuel,
    {
        let ghost e = self.edge_seq();
        let ghost nodes = self.node_set();
        let ghost n = self.nodes@.len() as nat;
        let ghost v0 = label_set(visited@);
        let ghost r0 = ranked_view(result@);
        proof {
            vstd::seq_lib::seq_to_set_is_finite(crate::cfg::node_labels(self.node_seq()));
            crate::cfg::node_labels(self.node_seq()).unique_seq_to_set();
            assert(nodes.difference(v0).contains(label@));
            if nodes.difference(v0).len() == 0 {
                assert(nodes.difference(v0) =~= Set::empty());
            }
        }
        let ghost lv0 = labels_view(visited@);
        visited.push(label.clone());
        proof {
            assert(labels_view(visited@) =~= lv0 + seq![label@]);
            Seq::lemma_to_set_insert_commutes(lv0, label@);
        }
        assert(label_set(visited@) =~= v0.insert(label@));
        let succs = self.get_successor_labels(label.as_str());
        let ghost sv = labels_view(succs@);
        let ghost good = finished_closed(e, v0, r0) && finish_order(e, r0) && open_reach(e, v0, r0, label@);
        let mut k: usize = 0;
        while k < succs.len()
            invariant
                k <= succs@.len(),
                sv == labels_view(succs@),
                sv == dsts_from(e, label@),
                e == self.edge_seq(),
                nodes == self.node_set(),
                n == self.nodes@.len(),
                r0 == ranked_view(old(result)@),
                v0 == label_set(old(visited)@),
                good == (finished_closed(e, v0, r0) && finish_order(e, r0) && open_reach(e, v0, r0, label@)),
                r0.is_prefix_of(ranked_view(result@)),
                forall|x: Seq<char>|
                    label_set(visited@).contains(x) && !v0.insert(label@).contains(x) ==> ranked_keys(
                        ranked_view(result@),
                    ).contains(x),
                forall|x: Seq<char>|
                    ranked_keys(ranked_view(result@)).contains(x) && !ranked_keys(r0).contains(x) ==> reaches(e, label@, x),
                counted_down(n, r0) ==> counted_down(n, ranked_view(result@)),
                forall|j: int| 0 <= j < k ==> label_set(visited@).contains(#[trigger] sv[j]),
                good ==> finished_closed(e, label_set(visited@), ranked_view(result@)) && finish_order(
                    e,
                    ranked_view(result@),
                ),
                self.closed_graph(),
                fuel >= 1,
                nodes.finite(),
                nodes.len() == n,
                nodes.contains(label@),
                !v0.contains(label@),
                fuel >= nodes.difference(v0).len(),
                v0.insert(label@).subset_of(label_set(visited@)),
                topo_inv(nodes, label_set(visited@), ranked_view(result@)),
                forall|x: Seq<char>|
                    ranked_keys(ranked_view(result@)).contains(x) && !ranked_keys(r0).contains(x) ==> !v0.insert(
                        label@,
                    ).contains(x),
                topo_list(e, n, (fuel - 1) as nat, sv, 0, v0.insert(label@), r0) == topo_list(
                    e,
                    n,
                    (fuel - 1) as nat,
                    sv,
                    k as int,
                    label_set(visited@),
                    ranked_view(result@),
                ),
            decreases succs.len() - k,
        {
            let ghost vk = label_set(visited@);
            let ghost rk = ranked_view(result@);
            assert(sv[k as int] == succs@[k as int]@);
            if !labels_contain_str(visited, &succs[k]) {
                proof {
                    lemma_dsts_from(e, label@, sv[k as int]);
                    assert(dsts_from(e, label@).contains(sv[k as int]));
                    let j = choose|j: int| 0 <= j < e.len() && e[j] == (label@, sv[k as int]);
                    assert(nodes.contains(e[j].1));
                    let a = nodes.difference(vk);
                    let b = nodes.difference(v0);
                    assert(a.subset_of(b.remove(label@)));
                    vstd::set_lib::lemma_len_subset(a, b.remove(label@));
                }
                proof {
                    lemma_dsts_from(e, label@, sv[k as int]);
                    if good {
                        assert forall|g: Seq<char>| #[trigger] vk.contains(g) && !ranked_keys(rk).contains(g) implies reaches(
                            e,
                            g,
                            sv[k as int],
                        ) by {
                            lemma_reaches_edge(e, label@, sv[k as int]);
                            if g != label@ {
                                assert(v0.contains(g));
                                assert(!ranked_keys(r0).contains(g)) by {
                                    if ranked_keys(r0).contains(g) {
                                        let m = choose|m: int| 0 <= m < ranked_keys(r0).len() && ranked_keys(r0)[m] == g;
                                        assert(ranked_keys(rk)[m] == g);
                                    }
                                }
                                lemma_reaches_append(e, g, label@, sv[k as int]);
                            }
                        }
                    }
                }
                self.dfs_fuel(&succs[k], visited, result, Ghost((fuel - 1) as nat));
                proof {
                    lemma_dsts_from(e, label@, sv[k as int]);
                    assert forall|x: Seq<char>|
                        ranked_keys(ranked_view(result@)).contains(x) && !ranked_keys(r0).contains(x) implies reaches(
                        e,
                        label@,
                        x,
                    ) by {
                        if !ranked_keys(rk).contains(x) {
                            lemma_reaches_prepend(e, label@, sv[k as int], x);
                        }
                    }
                    assert forall|x: Seq<char>|
                        label_set(visited@).contains(x) && !v0.insert(label@).contains(x) implies ranked_keys(
                        ranked_view(result@),
                    ).contains(x) by {
                        if vk.contains(x) {
                            let m = choose|m: int| 0 <= m < ranked_keys(rk).len() && ranked_keys(rk)[m] == x;
                            assert(ranked_keys(ranked_view(result@))[m] == x);
                        }
                    }
                }
            }
            proof {
                assert forall|x: Seq<char>|
                    ranked_keys(ranked_view(result@)).contains(x) && !ranked_keys(r0).contains(x) implies !v0.insert(
                    label@,
                ).contains(x) by {
                    if !ranked_keys(rk).contains(x) {
                        assert(!vk.contains(x));
                    }
                }
                assert forall|j: int| 0 <= j < k + 1 implies label_set(visited@).contains(#[trigger] sv[j]) by {
                    if j < k {
                        assert(vk.contains(sv[j]));
                    }
                }
            }
            k += 1;
        }
        let ghost rl = ranked_view(result@);
        proof {
            assert(!ranked_keys(rl).contains(label@)) by {
                if ranked_keys(rl).contains(label@) {
                    assert(!ranked_keys(r0).contains(label@)) by {
                        if ranked_keys(r0).contains(label@) {
                            assert(ranked_keys(r0).to_set().contains(label@));
                        }
                    }
                }
            }
            assert(ranked_keys(rl).to_set().subset_of(nodes));
            lemma_room_for_one(nodes, n, rl, label@);
            crate::cfg::lemma_vkey_pos(rl, label@);
            if crate::cfg::vkey_pos(rl, label@) >= 0 {
                assert(ranked_keys(rl)[crate::cfg::vkey_pos(rl, label@)] == label@);
            }
        }
        let order = (self.nodes.len() - result.len() - 1) as u32;
        let ghost before = ranked_view(result@);
        proof {
            crate::analysis::lemma_key_pos_views(result@, before, label@);
        }
        put_ranked(result, label.clone(), order);
        assert(ranked_view(result@) =~= before.push((label@, order)));
        proof {
            let fr = ranked_view(result@);
            assert(ranked_keys(fr) =~= ranked_keys(rl).push(label@));
            Seq::lemma_to_set_insert_commutes(ranked_keys(rl), label@);
            assert(ranked_keys(rl).push(label@) =~= ranked_keys(rl) + seq![label@]);
            assert(fr.last() == (label@, order));
            lemma_reaches_edge(e, label@, label@);
            assert forall|x: Seq<char>| ranked_keys(fr).contains(x) && !ranked_keys(r0).contains(x) implies reaches(
                e,
                label@,
                x,
            ) by {
                if x != label@ {
                    let m = choose|m: int| 0 <= m < ranked_keys(fr).len() && ranked_keys(fr)[m] == x;
                    assert(ranked_keys(rl)[m] == x);
                }
            }
            assert forall|x: Seq<char>|
                label_set(visited@).contains(x) && !v0.contains(x) implies ranked_keys(fr).contains(x) by {
                if x == label@ {
                    assert(ranked_keys(fr)[fr.len() - 1] == label@);
                } else {
                    let m = choose|m: int| 0 <= m < ranked_keys(rl).len() && ranked_keys(rl)[m] == x;
                    assert(ranked_keys(fr)[m] == x);
                }
            }
            assert forall|x: Seq<char>|
                ranked_keys(fr).contains(x) && !ranked_keys(r0).contains(x) implies !v0.contains(x) by {
                if x != label@ {
                    let m = choose|m: int| 0 <= m < ranked_keys(fr).len() && ranked_keys(fr)[m] == x;
                    assert(ranked_keys(rl)[m] == x);
                }
            }
            assert(r0.is_prefix_of(fr));
            if counted_down(n, r0) {
                assert forall|i: int| 0 <= i < fr.len() implies #[trigger] fr[i].1 == (n - 1 - i) as u32 by {
                    if i < rl.len() {
                        assert(fr[i] == rl[i]);
                    } else {
                        assert(i == rl.len());
                        assert(fr[i].1 == order);
                    }
                }
            }
            if good {
                assert forall|x: Seq<char>, y: Seq<char>| ranked_keys(fr).contains(x) && #[trigger] e.contains(
                    (x, y),
                ) implies label_set(visited@).contains(y) by {
                    if x == label@ {
                        lemma_dsts_from(e, label@, y);
                        let j = choose|j: int| 0 <= j < sv.len() && sv[j] == y;
                    } else {
                        let m = choose|m: int| 0 <= m < ranked_keys(fr).len() && ranked_keys(fr)[m] == x;
                        assert(ranked_keys(rl)[m] == x);
                    }
                }
                assert forall|i: int, j: int|
                    0 <= i < j < fr.len() && #[trigger] e.contains((fr[i].0, fr[j].0)) implies reaches(
                    e,
                    fr[j].0,
                    fr[i].0,
                ) by {
                    assert(fr[i] == rl[i]);
                    if j < rl.len() {
                        assert(fr[j] == rl[j]);
                    } else {
                        assert(fr[j].0 == label@);
                        let x = fr[i].0;
                        assert(ranked_keys(rl)[i] == x);
                        if ranked_keys(r0).contains(x) {
                            assert(v0.contains(label@));
                        }
                    }
                }
            }
        }
    }

    /// A depth-first visit of `label` that numbers each label when it
    /// finishes, counting down from the number of nodes; see [`topo_visit`].
    /// The graph must be closed, `label` an unvisited node, and every
    /// numbered label visited.
    pub fn dfs(&self, label: &String, visited: &mut Vec<String>, result: &mut Vec<(String, u32)>)
        requires
            self.closed_graph(),
            self.node_set().contains(label@),
            !label_set(old(visited)@).contains(label@),
            topo_inv(self.node_set(), label_set(old(visited)@), ranked_view(old(result)@)),
        ensures
            (label_set(final(visited)@), ranked_view(final(result)@)) == topo_visit(
                self.edge_seq(),
                self.nodes@.len() as nat,
                self.node_set().difference(label_set(old(visited)@)).len(),
                label@,
                label_set(old(visited)@),
                ranked_view(old(result)@),
            ),
            label_set(old(visited)@).insert(label@).subset_of(label_set(final(visited)@)),
            topo_inv(self.node_set(), label_set(final(visited)@), ranked_view(final(result)@)),
            ranked_view(old(result)@).is_prefix_of(ranked_view(final(result)@)),
            forall|x: Seq<char>|
                label_set(final(visited)@).contains(x) && !label_set(old(visited)@).contains(x) ==> ranked_keys(
                    ranked_view(final(result)@),
                ).contains(x),
            forall|x: Seq<char>|
                ranked_keys(ranked_view(final(result)@)).contains(x) && !ranked_keys(ranked_view(old(result)@)).contains(x)
                    ==> reaches(self.edge_seq(), label@, x),
            counted_down(self.nodes@.len() as nat, ranked_view(old(result)@)) ==> counted_down(
                self.nodes@.len() as nat,
                ranked_view(final(result)@),
            ),
            finished_closed(self.edge_seq(), label_set(old(visited)@), ranked_view(old(result)@)) && finish_order(
                self.edge_seq(),
                ranked_view(old(result)@),
            ) && open_reach(self.edge_seq(), label_set(old(visited)@), ranked_view(old(result)@), label@)
                ==> finished_closed(self.edge_seq(), label_set(final(visited)@), ranked_view(final(result)@))
                && finish_order(self.edge_seq(), ranked_view(final(result)@)),
    {
        let ghost f = self.node_set().difference(label_set(visited@)).len();
        self.dfs_fuel(label, visited, result, Ghost(f));
    }

    /// Every node numbered by its depth-first finishing order, counting down
    /// from the number of nodes: searches start at each unvisited node in
    /// node order ([`topo_from`]). The graph must be closed.
    pub fn topological_sort(&self) -> (r: Vec<(String, u32)>)
        requires
            self.closed_graph(),
        ensures
            ranked_view(r@) == topo_from(
                self.edge_seq(),
                self.node_set(),
                self.nodes@.len() as nat,
                crate::cfg::node_labels(self.node_seq()),
                0,
                Set::empty(),
                Seq::empty(),
            ).1,
            ranked_keys(ranked_view(r@)).to_set() == self.node_set(),
            ranked_keys(ranked_view(r@)).no_duplicates(),
            counted_down(self.nodes@.len() as nat, ranked_view(r@)),
            finish_order(self.edge_seq(), ranked_view(r@)),
            (forall|x: Seq<char>, y: Seq<char>| #[trigger] self.edge_seq().contains((x, y)) ==> !reaches(
                self.edge_seq(),
                y,
                x,
            )) && self.nodes@.len() <= u32::MAX as nat + 1 ==> forall|i: int, j: int|
                0 <= i < r@.len() && 0 <= j < r@.len() && #[trigger] self.edge_seq().contains(
                    (r@[i].0@, r@[j].0@),
                ) ==> r@[i].1 < r@[j].1,
    {
        let labels = self.get_all_block_labels();
        let ghost lv = labels_view(labels@);
        let ghost nodes = self.node_set();
        let ghost n = self.nodes@.len() as nat;
        let ghost e = self.edge_seq();
        let mut visited: Vec<String> = Vec::new();
        let mut result: Vec<(String, u32)> = Vec::new();
        assert(label_set(visited@) =~= Set::<Seq<char>>::empty());
        assert(ranked_view(result@) =~= Seq::<(Seq<char>, u32)>::empty());
        assert(ranked_keys(ranked_view(result@)).to_set() =~= Set::<Seq<char>>::empty());
        let mut k: usize = 0;
        while k < labels.len()
            invariant
                k <= labels@.len(),
                lv == labels_view(labels@),
                lv == crate::cfg::node_labels(self.node_seq()),
                nodes == self.node_set(),
                n == self.nodes@.len(),
                e == self.edge_seq(),
                self.closed_graph(),
                topo_inv(nodes, label_set(visited@), ranked_view(result@)),
                ranked_keys(ranked_view(result@)).to_set() == label_set(visited@),
                forall|j: int| 0 <= j < k ==> label_set(visited@).contains(#[trigger] lv[j]),
                finished_closed(e, label_set(visited@), ranked_view(result@)),
                finish_order(e, ranked_view(result@)),
                counted_down(n, ranked_view(result@)),
                topo_from(e, nodes, n, lv, 0, Set::empty(), Seq::empty()) == topo_from(
                    e,
                    nodes,
                    n,
                    lv,
                    k as int,
                    label_set(visited@),
                    ranked_view(result@),
                ),
            decreases labels.len() - k,
        {
            assert(lv[k as int] == labels@[k as int]@);
            if !labels_contain_str(&visited, &labels[k]) {
                proof {
                    assert(lv.contains(lv[k as int]));
                    assert(nodes.contains(lv[k as int]));
                }
                let ghost vk = label_set(visited@);
                let ghost rk = ranked_view(result@);
                assert(open_reach(e, vk, rk, lv[k as int])) by {
                    assert forall|g: Seq<char>| #[trigger] vk.contains(g) implies ranked_keys(rk).contains(g) by {
                        assert(ranked_keys(rk).to_set().contains(g));
                    }
                }
                self.dfs(&labels[k], &mut visited, &mut result);
                proof {
                    let vf = label_set(visited@);
                    let rf = ranked_view(result@);
                    assert forall|x: Seq<char>| vf.contains(x) implies ranked_keys(rf).to_set().contains(x) by {
                        if !vk.contains(x) {
                            assert(ranked_keys(rf).contains(x));
                        } else {
                            assert(ranked_keys(rk).to_set().contains(x));
                            let m = choose|m: int| 0 <= m < ranked_keys(rk).len() && ranked_keys(rk)[m] == x;
                            assert(ranked_keys(rf)[m] == x);
                        }
                    }
                    assert(ranked_keys(rf).to_set() =~= vf);
                }
            }
            proof {
                assert forall|j: int| 0 <= j < k + 1 implies label_set(visited@).contains(#[trigger] lv[j]) by {
                }
            }
            k += 1;
        }
        proof {
            let vf = label_set(visited@);
            assert forall|x: Seq<char>| nodes.contains(x) implies vf.contains(x) by {
                let j = choose|j: int| 0 <= j < lv.len() && lv[j] == x;
            }
            assert(vf =~= nodes);
            let rv = ranked_view(result@);
            ranked_keys(rv).unique_seq_to_set();
            crate::cfg::node_labels(self.node_seq()).lemma_cardinality_of_set();
            if (forall|x: Seq<char>, y: Seq<char>| #[trigger] e.contains((x, y)) ==> !reaches(e, y, x)) && n
                <= u32::MAX as nat + 1 {
                lemma_topological_order(e, n, rv);
                assert forall|i: int, j: int|
                    0 <= i < result@.len() && 0 <= j < result@.len() && #[trigger] e.contains(
                        (result@[i].0@, result@[j].0@),
                    ) implies result@[i].1 < result@[j].1 by {
                    assert(rv[i] == (result@[i].0@, result@[i].1));
                    assert(rv[j] == (result@[j].0@, result@[j].1));
                    assert(e.contains((rv[i].0, rv[j].0)));
                }
            }
        }
        result
    }
}

/// Sets the number of a label: replaces the first entry with that label, or appends one.
fn put_ranked(v: &mut Vec<(String, u32)>, k: String, a: u32)
    ensures
        crate::program::key_pos(old(v)@, k@) >= 0 ==> final(v)@ == old(v)@.update(
            crate::program::key_pos(old(v)@, k@),
            (k, a),
        ),
        crate::program::key_pos(old(v)@, k@) < 0 ==> final(v)@ == old(v)@.push((k, a)),
{
    proof {
        crate::program::lemma_key_pos_range(v@, k@);
    }
    match crate::program::find_key(v, k.as_str()) {
        Some(i) => {
            v.set(i, (k, a));
        },
        None => {
            v.push((k, a));
        },
    }
}

// ------------------------------------------------------------------
// Loop headers
// ------------------------------------------------------------------

/// A depth-first visit of `l` that records loop headers: `l` is marked
/// visited, pushed on the stack and put on the current path; for each
/// successor in edge order, an unvisited one is visited, and a visited one
/// that is on the current path is a loop header; then `l` leaves the stack
/// and the path. The search goes at most `fuel` levels deep.
pub open spec fn lh_visit(
    e: Seq<(Seq<char>, Seq<char>)>,
    fuel: nat,
    l: Seq<char>,
    vis: Set<Seq<char>>,
    stack: Seq<Seq<char>>,
    path: Set<Seq<char>>,
    hdrs: Set<Seq<char>>,
) -> (Set<Seq<char>>, Seq<Seq<char>>, Set<Seq<char>>, Set<Seq<char>>)
    decreases fuel, 0int,
{
    if fuel == 0 {
        (vis, stack, path, hdrs)
    } else {
        let (v1, s1, p1, h1) = lh_list(
            e,
            (fuel - 1) as nat,
            dsts_from(e, l),
            0,
            vis.insert(l),
            stack.push(l),
            path.insert(l),
            hdrs,
        );
        (
            v1,
            if s1.len() > 0 {
                s1.drop_last()
            } else {
                s1
            },
            p1.remove(l),
            h1,
        )
    }
}

/// The steps of [`lh_visit`] for the successors `succs` from position `k` on.
pub open spec fn lh_list(
    e: Seq<(Seq<char>, Seq<char>)>,
    fuel: nat,
    succs: Seq<Seq<char>>,
    k: int,
    vis: Set<Seq<char>>,
    stack: Seq<Seq<char>>,
    path: Set<Seq<char>>,
    hdrs: Set<Seq<char>>,
) -> (Set<Seq<char>>, Seq<Seq<char>>, Set<Seq<char>>, Set<Seq<char>>)
    decreases fuel, succs.len() - k,
{
    if k < 0 || k >= succs.len() {
        (vis, stack, path, hdrs)
    } else {
        let (v1, s1, p1, h1) = if !vis.contains(succs[k]) {
            lh_visit(e, fuel, succs[k], vis, stack, path, hdrs)
        } else if path.contains(succs[k]) {
            (vis, stack, path, hdrs.insert(succs[k]))
        } else {
            (vis, stack, path, hdrs)
        };
        lh_list(e, fuel, succs, k + 1, v1, s1, p1, h1)
    }
}

/// The depth a loop-header visit of `l` needs: the unvisited labels among
/// `l` and the edge targets.
pub open spec fn lh_depth(e: Seq<(Seq<char>, Seq<char>)>, l: Seq<char>, vis: Set<Seq<char>>) -> nat {
    targets(e).insert(l).difference(vis).len() + if vis.contains(l) {
        1nat
    } else {
        0nat
    }
}

/// Whether a visit of `l` starts from a consistent search: `l` is
/// unvisited, the stack is a walk whose labels are the current path, and an
/// edge leads from its last label into `l`.
pub open spec fn fresh_visit<N>(e: Seq<(N, N)>, vis: Set<N>, stack: Seq<N>, path: Seq<N>, l: N) -> bool {
    &&& !vis.contains(l)
    &&& lh_inv(e, vis, stack, path)
    &&& stack.len() >= 1 ==> e.contains((stack.last(), l))
}

/// The depth of a visit shrinks from a node to an unvisited successor.
pub proof fn lemma_visit_depth<A>(t: Set<A>, v0: Set<A>, v1: Set<A>, u: A, y: A)
    requires
        t.finite(),
        v0.insert(u).subset_of(v1),
        !v1.contains(y),
        t.contains(y),
    ensures
        t.insert(y).difference(v1).len() < t.insert(u).difference(v0).len() + if v0.contains(u) {
            1nat
        } else {
            0nat
        },
{
    if !v0.contains(u) {
        lemma_measure_shrinks(t, v0, v1, u, y);
    } else {
        assert(t.insert(y) =~= t);
        assert(t.difference(v1).subset_of(t.insert(u).difference(v0)));
        vstd::set_lib::lemma_len_subset(t.difference(v1), t.insert(u).difference(v0));
    }
}

/// The visits of [`lh_visit`] for the unvisited sources of the edges from position `k` on.
pub open spec fn lh_from(
    e: Seq<(Seq<char>, Seq<char>)>,
    k: int,
    vis: Set<Seq<char>>,
    stack: Seq<Seq<char>>,
    path: Set<Seq<char>>,
    hdrs: Set<Seq<char>>,
) -> (Set<Seq<char>>, Seq<Seq<char>>, Set<Seq<char>>, Set<Seq<char>>)
    decreases e.len() - k,
{
    if k < 0 || k >= e.len() {
        (vis, stack, path, hdrs)
    } else {
        let (v1, s1, p1, h1) = if !vis.contains(e[k].0) {
            lh_visit(e, lh_depth(e, e[k].0, vis), e[k].0, vis, stack, path, hdrs)
        } else {
            (vis, stack, path, hdrs)
        };
        lh_from(e, k + 1, v1, s1, p1, h1)
    }
}

/// Whether a walk of at least one edge leads from `h` back to `h`.
pub open spec fn on_cycle<N>(e: Seq<(N, N)>, h: N) -> bool {
    exists|p: Seq<N>| #[trigger] is_walk(e, p) && p.len() >= 2 && p[0] == h && p.last() == h
}

/// The state a loop-header search keeps: the stack is a walk whose labels
/// are the current path, all visited, and no label is twice on the path list.
pub open spec fn lh_inv<N>(
    e: Seq<(N, N)>,
    vis: Set<N>,
    stack: Seq<N>,
    path: Seq<N>,
) -> bool {
    &&& stack.len() >= 1 ==> is_walk(e, stack)
    &&& stack.to_set() == path.to_set()
    &&& path.to_set().subset_of(vis)
    &&& path.no_duplicates()
}

/// The end of a walk that is on it again closes a cycle.
#[verifier::rlimit(60)]
pub proof fn lemma_back_edge_cycle<N>(e: Seq<(N, N)>, stack: Seq<N>, h: N)
    requires
        stack.len() >= 1,
        is_walk(e, stack),
        stack.contains(h),
        e.contains((stack.last(), h)),
    ensures
        on_cycle(e, h),
{
    let i = choose|i: int| 0 <= i < stack.len() && stack[i] == h;
    let t = stack.subrange(i, stack.len() as int);
    let q = t.push(h);
    assert forall|j: int| 0 <= j < q.len() - 1 implies e.contains((#[trigger] q[j], q[j + 1])) by {
        if j < t.len() - 1 {
            assert(q[j] == stack[i + j]);
            assert(q[j + 1] == stack[i + j + 1]);
            assert(e.contains((stack[i + j], stack[i + j + 1])));
        } else {
            assert(q[j] == stack[stack.len() - 1]);
            assert(q[j + 1] == h);
        }
    }
    assert(is_walk(e, q));
    assert(q[0] == h);
    assert(q.last() == h);
}

/// Adds a label to a list that stands for a set.
pub(crate) fn set_insert(v: &mut Vec<String>, x: &String)
    ensures
        label_set(final(v)@) == label_set(old(v)@).insert(x@),
        labels_view(old(v)@).no_duplicates() ==> labels_view(final(v)@).no_duplicates(),
{
    if !labels_contain_str(v, x) {
        let ghost lv = labels_view(v@);
        v.push(x.clone());
        proof {
            assert(labels_view(v@) =~= lv + seq![x@]);
            Seq::lemma_to_set_insert_commutes(lv, x@);
            assert(labels_view(v@) =~= lv.push(x@));
        }
    } else {
        assert(label_set(v@) =~= label_set(v@).insert(x@));
    }
}

/// Removes a label from a list without repetitions that stands for a set.
fn set_remove(v: &mut Vec<String>, x: &String)
    requires
        labels_view(old(v)@).no_duplicates(),
    ensures
        label_set(final(v)@) == label_set(old(v)@).remove(x@),
        labels_view(final(v)@).no_duplicates(),
{
    let mut i: usize = 0;
    while i < v.len()
        invariant
            i <= v@.len(),
            v@ == old(v)@,
            labels_view(old(v)@).no_duplicates(),
            forall|j: int| 0 <= j < i ==> v@[j]@ != x@,
        decreases v.len() - i,
    {
        if v[i] == *x {
            let ghost lv = labels_view(v@);
            v.remove(i);
            proof {
                assert(labels_view(v@) =~= lv.remove(i as int));
                lv.remove_ensures(i as int);
                lemma_remove_unique(lv, i as int);
            }
            assert(label_set(v@) =~= label_set(old(v)@).remove(x@));
            return;
        }
        i += 1;
    }
    proof {
        assert(!label_set(v@).contains(x@)) by {
            if labels_view(v@).contains(x@) {
                let j = choose|j: int| 0 <= j < labels_view(v@).len() && labels_view(v@)[j] == x@;
                assert(v@[j]@ == x@);
            }
        }
    }
    assert(label_set(v@) =~= label_set(old(v)@).remove(x@));
}

/// Removing the one occurrence of an element from a sequence without
/// repetitions removes it from the set of its elements and keeps the rest.
pub proof fn lemma_remove_unique<A>(s: Seq<A>, i: int)
    requires
        s.no_duplicates(),
        0 <= i < s.len(),
    ensures
        s.remove(i).to_set() == s.to_set().remove(s[i]),
        s.remove(i).no_duplicates(),
{
    let r = s.remove(i);
    s.remove_ensures(i);
    assert forall|y: A| r.to_set().contains(y) == s.to_set().remove(s[i]).contains(y) by {
        if r.contains(y) {
            let j = choose|j: int| 0 <= j < r.len() && r[j] == y;
            if j < i {
                assert(s[j] == y);
                assert(j != i);
            } else {
                assert(s[j + 1] == y);
                assert(j + 1 != i);
            }
        }
        if s.to_set().remove(s[i]).contains(y) {
            let j = choose|j: int| 0 <= j < s.len() && s[j] == y;
            assert(j != i);
            if j < i {
                assert(r[j] == y);
            } else {
                assert(r[j - 1] == y);
            }
        }
    }
    assert(r.to_set() =~= s.to_set().remove(s[i]));
    assert forall|a: int, b: int| 0 <= a < r.len() && 0 <= b < r.len() && a != b implies r[a] != r[b] by {
        let sa = if a < i {
            a
        } else {
            a + 1
        };
        let sb = if b < i {
            b
        } else {
            b + 1
        };
        assert(r[a] == s[sa]);
        assert(r[b] == s[sb]);
    }
}

/// A walk extended by an edge from its end is a walk.
pub proof fn lemma_walk_push<N>(e: Seq<(N, N)>, s: Seq<N>, x: N)
    requires
        s.len() >= 1 ==> is_walk(e, s),
        s.len() >= 1 ==> e.contains((s.last(), x)),
    ensures
        is_walk(e, s.push(x)),
{
    let t = s.push(x);
    assert forall|i: int| 0 <= i < t.len() - 1 implies e.contains((#[trigger] t[i], t[i + 1])) by {
        if i < s.len() - 1 {
            assert(t[i] == s[i]);
            assert(t[i + 1] == s[i + 1]);
        } else {
            assert(t[i] == s.last());
        }
    }
}

impl ControlFlowGraph {
    /// The loop-header visit with an explicit depth.
    fn dfs_loop_headers_fuel(
        &self,
        label: &String,
        visited: &mut Vec<String>,
        stack: &mut Vec<String>,
        in_current_path: &mut Vec<String>,
        loop_headers: &mut Vec<String>,
        Ghost(fuel): Ghost<nat>,
    )
        requires
            labels_view(old(in_current_path)@).no_duplicates(),
            fuel >= lh_depth(self.edge_seq(), label@, label_set(old(visited)@)),
        ensures
            (
                label_set(final(visited)@),
                labels_view(final(stack)@),
                label_set(final(in_current_path)@),
                label_set(final(loop_headers)@),
            ) == lh_visit(
                self.edge_seq(),
                fuel,
                label@,
                label_set(old(visited)@),
                labels_view(old(stack)@),
                label_set(old(in_current_path)@),
                label_set(old(loop_headers)@),
            ),
            labels_view(final(stack)@) == labels_view(old(stack)@),
            labels_view(final(in_current_path)@).no_duplicates(),
            label_set(old(visited)@).insert(label@).subset_of(label_set(final(visited)@)),
            fresh_visit(
                self.edge_seq(),
                label_set(old(visited)@),
                labels_view(old(stack)@),
                labels_view(old(in_current_path)@),
                label@,
            ) ==> {
                &&& label_set(final(in_current_path)@) == label_set(old(in_current_path)@)
                &&& lh_inv(
                    self.edge_seq(),
                    label_set(final(visited)@),
                    labels_view(final(stack)@),
                    labels_view(final(in_current_path)@),
                )
                &&& forall|h: Seq<char>|
                    label_set(final(loop_headers)@).contains(h) ==> label_set(old(loop_headers)@).contains(h)
                        || on_cycle(self.edge_seq(), h)
            },
        decreases fuel,
    {
        let ghost e = self.edge_seq();
        let ghost v0 = label_set(visited@);
        let ghost s0 = labels_view(stack@);
        let ghost p0 = label_set(in_current_path@);
        let ghost h0 = label_set(loop_headers@);
        let ghost good = fresh_visit(e, v0, s0, labels_view(in_current_path@), label@);
        proof {
            vstd::seq_lib::seq_to_set_is_finite(e.map_values(|p: (Seq<char>, Seq<char>)| p.1));
            if !v0.contains(label@) {
                assert(targets(e).insert(label@).difference(v0).contains(label@));
            }
        }
        set_insert(visited, label);
        let ghost ls = labels_view(stack@);
        stack.push(label.clone());
        assert(labels_view(stack@) =~= ls.push(label@));
        set_insert(in_current_path, label);
        proof {
            if good {
                lemma_walk_push(e, s0, label@);
                assert(labels_view(stack@).to_set() =~= labels_view(in_current_path@).to_set()) by {
                    Seq::lemma_to_set_insert_commutes(s0, label@);
                    assert(s0.push(label@) =~= s0 + seq![label@]);
                }
                assert(!labels_view(old(in_current_path)@).to_set().contains(label@));
            }
        }
        let succs = self.get_successor_labels(label.as_str());
        let ghost sv = labels_view(succs@);
        let mut k: usize = 0;
        while k < succs.len()
            invariant
                k <= succs@.len(),
                sv == labels_view(succs@),
                sv == dsts_from(e, label@),
                e == self.edge_seq(),
                fuel >= 1,
                targets(e).finite(),
                fuel >= lh_depth(e, label@, v0),
                v0.insert(label@).subset_of(label_set(visited@)),
                labels_view(stack@) == s0.push(label@),
                good ==> label_set(in_current_path@) == p0.insert(label@),
                labels_view(in_current_path@).no_duplicates(),
                good == fresh_visit(e, v0, s0, labels_view(old(in_current_path)@), label@),
                good ==> lh_inv(e, label_set(visited@), labels_view(stack@), labels_view(in_current_path@)),
                good ==> forall|h: Seq<char>| label_set(loop_headers@).contains(h) ==> h0.contains(h) || on_cycle(e, h),
                lh_list(e, (fuel - 1) as nat, sv, 0, v0.insert(label@), s0.push(label@), p0.insert(label@), h0)
                    == lh_list(
                    e,
                    (fuel - 1) as nat,
                    sv,
                    k as int,
                    label_set(visited@),
                    labels_view(stack@),
                    label_set(in_current_path@),
                    label_set(loop_headers@),
                ),
            decreases succs.len() - k,
        {
            let ghost vk = label_set(visited@);
            let ghost hk = label_set(loop_headers@);
            assert(sv[k as int] == succs@[k as int]@);
            proof {
                assert(dsts_from(e, label@).contains(sv[k as int]));
                lemma_dsts_from(e, label@, sv[k as int]);
            }
            if !labels_contain_str(visited, &succs[k]) {
                proof {
                    lemma_visit_depth(targets(e), v0, vk, label@, sv[k as int]);
                    assert(labels_view(stack@).last() == label@);
                }
                self.dfs_loop_headers_fuel(
                    &succs[k],
                    visited,
                    stack,
                    in_current_path,
                    loop_headers,
                    Ghost((fuel - 1) as nat),
                );
                proof {
                    if good {
                        assert forall|h: Seq<char>| label_set(loop_headers@).contains(h) implies h0.contains(h)
                            || on_cycle(e, h) by {
                            if !hk.contains(h) {
                                assert(on_cycle(e, h));
                            }
                        }
                    }
                }
            } else if labels_contain_str(in_current_path, &succs[k]) {
                proof {
                    if good {
                        assert(labels_view(stack@).to_set().contains(sv[k as int]));
                        lemma_back_edge_cycle(e, labels_view(stack@), sv[k as int]);
                    }
                }
                set_insert(loop_headers, &succs[k]);
            }
            k += 1;
        }
        set_remove(in_current_path, label);
        let ghost sl = labels_view(stack@);
        stack.pop();
        proof {
            assert(labels_view(stack@) =~= sl.drop_last());
            assert(sl.drop_last() =~= s0);
            if good {
                assert(p0.insert(label@).remove(label@) =~= p0) by {
                    assert(!p0.contains(label@));
                }
            }
        }
    }

    /// A depth-first visit of `label` that records loop headers; see
    /// [`lh_visit`]. When the label is unvisited and the stack is a walk
    /// ending with an edge into `label` whose labels are the current path,
    /// every label it records lies on a cycle.
    pub fn dfs_loop_headers(
        &self,
        label: &String,
        visited: &mut Vec<String>,
        stack: &mut Vec<String>,
        in_current_path: &mut Vec<String>,
        loop_headers: &mut Vec<String>,
    )
        requires
            labels_view(old(in_current_path)@).no_duplicates(),
        ensures
            (
                label_set(final(visited)@),
                labels_view(final(stack)@),
                label_set(final(in_current_path)@),
                label_set(final(loop_headers)@),
            ) == lh_visit(
                self.edge_seq(),
                lh_depth(self.edge_seq(), label@, label_set(old(visited)@)),
                label@,
                label_set(old(visited)@),
                labels_view(old(stack)@),
                label_set(old(in_current_path)@),
                label_set(old(loop_headers)@),
            ),
            labels_view(final(stack)@) == labels_view(old(stack)@),
            labels_view(final(in_current_path)@).no_duplicates(),
            label_set(old(visited)@).insert(label@).subset_of(label_set(final(visited)@)),
            fresh_visit(
                self.edge_seq(),
                label_set(old(visited)@),
                labels_view(old(stack)@),
                labels_view(old(in_current_path)@),
                label@,
            ) ==> {
                &&& label_set(final(in_current_path)@) == label_set(old(in_current_path)@)
                &&& lh_inv(
                    self.edge_seq(),
                    label_set(final(visited)@),
                    labels_view(final(stack)@),
                    labels_view(final(in_current_path)@),
                )
                &&& forall|h: Seq<char>|
                    label_set(final(loop_headers)@).contains(h) ==> label_set(old(loop_headers)@).contains(h)
                        || on_cycle(self.edge_seq(), h)
            },
    {
        let ghost f = lh_depth(self.edge_seq(), label@, label_set(visited@));
        self.dfs_loop_headers_fuel(label, visited, stack, in_current_path, loop_headers, Ghost(f));
    }

    /// The loop headers found by searching from `entry`, then from each
    /// unvisited edge source in edge order ([`lh_from`]); each lies on a cycle.
    pub fn get_loop_headers(&self) -> (r: Vec<String>)
        ensures
            label_set(r@) == self.loop_header_set(),
            forall|h: Seq<char>| label_set(r@).contains(h) ==> on_cycle(self.edge_seq(), h),
    {
        let ghost e = self.edge_seq();
        let mut loop_headers: Vec<String> = Vec::new();
        let mut visited: Vec<String> = Vec::new();
        let mut stack: Vec<String> = Vec::new();
        let mut in_current_path: Vec<String> = Vec::new();
        let entry = String::from_str("entry");
        assert(label_set(visited@) =~= Set::<Seq<char>>::empty());
        assert(label_set(loop_headers@) =~= Set::<Seq<char>>::empty());
        assert(label_set(in_current_path@) =~= Set::<Seq<char>>::empty());
        assert(labels_view(stack@) =~= Seq::<Seq<char>>::empty());
        assert(labels_view(in_current_path@).to_set() =~= Set::<Seq<char>>::empty());
        assert(labels_view(stack@).to_set() =~= Set::<Seq<char>>::empty());
        self.dfs_loop_headers(&entry, &mut visited, &mut stack, &mut in_current_path, &mut loop_headers);
        let ghost first = (
            label_set(visited@),
            labels_view(stack@),
            label_set(in_current_path@),
            label_set(loop_headers@),
        );
        let mut k: usize = 0;
        while k < self.edges.len()
            invariant
                k <= self.edges@.len(),
                e == self.edge_seq(),
                labels_view(stack@) == Seq::<Seq<char>>::empty(),
                labels_view(in_current_path@).no_duplicates(),
                lh_inv(e, label_set(visited@), labels_view(stack@), labels_view(in_current_path@)),
                forall|h: Seq<char>| label_set(loop_headers@).contains(h) ==> on_cycle(e, h),
                lh_from(e, 0, first.0, first.1, first.2, first.3) == lh_from(
                    e,
                    k as int,
                    label_set(visited@),
                    labels_view(stack@),
                    label_set(in_current_path@),
                    label_set(loop_headers@),
                ),
            decreases self.edges.len() - k,
        {
            assert(e[k as int].0 == self.edges@[k as int].0@);
            if !labels_contain_str(&visited, &self.edges[k].0) {
                self.dfs_loop_headers(&self.edges[k].0, &mut visited, &mut stack, &mut in_current_path, &mut loop_headers);
            }
            k += 1;
        }
        loop_headers
    }
}

impl ControlFlowGraph {
    /// The loop headers found by searching from `entry`, then from each
    /// unvisited edge source in edge order ([`lh_from`]).
    pub open spec fn loop_header_set(&self) -> Set<Seq<char>> {
        let e = self.edge_seq();
        let first = lh_visit(
            e,
            lh_depth(e, "entry"@, Set::empty()),
            "entry"@,
            Set::empty(),
            Seq::empty(),
            Set::empty(),
            Set::empty(),
        );
        lh_from(e, 0, first.0, first.1, first.2, first.3).3
    }

    /// A node label names a block of the graph.
    pub proof fn lemma_node_set_blocks(&self, l: Seq<char>)
        requires
            self.node_set().contains(l),
        ensures
            self.node_map().dom().contains(l),
    {
        let ns = crate::cfg::node_labels(self.node_seq());
        let j = choose|j: int| 0 <= j < ns.len() && ns[j] == l;
        crate::cfg::lemma_vkey_pos(self.node_seq(), l);
        assert(self.node_seq()[j].0 == l);
    }

    /// The labels in topological order: the reverse of the finishing order of
    /// [`ControlFlowGraph::topological_sort`], that is, by increasing number.
    pub open spec fn topo_labels(&self) -> Seq<Seq<char>> {
        ranked_keys(
            topo_from(
                self.edge_seq(),
                self.node_set(),
                self.nodes@.len() as nat,
                crate::cfg::node_labels(self.node_seq()),
                0,
                Set::empty(),
                Seq::empty(),
            ).1,
        ).reverse()
    }

    /// The blocks of the graph in topological order ([`ControlFlowGraph::topo_labels`]):
    /// each node's block once, and an edge that goes from a later block back
    /// to an earlier one lies on a cycle, so in a graph without cycles the
    /// block of every edge's source comes before that of its target.
    pub fn to_sequence(&self) -> (r: Vec<Block>)
        requires
            self.closed_graph(),
        ensures
            r@.map_values(|b: Block| b@) == self.topo_labels().map_values(|l: Seq<char>| self.node_map()[l]),
            self.topo_labels().to_set() == self.node_set(),
            self.topo_labels().no_duplicates(),
            forall|i: int, j: int|
                0 <= i < j < self.topo_labels().len() && #[trigger] self.edge_seq().contains(
                    (self.topo_labels()[j], self.topo_labels()[i]),
                ) ==> reaches(self.edge_seq(), self.topo_labels()[i], self.topo_labels()[j]),
    {
        let order = self.topological_sort();
        let ghost ks = ranked_keys(ranked_view(order@));
        let ghost ls = ks.reverse();
        let ghost n = ks.len();
        proof {
            assert(ls == self.topo_labels());
            assert forall|x: Seq<char>| ls.to_set().contains(x) <==> ks.to_set().contains(x) by {
                if ls.to_set().contains(x) {
                    let i = choose|i: int| 0 <= i < ls.len() && ls[i] == x;
                    assert(ks[n - 1 - i] == x);
                }
                if ks.to_set().contains(x) {
                    let i = choose|i: int| 0 <= i < ks.len() && ks[i] == x;
                    assert(ls[n - 1 - i] == x);
                }
            }
            assert(ls.to_set() =~= ks.to_set());
            assert forall|i: int, j: int| 0 <= i < j < ls.len() implies ls[i] != ls[j] by {
                assert(ks[n - 1 - i] == ls[i]);
                assert(ks[n - 1 - j] == ls[j]);
            }
            assert forall|i: int, j: int|
                0 <= i < j < ls.len() && #[trigger] self.edge_seq().contains((ls[j], ls[i])) implies reaches(
                self.edge_seq(),
                ls[i],
                ls[j],
            ) by {
                let rv = ranked_view(order@);
                assert(rv[n - 1 - j].0 == ls[j]);
                assert(rv[n - 1 - i].0 == ls[i]);
            }
        }
        let mut r: Vec<Block> = Vec::new();
        let mut i: usize = order.len();
        while i > 0
            invariant
                i <= order@.len(),
                n == order@.len(),
                ks == ranked_keys(ranked_view(order@)),
                ls == ks.reverse(),
                ks.to_set().subset_of(self.node_set()),
                r@.map_values(|b: Block| b@) == ls.take(n - i).map_values(|l: Seq<char>| self.node_map()[l]),
            decreases i,
        {
            i -= 1;
            assert(ks[i as int] == order@[i as int].0@);
            assert(ls[n - 1 - i] == ks[i as int]);
            proof {
                assert(ks.to_set().contains(ks[i as int]));
                self.lemma_node_set_blocks(ks[i as int]);
            }
            match self.get_block(order[i].0.as_str()) {
                Some(b) => {
                    let c = b.clone();
                    let ghost prev = r@;
                    assert(c@ == self.node_map()[ks[i as int]]);
                    r.push(c);
                    assert(r@ == prev.push(c));
                    assert(ls.take(n - i) =~= ls.take(n - 1 - i).push(ls[n - 1 - i]));
                    assert(r@.map_values(|b: Block| b@) =~= prev.map_values(|b: Block| b@).push(c@));
                    assert(ls.take(n - i).map_values(|l: Seq<char>| self.node_map()[l]) =~= ls.take(
                        n - 1 - i,
                    ).map_values(|l: Seq<char>| self.node_map()[l]).push(self.node_map()[ls[n - 1 - i]]));
                },
                None => {},
            }
        }
        assert(ls.take(n as int) =~= ls);
        r
    }
}

} // verus!

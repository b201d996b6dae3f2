//! Control dependence: the dominance frontier of each block, computed from
//! the dominators of the blocks of a function.
use vstd::prelude::*;
use crate::analysis::{labels_contain, lemma_key_pos_views};
use crate::cfg::{body_edges, body_nodes, labels_view, lemma_vkey_pos, lemma_vkey_pos_same_keys, node_labels, srcs_into, vkey_pos, ControlFlowGraph};
use crate::defs::clone_labels;
use crate::lir::Program;
use crate::program::find_key;
use crate::traversal::{label_set, set_insert};
use crate::cfgdom::{greatest_dominators, labels_of};
use crate::dominators::{dom_init, node_set, sets_within, sources};

verus! {

/// A control-dependence analyzer of one function: for each block label, the
/// labels of the blocks in its dominance frontier.
pub struct ControlDependenceAnalyzer {
    pub prog: Program,
    pub cfg: ControlFlowGraph,
    pub solution: Vec<(String, Vec<String>)>,
    pub executed: bool,
}

/// Labelled lists of labels as labelled sets.
pub open spec fn frontier_view(s: Seq<(String, Vec<String>)>) -> Seq<(Seq<char>, Set<Seq<char>>)> {
    s.map_values(|p: (String, Vec<String>)| (p.0@, label_set(p.1@)))
}

/// Labelled lists of labels as labelled sequences.
pub open spec fn doms_view(s: Seq<(String, Vec<String>)>) -> Seq<(Seq<char>, Seq<Seq<char>>)> {
    s.map_values(|p: (String, Vec<String>)| (p.0@, labels_view(p.1@)))
}

/// An empty frontier for each label.
pub open spec fn empty_frontiers(labels: Seq<Seq<char>>) -> Seq<(Seq<char>, Set<Seq<char>>)> {
    labels.map_values(|l: Seq<char>| (l, Set::<Seq<char>>::empty()))
}

/// The dominators recorded for label `p` (the first entry with that key).
pub open spec fn dom_of(d: Seq<(Seq<char>, Seq<Seq<char>>)>, p: Seq<char>) -> Seq<Seq<char>> {
    d[vkey_pos(d, p)].1
}

/// The strict dominators of the label of entry `i`: its dominators but itself.
pub open spec fn strict_doms(d: Seq<(Seq<char>, Seq<Seq<char>>)>, i: int) -> Set<Seq<char>> {
    d[i].1.to_set().remove(d[i].0)
}

/// For each dominator `b` in `ds` that is not a strict dominator, the pair
/// (`b`, `l`): `l` enters the frontier of `b`.
pub open spec fn dom_events(ds: Seq<Seq<char>>, strict: Set<Seq<char>>, l: Seq<char>) -> Seq<(Seq<char>, Seq<char>)>
    decreases ds.len(),
{
    if ds.len() == 0 {
        Seq::empty()
    } else {
        let r = dom_events(ds.drop_last(), strict, l);
        if strict.contains(ds.last()) {
            r
        } else {
            r.push((ds.last(), l))
        }
    }
}

/// The frontier pairs of label `l` through each predecessor in `ps`, in order.
pub open spec fn pred_events(
    d: Seq<(Seq<char>, Seq<Seq<char>>)>,
    ps: Seq<Seq<char>>,
    strict: Set<Seq<char>>,
    l: Seq<char>,
) -> Seq<(Seq<char>, Seq<char>)>
    decreases ps.len(),
{
    if ps.len() == 0 {
        Seq::empty()
    } else {
        pred_events(d, ps.drop_last(), strict, l) + dom_events(dom_of(d, ps.last()), strict, l)
    }
}

/// The frontier pairs of the first `n` dominator entries: for the label `l`
/// of each, every dominator of a predecessor of `l` that does not strictly
/// dominate `l` gets `l` in its frontier.
pub open spec fn frontier_events(
    d: Seq<(Seq<char>, Seq<Seq<char>>)>,
    e: Seq<(Seq<char>, Seq<char>)>,
    n: int,
) -> Seq<(Seq<char>, Seq<char>)>
    decreases n,
{
    if n <= 0 {
        Seq::empty()
    } else {
        frontier_events(d, e, n - 1) + pred_events(d, srcs_into(e, d[n - 1].0), strict_doms(d, n - 1), d[n - 1].0)
    }
}

/// Adds `l` to the frontier of `b`, if `b` has one.
pub open spec fn frontier_add(s: Seq<(Seq<char>, Set<Seq<char>>)>, b: Seq<char>, l: Seq<char>) -> Seq<
    (Seq<char>, Set<Seq<char>>),
> {
    let k = vkey_pos(s, b);
    if k >= 0 {
        s.update(k, (b, s[k].1.insert(l)))
    } else {
        s
    }
}

/// The frontiers after adding the pairs of `ev` in order.
pub open spec fn add_events(s: Seq<(Seq<char>, Set<Seq<char>>)>, ev: Seq<(Seq<char>, Seq<char>)>) -> Seq<
    (Seq<char>, Set<Seq<char>>),
>
    decreases ev.len(),
{
    if ev.len() == 0 {
        s
    } else {
        let t = add_events(s, ev.drop_last());
        frontier_add(t, ev.last().0, ev.last().1)
    }
}

/// Every predecessor of a label with dominators has dominators, and every
/// frontier pair names a block with a frontier.
pub open spec fn frontier_defined(
    d: Seq<(Seq<char>, Seq<Seq<char>>)>,
    e: Seq<(Seq<char>, Seq<char>)>,
    s: Seq<(Seq<char>, Set<Seq<char>>)>,
) -> bool {
    &&& forall|i: int, j: int|
        0 <= i < d.len() && 0 <= j < srcs_into(e, d[i].0).len() ==> vkey_pos(d, #[trigger] srcs_into(e, d[i].0)[j]) >= 0
    &&& forall|x: (Seq<char>, Seq<char>)| #[trigger] frontier_events(d, e, d.len() as int).contains(x) ==> vkey_pos(s, x.0) >= 0
}

/// Adding a pair keeps the label at each position.
proof fn lemma_frontier_add_keys(s: Seq<(Seq<char>, Set<Seq<char>>)>, b: Seq<char>, l: Seq<char>)
    ensures
        frontier_add(s, b, l).len() == s.len(),
        forall|j: int| 0 <= j < s.len() ==> #[trigger] frontier_add(s, b, l)[j].0 == s[j].0,
{
    lemma_vkey_pos(s, b);
}

/// Adding pairs keeps the label at each position.
proof fn lemma_add_events_keys(s: Seq<(Seq<char>, Set<Seq<char>>)>, ev: Seq<(Seq<char>, Seq<char>)>)
    ensures
        add_events(s, ev).len() == s.len(),
        forall|j: int| 0 <= j < s.len() ==> #[trigger] add_events(s, ev)[j].0 == s[j].0,
    decreases ev.len(),
{
    if ev.len() > 0 {
        lemma_add_events_keys(s, ev.drop_last());
        lemma_frontier_add_keys(add_events(s, ev.drop_last()), ev.last().0, ev.last().1);
    }
}

/// The frontier of a label after adding pairs: its frontier before, with
/// every `l` of a pair (label, `l`).
pub proof fn lemma_add_events_members(
    s: Seq<(Seq<char>, Set<Seq<char>>)>,
    ev: Seq<(Seq<char>, Seq<char>)>,
    k: int,
    l: Seq<char>,
)
    requires
        0 <= k < s.len(),
        vkey_pos(s, s[k].0) == k,
    ensures
        add_events(s, ev)[k].1.contains(l) == (s[k].1.contains(l) || ev.contains((s[k].0, l))),
    decreases ev.len(),
{
    if ev.len() > 0 {
        let init = ev.drop_last();
        let t = add_events(s, init);
        lemma_add_events_members(s, init, k, l);
        lemma_add_events_keys(s, init);
        lemma_vkey_pos_same_keys(t, s, s[k].0);
        lemma_vkey_pos(t, ev.last().0);
        if init.contains((s[k].0, l)) {
            let j = choose|j: int| 0 <= j < init.len() && init[j] == (s[k].0, l);
            assert(ev[j] == (s[k].0, l));
        }
        if ev.contains((s[k].0, l)) && !init.contains((s[k].0, l)) {
            let j = choose|j: int| 0 <= j < ev.len() && ev[j] == (s[k].0, l);
            if j < init.len() {
                assert(init[j] == (s[k].0, l));
            }
        }
        if ev.last() == (s[k].0, l) {
            assert(ev[ev.len() - 1] == (s[k].0, l));
        }
    }
}


/// The dominator table of a graph: for each node, in node order, its label
/// and the labels of its dominators as [`ControlFlowGraph::get_dominators`]
/// computes them.
pub open spec fn dominator_table(cfg: ControlFlowGraph, d: Seq<(Seq<char>, Seq<Seq<char>>)>) -> bool {
    &&& d.len() == cfg.node_seq().len()
    &&& exists|q: Seq<Set<usize>>|
        #[trigger] greatest_dominators(cfg.numbered(), vkey_pos(cfg.node_seq(), "entry"@) as usize, q) && forall|i: int|
            0 <= i < d.len() ==> (#[trigger] d[i]).0 == cfg.node_seq()[i].0 && d[i].1.to_set() == labels_of(
                cfg.node_seq(),
                q[i],
            )
}

/// Every edge of the graph leaves a node.
pub open spec fn sources_are_nodes(cfg: ControlFlowGraph) -> bool {
    forall|x: Seq<char>, y: Seq<char>| #[trigger] cfg.edge_seq().contains((x, y)) ==> vkey_pos(cfg.node_seq(), x) >= 0
}

/// The sources of the edges into `l` are sources of edges into `l`.
proof fn lemma_srcs_into(e: Seq<(Seq<char>, Seq<char>)>, l: Seq<char>, j: int)
    requires
        0 <= j < srcs_into(e, l).len(),
    ensures
        e.contains((srcs_into(e, l)[j], l)),
    decreases e.len(),
{
    let init = e.drop_last();
    if e.last().1 == l && j == srcs_into(init, l).len() {
        assert(e[e.len() - 1] == (srcs_into(e, l)[j], l));
    } else {
        lemma_srcs_into(init, l, j);
        let k = choose|k: int| 0 <= k < init.len() && init[k] == (srcs_into(init, l)[j], l);
        assert(e[k] == init[k]);
    }
}

/// The blocks of the pairs of `dom_events(ds, ..)` are in `ds`.
proof fn lemma_dom_events(ds: Seq<Seq<char>>, strict: Set<Seq<char>>, l: Seq<char>, x: (Seq<char>, Seq<char>))
    requires
        dom_events(ds, strict, l).contains(x),
    ensures
        ds.contains(x.0),
    decreases ds.len(),
{
    let r = dom_events(ds.drop_last(), strict, l);
    if r.contains(x) {
        lemma_dom_events(ds.drop_last(), strict, l, x);
        let k = choose|k: int| 0 <= k < ds.drop_last().len() && ds.drop_last()[k] == x.0;
        assert(ds[k] == x.0);
    } else {
        assert(x == (ds.last(), l));
        assert(ds[ds.len() - 1] == x.0);
    }
}

/// The blocks of the pairs of `pred_events(d, ps, ..)` are dominators of a label in `ps`.
proof fn lemma_pred_events(
    d: Seq<(Seq<char>, Seq<Seq<char>>)>,
    ps: Seq<Seq<char>>,
    strict: Set<Seq<char>>,
    l: Seq<char>,
    x: (Seq<char>, Seq<char>),
)
    requires
        pred_events(d, ps, strict, l).contains(x),
    ensures
        exists|j: int| 0 <= j < ps.len() && #[trigger] dom_of(d, ps[j]).contains(x.0),
    decreases ps.len(),
{
    let init = ps.drop_last();
    let a = pred_events(d, init, strict, l);
    let b = dom_events(dom_of(d, ps.last()), strict, l);
    assert(pred_events(d, ps, strict, l) == a + b);
    let k = choose|k: int| 0 <= k < (a + b).len() && (a + b)[k] == x;
    if k < a.len() {
        assert(a[k] == x);
        lemma_pred_events(d, init, strict, l, x);
        let j = choose|j: int| 0 <= j < init.len() && #[trigger] dom_of(d, init[j]).contains(x.0);
        assert(ps[j] == init[j]);
    } else {
        assert(b[k - a.len()] == x);
        lemma_dom_events(dom_of(d, ps.last()), strict, l, x);
        assert(dom_of(d, ps[ps.len() - 1]).contains(x.0));
    }
}

/// The blocks of the frontier pairs are dominators recorded for a
/// predecessor of a label of the table.
proof fn lemma_frontier_events(
    d: Seq<(Seq<char>, Seq<Seq<char>>)>,
    e: Seq<(Seq<char>, Seq<char>)>,
    n: int,
    x: (Seq<char>, Seq<char>),
)
    requires
        0 <= n <= d.len(),
        frontier_events(d, e, n).contains(x),
    ensures
        exists|i: int, j: int|
            0 <= i < n && 0 <= j < srcs_into(e, d[i].0).len() && #[trigger] dom_of(d, srcs_into(e, d[i].0)[j]).contains(
                x.0,
            ),
    decreases n,
{
    let a = frontier_events(d, e, n - 1);
    let ps = srcs_into(e, d[n - 1].0);
    let b = pred_events(d, ps, strict_doms(d, n - 1), d[n - 1].0);
    assert(frontier_events(d, e, n) == a + b);
    let k = choose|k: int| 0 <= k < (a + b).len() && (a + b)[k] == x;
    if k < a.len() {
        assert(a[k] == x);
        lemma_frontier_events(d, e, n - 1, x);
    } else {
        assert(b[k - a.len()] == x);
        lemma_pred_events(d, ps, strict_doms(d, n - 1), d[n - 1].0, x);
    }
}


/// Every edge of a body leaves one of its blocks.
proof fn lemma_body_edge_sources(body: Seq<(String, crate::lir::Block)>, x: Seq<char>, y: Seq<char>)
    requires
        body_edges(body).contains((x, y)),
    ensures
        vkey_pos(body_nodes(body), x) >= 0,
    decreases body.len(),
{
    let init = body.drop_last();
    let a = body_edges(init);
    let b = crate::cfg::term_edges(body.last().0@, body.last().1.term);
    assert(body_edges(body) == a + b);
    let k = choose|k: int| 0 <= k < (a + b).len() && (a + b)[k] == (x, y);
    crate::cfg::lemma_body_nodes_keys(body, x);
    if k < a.len() {
        assert(a[k] == (x, y));
        lemma_body_edge_sources(init, x, y);
        crate::cfg::lemma_body_nodes_keys(init, x);
        let i = choose|i: int| 0 <= i < init.len() && #[trigger] init[i].0@ == x;
        assert(body[i].0@ == x);
    } else {
        assert(b[k - a.len()] == (x, y));
        assert(b[k - a.len()].0 == body.last().0@);
        assert(body[body.len() - 1].0@ == x);
    }
}


/// A pair of `dom_events(ds, strict, l)` is a dominator in `ds` that is not
/// in `strict`, with `l`.
proof fn lemma_dom_events_iff(ds: Seq<Seq<char>>, strict: Set<Seq<char>>, l: Seq<char>, b: Seq<char>, m: Seq<char>)
    ensures
        dom_events(ds, strict, l).contains((b, m)) == (m == l && ds.contains(b) && !strict.contains(b)),
    decreases ds.len(),
{
    if ds.len() > 0 {
        let init = ds.drop_last();
        lemma_dom_events_iff(init, strict, l, b, m);
        let r = dom_events(init, strict, l);
        if dom_events(ds, strict, l).contains((b, m)) {
            if !r.contains((b, m)) {
                assert(dom_events(ds, strict, l) == r.push((ds.last(), l)));
                let k = choose|k: int| 0 <= k < r.len() + 1 && r.push((ds.last(), l))[k] == (b, m);
                assert(k == r.len());
                assert(ds[ds.len() - 1] == b);
            } else {
                let k = choose|k: int| 0 <= k < init.len() && init[k] == b;
                assert(ds[k] == b);
            }
        }
        if m == l && ds.contains(b) && !strict.contains(b) {
            let k = choose|k: int| 0 <= k < ds.len() && ds[k] == b;
            if k < ds.len() - 1 {
                assert(init[k] == b);
                let j = choose|j: int| 0 <= j < r.len() && r[j] == (b, m);
                if !strict.contains(ds.last()) {
                    assert(r.push((ds.last(), l))[j] == (b, m));
                }
            } else {
                assert(r.push((ds.last(), l))[r.len() as int] == (b, m));
            }
        }
    }
}

/// A pair of `pred_events(d, ps, strict, l)` is one of `dom_events` for some label of `ps`.
proof fn lemma_pred_events_iff(
    d: Seq<(Seq<char>, Seq<Seq<char>>)>,
    ps: Seq<Seq<char>>,
    strict: Set<Seq<char>>,
    l: Seq<char>,
    x: (Seq<char>, Seq<char>),
)
    ensures
        pred_events(d, ps, strict, l).contains(x) == exists|j: int|
            0 <= j < ps.len() && #[trigger] dom_events(dom_of(d, ps[j]), strict, l).contains(x),
    decreases ps.len(),
{
    if ps.len() > 0 {
        let init = ps.drop_last();
        lemma_pred_events_iff(d, init, strict, l, x);
        let a = pred_events(d, init, strict, l);
        let b = dom_events(dom_of(d, ps.last()), strict, l);
        assert(pred_events(d, ps, strict, l) == a + b);
        if (a + b).contains(x) {
            let k = choose|k: int| 0 <= k < (a + b).len() && (a + b)[k] == x;
            if k < a.len() {
                assert(a[k] == x);
                let j = choose|j: int| 0 <= j < init.len() && #[trigger] dom_events(dom_of(d, init[j]), strict, l).contains(x);
                assert(ps[j] == init[j]);
            } else {
                assert(b[k - a.len()] == x);
                assert(ps[ps.len() - 1] == ps.last());
                assert(dom_events(dom_of(d, ps[ps.len() - 1]), strict, l).contains(x));
            }
        }
        if exists|j: int| 0 <= j < ps.len() && #[trigger] dom_events(dom_of(d, ps[j]), strict, l).contains(x) {
            let j = choose|j: int| 0 <= j < ps.len() && #[trigger] dom_events(dom_of(d, ps[j]), strict, l).contains(x);
            if j < ps.len() - 1 {
                assert(init[j] == ps[j]);
                let k = choose|k: int| 0 <= k < a.len() && a[k] == x;
                assert((a + b)[k] == x);
            } else {
                let k = choose|k: int| 0 <= k < b.len() && b[k] == x;
                assert((a + b)[a.len() + k] == x);
            }
        }
    } else {
        assert(pred_events(d, ps, strict, l) =~= Seq::empty());
    }
}

/// The sources of the edges into `l` are exactly the labels with an edge into `l`.
proof fn lemma_srcs_into_iff(e: Seq<(Seq<char>, Seq<char>)>, l: Seq<char>, p: Seq<char>)
    ensures
        srcs_into(e, l).contains(p) == e.contains((p, l)),
    decreases e.len(),
{
    if e.len() > 0 {
        let init = e.drop_last();
        lemma_srcs_into_iff(init, l, p);
        let r = srcs_into(init, l);
        if srcs_into(e, l).contains(p) {
            let k = choose|k: int| 0 <= k < srcs_into(e, l).len() && srcs_into(e, l)[k] == p;
            lemma_srcs_into(e, l, k);
        }
        if e.contains((p, l)) {
            let k = choose|k: int| 0 <= k < e.len() && e[k] == (p, l);
            if k < e.len() - 1 {
                assert(init[k] == (p, l));
                let j = choose|j: int| 0 <= j < r.len() && r[j] == p;
                if e.last().1 == l {
                    assert(r.push(e.last().0)[j] == p);
                }
            } else {
                assert(r.push(e.last().0)[r.len() as int] == p);
            }
        }
    }
}

/// Dominance frontiers: a pair (`b`, `l`) is among the frontier pairs of the
/// first `n` entries of a dominator table exactly when `l` is the label of
/// one of them, some predecessor `p` of `l` has `b` among its recorded
/// dominators, and `b` does not strictly dominate `l` (it is not a dominator
/// of `l` other than `l` itself). In particular, the target `h` of a back
/// edge from a block that `h` dominates is in the frontier of `h`.
pub proof fn lemma_frontier_events_iff(
    d: Seq<(Seq<char>, Seq<Seq<char>>)>,
    e: Seq<(Seq<char>, Seq<char>)>,
    n: int,
    b: Seq<char>,
    l: Seq<char>,
)
    requires
        0 <= n <= d.len(),
    ensures
        frontier_events(d, e, n).contains((b, l)) == exists|i: int, p: Seq<char>|
            #![trigger d[i], e.contains((p, l))]
            0 <= i < n && d[i].0 == l && e.contains((p, l)) && dom_of(d, p).contains(b) && !(
            d[i].1.contains(b) && b != l),
    decreases n,
{
    if n > 0 {
        lemma_frontier_events_iff(d, e, n - 1, b, l);
        let a = frontier_events(d, e, n - 1);
        let li = d[n - 1].0;
        let ps = srcs_into(e, li);
        let st = strict_doms(d, n - 1);
        let c = pred_events(d, ps, st, li);
        assert(frontier_events(d, e, n) == a + c);
        lemma_pred_events_iff(d, ps, st, li, (b, l));
        let ex = exists|i: int, p: Seq<char>|
            #![trigger d[i], e.contains((p, l))]
            0 <= i < n && d[i].0 == l && e.contains((p, l)) && dom_of(d, p).contains(b) && !(
            d[i].1.contains(b) && b != l);
        if (a + c).contains((b, l)) {
            let k = choose|k: int| 0 <= k < (a + c).len() && (a + c)[k] == (b, l);
            if k < a.len() {
                assert(a[k] == (b, l));
            } else {
                assert(c[k - a.len()] == (b, l));
                assert(c.contains((b, l)));
                let j = choose|j: int| 0 <= j < ps.len() && #[trigger] dom_events(dom_of(d, ps[j]), st, li).contains((b, l));
                lemma_dom_events_iff(dom_of(d, ps[j]), st, li, b, l);
                lemma_srcs_into(e, li, j);
                assert(e.contains((ps[j], l)));
                assert(dom_of(d, ps[j]).contains(b));
                assert(!(d[n - 1].1.contains(b) && b != l)) by {
                    if d[n - 1].1.contains(b) && b != l {
                        assert(d[n - 1].1.to_set().contains(b));
                        assert(st.contains(b));
                    }
                }
                assert(ex);
            }
        }
        if ex {
            let (i, p) = choose|i: int, p: Seq<char>|
            #![trigger d[i], e.contains((p, l))]
                0 <= i < n && d[i].0 == l && e.contains((p, l)) && dom_of(d, p).contains(b) && !(
                d[i].1.contains(b) && b != l);
            if i < n - 1 {
                assert(a.contains((b, l)));
                let k = choose|k: int| 0 <= k < a.len() && a[k] == (b, l);
                assert((a + c)[k] == (b, l));
            } else {
                lemma_srcs_into_iff(e, li, p);
                let j = choose|j: int| 0 <= j < ps.len() && ps[j] == p;
                lemma_dom_events_iff(dom_of(d, ps[j]), st, li, b, l);
                assert(!st.contains(b)) by {
                    if st.contains(b) {
                        assert(d[n - 1].1.to_set().contains(b));
                        assert(d[n - 1].1.contains(b));
                    }
                }
                assert(dom_events(dom_of(d, ps[j]), st, li).contains((b, l)));
                assert(c.contains((b, l)));
                let k = choose|k: int| 0 <= k < c.len() && c[k] == (b, l);
                assert((a + c)[a.len() + k] == (b, l));
            }
        }
    }
}

/// After control dependence runs once, block `b` (the first frontier with
/// its label) holds in its frontier exactly what it held before and every
/// label `l` of a dominator entry such that `b` dominates a predecessor of
/// `l` and does not strictly dominate `l`.
pub proof fn dominance_frontier_law(
    old_f: Seq<(Seq<char>, Set<Seq<char>>)>,
    d: Seq<(Seq<char>, Seq<Seq<char>>)>,
    e: Seq<(Seq<char>, Seq<char>)>,
    k: int,
    l: Seq<char>,
)
    requires
        0 <= k < old_f.len(),
        vkey_pos(old_f, old_f[k].0) == k,
    ensures
        add_events(old_f, frontier_events(d, e, d.len() as int))[k].1.contains(l) == (old_f[k].1.contains(l)
            || exists|i: int, p: Seq<char>|
            #![trigger d[i], e.contains((p, l))]
            0 <= i < d.len() && d[i].0 == l && e.contains((p, l)) && dom_of(d, p).contains(
                old_f[k].0,
            ) && !(d[i].1.contains(old_f[k].0) && old_f[k].0 != l)),
{
    lemma_add_events_members(old_f, frontier_events(d, e, d.len() as int), k, l);
    lemma_frontier_events_iff(d, e, d.len() as int, old_f[k].0, l);
}

impl ControlDependenceAnalyzer {
    /// The frontiers as labelled sets.
    pub open spec fn frontiers(&self) -> Seq<(Seq<char>, Set<Seq<char>>)> {
        frontier_view(self.solution@)
    }

    /// A control-dependence analyzer of the named function: its graph, and an
    /// empty frontier for each block label.
    pub fn new(prog: Program, func_name: &str) -> (r: Self)
        requires
            prog.has_function(func_name@),
        ensures
            r.prog == prog,
            r.cfg.node_seq() == body_nodes(prog.function(func_name@).body@),
            r.cfg.edge_seq() == body_edges(prog.function(func_name@).body@),
            r.frontiers() == empty_frontiers(node_labels(r.cfg.node_seq())),
            !r.executed,
            sources_are_nodes(r.cfg),
            forall|l: Seq<char>| vkey_pos(r.cfg.node_seq(), l) >= 0 ==> #[trigger] vkey_pos(r.frontiers(), l) >= 0,
    {
        let cfg = ControlFlowGraph::from_function(&prog, func_name);
        let labels = cfg.get_all_block_labels();
        let mut solution: Vec<(String, Vec<String>)> = Vec::new();
        let mut i: usize = 0;
        while i < labels.len()
            invariant
                i <= labels@.len(),
                frontier_view(solution@) == empty_frontiers(labels_view(labels@).take(i as int)),
            decreases labels.len() - i,
        {
            let ghost prev = frontier_view(solution@);
            let empty: Vec<String> = Vec::new();
            assert(label_set(empty@) =~= Set::<Seq<char>>::empty());
            solution.push((labels[i].clone(), empty));
            assert(frontier_view(solution@) =~= prev.push((labels@[i as int]@, Set::<Seq<char>>::empty())));
            assert(empty_frontiers(labels_view(labels@).take(i + 1)) =~= empty_frontiers(
                labels_view(labels@).take(i as int),
            ).push((labels@[i as int]@, Set::<Seq<char>>::empty())));
            i += 1;
        }
        assert(labels_view(labels@).take(labels@.len() as int) =~= labels_view(labels@));
        let r = ControlDependenceAnalyzer { prog, cfg, solution, executed: false };
        proof {
            let body = r.prog.function(func_name@).body@;
            assert forall|x: Seq<char>, y: Seq<char>| #[trigger] r.cfg.edge_seq().contains((x, y)) implies vkey_pos(
                r.cfg.node_seq(),
                x,
            ) >= 0 by {
                lemma_body_edge_sources(body, x, y);
            }
            let ns = r.cfg.node_seq();
            let f = r.frontiers();
            assert forall|l: Seq<char>| vkey_pos(ns, l) >= 0 implies #[trigger] vkey_pos(f, l) >= 0 by {
                assert forall|j: int| 0 <= j < f.len() implies #[trigger] f[j].0 == ns[j].0 by {
                    assert(node_labels(ns)[j] == ns[j].0);
                }
                lemma_vkey_pos_same_keys(f, ns, l);
            }
        }
        r
    }

    /// Adds `l` to the frontier of `b`.
    fn add_to_frontier(&mut self, b: &String, l: &String, Ghost(s0): Ghost<Seq<(Seq<char>, Set<Seq<char>>)>>)
        requires
            vkey_pos(s0, b@) >= 0,
            old(self).frontiers().len() == s0.len(),
            forall|j: int| 0 <= j < s0.len() ==> #[trigger] old(self).frontiers()[j].0 == s0[j].0,
        ensures
            final(self).frontiers() == frontier_add(old(self).frontiers(), b@, l@),
            final(self).prog == old(self).prog,
            final(self).cfg == old(self).cfg,
            final(self).executed == old(self).executed,
    {
        let ghost f = self.frontiers();
        proof {
            lemma_vkey_pos_same_keys(f, s0, b@);
            lemma_key_pos_views(self.solution@, f, b@);
            lemma_vkey_pos(f, b@);
        }
        match find_key(&self.solution, b.as_str()) {
            Some(q) => {
                let mut entry = clone_labels(&self.solution[q].1);
                set_insert(&mut entry, l);
                let key = self.solution[q].0.clone();
                assert(key@ == b@);
                self.solution.set(q, (key, entry));
                assert(self.frontiers() =~= frontier_add(f, b@, l@));
            },
            None => {
                proof {
                    assert(false);
                }
            },
        }
    }

    /// Computes the dominance frontiers once, from the dominators of the
    /// blocks that [`ControlFlowGraph::get_dominators`] computes from the
    /// block `entry` ([`dominator_table`]); see [`ControlDependenceAnalyzer::execute_with`].
    /// The graph must have a block `entry`, every edge must leave a block,
    /// and every block must have a frontier (as [`ControlDependenceAnalyzer::new`] sets up).
    pub fn execute(&mut self)
        requires
            vkey_pos(old(self).cfg.node_seq(), "entry"@) >= 0,
            sources_are_nodes(old(self).cfg),
            forall|l: Seq<char>|
                vkey_pos(old(self).cfg.node_seq(), l) >= 0 ==> #[trigger] vkey_pos(old(self).frontiers(), l) >= 0,
        ensures
            final(self).prog == old(self).prog,
            final(self).cfg == old(self).cfg,
            final(self).executed,
            old(self).executed ==> final(self).frontiers() == old(self).frontiers(),
            !old(self).executed ==> exists|d: Seq<(Seq<char>, Seq<Seq<char>>)>|
                #[trigger] dominator_table(old(self).cfg, d) && final(self).frontiers() == add_events(
                    old(self).frontiers(),
                    frontier_events(d, old(self).cfg.edge_seq(), d.len() as int),
                ),
    {
        if self.executed {
            return;
        }
        let doms = self.cfg.get_dominators();
        let ghost d = doms_view(doms@);
        let ghost ns = self.cfg.node_seq();
        let ghost e = self.cfg.edge_seq();
        let ghost s0 = self.frontiers();
        proof {
            let st = vkey_pos(ns, "entry"@) as usize;
            let adj = self.cfg.numbered();
            let q = choose|q: Seq<Set<usize>>|
                #[trigger] greatest_dominators(adj, st, q) && forall|i: int|
                    0 <= i < doms@.len() ==> (#[trigger] doms@[i]).0@ == ns[i].0 && labels_view(doms@[i].1@).to_set()
                        == labels_of(ns, q[i]);
            assert forall|i: int| 0 <= i < d.len() implies (#[trigger] d[i]).0 == ns[i].0 && d[i].1.to_set() == labels_of(
                ns,
                q[i],
            ) by {
                assert(d[i] == (doms@[i].0@, labels_view(doms@[i].1@)));
            }
            assert(dominator_table(self.cfg, d));
            lemma_vkey_pos(ns, "entry"@);
            assert forall|x: Seq<char>| #[trigger] vkey_pos(d, x) >= 0 <==> vkey_pos(ns, x) >= 0 by {
                lemma_vkey_pos_same_keys(d, ns, x);
            }
            assert forall|i: int, j: int|
                0 <= i < d.len() && 0 <= j < srcs_into(e, d[i].0).len() implies vkey_pos(
                d,
                #[trigger] srcs_into(e, d[i].0)[j],
            ) >= 0 by {
                lemma_srcs_into(e, d[i].0, j);
                assert(e.contains((srcs_into(e, d[i].0)[j], d[i].0)));
                lemma_vkey_pos_same_keys(d, ns, srcs_into(e, d[i].0)[j]);
            }
            assert forall|x: (Seq<char>, Seq<char>)| #[trigger] frontier_events(d, e, d.len() as int).contains(x) implies vkey_pos(
                s0,
                x.0,
            ) >= 0 by {
                lemma_frontier_events(d, e, d.len() as int, x);
                let (i, j) = choose|i: int, j: int|
                    0 <= i < d.len() && 0 <= j < srcs_into(e, d[i].0).len() && #[trigger] dom_of(
                        d,
                        srcs_into(e, d[i].0)[j],
                    ).contains(x.0);
                let p = srcs_into(e, d[i].0)[j];
                lemma_srcs_into(e, d[i].0, j);
                lemma_vkey_pos_same_keys(d, ns, p);
                lemma_vkey_pos(d, p);
                let k = vkey_pos(d, p);
                assert(d[k].1.to_set().contains(x.0));
                assert(labels_of(ns, q[k]).contains(x.0));
                let m = choose|m: usize| q[k].contains(m) && ns[m as int].0 == x.0;
                assert(q[k].subset_of(dom_init(adj, st)[k]));
                assert(dom_init(adj, st)[k].contains(m));
                if adj[k].0 != st {
                    assert(node_set(adj).contains(m));
                    let t = choose|t: int| 0 <= t < sources(adj).len() && sources(adj)[t] == m;
                    assert(ns.len() == self.cfg.nodes@.len());
                    assert(adj[t].0 == t as usize);
                    assert(m == t);
                }
                assert(m < ns.len());
                lemma_vkey_pos(ns, x.0);
                if vkey_pos(ns, x.0) < 0 {
                    assert(ns[m as int].0 != x.0);
                }
            }
            assert(frontier_defined(d, e, s0));
        }
        self.execute_with(&doms);
    }

    /// Computes the dominance frontiers from given dominators of the blocks
    /// (`dominators`: for each label, the labels of its dominators), once:
    /// for each label `l` with dominators, each predecessor `p` of `l`, and
    /// each dominator `b` of `p` that does not strictly dominate `l`, `l`
    /// enters the frontier of `b`.
    pub fn execute_with(&mut self, dominators: &Vec<(String, Vec<String>)>)
        requires
            frontier_defined(doms_view(dominators@), old(self).cfg.edge_seq(), old(self).frontiers()),
        ensures
            final(self).prog == old(self).prog,
            final(self).cfg == old(self).cfg,
            final(self).executed,
            old(self).executed ==> final(self).frontiers() == old(self).frontiers(),
            !old(self).executed ==> final(self).frontiers() == add_events(
                old(self).frontiers(),
                frontier_events(doms_view(dominators@), old(self).cfg.edge_seq(), dominators@.len() as int),
            ),
    {
        if self.executed {
            return;
        }
        self.executed = true;
        let ghost d = doms_view(dominators@);
        let ghost e = self.cfg.edge_seq();
        let ghost s0 = self.frontiers();
        let ghost all = frontier_events(d, e, d.len() as int);
        let mut i: usize = 0;
        while i < dominators.len()
            invariant
                i <= dominators@.len(),
                d == doms_view(dominators@),
                e == self.cfg.edge_seq(),
                all == frontier_events(d, e, d.len() as int),
                frontier_defined(d, e, s0),
                self.prog == old(self).prog,
                self.cfg == old(self).cfg,
                self.executed,
                self.frontiers() == add_events(s0, frontier_events(d, e, i as int)),
                frontier_events(d, e, i as int).is_prefix_of(all),
            decreases dominators.len() - i,
        {
            let label = &dominators[i].0;
            let doms = &dominators[i].1;
            assert(d[i as int] == (label@, labels_view(doms@)));
            let ghost strict = strict_doms(d, i as int);
            let ghost done = frontier_events(d, e, i as int);
            let preds = self.cfg.get_predecessor_labels(label.as_str());
            let ghost ps = labels_view(preds@);
            proof {
                lemma_frontier_events_prefix(d, e, i as int + 1, d.len() as int);
            }
            let mut j: usize = 0;
            assert(ps.take(0) =~= Seq::<Seq<char>>::empty());
            assert(done + pred_events(d, ps.take(0), strict, label@) =~= done);
            while j < preds.len()
                invariant
                    j <= preds@.len(),
                    i < dominators@.len(),
                    d == doms_view(dominators@),
                    e == self.cfg.edge_seq(),
                    d[i as int] == (label@, labels_view(doms@)),
                    ps == labels_view(preds@),
                    ps == srcs_into(e, label@),
                    strict == strict_doms(d, i as int),
                    done == frontier_events(d, e, i as int),
                    all == frontier_events(d, e, d.len() as int),
                    (done + pred_events(d, ps, strict, label@)).is_prefix_of(all),
                    frontier_defined(d, e, s0),
                    self.prog == old(self).prog,
                    self.cfg == old(self).cfg,
                    self.executed,
                    self.frontiers() == add_events(s0, done + pred_events(d, ps.take(j as int), strict, label@)),
                decreases preds.len() - j,
            {
                assert(ps[j as int] == preds@[j as int]@);
                assert(vkey_pos(d, srcs_into(e, d[i as int].0)[j as int]) >= 0);
                proof {
                    lemma_key_pos_views(dominators@, d, ps[j as int]);
                    lemma_vkey_pos(d, ps[j as int]);
                }
                let k = match find_key(dominators, preds[j].as_str()) {
                    Some(k) => k,
                    None => {
                        proof {
                            assert(false);
                        }
                        0
                    },
                };
                let pdoms = &dominators[k].1;
                let ghost ds = labels_view(pdoms@);
                assert(ds == dom_of(d, ps[j as int]));
                let ghost before = done + pred_events(d, ps.take(j as int), strict, label@);
                proof {
                    assert(ps.take(j + 1).drop_last() =~= ps.take(j as int));
                    assert(ps.take(j + 1).last() == ps[j as int]);
                    lemma_pred_events_prefix(d, ps, j as int + 1, strict, label@);
                    assert((before + dom_events(ds, strict, label@)) =~= done + pred_events(
                        d,
                        ps.take(j + 1),
                        strict,
                        label@,
                    ));
                }
                let mut m: usize = 0;
                assert(ds.take(0) =~= Seq::<Seq<char>>::empty());
                assert(before + dom_events(ds.take(0), strict, label@) =~= before);
                while m < pdoms.len()
                    invariant
                        m <= pdoms@.len(),
                        ds == labels_view(pdoms@),
                        d[i as int] == (label@, labels_view(doms@)),
                        strict == strict_doms(d, i as int),
                        all == frontier_events(d, e, d.len() as int),
                        (before + dom_events(ds, strict, label@)).is_prefix_of(all),
                        frontier_defined(d, e, s0),
                        self.prog == old(self).prog,
                        self.cfg == old(self).cfg,
                        self.executed,
                        self.frontiers() == add_events(s0, before + dom_events(ds.take(m as int), strict, label@)),
                    decreases pdoms.len() - m,
                {
                    let b = &pdoms[m];
                    assert(ds[m as int] == b@);
                    let in_strict = labels_contain(doms, b) && *b != *label;
                    assert(in_strict == strict.contains(b@));
                    let ghost cur = before + dom_events(ds.take(m as int), strict, label@);
                    proof {
                        assert(ds.take(m + 1).drop_last() =~= ds.take(m as int));
                        assert(ds.take(m + 1).last() == b@);
                        lemma_dom_events_prefix(ds, m as int + 1, strict, label@);
                        lemma_add_events_keys(s0, cur);
                    }
                    if !in_strict {
                        proof {
                            assert(cur.push((b@, label@)) =~= before + dom_events(ds.take(m + 1), strict, label@));
                            let dm = dom_events(ds.take(m as int), strict, label@);
                            let dm1 = dom_events(ds.take(m + 1), strict, label@);
                            assert(dm1 == dm.push((b@, label@)));
                            assert(dm1[dm.len() as int] == (b@, label@));
                            assert(dom_events(ds, strict, label@)[dm.len() as int] == (b@, label@));
                            let n = cur.len() as int;
                            assert(n == before.len() + dm.len());
                            assert((before + dom_events(ds, strict, label@))[n] == (b@, label@));
                            assert(all[n] == (b@, label@));
                            assert(all.contains((b@, label@)));
                            assert(add_events(s0, cur.push((b@, label@))) == frontier_add(
                                add_events(s0, cur),
                                b@,
                                label@,
                            )) by {
                                assert(cur.push((b@, label@)).drop_last() =~= cur);
                            }
                        }
                        self.add_to_frontier(b, label, Ghost(s0));
                    } else {
                        assert(cur =~= before + dom_events(ds.take(m + 1), strict, label@));
                    }
                    m += 1;
                }
                assert(ds.take(pdoms@.len() as int) =~= ds);
                j += 1;
            }
            assert(ps.take(preds@.len() as int) =~= ps);
            i += 1;
        }
        assert(frontier_events(d, e, dominators@.len() as int) == all);
    }
}

/// The pairs of the first dominators of `ds` come first.
proof fn lemma_dom_events_prefix(ds: Seq<Seq<char>>, m: int, strict: Set<Seq<char>>, l: Seq<char>)
    requires
        0 <= m <= ds.len(),
    ensures
        dom_events(ds.take(m), strict, l).is_prefix_of(dom_events(ds, strict, l)),
    decreases ds.len() - m,
{
    if m < ds.len() {
        lemma_dom_events_prefix(ds, m + 1, strict, l);
        assert(ds.take(m + 1).drop_last() =~= ds.take(m));
    } else {
        assert(ds.take(m) =~= ds);
    }
}

/// The pairs through the first predecessors of `ps` come first.
proof fn lemma_pred_events_prefix(
    d: Seq<(Seq<char>, Seq<Seq<char>>)>,
    ps: Seq<Seq<char>>,
    j: int,
    strict: Set<Seq<char>>,
    l: Seq<char>,
)
    requires
        0 <= j <= ps.len(),
    ensures
        pred_events(d, ps.take(j), strict, l).is_prefix_of(pred_events(d, ps, strict, l)),
    decreases ps.len() - j,
{
    if j < ps.len() {
        lemma_pred_events_prefix(d, ps, j + 1, strict, l);
        assert(ps.take(j + 1).drop_last() =~= ps.take(j));
    } else {
        assert(ps.take(j) =~= ps);
    }
}

/// The pairs of the first dominator entries come first.
proof fn lemma_frontier_events_prefix(
    d: Seq<(Seq<char>, Seq<Seq<char>>)>,
    e: Seq<(Seq<char>, Seq<char>)>,
    i: int,
    n: int,
)
    requires
        0 <= i <= n,
    ensures
        frontier_events(d, e, i).is_prefix_of(frontier_events(d, e, n)),
    decreases n - i,
{
    if i < n {
        lemma_frontier_events_prefix(d, e, i, n - 1);
    }
}

} // verus!

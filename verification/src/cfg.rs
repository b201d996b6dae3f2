//! Control-flow graphs of LIR functions: blocks keyed by label and directed
//! edges between labels, with neighbour queries.
use vstd::prelude::*;
use crate::lir::{block_eq, opt_str_view, Block, BlockV, Program, Terminal};

verus! {

/// The labels of a list of strings.
pub open spec fn labels_view(s: Seq<String>) -> Seq<Seq<char>> {
    s.map_values(|x: String| x@)
}

/// The view of an edge list.
pub open spec fn edges_view(e: Seq<(String, String)>) -> Seq<(Seq<char>, Seq<char>)> {
    e.map_values(|p: (String, String)| (p.0@, p.1@))
}

/// The view of a node list: labels with their blocks.
pub open spec fn nodes_view(n: Seq<(String, Block)>) -> Seq<(Seq<char>, BlockV)> {
    n.map_values(|p: (String, Block)| (p.0@, p.1@))
}

/// Position of the first entry with key `k`, or -1.
pub open spec fn vkey_pos<B>(s: Seq<(Seq<char>, B)>, k: Seq<char>) -> int
    decreases s.len(),
{
    if s.len() == 0 {
        -1
    } else if s[0].0 == k {
        0
    } else {
        let r = vkey_pos(s.drop_first(), k);
        if r < 0 {
            -1
        } else {
            r + 1
        }
    }
}

/// Properties of the first-key position.
pub proof fn lemma_vkey_pos<B>(s: Seq<(Seq<char>, B)>, k: Seq<char>)
    ensures
        -1 <= vkey_pos(s, k) < s.len(),
        vkey_pos(s, k) >= 0 ==> s[vkey_pos(s, k)].0 == k,
        vkey_pos(s, k) >= 0 ==> forall|j: int| 0 <= j < vkey_pos(s, k) ==> s[j].0 != k,
        vkey_pos(s, k) == -1 <==> forall|j: int| 0 <= j < s.len() ==> s[j].0 != k,
    decreases s.len(),
{
    if s.len() > 0 {
        lemma_vkey_pos(s.drop_first(), k);
        assert forall|j: int| 1 <= j < s.len() implies s[j] == s.drop_first()[j - 1] by {}
        if s[0].0 != k && vkey_pos(s, k) == -1 {
            assert forall|j: int| 0 <= j < s.len() implies s[j].0 != k by {
                if j > 0 {
                    assert(s[j] == s.drop_first()[j - 1]);
                }
            }
        }
    }
}

/// The map that a keyed list stands for (the first entry of each key counts).
pub open spec fn keyed_map<B>(s: Seq<(Seq<char>, B)>) -> Map<Seq<char>, B> {
    Map::new(|k: Seq<char>| vkey_pos(s, k) >= 0, |k: Seq<char>| s[vkey_pos(s, k)].1)
}

/// The keyed list after setting key `k` to `b`: the first entry with that key
/// is replaced, or the pair is appended.
pub open spec fn keyed_insert<B>(s: Seq<(Seq<char>, B)>, k: Seq<char>, b: B) -> Seq<(Seq<char>, B)> {
    if vkey_pos(s, k) >= 0 {
        s.update(vkey_pos(s, k), (k, b))
    } else {
        s.push((k, b))
    }
}

/// The nodes that a function body gives, inserted in order.
pub open spec fn body_nodes(body: Seq<(String, Block)>) -> Seq<(Seq<char>, BlockV)>
    decreases body.len(),
{
    if body.len() == 0 {
        Seq::empty()
    } else {
        keyed_insert(body_nodes(body.drop_last()), body.last().0@, body.last().1@)
    }
}

/// The edges that leave a block: to the target of a jump, to both targets of
/// a branch, to the next block of a call, none for a return.
pub open spec fn term_edges(label: Seq<char>, t: Terminal) -> Seq<(Seq<char>, Seq<char>)> {
    match t {
        Terminal::Jump(next) => seq![(label, next@)],
        Terminal::Branch { cond: _, tt, ff } => seq![(label, tt@), (label, ff@)],
        Terminal::Ret(_) => Seq::empty(),
        Terminal::CallDirect { lhs: _, callee: _, args: _, next_bb } => seq![(label, next_bb@)],
        Terminal::CallIndirect { lhs: _, callee: _, args: _, next_bb } => seq![(label, next_bb@)],
    }
}

/// The edges of a function body, block by block.
pub open spec fn body_edges(body: Seq<(String, Block)>) -> Seq<(Seq<char>, Seq<char>)>
    decreases body.len(),
{
    if body.len() == 0 {
        Seq::empty()
    } else {
        body_edges(body.drop_last()) + term_edges(body.last().0@, body.last().1.term)
    }
}

/// A control-flow graph: blocks keyed by label, and directed edges between labels.
#[derive(Debug)]
pub struct ControlFlowGraph {
    pub nodes: Vec<(String, Block)>,
    pub edges: Vec<(String, String)>,
}

impl ControlFlowGraph {
    /// The map from labels to blocks.
    pub open spec fn node_map(&self) -> Map<Seq<char>, BlockV> {
        keyed_map(nodes_view(self.nodes@))
    }

    /// The edges as pairs of labels.
    pub open spec fn edge_seq(&self) -> Seq<(Seq<char>, Seq<char>)> {
        edges_view(self.edges@)
    }

    /// An empty graph.
    pub fn new() -> (r: Self)
        ensures
            r.nodes@.len() == 0,
            r.edges@.len() == 0,
    {
        ControlFlowGraph { nodes: Vec::new(), edges: Vec::new() }
    }

    fn node_pos(&self, label: &str) -> (r: Option<usize>)
        ensures
            match r {
                Some(i) => i < self.nodes@.len() && i == vkey_pos(nodes_view(self.nodes@), label@),
                None => vkey_pos(nodes_view(self.nodes@), label@) == -1,
            },
    {
        let key = String::from_str(label);
        let ghost nv = nodes_view(self.nodes@);
        let mut i: usize = 0;
        while i < self.nodes.len()
            invariant
                i <= self.nodes@.len(),
                nv == nodes_view(self.nodes@),
                key@ == label@,
                forall|j: int| 0 <= j < i ==> nv[j].0 != label@,
            decreases self.nodes.len() - i,
        {
            if self.nodes[i].0 == key {
                proof {
                    lemma_vkey_pos(nv, label@);
                    assert(nv[i as int].0 == label@);
                }
                return Some(i);
            }
            i += 1;
        }
        proof {
            lemma_vkey_pos(nv, label@);
        }
        None
    }

    /// Sets the block of a label: replaces the block of an existing label, or adds the label.
    pub fn add_node(&mut self, label: String, block: Block)
        ensures
            nodes_view(final(self).nodes@) == keyed_insert(nodes_view(old(self).nodes@), label@, block@),
            final(self).edges@ == old(self).edges@,
    {
        let ghost k = label@;
        let ghost b = block@;
        proof {
            lemma_vkey_pos(nodes_view(self.nodes@), k);
        }
        match self.node_pos(label.as_str()) {
            Some(i) => {
                self.nodes.set(i, (label, block));
                assert(nodes_view(self.nodes@) =~= keyed_insert(nodes_view(old(self).nodes@), k, b));
            },
            None => {
                self.nodes.push((label, block));
                assert(nodes_view(self.nodes@) =~= keyed_insert(nodes_view(old(self).nodes@), k, b));
            },
        }
    }

    /// Adds an edge.
    pub fn add_edge(&mut self, src: String, dst: String)
        ensures
            final(self).edges@ == old(self).edges@.push((src, dst)),
            final(self).nodes@ == old(self).nodes@,
    {
        self.edges.push((src, dst));
    }

    /// The graph of the named function: its blocks as nodes, and an edge for
    /// every jump, branch target and call continuation.
    pub fn from_function(prog: &Program, func_name: &str) -> (r: Self)
        requires
            prog.has_function(func_name@),
        ensures
            nodes_view(r.nodes@) == body_nodes(prog.function(func_name@).body@),
            r.edge_seq() == body_edges(prog.function(func_name@).body@),
    {
        let mut cfg = Self::new();
        let fi = match crate::program::find_key(&prog.functions, func_name) {
            Some(i) => i,
            None => 0,
        };
        proof {
            crate::program::lemma_key_pos_range(prog.functions@, func_name@);
        }
        let body = &prog.functions[fi].1.body;
        let mut i: usize = 0;
        assert(nodes_view(cfg.nodes@) =~= body_nodes(body@.take(0)));
        assert(edges_view(cfg.edges@) =~= body_edges(body@.take(0)));
        while i < body.len()
            invariant
                i <= body@.len(),
                nodes_view(cfg.nodes@) == body_nodes(body@.take(i as int)),
                edges_view(cfg.edges@) == body_edges(body@.take(i as int)),
            decreases body.len() - i,
        {
            assert(body@.take(i + 1).drop_last() =~= body@.take(i as int));
            let label = &body[i].0;
            let block = &body[i].1;
            cfg.add_node(label.clone(), block.clone());
            let ghost before = edges_view(cfg.edges@);
            match &block.term {
                Terminal::Jump(next) => {
                    cfg.add_edge(label.clone(), next.clone());
                },
                Terminal::Branch { cond: _, tt, ff } => {
                    cfg.add_edge(label.clone(), tt.clone());
                    cfg.add_edge(label.clone(), ff.clone());
                },
                Terminal::Ret(_) => {},
                Terminal::CallDirect { lhs: _, callee: _, args: _, next_bb } => {
                    cfg.add_edge(label.clone(), next_bb.clone());
                },
                Terminal::CallIndirect { lhs: _, callee: _, args: _, next_bb } => {
                    cfg.add_edge(label.clone(), next_bb.clone());
                },
            }
            assert(edges_view(cfg.edges@) =~= before + term_edges(label@, block.term));
            i += 1;
        }
        assert(body@.take(body@.len() as int) =~= body@);
        cfg
    }
}

/// The labels of a node list, in order.
pub open spec fn node_labels(n: Seq<(Seq<char>, BlockV)>) -> Seq<Seq<char>> {
    n.map_values(|p: (Seq<char>, BlockV)| p.0)
}

/// The label of the first node whose block is `b`.
pub open spec fn label_of_block(n: Seq<(Seq<char>, BlockV)>, b: BlockV) -> Option<Seq<char>>
    decreases n.len(),
{
    if n.len() == 0 {
        None
    } else if n[0].1 == b {
        Some(n[0].0)
    } else {
        label_of_block(n.drop_first(), b)
    }
}

/// The sources of the edges that enter `l`, in edge order.
pub open spec fn srcs_into(e: Seq<(Seq<char>, Seq<char>)>, l: Seq<char>) -> Seq<Seq<char>>
    decreases e.len(),
{
    if e.len() == 0 {
        Seq::empty()
    } else if e.last().1 == l {
        srcs_into(e.drop_last(), l).push(e.last().0)
    } else {
        srcs_into(e.drop_last(), l)
    }
}

/// The targets of the edges that leave `l`, in edge order.
pub open spec fn dsts_from(e: Seq<(Seq<char>, Seq<char>)>, l: Seq<char>) -> Seq<Seq<char>>
    decreases e.len(),
{
    if e.len() == 0 {
        Seq::empty()
    } else if e.last().0 == l {
        dsts_from(e.drop_last(), l).push(e.last().1)
    } else {
        dsts_from(e.drop_last(), l)
    }
}

impl ControlFlowGraph {
    /// The node list as labels and block views.
    pub open spec fn node_seq(&self) -> Seq<(Seq<char>, BlockV)> {
        nodes_view(self.nodes@)
    }

    /// The block of a label.
    pub fn get_block(&self, label: &str) -> (r: Option<&Block>)
        ensures
            r is Some == self.node_map().dom().contains(label@),
            r matches Some(b) ==> b@ == self.node_map()[label@],
    {
        proof {
            lemma_vkey_pos(self.node_seq(), label@);
        }
        match self.node_pos(label) {
            Some(i) => Some(&self.nodes[i].1),
            None => None,
        }
    }

    /// The block labelled `dummy_entry`.
    pub fn get_dummy_entry(&self) -> (r: Option<&Block>)
        ensures
            r is Some == self.node_map().dom().contains("dummy_entry"@),
            r matches Some(b) ==> b@ == self.node_map()["dummy_entry"@],
    {
        self.get_block("dummy_entry")
    }

    /// The block labelled `entry`.
    pub fn get_entry(&self) -> (r: Option<&Block>)
        ensures
            r is Some == self.node_map().dom().contains("entry"@),
            r matches Some(b) ==> b@ == self.node_map()["entry"@],
    {
        self.get_block("entry")
    }

    /// The block labelled `dummy_exit`.
    pub fn get_dummy_exit(&self) -> (r: Option<&Block>)
        ensures
            r is Some == self.node_map().dom().contains("dummy_exit"@),
            r matches Some(b) ==> b@ == self.node_map()["dummy_exit"@],
    {
        self.get_block("dummy_exit")
    }

    /// The label of the first node that holds this block.
    pub fn get_block_label(&self, block: &Block) -> (r: Option<String>)
        ensures
            opt_str_view(r) == label_of_block(self.node_seq(), block@),
    {
        let ghost nv = self.node_seq();
        let mut i: usize = 0;
        assert(nv.subrange(0, nv.len() as int) =~= nv);
        while i < self.nodes.len()
            invariant
                i <= nv.len(),
                nv == self.node_seq(),
                label_of_block(nv, block@) == label_of_block(nv.subrange(i as int, nv.len() as int), block@),
            decreases self.nodes.len() - i,
        {
            let ghost rest = nv.subrange(i as int, nv.len() as int);
            assert(rest[0] == nv[i as int]);
            if block_eq(&self.nodes[i].1, block) {
                return Some(self.nodes[i].0.clone());
            }
            assert(rest.drop_first() =~= nv.subrange(i + 1, nv.len() as int));
            i += 1;
        }
        None
    }

    /// The labels of all nodes, in node order.
    pub fn get_all_block_labels(&self) -> (r: Vec<String>)
        ensures
            labels_view(r@) == node_labels(self.node_seq()),
    {
        let mut r: Vec<String> = Vec::new();
        let mut i: usize = 0;
        while i < self.nodes.len()
            invariant
                i <= self.nodes@.len(),
                labels_view(r@) == node_labels(self.node_seq()).take(i as int),
            decreases self.nodes.len() - i,
        {
            let ghost prev = labels_view(r@);
            let l = self.nodes[i].0.clone();
            r.push(l);
            assert(labels_view(r@) =~= prev.push(l@));
            assert(node_labels(self.node_seq())[i as int] == self.nodes@[i as int].0@);
            assert(node_labels(self.node_seq()).take(i + 1) =~= node_labels(self.node_seq()).take(i as int).push(l@));
            i += 1;
        }
        assert(node_labels(self.node_seq()).take(i as int) =~= node_labels(self.node_seq()));
        r
    }

    /// The sources of the edges that enter a label, in edge order.
    pub fn get_predecessor_labels(&self, label: &str) -> (r: Vec<String>)
        ensures
            labels_view(r@) == srcs_into(self.edge_seq(), label@),
    {
        let ghost ev = self.edge_seq();
        let key = String::from_str(label);
        let mut r: Vec<String> = Vec::new();
        let mut i: usize = 0;
        assert(labels_view(r@) =~= srcs_into(ev.take(0), label@));
        while i < self.edges.len()
            invariant
                i <= self.edges@.len(),
                ev == self.edge_seq(),
                key@ == label@,
                labels_view(r@) == srcs_into(ev.take(i as int), label@),
            decreases self.edges.len() - i,
        {
            assert(ev.take(i + 1).drop_last() =~= ev.take(i as int));
            assert(ev.take(i + 1).last() == ev[i as int]);
            assert(ev[i as int] == (self.edges@[i as int].0@, self.edges@[i as int].1@));
            let ghost prev = labels_view(r@);
            if self.edges[i].1 == key {
                let l = self.edges[i].0.clone();
                r.push(l);
                assert(labels_view(r@) =~= prev.push(l@));
            }
            assert(labels_view(r@) =~= srcs_into(ev.take(i + 1), label@));
            i += 1;
        }
        assert(ev.take(i as int) =~= ev);
        r
    }

    /// The targets of the edges that leave a label, in edge order.
    pub fn get_successor_labels(&self, label: &str) -> (r: Vec<String>)
        ensures
            labels_view(r@) == dsts_from(self.edge_seq(), label@),
    {
        let ghost ev = self.edge_seq();
        let key = String::from_str(label);
        let mut r: Vec<String> = Vec::new();
        let mut i: usize = 0;
        assert(labels_view(r@) =~= dsts_from(ev.take(0), label@));
        while i < self.edges.len()
            invariant
                i <= self.edges@.len(),
                ev == self.edge_seq(),
                key@ == label@,
                labels_view(r@) == dsts_from(ev.take(i as int), label@),
            decreases self.edges.len() - i,
        {
            assert(ev.take(i + 1).drop_last() =~= ev.take(i as int));
            assert(ev.take(i + 1).last() == ev[i as int]);
            assert(ev[i as int] == (self.edges@[i as int].0@, self.edges@[i as int].1@));
            let ghost prev = labels_view(r@);
            if self.edges[i].0 == key {
                let l = self.edges[i].1.clone();
                r.push(l);
                assert(labels_view(r@) =~= prev.push(l@));
            }
            assert(labels_view(r@) =~= dsts_from(ev.take(i + 1), label@));
            i += 1;
        }
        assert(ev.take(i as int) =~= ev);
        r
    }

    /// The blocks of the labels in a list, which must all be nodes.
    fn blocks_of(&self, labels: &Vec<String>) -> (r: Vec<&Block>)
        requires
            forall|j: int| 0 <= j < labels@.len() ==> self.node_map().dom().contains(#[trigger] labels@[j]@),
        ensures
            r@.len() == labels@.len(),
            forall|j: int| 0 <= j < labels@.len() ==> r@[j]@ == self.node_map()[#[trigger] labels@[j]@],
    {
        let mut r: Vec<&Block> = Vec::new();
        let mut i: usize = 0;
        while i < labels.len()
            invariant
                i <= labels@.len(),
                r@.len() == i,
                forall|j: int| 0 <= j < labels@.len() ==> self.node_map().dom().contains(#[trigger] labels@[j]@),
                forall|j: int| 0 <= j < i ==> r@[j]@ == self.node_map()[#[trigger] labels@[j]@],
            decreases labels.len() - i,
        {
            match self.get_block(labels[i].as_str()) {
                Some(b) => r.push(b),
                None => {
                    assert(self.node_map().dom().contains(labels@[i as int]@));
                },
            }
            i += 1;
        }
        r
    }

    /// The blocks of the predecessors of a block; the block and its
    /// predecessors must be nodes.
    pub fn get_predecessors(&self, block: &Block) -> (r: Vec<&Block>)
        requires
            label_of_block(self.node_seq(), block@) is Some,
            forall|l: Seq<char>|
                srcs_into(self.edge_seq(), label_of_block(self.node_seq(), block@)->0).contains(l)
                    ==> self.node_map().dom().contains(l),
        ensures
            r@.len() == srcs_into(self.edge_seq(), label_of_block(self.node_seq(), block@)->0).len(),
            forall|j: int|
                0 <= j < r@.len() ==> r@[j]@ == self.node_map()[srcs_into(
                    self.edge_seq(),
                    label_of_block(self.node_seq(), block@)->0,
                )[j]],
    {
        let label = match self.get_block_label(block) {
            Some(l) => l,
            None => String::new(),
        };
        let preds = self.get_predecessor_labels(label.as_str());
        proof {
            assert forall|j: int| 0 <= j < preds@.len() implies self.node_map().dom().contains(#[trigger] preds@[j]@) by {
                assert(labels_view(preds@)[j] == preds@[j]@);
            }
        }
        let r = self.blocks_of(&preds);
        proof {
            assert forall|j: int| 0 <= j < r@.len() implies r@[j]@ == self.node_map()[srcs_into(
                self.edge_seq(),
                label_of_block(self.node_seq(), block@)->0,
            )[j]] by {
                assert(labels_view(preds@)[j] == preds@[j]@);
            }
        }
        r
    }

    /// The blocks of the successors of a block; the block and its successors
    /// must be nodes.
    pub fn get_successors(&self, block: &Block) -> (r: Vec<&Block>)
        requires
            label_of_block(self.node_seq(), block@) is Some,
            forall|l: Seq<char>|
                dsts_from(self.edge_seq(), label_of_block(self.node_seq(), block@)->0).contains(l)
                    ==> self.node_map().dom().contains(l),
        ensures
            r@.len() == dsts_from(self.edge_seq(), label_of_block(self.node_seq(), block@)->0).len(),
            forall|j: int|
                0 <= j < r@.len() ==> r@[j]@ == self.node_map()[dsts_from(
                    self.edge_seq(),
                    label_of_block(self.node_seq(), block@)->0,
                )[j]],
    {
        let label = match self.get_block_label(block) {
            Some(l) => l,
            None => String::new(),
        };
        let succs = self.get_successor_labels(label.as_str());
        proof {
            assert forall|j: int| 0 <= j < succs@.len() implies self.node_map().dom().contains(#[trigger] succs@[j]@) by {
                assert(labels_view(succs@)[j] == succs@[j]@);
            }
        }
        let r = self.blocks_of(&succs);
        proof {
            assert forall|j: int| 0 <= j < r@.len() implies r@[j]@ == self.node_map()[dsts_from(
                self.edge_seq(),
                label_of_block(self.node_seq(), block@)->0,
            )[j]] by {
                assert(labels_view(succs@)[j] == succs@[j]@);
            }
        }
        r
    }
}

/// The keys of a keyed list after setting key `k`: the old keys and `k`.
pub proof fn lemma_keyed_insert_keys<B>(s: Seq<(Seq<char>, B)>, k: Seq<char>, b: B, q: Seq<char>)
    ensures
        (vkey_pos(keyed_insert(s, k, b), q) >= 0) == (vkey_pos(s, q) >= 0 || q == k),
{
    lemma_vkey_pos(s, q);
    lemma_vkey_pos(s, k);
    let t = keyed_insert(s, k, b);
    lemma_vkey_pos(t, q);
    if vkey_pos(s, q) >= 0 {
        let i = vkey_pos(s, q);
        assert(t[i].0 == q);
    }
    if q == k {
        if vkey_pos(s, k) >= 0 {
            assert(t[vkey_pos(s, k)].0 == q);
        } else {
            assert(t[s.len() as int].0 == q);
        }
    }
    if vkey_pos(t, q) >= 0 && q != k {
        let j = vkey_pos(t, q);
        if j < s.len() {
            assert(s[j].0 == q);
        }
    }
}

/// A label is a node of the graph of a body exactly when some block of the body has it.
pub proof fn lemma_body_nodes_keys(body: Seq<(String, Block)>, k: Seq<char>)
    ensures
        (vkey_pos(body_nodes(body), k) >= 0) == (exists|i: int| 0 <= i < body.len() && #[trigger] body[i].0@ == k),
    decreases body.len(),
{
    if body.len() > 0 {
        let init = body.drop_last();
        lemma_body_nodes_keys(init, k);
        lemma_keyed_insert_keys(body_nodes(init), body.last().0@, body.last().1@, k);
        if exists|i: int| 0 <= i < body.len() && #[trigger] body[i].0@ == k {
            let i = choose|i: int| 0 <= i < body.len() && #[trigger] body[i].0@ == k;
            if i < init.len() {
                assert(init[i].0@ == k);
            }
        }
        if exists|i: int| 0 <= i < init.len() && #[trigger] init[i].0@ == k {
            let i = choose|i: int| 0 <= i < init.len() && #[trigger] init[i].0@ == k;
            assert(body[i].0@ == k);
        }
    }
}

/// Two keyed lists with the same keys at every position have the same first-key positions.
pub proof fn lemma_vkey_pos_same_keys<A, B>(s: Seq<(Seq<char>, A)>, t: Seq<(Seq<char>, B)>, k: Seq<char>)
    requires
        s.len() == t.len(),
        forall|j: int| 0 <= j < s.len() ==> #[trigger] s[j].0 == t[j].0,
    ensures
        vkey_pos(s, k) == vkey_pos(t, k),
{
    lemma_vkey_pos(s, k);
    lemma_vkey_pos(t, k);
    let p = vkey_pos(s, k);
    let q = vkey_pos(t, k);
    if p >= 0 {
        assert(t[p].0 == k);
        if q >= 0 && q < p {
            assert(s[q].0 == k);
        }
    } else if q >= 0 {
        assert(s[q].0 == k);
    }
}

} // verus!

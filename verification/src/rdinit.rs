//! Setting up a reaching-definitions analysis: the program points of a
//! function with empty records, the stores of its blocks, and the visit
//! counts that drive the worklist iteration.
use vstd::prelude::*;
use crate::analysis::{
    blocks_view, counts_view, empty_stores, fill, lemma_key_pos_views, put, set_all, stores_view, zero_counts, zero_visits,
};
use crate::cfg::{body_edges, body_nodes, keyed_insert, labels_view, lemma_body_nodes_keys, lemma_vkey_pos, node_labels, ControlFlowGraph};
use crate::defs::{PointsV, ProgramPoint};
use crate::lir::{vars_view, Block, BlockV, Location, Program, Terminal, Variable, VariableV};
use crate::program::{class_pred, key_pos, lemma_key_pos_range, TypeClass};
use crate::rdef::{records_view, solution_view, var_set, ReachingDefinitionAnalyzer};
use crate::reach::addr_taken_list;
use crate::store::Store;

verus! {

/// The program points of a block labelled `l`: each instruction by its
/// index, then the terminal.
pub open spec fn block_keys(l: Seq<char>, b: BlockV) -> Seq<(Seq<char>, Location)> {
    instr_keys(l, b.insts.len()).push((l, Location::Terminal))
}

/// The program points of the first `n` instructions of a block labelled `l`.
pub open spec fn instr_keys(l: Seq<char>, n: nat) -> Seq<(Seq<char>, Location)> {
    Seq::new(n, |i: int| (l, Location::Instruction(i as usize)))
}

/// The program points of the blocks of a graph, block by block.
pub open spec fn point_keys(n: Seq<(Seq<char>, BlockV)>) -> Seq<(Seq<char>, Location)>
    decreases n.len(),
{
    if n.len() == 0 {
        Seq::empty()
    } else {
        point_keys(n.drop_last()) + block_keys(n.last().0, n.last().1)
    }
}

/// An empty set of reaching definitions for each program point.
pub open spec fn empty_solution(keys: Seq<(Seq<char>, Location)>) -> Seq<((Seq<char>, Location), PointsV)> {
    keys.map_values(|k: (Seq<char>, Location)| (k, PointsV::Points(Set::empty())))
}

/// An empty set of variables for each program point.
pub open spec fn empty_records(keys: Seq<(Seq<char>, Location)>) -> Seq<((Seq<char>, Location), Set<VariableV>)> {
    keys.map_values(|k: (Seq<char>, Location)| (k, Set::<VariableV>::empty()))
}

/// The variables of a class in a list, in order.
pub open spec fn class_vars(s: Seq<Variable>, k: TypeClass) -> Seq<VariableV> {
    vars_view(s).filter(class_pred(k))
}

/// The store at the entry of a reaching-definitions analysis: no definition
/// yet (bottom) for the integer and pointer globals, locals and parameters
/// and for the address-taken variables.
pub open spec fn rd_entry_store(p: Program, f: Seq<char>, addr: Seq<VariableV>) -> Map<VariableV, PointsV> {
    let fun = p.function(f);
    Map::<VariableV, PointsV>::empty().union_prefer_right(
        fill(class_vars(p.globals@, TypeClass::IntVar), PointsV::Bottom),
    ).union_prefer_right(fill(class_vars(p.globals@, TypeClass::PointerVar), PointsV::Bottom)).union_prefer_right(
        fill(class_vars(fun.locals@, TypeClass::IntVar), PointsV::Bottom),
    ).union_prefer_right(fill(class_vars(fun.locals@, TypeClass::PointerVar), PointsV::Bottom)).union_prefer_right(
        fill(class_vars(fun.params@, TypeClass::IntVar), PointsV::Bottom),
    ).union_prefer_right(fill(class_vars(fun.params@, TypeClass::PointerVar), PointsV::Bottom)).union_prefer_right(
        fill(addr, PointsV::Bottom),
    )
}

/// Appends a program point with no reaching definitions and no uses or
/// definitions recorded.
fn push_point(
    solution: &mut Vec<((String, Location), ProgramPoint)>,
    uses: &mut Vec<((String, Location), Vec<Variable>)>,
    defs: &mut Vec<((String, Location), Vec<Variable>)>,
    l: &String,
    loc: Location,
    Ghost(keys): Ghost<Seq<(Seq<char>, Location)>>,
)
    requires
        solution_view(old(solution)@) == empty_solution(keys),
        records_view(old(uses)@) == empty_records(keys),
        records_view(old(defs)@) == empty_records(keys),
    ensures
        solution_view(final(solution)@) == empty_solution(keys.push((l@, loc))),
        records_view(final(uses)@) == empty_records(keys.push((l@, loc))),
        records_view(final(defs)@) == empty_records(keys.push((l@, loc))),
{
    let ghost k = (l@, loc);
    let none: Vec<crate::lir::ProgramPoint> = Vec::new();
    let no_uses: Vec<Variable> = Vec::new();
    let no_defs: Vec<Variable> = Vec::new();
    assert(var_set(no_uses@) =~= Set::<VariableV>::empty());
    assert(var_set(no_defs@) =~= Set::<VariableV>::empty());
    assert(crate::points::points_view(none@).to_set() =~= Set::<crate::lir::ProgramPointV>::empty());
    let e = ((l.clone(), loc), ProgramPoint::ProgramPointSet(none));
    assert(e.1@ == PointsV::Points(Set::empty()));
    solution.push(e);
    uses.push(((l.clone(), loc), no_uses));
    defs.push(((l.clone(), loc), no_defs));
    assert(solution_view(solution@).last() == (k, PointsV::Points(Set::empty())));
    assert(records_view(uses@).last() == (k, Set::<VariableV>::empty()));
    assert(records_view(defs@).last() == (k, Set::<VariableV>::empty()));
    assert(solution_view(solution@).drop_last() =~= solution_view(old(solution)@));
    assert(records_view(uses@).drop_last() =~= records_view(old(uses)@));
    assert(records_view(defs@).drop_last() =~= records_view(old(defs)@));
    assert(empty_solution(keys.push(k)) =~= empty_solution(keys).push((k, PointsV::Points(Set::empty()))));
    assert(empty_records(keys.push(k)) =~= empty_records(keys).push((k, Set::<VariableV>::empty())));
    assert(solution_view(solution@) =~= empty_solution(keys.push(k)));
    assert(records_view(uses@) =~= empty_records(keys.push(k)));
    assert(records_view(defs@) =~= empty_records(keys.push(k)));
}

impl ReachingDefinitionAnalyzer {
    /// A reaching-definitions analyzer of the named function, which must have
    /// a block labelled `entry`: the graph of the function, the entry block on
    /// the worklist, empty records for every program point, an empty store for
    /// every block but the entry, whose store holds bottom for the integer and
    /// pointer variables and the address-taken variables of the function.
    pub fn new(prog: Program, func_name: &str) -> (r: Self)
        requires
            prog.has_function(func_name@),
            key_pos(prog.function(func_name@).body@, "entry"@) >= 0,
        ensures
            r.prog == prog,
            r.cfg.node_seq() == body_nodes(prog.function(func_name@).body@),
            r.cfg.edge_seq() == body_edges(prog.function(func_name@).body@),
            r.cfg.node_map().dom().contains("entry"@),
            blocks_view(r.worklist@) == seq![r.cfg.node_map()["entry"@]],
            addr_taken_list(prog, func_name@, vars_view(r.addr_taken@)),
            r.sol() == empty_solution(point_keys(r.cfg.node_seq())),
            r.uses() == empty_records(point_keys(r.cfg.node_seq())),
            r.defs() == empty_records(point_keys(r.cfg.node_seq())),
            r.stores() == keyed_insert(
                empty_stores::<PointsV>(node_labels(r.cfg.node_seq())),
                "entry"@,
                rd_entry_store(prog, func_name@, vars_view(r.addr_taken@)),
            ),
            !r.executed,
    {
        let cfg = ControlFlowGraph::from_function(&prog, func_name);
        let addr_taken = prog.get_addr_taken(func_name);
        let mut solution: Vec<((String, Location), ProgramPoint)> = Vec::new();
        let mut pp_use: Vec<((String, Location), Vec<Variable>)> = Vec::new();
        let mut pp_def: Vec<((String, Location), Vec<Variable>)> = Vec::new();
        let ghost ns = cfg.node_seq();
        let mut i: usize = 0;
        assert(solution_view(solution@) =~= empty_solution(point_keys(ns.take(0))));
        assert(records_view(pp_use@) =~= empty_records(point_keys(ns.take(0))));
        assert(records_view(pp_def@) =~= empty_records(point_keys(ns.take(0))));
        while i < cfg.nodes.len()
            invariant
                i <= cfg.nodes@.len(),
                ns == cfg.node_seq(),
                solution_view(solution@) == empty_solution(point_keys(ns.take(i as int))),
                records_view(pp_use@) == empty_records(point_keys(ns.take(i as int))),
                records_view(pp_def@) == empty_records(point_keys(ns.take(i as int))),
            decreases cfg.nodes.len() - i,
        {
            let l = &cfg.nodes[i].0;
            let b = &cfg.nodes[i].1;
            let ghost before = point_keys(ns.take(i as int));
            let mut j: usize = 0;
            assert(before + instr_keys(l@, 0) =~= before);
            while j < b.insts.len()
                invariant
                    j <= b.insts@.len(),
                    solution_view(solution@) == empty_solution(before + instr_keys(l@, j as nat)),
                    records_view(pp_use@) == empty_records(before + instr_keys(l@, j as nat)),
                    records_view(pp_def@) == empty_records(before + instr_keys(l@, j as nat)),
                decreases b.insts.len() - j,
            {
                push_point(
                    &mut solution,
                    &mut pp_use,
                    &mut pp_def,
                    l,
                    Location::Instruction(j),
                    Ghost(before + instr_keys(l@, j as nat)),
                );
                assert(instr_keys(l@, j as nat).push((l@, Location::Instruction(j))) =~= instr_keys(l@, (j + 1) as nat));
                assert((before + instr_keys(l@, j as nat)).push((l@, Location::Instruction(j))) =~= before
                    + instr_keys(l@, (j + 1) as nat));
                j += 1;
            }
            push_point(
                &mut solution,
                &mut pp_use,
                &mut pp_def,
                l,
                Location::Terminal,
                Ghost(before + instr_keys(l@, j as nat)),
            );
            assert(ns.take(i + 1).drop_last() =~= ns.take(i as int));
            assert(ns[i as int] == (l@, b@));
            assert((before + instr_keys(l@, j as nat)).push((l@, Location::Terminal)) =~= before + block_keys(l@, b@));
            i += 1;
        }
        assert(ns.take(cfg.nodes@.len() as int) =~= ns);
        let mut entry_store: Store<ProgramPoint> = Store::new();
        let bot = ProgramPoint::Bottom;
        set_all(&mut entry_store, &prog.get_int_globals(), &bot);
        set_all(&mut entry_store, &prog.get_ptr_globals(), &bot);
        set_all(&mut entry_store, &prog.get_int_locals(func_name), &bot);
        set_all(&mut entry_store, &prog.get_ptr_locals(func_name), &bot);
        set_all(&mut entry_store, &prog.get_int_parameters(func_name), &bot);
        set_all(&mut entry_store, &prog.get_ptr_parameters(func_name), &bot);
        set_all(&mut entry_store, &addr_taken, &bot);
        proof {
            let body = prog.function(func_name@).body@;
            lemma_key_pos_range(body, "entry"@);
            lemma_body_nodes_keys(body, "entry"@);
            assert(body[key_pos(body, "entry"@)].0@ == "entry"@);
        }
        let entry = match cfg.get_entry() {
            Some(b) => b.clone(),
            None => Block::new("entry", &Terminal::Ret(None)),
        };
        let mut worklist: Vec<Block> = Vec::new();
        worklist.push(entry);
        assert(blocks_view(worklist@) =~= seq![cfg.node_map()["entry"@]]);
        let labels = cfg.get_all_block_labels();
        let mut bb2store: Vec<(String, Store<ProgramPoint>)> = Vec::new();
        let mut i: usize = 0;
        assert(labels_view(labels@).take(0) =~= Seq::<Seq<char>>::empty());
        while i < labels.len()
            invariant
                i <= labels@.len(),
                stores_view(bb2store@) == empty_stores::<PointsV>(labels_view(labels@).take(i as int)),
            decreases labels.len() - i,
        {
            let ghost prev = stores_view(bb2store@);
            let k = labels[i].clone();
            proof {
                lemma_key_pos_views(bb2store@, prev, k@);
                lemma_vkey_pos(prev, k@);
            }
            let e: Store<ProgramPoint> = Store::new();
            put(&mut bb2store, k, e);
            assert(labels_view(labels@).take(i + 1).drop_last() =~= labels_view(labels@).take(i as int));
            assert(labels_view(labels@)[i as int] == labels@[i as int]@);
            assert(stores_view(bb2store@) =~= keyed_insert(prev, labels@[i as int]@, Map::<VariableV, PointsV>::empty()));
            i += 1;
        }
        assert(labels_view(labels@).take(labels@.len() as int) =~= labels_view(labels@));
        let ghost prev = stores_view(bb2store@);
        let ek = String::from_str("entry");
        proof {
            lemma_key_pos_views(bb2store@, prev, ek@);
            lemma_vkey_pos(prev, ek@);
        }
        let ghost em = entry_store@;
        put(&mut bb2store, ek, entry_store);
        assert(stores_view(bb2store@) =~= keyed_insert(prev, "entry"@, em));
        let r = ReachingDefinitionAnalyzer {
            prog,
            bb2store,
            cfg,
            worklist,
            solution,
            pp_def,
            pp_use,
            addr_taken,
            executed: false,
        };
        assert(em =~= rd_entry_store(r.prog, func_name@, vars_view(r.addr_taken@)));
        r
    }

    /// Starts the worklist iteration: nothing when it was started before;
    /// else the analyzer is marked as executed, and every block label gets a
    /// visit count of zero.
    pub fn mfp_start(&mut self) -> (r: Option<Vec<(String, u32)>>)
        ensures
            old(self).executed ==> r is None,
            !old(self).executed ==> r is Some && counts_view(r->Some_0@) == zero_counts(
                node_labels(old(self).cfg.node_seq()),
            ),
            final(self).executed,
            final(self).prog == old(self).prog,
            final(self).cfg == old(self).cfg,
            final(self).bb2store == old(self).bb2store,
            final(self).worklist == old(self).worklist,
            final(self).solution == old(self).solution,
            final(self).pp_def == old(self).pp_def,
            final(self).pp_use == old(self).pp_use,
            final(self).addr_taken == old(self).addr_taken,
    {
        if self.executed {
            return None;
        }
        let visited = zero_visits(&self.cfg);
        self.executed = true;
        Some(visited)
    }
}

} // verus!

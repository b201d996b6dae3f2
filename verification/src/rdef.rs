//! Reaching definitions: for every program point of a function, the
//! definitions (program points) that may reach the variables it uses.
use vstd::prelude::*;
use crate::analysis::AnalysisError;
use crate::defs::{points_join, PointsV, ProgramPoint};
use crate::lir::{
    vars_view, Instruction, InstructionV, Location, Operand, OperandV, Terminal, TerminalV, Type,
    TypeV, Variable, VariableV,
};
use crate::lir;
use crate::reach::{reached_union, type_set};
use crate::analysis::stores_view;
use crate::cfg::{dsts_from, keyed_insert, keyed_map, label_of_block, labels_view, srcs_into, ControlFlowGraph};
use crate::analysis::{block_refs_view, blocks_view, counts_view, preds_spec, push_succs};
use crate::store::store_join_spec;
use crate::lir::{Block, BlockV, Program};
use crate::store::Store;
use crate::semantics::AbstractSemantics;

verus! {

// ------------------------------------------------------------------
// Lists keyed by program point (block label and location)
// ------------------------------------------------------------------

/// The key of a program point: its block label and location.
pub open spec fn point_key(p: lir::ProgramPointV) -> (Seq<char>, Location) {
    (p.block, p.location)
}

/// The position of the first entry with key `k` in a list keyed by program point, or -1.
pub open spec fn ppos<B>(s: Seq<((String, Location), B)>, k: (Seq<char>, Location)) -> int
    decreases s.len(),
{
    if s.len() == 0 {
        -1
    } else if s[0].0.0@ == k.0 && s[0].0.1 == k.1 {
        0
    } else {
        let r = ppos(s.drop_first(), k);
        if r < 0 {
            -1
        } else {
            r + 1
        }
    }
}

/// Properties of the first position of a key.
pub proof fn lemma_ppos<B>(s: Seq<((String, Location), B)>, k: (Seq<char>, Location))
    ensures
        -1 <= ppos(s, k) < s.len(),
        ppos(s, k) >= 0 ==> s[ppos(s, k)].0.0@ == k.0 && s[ppos(s, k)].0.1 == k.1,
        ppos(s, k) >= 0 ==> forall|j: int| 0 <= j < ppos(s, k) ==> !(s[j].0.0@ == k.0 && s[j].0.1 == k.1),
        ppos(s, k) == -1 ==> forall|j: int| 0 <= j < s.len() ==> !(s[j].0.0@ == k.0 && s[j].0.1 == k.1),
    decreases s.len(),
{
    if s.len() > 0 {
        lemma_ppos(s.drop_first(), k);
        assert forall|j: int| 1 <= j < s.len() implies s[j] == s.drop_first()[j - 1] by {}
        if ppos(s, k) == -1 {
            assert forall|j: int| 0 <= j < s.len() implies !(s[j].0.0@ == k.0 && s[j].0.1 == k.1) by {
                if j > 0 {
                    assert(s[j] == s.drop_first()[j - 1]);
                }
            }
        }
    }
}

/// Finds the first entry keyed by a block label and a location.
fn find_point<B>(v: &Vec<((String, Location), B)>, block: &String, loc: Location) -> (r: Option<usize>)
    ensures
        match r {
            Some(i) => i as int == ppos(v@, (block@, loc)) && i < v@.len(),
            None => ppos(v@, (block@, loc)) == -1,
        },
{
    proof {
        lemma_ppos(v@, (block@, loc));
    }
    let mut i: usize = 0;
    while i < v.len()
        invariant
            i <= v@.len(),
            forall|j: int| 0 <= j < i ==> !(v@[j].0.0@ == block@ && v@[j].0.1 == loc),
            -1 <= ppos(v@, (block@, loc)) < v@.len(),
            ppos(v@, (block@, loc)) >= 0 ==> v@[ppos(v@, (block@, loc))].0.0@ == block@ && v@[ppos(
                v@,
                (block@, loc),
            )].0.1 == loc,
            ppos(v@, (block@, loc)) >= 0 ==> forall|j: int|
                0 <= j < ppos(v@, (block@, loc)) ==> !(v@[j].0.0@ == block@ && v@[j].0.1 == loc),
            ppos(v@, (block@, loc)) == -1 ==> forall|j: int|
                0 <= j < v@.len() ==> !(v@[j].0.0@ == block@ && v@[j].0.1 == loc),
        decreases v.len() - i,
    {
        if v[i].0.0 == *block && v[i].0.1 == loc {
            proof {
                let p = ppos(v@, (block@, loc));
                assert(v@[i as int].0.0@ == block@ && v@[i as int].0.1 == loc);
                if p == -1 {
                    assert(!(v@[i as int].0.0@ == block@ && v@[i as int].0.1 == loc));
                }
                if p > i {
                    assert(!(v@[i as int].0.0@ == block@ && v@[i as int].0.1 == loc));
                }
            }
            return Some(i);
        }
        i += 1;
    }
    None
}

// ------------------------------------------------------------------
// What a program point uses and defines
// ------------------------------------------------------------------

/// The variable of an operand, if it is one.
pub open spec fn var_of(op: OperandV) -> Set<VariableV> {
    match op {
        OperandV::Var(v) => set![v],
        OperandV::CInt(_) => Set::empty(),
    }
}

/// The variables among a list of operands.
pub open spec fn vars_of(args: Seq<OperandV>) -> Set<VariableV> {
    Set::new(|v: VariableV| args.contains(OperandV::Var(v)))
}

/// The address-taken variables of a type.
pub open spec fn of_type(addr: Seq<VariableV>, t: TypeV) -> Set<VariableV> {
    Set::new(|v: VariableV| addr.contains(v) && v.typ == t)
}

/// What a call may define weakly: every global, and each address-taken
/// variable whose type is reached from a global.
pub open spec fn call_weak(addr: Seq<VariableV>, globals: Seq<VariableV>, greached: Set<TypeV>) -> Set<VariableV> {
    globals.to_set().union(Set::new(|v: VariableV| addr.contains(v) && greached.contains(v.typ)))
}

/// The effect of a program point: the variables it uses, those it defines,
/// those it may define (weakly) and the one it surely defines (strongly).
pub struct Effect {
    pub uses: Set<VariableV>,
    pub defs: Set<VariableV>,
    pub weak: Set<VariableV>,
    pub strong: Option<VariableV>,
}

/// The effect of an instruction.
pub open spec fn instr_effect(
    i: InstructionV,
    addr: Seq<VariableV>,
    globals: Seq<VariableV>,
    greached: Set<TypeV>,
) -> Effect {
    match i {
        InstructionV::AddrOf { lhs, rhs: _ } => Effect {
            uses: Set::empty(),
            defs: set![lhs],
            weak: Set::empty(),
            strong: Some(lhs),
        },
        InstructionV::Arith { lhs, aop: _, op1, op2 } => Effect {
            uses: var_of(op1).union(var_of(op2)),
            defs: set![lhs],
            weak: Set::empty(),
            strong: Some(lhs),
        },
        InstructionV::Cmp { lhs, rop: _, op1, op2 } => Effect {
            uses: var_of(op1).union(var_of(op2)),
            defs: set![lhs],
            weak: Set::empty(),
            strong: Some(lhs),
        },
        InstructionV::Copy { lhs, op } => Effect {
            uses: var_of(op),
            defs: set![lhs],
            weak: Set::empty(),
            strong: Some(lhs),
        },
        InstructionV::Alloc { lhs, num, id: _ } => Effect {
            uses: var_of(num),
            defs: set![lhs],
            weak: Set::empty(),
            strong: Some(lhs),
        },
        InstructionV::Gep { lhs, src, idx } => Effect {
            uses: var_of(idx).insert(src),
            defs: set![lhs],
            weak: Set::empty(),
            strong: Some(lhs),
        },
        InstructionV::Gfp { lhs, src, field: _ } => Effect {
            uses: set![src],
            defs: set![lhs],
            weak: Set::empty(),
            strong: Some(lhs),
        },
        InstructionV::Load { lhs, src } => Effect {
            uses: of_type(addr, lhs.typ).insert(src),
            defs: set![lhs],
            weak: Set::empty(),
            strong: Some(lhs),
        },
        InstructionV::Store { dst, op } => {
            let d = match op {
                OperandV::Var(v) => of_type(addr, v.typ),
                OperandV::CInt(_) => of_type(addr, TypeV::Int),
            };
            Effect { uses: var_of(op).insert(dst), defs: d, weak: d, strong: None }
        },
        InstructionV::CallExt { lhs, ext_callee: _, args } => {
            let w = call_weak(addr, globals, greached);
            Effect {
                uses: w.union(vars_of(args)),
                defs: match lhs {
                    Some(l) => set![l],
                    None => Set::empty(),
                },
                weak: w,
                strong: lhs,
            }
        },
    }
}

/// The effect of a terminal.
pub open spec fn term_effect(
    t: TerminalV,
    addr: Seq<VariableV>,
    globals: Seq<VariableV>,
    greached: Set<TypeV>,
) -> Effect {
    let none = Effect { uses: Set::empty(), defs: Set::empty(), weak: Set::empty(), strong: None };
    match t {
        TerminalV::Jump(_) => none,
        TerminalV::Branch { cond, tt: _, ff: _ } => Effect { uses: var_of(cond), ..none },
        TerminalV::Ret(r) => match r {
            Some(op) => Effect { uses: var_of(op), ..none },
            None => none,
        },
        TerminalV::CallDirect { lhs, callee: _, args, next_bb: _ } => {
            let w = call_weak(addr, globals, greached);
            Effect {
                uses: w.union(vars_of(args)),
                defs: match lhs {
                    Some(l) => set![l],
                    None => Set::empty(),
                },
                weak: w,
                strong: lhs,
            }
        },
        TerminalV::CallIndirect { lhs, callee, args, next_bb: _ } => {
            let w = call_weak(addr, globals, greached);
            Effect {
                uses: w.union(vars_of(args)).insert(callee),
                defs: match lhs {
                    Some(l) => set![l],
                    None => Set::empty(),
                },
                weak: w,
                strong: lhs,
            }
        },
    }
}

/// The operands an instruction reads, in order.
pub open spec fn read_operands(i: InstructionV) -> Seq<OperandV> {
    match i {
        InstructionV::Arith { lhs: _, aop: _, op1, op2 } => seq![op1, op2],
        InstructionV::Cmp { lhs: _, rop: _, op1, op2 } => seq![op1, op2],
        InstructionV::Copy { lhs: _, op } => seq![op],
        InstructionV::Alloc { lhs: _, num, id: _ } => seq![num],
        InstructionV::Gep { lhs: _, src: _, idx } => seq![idx],
        InstructionV::Store { dst: _, op } => seq![op],
        InstructionV::CallExt { lhs: _, ext_callee: _, args } => args,
        _ => Seq::empty(),
    }
}

/// The pointer variable an instruction reads through, if any.
pub open spec fn read_pointer(i: InstructionV) -> Option<VariableV> {
    match i {
        InstructionV::Gep { lhs: _, src, idx: _ } => Some(src),
        InstructionV::Gfp { lhs: _, src, field: _ } => Some(src),
        InstructionV::Load { lhs: _, src } => Some(src),
        InstructionV::Store { dst, op: _ } => Some(dst),
        _ => None,
    }
}

/// The operands a terminal reads, in order.
pub open spec fn term_operands(t: TerminalV) -> Seq<OperandV> {
    match t {
        TerminalV::Branch { cond, tt: _, ff: _ } => seq![cond],
        TerminalV::Ret(Some(op)) => seq![op],
        TerminalV::CallDirect { lhs: _, callee: _, args, next_bb: _ } => args,
        TerminalV::CallIndirect { lhs: _, callee: _, args, next_bb: _ } => args,
        _ => Seq::empty(),
    }
}

/// Every variable an instruction reads is among its uses: each variable
/// operand, in any position, and the pointer it reads through.
pub proof fn instr_uses_read_variables(
    i: InstructionV,
    addr: Seq<VariableV>,
    globals: Seq<VariableV>,
    greached: Set<TypeV>,
    j: int,
    v: VariableV,
)
    ensures
        0 <= j < read_operands(i).len() && read_operands(i)[j] == OperandV::Var(v) ==> instr_effect(
            i,
            addr,
            globals,
            greached,
        ).uses.contains(v),
        read_pointer(i) == Some(v) ==> instr_effect(i, addr, globals, greached).uses.contains(v),
{
    if 0 <= j < read_operands(i).len() && read_operands(i)[j] == OperandV::Var(v) {
        match i {
            InstructionV::CallExt { lhs: _, ext_callee: _, args } => {
                assert(args.contains(OperandV::Var(v)));
            },
            _ => {},
        }
    }
}

/// Every variable a terminal reads is among its uses.
pub proof fn term_uses_read_variables(
    t: TerminalV,
    addr: Seq<VariableV>,
    globals: Seq<VariableV>,
    greached: Set<TypeV>,
    j: int,
    v: VariableV,
)
    ensures
        0 <= j < term_operands(t).len() && term_operands(t)[j] == OperandV::Var(v) ==> term_effect(
            t,
            addr,
            globals,
            greached,
        ).uses.contains(v),
        t matches TerminalV::CallIndirect { callee, .. } && callee == v ==> term_effect(t, addr, globals, greached).uses.contains(v),
{
    if 0 <= j < term_operands(t).len() && term_operands(t)[j] == OperandV::Var(v) {
        match t {
            TerminalV::CallDirect { lhs: _, callee: _, args, next_bb: _ } => {
                assert(args.contains(OperandV::Var(v)));
            },
            TerminalV::CallIndirect { lhs: _, callee: _, args, next_bb: _ } => {
                assert(args.contains(OperandV::Var(v)));
            },
            _ => {},
        }
    }
}

/// The effect of a program point, if it has the instruction or terminal its location names.
pub open spec fn point_effect(
    p: lir::ProgramPointV,
    addr: Seq<VariableV>,
    globals: Seq<VariableV>,
    greached: Set<TypeV>,
) -> Option<Effect> {
    match p.location {
        Location::Instruction(_) => match p.instr {
            Some(i) => Some(instr_effect(i, addr, globals, greached)),
            None => None,
        },
        Location::Terminal => match p.term {
            Some(t) => Some(term_effect(t, addr, globals, greached)),
            None => None,
        },
    }
}

/// The variables of a list, as a set.
pub open spec fn var_set(v: Seq<Variable>) -> Set<VariableV> {
    vars_view(v).to_set()
}

/// Adds a variable to a list without repetitions that stands for a set.
fn var_set_insert(v: &mut Vec<Variable>, x: &Variable)
    requires
        vars_view(old(v)@).no_duplicates(),
    ensures
        var_set(final(v)@) == var_set(old(v)@).insert(x@),
        vars_view(final(v)@).no_duplicates(),
{
    if !crate::program::contains_var(v, x) {
        let ghost lv = vars_view(v@);
        v.push(x.clone());
        proof {
            assert(vars_view(v@) =~= lv + seq![x@]);
            Seq::lemma_to_set_insert_commutes(lv, x@);
        }
    } else {
        assert(var_set(v@) =~= var_set(v@).insert(x@));
    }
}

/// An empty variable set.
fn no_vars() -> (r: Vec<Variable>)
    ensures
        r@ == Seq::<Variable>::empty(),
        var_set(r@) == Set::<VariableV>::empty(),
        vars_view(r@).no_duplicates(),
{
    let r: Vec<Variable> = Vec::new();
    assert(var_set(r@) =~= Set::<VariableV>::empty());
    r
}

/// Adds the variable of an operand.
fn add_operand(v: &mut Vec<Variable>, op: &Operand)
    requires
        vars_view(old(v)@).no_duplicates(),
    ensures
        var_set(final(v)@) == var_set(old(v)@).union(var_of(op@)),
        vars_view(final(v)@).no_duplicates(),
{
    match op {
        Operand::Var(x) => {
            var_set_insert(v, x);
            assert(var_set(v@) =~= var_set(old(v)@).union(var_of(op@)));
        },
        Operand::CInt(_) => {
            assert(var_set(v@) =~= var_set(old(v)@).union(var_of(op@)));
        },
    }
}

/// Adds the variables among a list of operands.
fn add_operands(v: &mut Vec<Variable>, args: &Vec<Operand>)
    requires
        vars_view(old(v)@).no_duplicates(),
    ensures
        var_set(final(v)@) == var_set(old(v)@).union(vars_of(lir::operands_view(args@))),
        vars_view(final(v)@).no_duplicates(),
{
    let ghost av = lir::operands_view(args@);
    let mut i: usize = 0;
    assert(var_set(v@) =~= var_set(old(v)@).union(vars_of(av.take(0))));
    while i < args.len()
        invariant
            i <= args@.len(),
            av == lir::operands_view(args@),
            vars_view(v@).no_duplicates(),
            var_set(v@) == var_set(old(v)@).union(vars_of(av.take(i as int))),
        decreases args.len() - i,
    {
        let ghost before = var_set(v@);
        assert(av[i as int] == args@[i as int]@);
        add_operand(v, &args[i]);
        proof {
            let t = av.take(i + 1);
            assert(t =~= av.take(i as int).push(av[i as int]));
            assert forall|x: VariableV| vars_of(t).contains(x) == (vars_of(av.take(i as int)).contains(x) || var_of(
                av[i as int],
            ).contains(x)) by {
                if t.contains(OperandV::Var(x)) {
                    let j = choose|j: int| 0 <= j < t.len() && t[j] == OperandV::Var(x);
                    if j < i {
                        assert(av.take(i as int)[j] == OperandV::Var(x));
                    }
                }
                if av.take(i as int).contains(OperandV::Var(x)) {
                    let j = choose|j: int| 0 <= j < i && av.take(i as int)[j] == OperandV::Var(x);
                    assert(t[j] == OperandV::Var(x));
                }
                if var_of(av[i as int]).contains(x) {
                    assert(t[i as int] == OperandV::Var(x));
                }
            }
            assert(var_set(v@) =~= var_set(old(v)@).union(vars_of(t)));
        }
        i += 1;
    }
    assert(av.take(args@.len() as int) =~= av);
}

/// Adds the address-taken variables that `keep` selects, in order.
fn add_of_type(v: &mut Vec<Variable>, addr: &Vec<Variable>, t: &Type)
    requires
        vars_view(old(v)@).no_duplicates(),
    ensures
        var_set(final(v)@) == var_set(old(v)@).union(of_type(vars_view(addr@), t@)),
        vars_view(final(v)@).no_duplicates(),
{
    let ghost av = vars_view(addr@);
    let mut i: usize = 0;
    assert(var_set(v@) =~= var_set(old(v)@).union(of_type(av.take(0), t@)));
    while i < addr.len()
        invariant
            i <= addr@.len(),
            av == vars_view(addr@),
            vars_view(v@).no_duplicates(),
            var_set(v@) == var_set(old(v)@).union(of_type(av.take(i as int), t@)),
        decreases addr.len() - i,
    {
        let ghost before = var_set(v@);
        assert(av[i as int] == addr@[i as int]@);
        let keep = crate::lir::type_eq(&addr[i].typ, t);
        if keep {
            var_set_insert(v, &addr[i]);
        }
        proof {
            let tk = av.take(i + 1);
            assert(tk =~= av.take(i as int).push(av[i as int]));
            assert forall|x: VariableV| of_type(tk, t@).contains(x) == (of_type(av.take(i as int), t@).contains(x) || (x
                == av[i as int] && keep)) by {
                if tk.contains(x) && x.typ == t@ {
                    let j = choose|j: int| 0 <= j < tk.len() && tk[j] == x;
                    if j < i {
                        assert(av.take(i as int)[j] == x);
                    }
                }
                if av.take(i as int).contains(x) {
                    let j = choose|j: int| 0 <= j < i && av.take(i as int)[j] == x;
                    assert(tk[j] == x);
                }
                if x == av[i as int] {
                    assert(tk[i as int] == x);
                }
            }
            assert(var_set(v@) =~= var_set(old(v)@).union(of_type(tk, t@)));
        }
        i += 1;
    }
    assert(av.take(addr@.len() as int) =~= av);
}

/// The weak definitions of a call: every global, then the address-taken
/// variables whose type is reached from a global.
fn call_weak_vars(addr: &Vec<Variable>, globals: &Vec<Variable>, greached: &Vec<Type>) -> (r: Vec<Variable>)
    ensures
        var_set(r@) == call_weak(vars_view(addr@), vars_view(globals@), type_set(greached@)),
        vars_view(r@).no_duplicates(),
{
    let mut r = no_vars();
    let ghost gv = vars_view(globals@);
    let mut i: usize = 0;
    assert(gv.take(0).to_set() =~= Set::<VariableV>::empty());
    while i < globals.len()
        invariant
            i <= globals@.len(),
            gv == vars_view(globals@),
            vars_view(r@).no_duplicates(),
            var_set(r@) == gv.take(i as int).to_set(),
        decreases globals.len() - i,
    {
        var_set_insert(&mut r, &globals[i]);
        proof {
            assert(gv.take(i + 1) =~= gv.take(i as int) + seq![gv[i as int]]);
            Seq::lemma_to_set_insert_commutes(gv.take(i as int), gv[i as int]);
        }
        i += 1;
    }
    assert(gv.take(globals@.len() as int) =~= gv);
    let ghost av = vars_view(addr@);
    let ghost gs = type_set(greached@);
    let ghost sel = Set::new(|v: VariableV| av.contains(v) && gs.contains(v.typ));
    let mut k: usize = 0;
    assert(var_set(r@) =~= gv.to_set().union(Set::new(|v: VariableV| av.take(0).contains(v) && gs.contains(v.typ))));
    while k < addr.len()
        invariant
            k <= addr@.len(),
            av == vars_view(addr@),
            gs == type_set(greached@),
            vars_view(r@).no_duplicates(),
            var_set(r@) == gv.to_set().union(Set::new(|v: VariableV| av.take(k as int).contains(v) && gs.contains(v.typ))),
        decreases addr.len() - k,
    {
        assert(av[k as int] == addr@[k as int]@);
        let keep = crate::reach::types_contain(greached, &addr[k].typ);
        if keep {
            var_set_insert(&mut r, &addr[k]);
        }
        proof {
            let tk = av.take(k + 1);
            assert(tk =~= av.take(k as int).push(av[k as int]));
            assert forall|x: VariableV| (tk.contains(x) && gs.contains(x.typ)) == ((av.take(k as int).contains(x)
                && gs.contains(x.typ)) || (x == av[k as int] && keep)) by {
                if tk.contains(x) {
                    let j = choose|j: int| 0 <= j < tk.len() && tk[j] == x;
                    if j < k {
                        assert(av.take(k as int)[j] == x);
                    }
                }
                if av.take(k as int).contains(x) {
                    let j = choose|j: int| 0 <= j < k && av.take(k as int)[j] == x;
                    assert(tk[j] == x);
                }
                if x == av[k as int] {
                    assert(tk[k as int] == x);
                }
            }
            assert(var_set(r@) =~= gv.to_set().union(Set::new(|v: VariableV| tk.contains(v) && gs.contains(v.typ))));
        }
        k += 1;
    }
    assert(av.take(addr@.len() as int) =~= av);
    r
}

/// The effect of a program point as lists.
pub struct EffectLists {
    pub uses: Vec<Variable>,
    pub defs: Vec<Variable>,
    pub weak: Vec<Variable>,
    pub strong: Option<Variable>,
}

impl EffectLists {
    /// The effect as sets.
    pub open spec fn sets(&self) -> Effect {
        Effect {
            uses: var_set(self.uses@),
            defs: var_set(self.defs@),
            weak: var_set(self.weak@),
            strong: lir::opt_var_view(self.strong),
        }
    }

    /// No list repeats a variable.
    pub open spec fn unique(&self) -> bool {
        &&& vars_view(self.uses@).no_duplicates()
        &&& vars_view(self.defs@).no_duplicates()
        &&& vars_view(self.weak@).no_duplicates()
    }
}

/// The effect of a call with the given left-hand side and arguments.
fn call_effect(
    lhs: &Option<Variable>,
    args: &Vec<Operand>,
    addr: &Vec<Variable>,
    globals: &Vec<Variable>,
    greached: &Vec<Type>,
) -> (r: EffectLists)
    ensures
        r.unique(),
        r.sets() == ({
            let w = call_weak(vars_view(addr@), vars_view(globals@), type_set(greached@));
            Effect {
                uses: w.union(vars_of(lir::operands_view(args@))),
                defs: match lir::opt_var_view(*lhs) {
                    Some(l) => set![l],
                    None => Set::empty(),
                },
                weak: w,
                strong: lir::opt_var_view(*lhs),
            }
        }),
{
    let weak = call_weak_vars(addr, globals, greached);
    let mut uses = clone_vars(&weak);
    add_operands(&mut uses, args);
    let mut defs = no_vars();
    match lhs {
        Some(l) => {
            var_set_insert(&mut defs, l);
            assert(var_set(defs@) =~= set![l@]);
        },
        None => {},
    }
    EffectLists { uses, defs, weak, strong: lir::clone_opt_var(lhs) }
}

/// A copy of a list of variables.
fn clone_vars(v: &Vec<Variable>) -> (r: Vec<Variable>)
    ensures
        vars_view(r@) == vars_view(v@),
{
    let mut r: Vec<Variable> = Vec::new();
    let mut i: usize = 0;
    while i < v.len()
        invariant
            i <= v@.len(),
            vars_view(r@) == vars_view(v@).take(i as int),
        decreases v.len() - i,
    {
        let c = v[i].clone();
        let ghost prev = vars_view(r@);
        r.push(c);
        assert(vars_view(r@) =~= prev.push(c@));
        assert(vars_view(v@).take(i + 1) =~= vars_view(v@).take(i as int).push(c@));
        i += 1;
    }
    assert(vars_view(v@).take(v@.len() as int) =~= vars_view(v@));
    r
}

/// An effect that uses the given variables and surely defines `lhs`.
fn def_effect(uses: Vec<Variable>, lhs: &Variable) -> (r: EffectLists)
    requires
        vars_view(uses@).no_duplicates(),
    ensures
        r.unique(),
        r.sets() == (Effect { uses: var_set(uses@), defs: set![lhs@], weak: Set::empty(), strong: Some(lhs@) }),
{
    let mut defs = no_vars();
    var_set_insert(&mut defs, lhs);
    assert(var_set(defs@) =~= set![lhs@]);
    EffectLists { uses, defs, weak: no_vars(), strong: Some(lhs.clone()) }
}

/// The effect of an instruction as lists.
fn instr_effect_lists(i: &Instruction, addr: &Vec<Variable>, globals: &Vec<Variable>, greached: &Vec<Type>) -> (r:
    EffectLists)
    ensures
        r.unique(),
        r.sets() == instr_effect(i@, vars_view(addr@), vars_view(globals@), type_set(greached@)),
{
    match i {
        Instruction::AddrOf { lhs, rhs: _ } => def_effect(no_vars(), lhs),
        Instruction::Arith { lhs, aop: _, op1, op2 } => {
            let mut u = no_vars();
            add_operand(&mut u, op1);
            add_operand(&mut u, op2);
            assert(var_set(u@) =~= var_of(op1@).union(var_of(op2@)));
            def_effect(u, lhs)
        },
        Instruction::Cmp { lhs, rop: _, op1, op2 } => {
            let mut u = no_vars();
            add_operand(&mut u, op1);
            add_operand(&mut u, op2);
            assert(var_set(u@) =~= var_of(op1@).union(var_of(op2@)));
            def_effect(u, lhs)
        },
        Instruction::Copy { lhs, op } => {
            let mut u = no_vars();
            add_operand(&mut u, op);
            assert(var_set(u@) =~= var_of(op@));
            def_effect(u, lhs)
        },
        Instruction::Alloc { lhs, num, id: _ } => {
            let mut u = no_vars();
            add_operand(&mut u, num);
            assert(var_set(u@) =~= var_of(num@));
            def_effect(u, lhs)
        },
        Instruction::Gep { lhs, src, idx } => {
            let mut u = no_vars();
            add_operand(&mut u, idx);
            var_set_insert(&mut u, src);
            assert(var_set(u@) =~= var_of(idx@).insert(src@));
            def_effect(u, lhs)
        },
        Instruction::Gfp { lhs, src, field: _ } => {
            let mut u = no_vars();
            var_set_insert(&mut u, src);
            assert(var_set(u@) =~= set![src@]);
            def_effect(u, lhs)
        },
        Instruction::Load { lhs, src } => {
            let mut u = no_vars();
            var_set_insert(&mut u, src);
            add_of_type(&mut u, addr, &lhs.typ);
            assert(var_set(u@) =~= of_type(vars_view(addr@), lhs.typ@).insert(src@));
            def_effect(u, lhs)
        },
        Instruction::Store { dst, op } => {
            let mut u = no_vars();
            var_set_insert(&mut u, dst);
            add_operand(&mut u, op);
            assert(var_set(u@) =~= var_of(op@).insert(dst@));
            let mut d = no_vars();
            match op {
                Operand::Var(v) => {
                    add_of_type(&mut d, addr, &v.typ);
                    assert(var_set(d@) =~= of_type(vars_view(addr@), v.typ@));
                },
                Operand::CInt(_) => {
                    let int_type = Type::Int;
                    add_of_type(&mut d, addr, &int_type);
                    assert(var_set(d@) =~= of_type(vars_view(addr@), TypeV::Int));
                },
            }
            let w = clone_vars(&d);
            EffectLists { uses: u, defs: d, weak: w, strong: None }
        },
        Instruction::CallExt { lhs, ext_callee: _, args } => call_effect(lhs, args, addr, globals, greached),
    }
}

/// The effect of a terminal as lists.
fn term_effect_lists(t: &Terminal, addr: &Vec<Variable>, globals: &Vec<Variable>, greached: &Vec<Type>) -> (r:
    EffectLists)
    ensures
        r.unique(),
        r.sets() == term_effect(t@, vars_view(addr@), vars_view(globals@), type_set(greached@)),
{
    match t {
        Terminal::Jump(_) => EffectLists { uses: no_vars(), defs: no_vars(), weak: no_vars(), strong: None },
        Terminal::Branch { cond, tt: _, ff: _ } => {
            let mut u = no_vars();
            add_operand(&mut u, cond);
            assert(var_set(u@) =~= var_of(cond@));
            EffectLists { uses: u, defs: no_vars(), weak: no_vars(), strong: None }
        },
        Terminal::Ret(r) => {
            let mut u = no_vars();
            match r {
                Some(op) => {
                    add_operand(&mut u, op);
                    assert(var_set(u@) =~= var_of(op@));
                },
                None => {},
            }
            EffectLists { uses: u, defs: no_vars(), weak: no_vars(), strong: None }
        },
        Terminal::CallDirect { lhs, callee: _, args, next_bb: _ } => call_effect(lhs, args, addr, globals, greached),
        Terminal::CallIndirect { lhs, callee, args, next_bb: _ } => {
            let e = call_effect(lhs, args, addr, globals, greached);
            let mut u = e.uses;
            var_set_insert(&mut u, callee);
            EffectLists { uses: u, defs: e.defs, weak: e.weak, strong: e.strong }
        },
    }
}

// ------------------------------------------------------------------
// Executing a program point
// ------------------------------------------------------------------

/// The position of the first entry with key `k` in a keyed view list, or -1.
pub open spec fn kpos<K, B>(s: Seq<(K, B)>, k: K) -> int
    decreases s.len(),
{
    if s.len() == 0 {
        -1
    } else if s[0].0 == k {
        0
    } else {
        let r = kpos(s.drop_first(), k);
        if r < 0 {
            -1
        } else {
            r + 1
        }
    }
}

/// A list keyed by program point and any of its views have the same first positions.
pub proof fn lemma_ppos_views<A, B>(s: Seq<((String, Location), A)>, t: Seq<((Seq<char>, Location), B)>, k: (
    Seq<char>,
    Location,
))
    requires
        s.len() == t.len(),
        forall|i: int| 0 <= i < s.len() ==> #[trigger] t[i].0 == (s[i].0.0@, s[i].0.1),
    ensures
        ppos(s, k) == kpos(t, k),
    decreases s.len(),
{
    if s.len() > 0 {
        assert forall|i: int| 0 <= i < s.len() - 1 implies #[trigger] t.drop_first()[i].0 == (
            s.drop_first()[i].0.0@,
            s.drop_first()[i].0.1,
        ) by {
            assert(t.drop_first()[i] == t[i + 1]);
            assert(s.drop_first()[i] == s[i + 1]);
        }
        lemma_ppos_views(s.drop_first(), t.drop_first(), k);
        if s[0].0.0@ == k.0 && s[0].0.1 == k.1 {
            assert(t[0].0 == k);
        }
        if t[0].0 == k {
            assert(s[0].0.0@ == k.0);
        }
    }
}

/// The solution as views.
pub open spec fn solution_view(s: Seq<((String, Location), ProgramPoint)>) -> Seq<((Seq<char>, Location), PointsV)> {
    s.map_values(|p: ((String, Location), ProgramPoint)| ((p.0.0@, p.0.1), p.1@))
}

/// Use or definition records as views.
pub open spec fn records_view(s: Seq<((String, Location), Vec<Variable>)>) -> Seq<
    ((Seq<char>, Location), Set<VariableV>),
> {
    s.map_values(|p: ((String, Location), Vec<Variable>)| ((p.0.0@, p.0.1), var_set(p.1@)))
}

/// The program points of a value, if it is a set.
pub open spec fn pts_of(x: PointsV) -> Set<lir::ProgramPointV> {
    match x {
        PointsV::Points(s) => s,
        _ => Set::empty(),
    }
}

/// The join of `init` with the values in `st` of the variables of `uses`.
pub open spec fn join_uses(init: PointsV, uses: Set<VariableV>, st: Map<VariableV, PointsV>) -> PointsV {
    if init is Top || exists|u: VariableV| uses.contains(u) && st[u] is Top {
        PointsV::Top
    } else if init is Bottom && forall|u: VariableV| uses.contains(u) ==> st[u] is Bottom {
        PointsV::Bottom
    } else {
        PointsV::Points(
            pts_of(init).union(
                Set::new(|p: lir::ProgramPointV| exists|u: VariableV| uses.contains(u) && pts_of(st[u]).contains(p)),
            ),
        )
    }
}

/// Joining one more variable's value is one more join.
proof fn lemma_join_uses_step(init: PointsV, uses: Set<VariableV>, st: Map<VariableV, PointsV>, u: VariableV)
    ensures
        join_uses(init, uses.insert(u), st) == points_join(join_uses(init, uses, st), st[u]),
{
    let a = join_uses(init, uses, st);
    let b = join_uses(init, uses.insert(u), st);
    if init is Top || exists|w: VariableV| uses.contains(w) && st[w] is Top {
        if !(init is Top) {
            let w = choose|w: VariableV| uses.contains(w) && st[w] is Top;
            assert(uses.insert(u).contains(w));
        }
    } else if st[u] is Top {
        assert(uses.insert(u).contains(u));
    } else {
        assert(!(exists|w: VariableV| uses.insert(u).contains(w) && st[w] is Top)) by {
            if exists|w: VariableV| uses.insert(u).contains(w) && st[w] is Top {
                let w = choose|w: VariableV| uses.insert(u).contains(w) && st[w] is Top;
                if w != u {
                    assert(uses.contains(w));
                }
            }
        }
        let sa = Set::new(|p: lir::ProgramPointV| exists|w: VariableV| uses.contains(w) && pts_of(st[w]).contains(p));
        let sb = Set::new(
            |p: lir::ProgramPointV| exists|w: VariableV| uses.insert(u).contains(w) && pts_of(st[w]).contains(p),
        );
        assert(sb =~= sa.union(pts_of(st[u]))) by {
            assert forall|p: lir::ProgramPointV| sb.contains(p) implies sa.union(pts_of(st[u])).contains(p) by {
                let w = choose|w: VariableV| uses.insert(u).contains(w) && pts_of(st[w]).contains(p);
                if w != u {
                    assert(uses.contains(w));
                }
            }
            assert forall|p: lir::ProgramPointV| sa.union(pts_of(st[u])).contains(p) implies sb.contains(p) by {
                if sa.contains(p) {
                    let w = choose|w: VariableV| uses.contains(w) && pts_of(st[w]).contains(p);
                    assert(uses.insert(u).contains(w));
                } else {
                    assert(uses.insert(u).contains(u));
                }
            }
        }
        if init is Bottom && forall|w: VariableV| uses.contains(w) ==> st[w] is Bottom {
            if st[u] is Bottom {
                assert forall|w: VariableV| uses.insert(u).contains(w) implies st[w] is Bottom by {}
            } else {
                assert(uses.insert(u).contains(u));
                assert(sa =~= Set::empty()) by {
                    assert forall|p: lir::ProgramPointV| !sa.contains(p) by {
                        if sa.contains(p) {
                            let w = choose|w: VariableV| uses.contains(w) && pts_of(st[w]).contains(p);
                        }
                    }
                }
                assert(pts_of(init) =~= Set::empty());
                assert(pts_of(init).union(sb) =~= pts_of(st[u]));
            }
        } else {
            assert(!(init is Bottom && forall|w: VariableV| uses.insert(u).contains(w) ==> st[w] is Bottom)) by {
                if init is Bottom {
                    let w = choose|w: VariableV| !(uses.contains(w) ==> st[w] is Bottom);
                    assert(uses.insert(u).contains(w));
                }
            }
            assert(pts_of(init).union(sb) =~= pts_of(init).union(sa).union(pts_of(st[u])));
            assert(a == PointsV::Points(pts_of(init).union(sa)));
            if st[u] is Bottom {
                assert(pts_of(st[u]) =~= Set::empty());
                assert(pts_of(init).union(sa).union(pts_of(st[u])) =~= pts_of(init).union(sa));
                assert(b == PointsV::Points(pts_of(init).union(sb)));
            } else {
                assert(st[u] == PointsV::Points(pts_of(st[u])));
                assert(b == PointsV::Points(pts_of(init).union(sb)));
            }
        }
    }
}

/// The single program point `p` as a value.
pub open spec fn only(p: lir::ProgramPointV) -> PointsV {
    PointsV::Points(set![p])
}

/// The store after the definitions of a program point: each weakly defined
/// variable joins `p`, then a strongly defined one holds `p` alone.
pub open spec fn defined_store(st: Map<VariableV, PointsV>, e: Effect, p: lir::ProgramPointV) -> Map<VariableV, PointsV> {
    let w = st.union_prefer_right(
        Map::new(|v: VariableV| e.weak.contains(v), |v: VariableV| points_join(st[v], only(p))),
    );
    match e.strong {
        Some(s) => w.insert(s, only(p)),
        None => w,
    }
}

/// The state after executing program point `p`: its use and definition
/// records are replaced by what it uses and defines; if it uses variables,
/// its solution entry joins their values; then the store of its block takes
/// its definitions ([`defined_store`]). Or why it cannot be executed.
pub open spec fn exe_pp_spec(
    stores: Seq<(Seq<char>, Map<VariableV, PointsV>)>,
    sol: Seq<((Seq<char>, Location), PointsV)>,
    uses: Seq<((Seq<char>, Location), Set<VariableV>)>,
    defs: Seq<((Seq<char>, Location), Set<VariableV>)>,
    p: lir::ProgramPointV,
    addr: Seq<VariableV>,
    globals: Seq<VariableV>,
    greached: Set<TypeV>,
) -> Result<
    (
        Seq<(Seq<char>, Map<VariableV, PointsV>)>,
        Seq<((Seq<char>, Location), PointsV)>,
        Seq<((Seq<char>, Location), Set<VariableV>)>,
        Seq<((Seq<char>, Location), Set<VariableV>)>,
    ),
    AnalysisError,
> {
    let ks = crate::cfg::vkey_pos(stores, p.block);
    let key = point_key(p);
    let ku = kpos(uses, key);
    let kd = kpos(defs, key);
    if ks < 0 {
        Err(AnalysisError::NoStore)
    } else if ku < 0 || kd < 0 {
        Err(AnalysisError::NoPoint)
    } else {
        match point_effect(p, addr, globals, greached) {
            None => Err(AnalysisError::NoInstruction),
            Some(e) => {
                let st = stores[ks].1;
                let ksol = kpos(sol, key);
                if !e.uses.is_empty() && ksol < 0 {
                    Err(AnalysisError::NoPoint)
                } else if !e.uses.subset_of(st.dom()) || !e.weak.subset_of(st.dom()) {
                    Err(AnalysisError::UnknownVariable)
                } else {
                    let sol1 = if e.uses.is_empty() {
                        sol
                    } else {
                        sol.update(ksol, (key, join_uses(sol[ksol].1, e.uses, st)))
                    };
                    Ok(
                        (
                            stores.update(ks, (p.block, defined_store(st, e, p))),
                            sol1,
                            uses.update(ku, (key, e.uses)),
                            defs.update(kd, (key, e.defs)),
                        ),
                    )
                }
            },
        }
    }
}

// ------------------------------------------------------------------
// The analyzer
// ------------------------------------------------------------------

/// A reaching-definitions analyzer of one function: a store of reaching
/// definitions per block, the worklist of blocks, and per program point the
/// definitions reaching the variables it uses, with what it uses and defines.
pub struct ReachingDefinitionAnalyzer {
    pub prog: Program,
    pub bb2store: Vec<(String, Store<ProgramPoint>)>,
    pub cfg: ControlFlowGraph,
    pub worklist: Vec<Block>,
    pub solution: Vec<((String, Location), ProgramPoint)>,
    pub pp_def: Vec<((String, Location), Vec<Variable>)>,
    pub pp_use: Vec<((String, Location), Vec<Variable>)>,
    pub addr_taken: Vec<Variable>,
    pub executed: bool,
}

impl ReachingDefinitionAnalyzer {
    /// The stores, labelled.
    pub open spec fn stores(&self) -> Seq<(Seq<char>, Map<VariableV, PointsV>)> {
        stores_view(self.bb2store@)
    }

    /// The solution as views.
    pub open spec fn sol(&self) -> Seq<((Seq<char>, Location), PointsV)> {
        solution_view(self.solution@)
    }

    /// The use records as views.
    pub open spec fn uses(&self) -> Seq<((Seq<char>, Location), Set<VariableV>)> {
        records_view(self.pp_use@)
    }

    /// The definition records as views.
    pub open spec fn defs(&self) -> Seq<((Seq<char>, Location), Set<VariableV>)> {
        records_view(self.pp_def@)
    }

    /// The types reached from the globals.
    pub open spec fn globals_reached(&self) -> Set<TypeV> {
        reached_union(self.prog.structs@, vars_view(self.prog.globals@).map_values(|v: VariableV| v.typ))
    }

    /// Executes one program point; see [`exe_pp_spec`].
    pub fn exe_pp(&mut self, pp: &lir::ProgramPoint) -> (r: Result<(), AnalysisError>)
        ensures
            final(self).prog == old(self).prog,
            final(self).cfg == old(self).cfg,
            final(self).worklist == old(self).worklist,
            final(self).addr_taken == old(self).addr_taken,
            final(self).executed == old(self).executed,
            r is Err ==> final(self).bb2store == old(self).bb2store && final(self).solution == old(self).solution
                && final(self).pp_use == old(self).pp_use && final(self).pp_def == old(self).pp_def,
            match exe_pp_spec(
                old(self).stores(),
                old(self).sol(),
                old(self).uses(),
                old(self).defs(),
                pp@,
                vars_view(old(self).addr_taken@),
                vars_view(old(self).prog.globals@),
                old(self).globals_reached(),
            ) {
                Ok((st, so, u, d)) => r is Ok && final(self).stores() == st && final(self).sol() == so
                    && final(self).uses() == u && final(self).defs() == d,
                Err(e) => r == Err::<(), AnalysisError>(e),
            },
    {
        let ghost key = point_key(pp@);
        proof {
            crate::analysis::lemma_key_pos_views(self.bb2store@, self.stores(), pp@.block);
            crate::cfg::lemma_vkey_pos(self.stores(), pp@.block);
            lemma_ppos_views(self.pp_use@, self.uses(), key);
            lemma_ppos_views(self.pp_def@, self.defs(), key);
            lemma_ppos_views(self.solution@, self.sol(), key);
        }
        let ks = match crate::program::find_key(&self.bb2store, pp.block.as_str()) {
            None => {
                return Err(AnalysisError::NoStore);
            },
            Some(k) => k,
        };
        let ku = match find_point(&self.pp_use, &pp.block, pp.location) {
            None => {
                return Err(AnalysisError::NoPoint);
            },
            Some(k) => k,
        };
        let kd = match find_point(&self.pp_def, &pp.block, pp.location) {
            None => {
                return Err(AnalysisError::NoPoint);
            },
            Some(k) => k,
        };
        let greached = crate::reach::reached_from_vars(&self.prog, &self.prog.globals);
        let eff = match &pp.location {
            Location::Instruction(_) => match &pp.instr {
                Some(i) => instr_effect_lists(i, &self.addr_taken, &self.prog.globals, &greached),
                None => {
                    return Err(AnalysisError::NoInstruction);
                },
            },
            Location::Terminal => match &pp.term {
                Some(t) => term_effect_lists(t, &self.addr_taken, &self.prog.globals, &greached),
                None => {
                    return Err(AnalysisError::NoInstruction);
                },
            },
        };
        let ghost e = eff.sets();
        assert(point_effect(pp@, vars_view(self.addr_taken@), vars_view(self.prog.globals@), self.globals_reached())
            == Some(e));
        let mut st = self.bb2store[ks].1.clone_store();
        let ghost st0 = st@;
        let ksol = if eff.uses.len() > 0 {
            match find_point(&self.solution, &pp.block, pp.location) {
                None => {
                    proof {
                        assert(vars_view(eff.uses@).to_set().contains(vars_view(eff.uses@)[0]));
                    }
                    return Err(AnalysisError::NoPoint);
                },
                Some(k) => k,
            }
        } else {
            assert(var_set(eff.uses@) =~= Set::<VariableV>::empty());
            0
        };
        if !all_in_store(&st, &eff.uses) || !all_in_store(&st, &eff.weak) {
            return Err(AnalysisError::UnknownVariable);
        }
        if eff.uses.len() > 0 {
            assert(var_set(eff.uses@).contains(vars_view(eff.uses@)[0]));
            assert(!var_set(eff.uses@).is_empty());
            let mut cur = self.solution[ksol].1.clone_value();
            let ghost init = cur@;
            let ghost uv = vars_view(eff.uses@);
            let mut i: usize = 0;
            assert(uv.take(0).to_set() =~= Set::<VariableV>::empty());
            proof {
                assert(join_uses(init, Set::empty(), st0) == init) by {
                    if init is Points {
                        assert(Set::new(
                            |p: lir::ProgramPointV| exists|u: VariableV| Set::<VariableV>::empty().contains(u) && pts_of(
                                st0[u],
                            ).contains(p),
                        ) =~= Set::empty());
                        assert(pts_of(init).union(Set::empty()) =~= pts_of(init));
                    }
                }
            }
            while i < eff.uses.len()
                invariant
                    i <= eff.uses@.len(),
                    uv == vars_view(eff.uses@),
                    st@ == st0,
                    uv.to_set().subset_of(st0.dom()),
                    cur@ == join_uses(init, uv.take(i as int).to_set(), st0),
                decreases eff.uses.len() - i,
            {
                assert(uv[i as int] == eff.uses@[i as int]@);
                assert(uv.to_set().contains(uv[i as int]));
                let v = match st.get(&eff.uses[i]) {
                    Some(v) => v.clone_value(),
                    None => ProgramPoint::Bottom,
                };
                cur = cur.join(&v);
                proof {
                    lemma_join_uses_step(init, uv.take(i as int).to_set(), st0, uv[i as int]);
                    assert(uv.take(i + 1) =~= uv.take(i as int) + seq![uv[i as int]]);
                    Seq::lemma_to_set_insert_commutes(uv.take(i as int), uv[i as int]);
                }
                i += 1;
            }
            assert(uv.take(eff.uses@.len() as int) =~= uv);
            let k = (pp.block.clone(), pp.location);
            let ghost cv = cur@;
            self.solution.set(ksol, (k, cur));
            assert(self.sol() =~= old(self).sol().update(ksol as int, (key, cv)));
        } else {
            assert(var_set(eff.uses@).is_empty());
            assert(self.sol() =~= old(self).sol());
        }
        let mut one: Vec<lir::ProgramPoint> = Vec::new();
        one.push(pp.clone());
        proof {
            assert(crate::points::points_view(one@) =~= seq![pp@]);
            assert(seq![pp@].to_set() =~= set![pp@]) by {
                assert forall|x: lir::ProgramPointV| seq![pp@].contains(x) == (x == pp@) by {
                    if x == pp@ {
                        assert(seq![pp@][0] == x);
                    }
                }
            }
        }
        let single = ProgramPoint::ProgramPointSet(one);
        assert(single@ == only(pp@));
        let ghost wv = vars_view(eff.weak@);
        let mut j: usize = 0;
        assert(st@ =~= st0.union_prefer_right(
            Map::new(|v: VariableV| wv.take(0).to_set().contains(v), |v: VariableV| points_join(st0[v], only(pp@))),
        ));
        while j < eff.weak.len()
            invariant
                j <= eff.weak@.len(),
                wv == vars_view(eff.weak@),
                wv.no_duplicates(),
                wv.to_set().subset_of(st0.dom()),
                single@ == only(pp@),
                st@ == st0.union_prefer_right(
                    Map::new(
                        |v: VariableV| wv.take(j as int).to_set().contains(v),
                        |v: VariableV| points_join(st0[v], only(pp@)),
                    ),
                ),
            decreases eff.weak.len() - j,
        {
            let x = &eff.weak[j];
            assert(wv[j as int] == x@);
            assert(wv.to_set().contains(x@));
            assert(!wv.take(j as int).to_set().contains(x@)) by {
                if wv.take(j as int).contains(x@) {
                    let t = choose|t: int| 0 <= t < j && wv.take(j as int)[t] == x@;
                    assert(wv[t] == wv[j as int]);
                }
            }
            let nv = match st.get(x) {
                Some(v) => v.join(&single),
                None => single.clone_value(),
            };
            st.set(x.clone(), nv);
            proof {
                assert(wv.take(j + 1) =~= wv.take(j as int) + seq![x@]);
                Seq::lemma_to_set_insert_commutes(wv.take(j as int), x@);
            }
            assert(st@ =~= st0.union_prefer_right(
                Map::new(
                    |v: VariableV| wv.take(j + 1).to_set().contains(v),
                    |v: VariableV| points_join(st0[v], only(pp@)),
                ),
            ));
            j += 1;
        }
        assert(wv.take(eff.weak@.len() as int) =~= wv);
        match &eff.strong {
            Some(s) => {
                st.set(s.clone(), single);
            },
            None => {},
        }
        assert(st@ =~= defined_store(st0, e, pp@));
        let bk = self.bb2store[ks].0.clone();
        let ghost sv = st@;
        self.bb2store.set(ks, (bk, st));
        assert(self.stores() =~= old(self).stores().update(ks as int, (pp@.block, sv)));
        let ghost uset = var_set(eff.uses@);
        let ghost dset = var_set(eff.defs@);
        let uk = (pp.block.clone(), pp.location);
        self.pp_use.set(ku, (uk, eff.uses));
        assert(self.uses() =~= old(self).uses().update(ku as int, (key, uset)));
        let dk = (pp.block.clone(), pp.location);
        self.pp_def.set(kd, (dk, eff.defs));
        assert(self.defs() =~= old(self).defs().update(kd as int, (key, dset)));
        Ok(())
    }
}

/// Whether the store holds every variable of the list.
fn all_in_store(st: &Store<ProgramPoint>, v: &Vec<Variable>) -> (r: bool)
    ensures
        r == var_set(v@).subset_of(st@.dom()),
{
    let mut i: usize = 0;
    while i < v.len()
        invariant
            i <= v@.len(),
            forall|j: int| 0 <= j < i ==> st@.dom().contains(#[trigger] vars_view(v@)[j]),
        decreases v.len() - i,
    {
        assert(vars_view(v@)[i as int] == v@[i as int]@);
        if st.get(&v[i]).is_none() {
            assert(var_set(v@).contains(vars_view(v@)[i as int]));
            return false;
        }
        i += 1;
    }
    proof {
        assert forall|x: VariableV| var_set(v@).contains(x) implies st@.dom().contains(x) by {
            let j = choose|j: int| 0 <= j < vars_view(v@).len() && vars_view(v@)[j] == x;
            assert(st@.dom().contains(vars_view(v@)[j]));
        }
    }
    true
}

// ------------------------------------------------------------------
// Blocks and the worklist
// ------------------------------------------------------------------

/// The state of a reaching-definitions analysis as views.
pub struct RdState {
    pub stores: Seq<(Seq<char>, Map<VariableV, PointsV>)>,
    pub sol: Seq<((Seq<char>, Location), PointsV)>,
    pub uses: Seq<((Seq<char>, Location), Set<VariableV>)>,
    pub defs: Seq<((Seq<char>, Location), Set<VariableV>)>,
}

/// [`exe_pp_spec`] on a state.
pub open spec fn rd_step(
    s: RdState,
    p: lir::ProgramPointV,
    addr: Seq<VariableV>,
    globals: Seq<VariableV>,
    greached: Set<TypeV>,
) -> Result<RdState, AnalysisError> {
    match exe_pp_spec(s.stores, s.sol, s.uses, s.defs, p, addr, globals, greached) {
        Ok((a, b, c, d)) => Ok(RdState { stores: a, sol: b, uses: c, defs: d }),
        Err(e) => Err(e),
    }
}

/// The program point of the `i`-th instruction of a block.
pub open spec fn instr_point(b: BlockV, i: int) -> lir::ProgramPointV {
    lir::ProgramPointV { block: b.id, location: Location::Instruction(i as usize), instr: Some(b.insts[i]), term: None }
}

/// The program point of the terminal of a block.
pub open spec fn term_point(b: BlockV) -> lir::ProgramPointV {
    lir::ProgramPointV { block: b.id, location: Location::Terminal, instr: None, term: Some(b.term) }
}

/// The state after the first `n` instructions of a block.
pub open spec fn rd_instrs(
    s: RdState,
    b: BlockV,
    n: int,
    addr: Seq<VariableV>,
    globals: Seq<VariableV>,
    greached: Set<TypeV>,
) -> Result<RdState, AnalysisError>
    decreases n,
{
    if n <= 0 {
        Ok(s)
    } else {
        match rd_instrs(s, b, n - 1, addr, globals, greached) {
            Ok(s1) => rd_step(s1, instr_point(b, n - 1), addr, globals, greached),
            Err(e) => Err(e),
        }
    }
}

/// The state after a block: its instructions in order, then its terminal.
pub open spec fn rd_block(
    s: RdState,
    b: BlockV,
    addr: Seq<VariableV>,
    globals: Seq<VariableV>,
    greached: Set<TypeV>,
) -> Result<RdState, AnalysisError> {
    match rd_instrs(s, b, b.insts.len() as int, addr, globals, greached) {
        Ok(s1) => rd_step(s1, term_point(b), addr, globals, greached),
        Err(e) => Err(e),
    }
}

/// Once the first instructions fail, the block fails the same way.
proof fn lemma_rd_instrs_err(
    s: RdState,
    b: BlockV,
    n: int,
    m: int,
    addr: Seq<VariableV>,
    globals: Seq<VariableV>,
    greached: Set<TypeV>,
)
    requires
        0 <= n <= m,
        rd_instrs(s, b, n, addr, globals, greached) is Err,
    ensures
        rd_instrs(s, b, m, addr, globals, greached) == rd_instrs(s, b, n, addr, globals, greached),
    decreases m - n,
{
    if n < m {
        lemma_rd_instrs_err(s, b, n, m - 1, addr, globals, greached);
    }
}

/// Executing a block: nothing but the state changes; the state becomes the
/// result of [`rd_block`], or the error comes.
pub open spec fn rd_block_post(
    a: ReachingDefinitionAnalyzer,
    b: ReachingDefinitionAnalyzer,
    block: BlockV,
    r: Result<(), AnalysisError>,
) -> bool {
    &&& b.prog == a.prog
    &&& b.cfg == a.cfg
    &&& b.worklist == a.worklist
    &&& b.addr_taken == a.addr_taken
    &&& b.executed == a.executed
    &&& match rd_block(a.state(), block, vars_view(a.addr_taken@), vars_view(a.prog.globals@), a.globals_reached()) {
        Ok(s) => r is Ok && b.state() == s,
        Err(e) => r == Err::<(), AnalysisError>(e),
    }
}

impl ReachingDefinitionAnalyzer {
    /// The state as views.
    pub open spec fn state(&self) -> RdState {
        RdState { stores: self.stores(), sol: self.sol(), uses: self.uses(), defs: self.defs() }
    }

    /// Executes a block: the program point of each instruction in order,
    /// then that of the terminal; see [`rd_block`].
    pub fn exe_block(&mut self, block: &Block) -> (r: Result<(), AnalysisError>)
        ensures
            rd_block_post(*old(self), *final(self), block@, r),
    {
        let ghost addr = vars_view(self.addr_taken@);
        let ghost globals = vars_view(self.prog.globals@);
        let ghost gr = self.globals_reached();
        let ghost s0 = self.state();
        let mut i: usize = 0;
        while i < block.insts.len()
            invariant
                i <= block.insts@.len(),
                self.prog == old(self).prog,
                self.cfg == old(self).cfg,
                self.worklist == old(self).worklist,
                self.addr_taken == old(self).addr_taken,
                self.executed == old(self).executed,
                addr == vars_view(self.addr_taken@),
                globals == vars_view(self.prog.globals@),
                gr == self.globals_reached(),
                s0 == old(self).state(),
                gr == old(self).globals_reached(),
                rd_instrs(s0, block@, i as int, addr, globals, gr) == Ok::<RdState, AnalysisError>(self.state()),
            decreases block.insts.len() - i,
        {
            let pp = lir::ProgramPoint {
                block: block.id.clone(),
                location: Location::Instruction(i),
                instr: Some(block.insts[i].clone()),
                term: None,
            };
            assert(pp@ == instr_point(block@, i as int));
            let ghost si = self.state();
            match self.exe_pp(&pp) {
                Ok(()) => {},
                Err(e) => {
                    proof {
                        assert(rd_step(si, instr_point(block@, i as int), addr, globals, gr) == Err::<RdState, AnalysisError>(e));
                        assert(rd_instrs(s0, block@, i + 1, addr, globals, gr) == Err::<RdState, AnalysisError>(e));
                        assert(block@.insts.len() == block.insts@.len());
                        lemma_rd_instrs_err(s0, block@, i + 1, block.insts@.len() as int, addr, globals, gr);
                        assert(rd_block(s0, block@, addr, globals, gr) == Err::<RdState, AnalysisError>(e));
                    }
                    return Err(e);
                },
            }
            i += 1;
        }
        let pp = lir::ProgramPoint {
            block: block.id.clone(),
            location: Location::Terminal,
            instr: None,
            term: Some(block.term.clone()),
        };
        assert(pp@ == term_point(block@));
        self.exe_pp(&pp)
    }
}

/// The join of the stores of all the given predecessors, in order, or why a store is missing.
pub open spec fn join_all_preds(
    stores: Seq<(Seq<char>, Map<VariableV, PointsV>)>,
    preds: Seq<BlockV>,
) -> Result<Map<VariableV, PointsV>, AnalysisError>
    decreases preds.len(),
{
    if preds.len() == 0 {
        Ok(Map::empty())
    } else {
        match join_all_preds(stores, preds.drop_last()) {
            Err(e) => Err(e),
            Ok(acc) => {
                let ks = crate::cfg::vkey_pos(stores, preds.last().id);
                if ks < 0 {
                    Err(AnalysisError::NoStore)
                } else {
                    Ok(store_join_spec::<ProgramPoint>(acc, stores[ks].1))
                }
            },
        }
    }
}

/// The stores before executing the front block: unchanged for the entry
/// block, else its store is the join of the stores of all its predecessors.
pub open spec fn rd_prepare(
    stores: Seq<(Seq<char>, Map<VariableV, PointsV>)>,
    nodes: Seq<(Seq<char>, BlockV)>,
    edges: Seq<(Seq<char>, Seq<char>)>,
    b: BlockV,
) -> Result<Seq<(Seq<char>, Map<VariableV, PointsV>)>, AnalysisError> {
    let nm = keyed_map(nodes);
    if !nm.dom().contains("entry"@) {
        Err(AnalysisError::NoEntry)
    } else if b == nm["entry"@] {
        Ok(stores)
    } else {
        match preds_spec(nodes, edges, b) {
            Err(e) => Err(e),
            Ok(ps) => match join_all_preds(stores, ps) {
                Err(e) => Err(e),
                Ok(m) => Ok(keyed_insert(stores, b.id, m)),
            },
        }
    }
}

/// After the front block ran: its successors in the graph are queued if
/// its store changed or it had not been visited yet, and its visit count
/// grows by one.
pub open spec fn rd_finish(
    rest: Seq<BlockV>,
    before: Map<VariableV, PointsV>,
    after: Map<VariableV, PointsV>,
    counts: Seq<(Seq<char>, u32)>,
    nodes: Seq<(Seq<char>, BlockV)>,
    edges: Seq<(Seq<char>, Seq<char>)>,
    b: BlockV,
) -> Result<(Seq<BlockV>, Seq<(Seq<char>, u32)>), AnalysisError> {
    let kc = crate::cfg::vkey_pos(counts, b.id);
    let changed = before != after;
    if !changed && kc < 0 {
        Err(AnalysisError::NotCounted)
    } else {
        let queued = if changed || counts[kc].1 == 0 {
            match label_of_block(nodes, b) {
                None => Err(AnalysisError::UnknownBlock),
                Some(l) => push_succs(rest, dsts_from(edges, l), keyed_map(nodes)),
            }
        } else {
            Ok(rest)
        };
        match queued {
            Err(e) => Err(e),
            Ok(w) => if kc < 0 {
                Err(AnalysisError::NotCounted)
            } else if counts[kc].1 == u32::MAX {
                Err(AnalysisError::Overflow)
            } else {
                Ok((w, counts.update(kc, (b.id, (counts[kc].1 + 1) as u32))))
            },
        }
    }
}

/// One step of the reaching-definitions analysis on a nonempty worklist:
/// the front block is taken off; unless it is the entry block its store
/// becomes the join of its predecessors' stores; it is executed
/// ([`rd_block`]); then [`rd_finish`] applies.
pub open spec fn rd_mfp_step(
    wl: Seq<BlockV>,
    s: RdState,
    counts: Seq<(Seq<char>, u32)>,
    nodes: Seq<(Seq<char>, BlockV)>,
    edges: Seq<(Seq<char>, Seq<char>)>,
    addr: Seq<VariableV>,
    globals: Seq<VariableV>,
    greached: Set<TypeV>,
) -> Result<(Seq<BlockV>, RdState, Seq<(Seq<char>, u32)>), AnalysisError> {
    let b = wl[0];
    let kb = crate::cfg::vkey_pos(s.stores, b.id);
    if kb < 0 {
        Err(AnalysisError::NoStore)
    } else {
        match rd_prepare(s.stores, nodes, edges, b) {
            Err(e) => Err(e),
            Ok(st1) => match rd_block(RdState { stores: st1, ..s }, b, addr, globals, greached) {
                Err(e) => Err(e),
                Ok(s2) => match rd_finish(
                    wl.drop_first(),
                    s.stores[kb].1,
                    keyed_map(s2.stores)[b.id],
                    counts,
                    nodes,
                    edges,
                    b,
                ) {
                    Err(e) => Err(e),
                    Ok((w, c)) => Ok((w, s2, c)),
                },
            },
        }
    }
}

/// Once joining a prefix of the predecessors fails, joining all fails the same way.
proof fn lemma_join_all_err(stores: Seq<(Seq<char>, Map<VariableV, PointsV>)>, preds: Seq<BlockV>, n: int)
    requires
        0 <= n <= preds.len(),
        join_all_preds(stores, preds.take(n)) is Err,
    ensures
        join_all_preds(stores, preds) == join_all_preds(stores, preds.take(n)),
    decreases preds.len() - n,
{
    if n < preds.len() {
        assert(preds.take(n + 1).drop_last() =~= preds.take(n));
        lemma_join_all_err(stores, preds, n + 1);
    } else {
        assert(preds.take(n) =~= preds);
    }
}

impl ReachingDefinitionAnalyzer {
    /// Sets the store of a label.
    fn put_store(&mut self, label: String, st: Store<ProgramPoint>)
        ensures
            final(self).prog == old(self).prog,
            final(self).cfg == old(self).cfg,
            final(self).worklist == old(self).worklist,
            final(self).addr_taken == old(self).addr_taken,
            final(self).executed == old(self).executed,
            final(self).solution == old(self).solution,
            final(self).pp_use == old(self).pp_use,
            final(self).pp_def == old(self).pp_def,
            final(self).stores() == keyed_insert(old(self).stores(), label@, st@),
    {
        proof {
            crate::analysis::lemma_key_pos_views(self.bb2store@, self.stores(), label@);
            crate::cfg::lemma_vkey_pos(self.stores(), label@);
            crate::program::lemma_key_pos_range(self.bb2store@, label@);
        }
        let ghost l = label@;
        let ghost m = st@;
        match crate::program::find_key(&self.bb2store, label.as_str()) {
            Some(i) => {
                self.bb2store.set(i, (label, st));
            },
            None => {
                self.bb2store.push((label, st));
            },
        }
        assert(self.stores() =~= keyed_insert(old(self).stores(), l, m));
    }

    /// Before a block from the worklist runs: unless it is the entry block,
    /// its store becomes the join of the stores of all its predecessors.
    fn prepare_front(&mut self, block: &Block) -> (r: Result<(), AnalysisError>)
        ensures
            final(self).prog == old(self).prog,
            final(self).cfg == old(self).cfg,
            final(self).worklist == old(self).worklist,
            final(self).addr_taken == old(self).addr_taken,
            final(self).executed == old(self).executed,
            final(self).solution == old(self).solution,
            final(self).pp_use == old(self).pp_use,
            final(self).pp_def == old(self).pp_def,
            match rd_prepare(old(self).stores(), old(self).cfg.node_seq(), old(self).cfg.edge_seq(), block@) {
                Ok(st) => r is Ok && final(self).stores() == st,
                Err(e) => r == Err::<(), AnalysisError>(e),
            },
    {
        match self.cfg.get_entry() {
            None => {
                return Err(AnalysisError::NoEntry);
            },
            Some(e) => {
                if lir::block_eq(block, e) {
                    return Ok(());
                }
            },
        }
        let label = match self.cfg.get_block_label(block) {
            None => {
                return Err(AnalysisError::UnknownBlock);
            },
            Some(l) => l,
        };
        let plabels = self.cfg.get_predecessor_labels(label.as_str());
        let ghost ps = labels_view(plabels@);
        let ghost nm = self.cfg.node_map();
        let mut j: usize = 0;
        while j < plabels.len()
            invariant
                j <= plabels@.len(),
                ps == labels_view(plabels@),
                nm == self.cfg.node_map(),
                forall|jj: int| 0 <= jj < j ==> nm.dom().contains(#[trigger] ps[jj]),
                label_of_block(self.cfg.node_seq(), block@) == Some(label@),
                srcs_into(self.cfg.edge_seq(), label@) == ps,
                nm.dom().contains("entry"@),
                block@ != nm["entry"@],
            decreases plabels.len() - j,
        {
            assert(ps[j as int] == plabels@[j as int]@);
            if self.cfg.get_block(plabels[j].as_str()).is_none() {
                assert(!nm.dom().contains(ps[j as int]));
                assert(!(forall|jj: int| 0 <= jj < ps.len() ==> nm.dom().contains(#[trigger] ps[jj])));
                return Err(AnalysisError::UnknownBlock);
            }
            j += 1;
        }
        proof {
            assert forall|l: Seq<char>| ps.contains(l) implies nm.dom().contains(l) by {
                let jj = choose|jj: int| 0 <= jj < ps.len() && ps[jj] == l;
                assert(nm.dom().contains(ps[jj]));
            }
        }
        let preds = self.cfg.get_predecessors(block);
        let ghost pv = block_refs_view(preds@);
        assert(pv =~= ps.map_values(|p: Seq<char>| nm[p]));
        assert(preds_spec(self.cfg.node_seq(), self.cfg.edge_seq(), block@) == Ok::<Seq<BlockV>, AnalysisError>(pv));
        let ghost stores0 = self.stores();
        let mut joined: Store<ProgramPoint> = Store::new();
        let mut i: usize = 0;
        assert(pv.take(0) =~= Seq::<BlockV>::empty());
        while i < preds.len()
            invariant
                i <= preds@.len(),
                pv == block_refs_view(preds@),
                stores0 == self.stores(),
                preds_spec(self.cfg.node_seq(), self.cfg.edge_seq(), block@) == Ok::<Seq<BlockV>, AnalysisError>(pv),
                self.cfg.node_map().dom().contains("entry"@),
                block@ != self.cfg.node_map()["entry"@],
                join_all_preds(stores0, pv.take(i as int)) == Ok::<Map<VariableV, PointsV>, AnalysisError>(joined@),
            decreases preds.len() - i,
        {
            let p = preds[i];
            assert(pv.take(i + 1).drop_last() =~= pv.take(i as int));
            assert(pv.take(i + 1).last() == p@);
            proof {
                crate::analysis::lemma_key_pos_views(self.bb2store@, self.stores(), p@.id);
                crate::cfg::lemma_vkey_pos(self.stores(), p@.id);
            }
            match crate::program::find_key(&self.bb2store, p.id.as_str()) {
                Some(kp) => {
                    assert(stores0[kp as int].1 == self.bb2store@[kp as int].1@);
                    joined = joined.join(&self.bb2store[kp].1);
                },
                None => {
                    proof {
                        assert(join_all_preds(stores0, pv.take(i + 1)) is Err);
                        lemma_join_all_err(stores0, pv, i + 1);
                    }
                    return Err(AnalysisError::NoStore);
                },
            }
            i += 1;
        }
        assert(pv.take(preds@.len() as int) =~= pv);
        self.put_store(block.id.clone(), joined);
        Ok(())
    }
}

/// Two keyed store lists with the same keys at every position.
pub open spec fn same_keys<A, B>(a: Seq<(Seq<char>, A)>, b: Seq<(Seq<char>, B)>) -> bool {
    a.len() == b.len() && forall|i: int| 0 <= i < a.len() ==> #[trigger] a[i].0 == b[i].0
}

/// Executing a program point keeps the labels of the stores.
proof fn lemma_rd_step_keys(
    s: RdState,
    p: lir::ProgramPointV,
    addr: Seq<VariableV>,
    globals: Seq<VariableV>,
    greached: Set<TypeV>,
)
    requires
        rd_step(s, p, addr, globals, greached) is Ok,
    ensures
        same_keys(s.stores, rd_step(s, p, addr, globals, greached)->Ok_0.stores),
{
    crate::cfg::lemma_vkey_pos(s.stores, p.block);
}

/// Executing the first instructions of a block keeps the labels of the stores.
proof fn lemma_rd_instrs_keys(
    s: RdState,
    b: BlockV,
    n: int,
    addr: Seq<VariableV>,
    globals: Seq<VariableV>,
    greached: Set<TypeV>,
)
    requires
        rd_instrs(s, b, n, addr, globals, greached) is Ok,
    ensures
        same_keys(s.stores, rd_instrs(s, b, n, addr, globals, greached)->Ok_0.stores),
    decreases n,
{
    if n > 0 {
        lemma_rd_instrs_keys(s, b, n - 1, addr, globals, greached);
        let s1 = rd_instrs(s, b, n - 1, addr, globals, greached)->Ok_0;
        lemma_rd_step_keys(s1, instr_point(b, n - 1), addr, globals, greached);
    }
}

impl ReachingDefinitionAnalyzer {
    /// Appends, in order, the block of each label that is not on the worklist yet.
    fn queue_blocks(&mut self, labels: &Vec<String>) -> (r: Result<(), AnalysisError>)
        ensures
            final(self).prog == old(self).prog,
            final(self).cfg == old(self).cfg,
            final(self).addr_taken == old(self).addr_taken,
            final(self).executed == old(self).executed,
            final(self).state() == old(self).state(),
            match push_succs(blocks_view(old(self).worklist@), labels_view(labels@), old(self).cfg.node_map()) {
                Ok(w) => r is Ok && blocks_view(final(self).worklist@) == w,
                Err(e) => r == Err::<(), AnalysisError>(e),
            },
    {
        let ghost lv = labels_view(labels@);
        let ghost nm = self.cfg.node_map();
        let ghost w0 = blocks_view(self.worklist@);
        let mut j: usize = 0;
        assert(lv.take(0) =~= Seq::<Seq<char>>::empty());
        while j < labels.len()
            invariant
                j <= labels@.len(),
                lv == labels_view(labels@),
                nm == self.cfg.node_map(),
                self.prog == old(self).prog,
                self.cfg == old(self).cfg,
                self.addr_taken == old(self).addr_taken,
                self.executed == old(self).executed,
                self.state() == old(self).state(),
                w0 == blocks_view(old(self).worklist@),
                push_succs(w0, lv.take(j as int), nm) == Ok::<Seq<BlockV>, AnalysisError>(blocks_view(self.worklist@)),
            decreases labels.len() - j,
        {
            assert(lv.take(j + 1).drop_last() =~= lv.take(j as int));
            assert(lv.take(j + 1).last() == labels@[j as int]@);
            match self.cfg.get_block(labels[j].as_str()) {
                None => {
                    proof {
                        lemma_push_err(w0, lv, j as int + 1, nm);
                    }
                    return Err(AnalysisError::UnknownBlock);
                },
                Some(b) => {
                    if !crate::analysis::blocks_contain(&self.worklist, b) {
                        let c = b.clone();
                        let ghost prev = blocks_view(self.worklist@);
                        self.worklist.push(c);
                        assert(blocks_view(self.worklist@) =~= prev.push(c@));
                    }
                },
            }
            j += 1;
        }
        assert(lv.take(labels@.len() as int) =~= lv);
        Ok(())
    }

    /// One step of the reaching-definitions analysis; see [`rd_mfp_step`].
    /// The visit counts are kept by the caller across steps.
    pub fn mfp_step(&mut self, visited: &mut Vec<(String, u32)>) -> (r: Result<(), AnalysisError>)
        requires
            old(self).worklist@.len() > 0,
        ensures
            final(self).prog == old(self).prog,
            final(self).cfg == old(self).cfg,
            final(self).addr_taken == old(self).addr_taken,
            final(self).executed == old(self).executed,
            match rd_mfp_step(
                blocks_view(old(self).worklist@),
                old(self).state(),
                counts_view(old(visited)@),
                old(self).cfg.node_seq(),
                old(self).cfg.edge_seq(),
                vars_view(old(self).addr_taken@),
                vars_view(old(self).prog.globals@),
                old(self).globals_reached(),
            ) {
                Ok((w, st, c)) => r is Ok && blocks_view(final(self).worklist@) == w && final(self).state() == st
                    && counts_view(final(visited)@) == c,
                Err(e) => r == Err::<(), AnalysisError>(e),
            },
    {
        let ghost wl0 = blocks_view(self.worklist@);
        let ghost s0 = self.state();
        let ghost counts0 = counts_view(visited@);
        let block = self.worklist.remove(0);
        assert(blocks_view(self.worklist@) =~= wl0.drop_first());
        assert(block@ == wl0[0]);
        proof {
            crate::analysis::lemma_key_pos_views(self.bb2store@, self.stores(), block@.id);
            crate::cfg::lemma_vkey_pos(self.stores(), block@.id);
        }
        let before = match crate::program::find_key(&self.bb2store, block.id.as_str()) {
            None => {
                return Err(AnalysisError::NoStore);
            },
            Some(kb) => self.bb2store[kb].1.clone_store(),
        };
        match self.prepare_front(&block) {
            Ok(()) => {},
            Err(e) => {
                return Err(e);
            },
        }
        let ghost st1 = self.state();
        assert(st1 == RdState { stores: st1.stores, ..s0 });
        match self.exe_block(&block) {
            Ok(()) => {},
            Err(e) => {
                return Err(e);
            },
        }
        proof {
            let addr = vars_view(self.addr_taken@);
            let globals = vars_view(self.prog.globals@);
            let gr = self.globals_reached();
            let n = block@.insts.len() as int;
            lemma_rd_instrs_keys(st1, block@, n, addr, globals, gr);
            let s1 = rd_instrs(st1, block@, n, addr, globals, gr)->Ok_0;
            lemma_rd_step_keys(s1, term_point(block@), addr, globals, gr);
            crate::cfg::lemma_vkey_pos_same_keys(st1.stores, s1.stores, block@.id);
            crate::cfg::lemma_vkey_pos_same_keys(s1.stores, self.stores(), block@.id);
            crate::cfg::lemma_keyed_insert_keys(s0.stores, block@.id, Map::<VariableV, PointsV>::empty(), block@.id);
            let nodes = self.cfg.node_seq();
            if keyed_map(nodes).dom().contains("entry"@) && block@ != keyed_map(nodes)["entry"@] {
                match preds_spec(nodes, self.cfg.edge_seq(), block@) {
                    Ok(ps) => match join_all_preds(s0.stores, ps) {
                        Ok(m) => {
                            crate::cfg::lemma_keyed_insert_keys(s0.stores, block@.id, m, block@.id);
                        },
                        Err(_) => {},
                    },
                    Err(_) => {},
                }
            }
            crate::cfg::lemma_vkey_pos(st1.stores, block@.id);
            crate::cfg::lemma_vkey_pos(self.stores(), block@.id);
            crate::analysis::lemma_key_pos_views(self.bb2store@, self.stores(), block@.id);
        }
        let changed = match crate::program::find_key(&self.bb2store, block.id.as_str()) {
            Some(k) => !before.equals(&self.bb2store[k].1),
            None => false,
        };
        let kc = crate::program::find_key(visited, block.id.as_str());
        proof {
            crate::analysis::lemma_key_pos_views(visited@, counts0, block@.id);
            crate::cfg::lemma_vkey_pos(counts0, block@.id);
        }
        let queue = match kc {
            None => {
                if !changed {
                    return Err(AnalysisError::NotCounted);
                }
                true
            },
            Some(i) => changed || visited[i].1 == 0,
        };
        if queue {
            match self.cfg.get_block_label(&block) {
                None => {
                    return Err(AnalysisError::UnknownBlock);
                },
                Some(l) => {
                    let succs = self.cfg.get_successor_labels(l.as_str());
                    match self.queue_blocks(&succs) {
                        Ok(()) => {},
                        Err(e) => {
                            return Err(e);
                        },
                    }
                },
            }
        }
        match kc {
            None => Err(AnalysisError::NotCounted),
            Some(i) => {
                let c = visited[i].1;
                if c == u32::MAX {
                    return Err(AnalysisError::Overflow);
                }
                let k = visited[i].0.clone();
                visited.set(i, (k, c + 1));
                assert(counts_view(visited@) =~= counts0.update(i as int, (block@.id, (c + 1) as u32)));
                Ok(())
            },
        }
    }
}

/// Once pushing a prefix of the labels fails, pushing all of them fails the same way.
proof fn lemma_push_err(wl: Seq<BlockV>, labels: Seq<Seq<char>>, n: int, nm: Map<Seq<char>, BlockV>)
    requires
        0 <= n <= labels.len(),
        push_succs(wl, labels.take(n), nm) is Err,
    ensures
        push_succs(wl, labels, nm) == push_succs(wl, labels.take(n), nm),
    decreases labels.len() - n,
{
    if n < labels.len() {
        assert(labels.take(n + 1).drop_last() =~= labels.take(n));
        lemma_push_err(wl, labels, n + 1, nm);
    } else {
        assert(labels.take(n) =~= labels);
    }
}

} // verus!

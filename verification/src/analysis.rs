//! Abstract execution of LIR code over a numeric domain: the effect of each
//! instruction and terminal on a store, and the constant and interval
//! analyzers that run it over the blocks of a function.
use vstd::prelude::*;
use crate::domain::{Constant, Interval, Number, num_le, undecided_interval};
use crate::lir::{
    block_eq, vars_view, ArithOp, Block, BlockV, Instruction, Program, InstructionV, Operand, OperandV, RelaOp, Terminal, TerminalV, Type,
    TypeV, Variable, VariableV,
};
use crate::program::{
    addrof_int_body, class_pred, contains_var, dedup, find_key, key_pos, lemma_key_pos_range, TypeClass,
};
use crate::semantics::AbstractSemantics;
use crate::store::{store_join_spec, store_widen_spec, Store};
use crate::cfg::{
    body_edges, body_nodes, keyed_insert, keyed_map, label_of_block, labels_view, srcs_into, lemma_body_nodes_keys, lemma_keyed_insert_keys, lemma_vkey_pos, lemma_vkey_pos_same_keys, node_labels, vkey_pos,
    ControlFlowGraph,
};

verus! {

/// Why an abstract execution could not go on.
#[derive(Debug, Clone, Copy, PartialEq, Eq, Structural)]
pub enum AnalysisError {
    /// No store is kept for the block.
    NoStore,
    /// An integer variable that the store does not hold.
    UnknownVariable,
    /// The address of an integer variable that is not among the address-taken ones.
    NotAddressTaken,
    /// Abstract arithmetic that is not defined (an overflowing quotient).
    Overflow,
    /// The graph has no block labelled `entry`.
    NoEntry,
    /// A label that is not a block of the graph.
    UnknownBlock,
    /// The successors of an executed block are not known.
    NoSuccessors,
    /// A block without a visit count.
    NotCounted,
    /// A program point without an entry in the solution or the use and definition records.
    NoPoint,
    /// A program point without the instruction or terminal its location names.
    NoInstruction,
    /// The worklist did not empty within the step budget of a fixpoint run.
    StepLimit,
}

/// A numeric abstract domain the analyzers run on: how constants, unknown
/// values and undecided comparisons are represented, and which branches a
/// condition value lets through.
pub trait NumericDomain: AbstractSemantics {
    /// The abstraction of one integer.
    spec fn const_spec(c: i32) -> Self::V;

    /// The value that stands for any integer.
    spec fn any_spec() -> Self::V;

    /// The value that stands for no integer.
    spec fn none_spec() -> Self::V;

    /// The result of a comparison with a non-integer operand.
    spec fn undecided_spec() -> Self::V;

    /// Whether a branch on a condition with this value may go to its true
    /// target, and whether it may go to its false target.
    spec fn branch_spec(v: Self::V) -> (bool, bool);

    fn from_int(c: i32) -> (r: Self)
        ensures
            r@ == Self::const_spec(c),
    ;

    fn any() -> (r: Self)
        ensures
            r@ == Self::any_spec(),
    ;

    fn none() -> (r: Self)
        ensures
            r@ == Self::none_spec(),
    ;

    fn undecided() -> (r: Self)
        ensures
            r@ == Self::undecided_spec(),
    ;

    fn branch_targets(&self) -> (r: (bool, bool))
        ensures
            r == Self::branch_spec(self@),
    ;

    /// Comparisons are defined on all values.
    proof fn lemma_cmp_defined(a: Self::V, b: Self::V, op: RelaOp)
        ensures
            Self::cmp_ok(a, b, op),
    ;
}

impl NumericDomain for Constant {
    open spec fn const_spec(c: i32) -> Constant {
        Constant::CInt(c)
    }

    open spec fn any_spec() -> Constant {
        Constant::Top
    }

    open spec fn none_spec() -> Constant {
        Constant::Bottom
    }

    open spec fn undecided_spec() -> Constant {
        Constant::Top
    }

    /// Bottom lets no branch through, top both; a constant selects the false
    /// target when it is zero and the true target otherwise.
    open spec fn branch_spec(v: Constant) -> (bool, bool) {
        match v {
            Constant::Bottom => (false, false),
            Constant::Top => (true, true),
            Constant::CInt(c) => (c != 0, c == 0),
        }
    }

    fn from_int(c: i32) -> (r: Self) {
        Constant::CInt(c)
    }

    fn any() -> (r: Self) {
        Constant::Top
    }

    fn none() -> (r: Self) {
        Constant::Bottom
    }

    fn undecided() -> (r: Self) {
        Constant::Top
    }

    proof fn lemma_cmp_defined(a: Constant, b: Constant, op: RelaOp) {
    }

    fn branch_targets(&self) -> (r: (bool, bool)) {
        match self {
            Constant::Bottom => (false, false),
            Constant::Top => (true, true),
            Constant::CInt(c) => (*c != 0, *c == 0),
        }
    }
}

impl NumericDomain for Interval {
    open spec fn const_spec(c: i32) -> Interval {
        Interval::Range(Number::Integer(c), Number::Integer(c))
    }

    open spec fn any_spec() -> Interval {
        Interval::Top
    }

    open spec fn none_spec() -> Interval {
        Interval::Bottom
    }

    open spec fn undecided_spec() -> Interval {
        undecided_interval()
    }

    /// Bottom lets no branch through, top both; a single point selects the
    /// false target when it is zero and the true target otherwise; a wider
    /// range lets both through when it holds zero, else the true target.
    open spec fn branch_spec(v: Interval) -> (bool, bool) {
        match v {
            Interval::Bottom => (false, false),
            Interval::Top => (true, true),
            Interval::Range(l, u) => if l == u {
                (l != Number::Integer(0), l == Number::Integer(0))
            } else if num_le(l, Number::Integer(0)) && num_le(Number::Integer(0), u) {
                (true, true)
            } else {
                (true, false)
            },
        }
    }

    fn from_int(c: i32) -> (r: Self) {
        Interval::Range(Number::Integer(c), Number::Integer(c))
    }

    fn any() -> (r: Self) {
        Interval::Top
    }

    fn none() -> (r: Self) {
        Interval::Bottom
    }

    fn undecided() -> (r: Self) {
        Interval::Range(Number::Integer(0), Number::Integer(1))
    }

    proof fn lemma_cmp_defined(a: Interval, b: Interval, op: RelaOp) {
    }

    fn branch_targets(&self) -> (r: (bool, bool)) {
        match self {
            Interval::Bottom => (false, false),
            Interval::Top => (true, true),
            Interval::Range(l, u) => if *l == *u {
                (*l != Number::Integer(0), *l == Number::Integer(0))
            } else if crate::domain::number_le(*l, Number::Integer(0)) && crate::domain::number_le(
                Number::Integer(0),
                *u,
            ) {
                (true, true)
            } else {
                (true, false)
            },
        }
    }
}

// ------------------------------------------------------------------
// Types that lead to integers
// ------------------------------------------------------------------

/// Whether an integer can be reached from a value of this type by
/// dereferencing: the type is `int` or a pointer to such a type.
pub open spec fn reaches_int(t: TypeV) -> bool
    decreases t,
{
    match t {
        TypeV::Int => true,
        TypeV::Pointer(p) => reaches_int(*p),
        _ => false,
    }
}

/// Whether an integer can be reached from the target type of a pointer.
pub fn able_to_reach_int(to: &Box<Type>) -> (r: bool)
    ensures
        r == reaches_int(to@),
    decreases to,
{
    match &**to {
        Type::Int => true,
        Type::Pointer(p) => able_to_reach_int(p),
        _ => false,
    }
}

/// Whether some argument is a pointer from which an integer can be reached.
pub open spec fn some_arg_reaches_int(args: Seq<OperandV>) -> bool {
    exists|i: int|
        0 <= i < args.len() && (#[trigger] args[i] matches OperandV::Var(v) && v.typ matches TypeV::Pointer(to)
            && reaches_int(*to))
}

// ------------------------------------------------------------------
// The effect of instructions and terminals on a store
// ------------------------------------------------------------------

/// The map that sends each variable of `vars` to `v`.
pub open spec fn fill<V>(vars: Seq<VariableV>, v: V) -> Map<VariableV, V> {
    Map::new(|k: VariableV| vars.contains(k), |k: VariableV| v)
}

/// The store after a call: the integer globals, an integer left-hand side
/// and, when an argument is a pointer that leads to an integer, every
/// address-taken integer, all become any value.
pub open spec fn call_spec<T: NumericDomain>(
    st: Map<VariableV, T::V>,
    lhs: Option<VariableV>,
    args: Seq<OperandV>,
    globals: Seq<VariableV>,
    addrof: Seq<VariableV>,
) -> Map<VariableV, T::V> {
    let s1 = st.union_prefer_right(fill(globals, T::any_spec()));
    let s2 = match lhs {
        Some(l) => if l.typ is Int {
            s1.insert(l, T::any_spec())
        } else {
            s1
        },
        None => s1,
    };
    if some_arg_reaches_int(args) {
        s2.union_prefer_right(fill(addrof, T::any_spec()))
    } else {
        s2
    }
}

/// Whether an operand is an integer: a constant or a variable of type `int`.
pub open spec fn operand_is_int(op: OperandV) -> bool {
    match op {
        OperandV::Var(v) => v.typ is Int,
        OperandV::CInt(_) => true,
    }
}

/// Whether the store holds the value of an operand.
pub open spec fn operand_known<V>(st: Map<VariableV, V>, op: OperandV) -> bool {
    match op {
        OperandV::Var(v) => st.dom().contains(v),
        OperandV::CInt(_) => true,
    }
}

/// The abstract value of an operand in a store.
pub open spec fn operand_value<T: NumericDomain>(st: Map<VariableV, T::V>, op: OperandV) -> T::V {
    match op {
        OperandV::Var(v) => st[v],
        OperandV::CInt(c) => T::const_spec(c),
    }
}

/// The abstract value of an arithmetic instruction: any value when an
/// operand is a variable of another type than `int`, else the abstract
/// arithmetic of the two operand values.
pub open spec fn arith_value<T: NumericDomain>(
    st: Map<VariableV, T::V>,
    aop: ArithOp,
    op1: OperandV,
    op2: OperandV,
) -> Result<T::V, AnalysisError> {
    if !operand_is_int(op1) || !operand_is_int(op2) {
        Ok(T::any_spec())
    } else if !operand_known(st, op1) || !operand_known(st, op2) {
        Err(AnalysisError::UnknownVariable)
    } else if !T::arith_ok(operand_value::<T>(st, op1), operand_value::<T>(st, op2), aop) {
        Err(AnalysisError::Overflow)
    } else {
        Ok(T::arith_spec(operand_value::<T>(st, op1), operand_value::<T>(st, op2), aop))
    }
}

/// Whether `x` is a concrete value of operand `op` in a state that the
/// constant store `st` describes: the constant itself, or a value the
/// variable's abstract value stands for.
pub open spec fn constant_operand_holds(st: Map<VariableV, Constant>, op: OperandV, x: i32) -> bool {
    match op {
        OperandV::CInt(c) => x == c,
        OperandV::Var(v) => st.dom().contains(v) && crate::domain::constant_contains(st[v], x),
    }
}

/// Whether `x` is a concrete value of operand `op` in a state that the
/// interval store `st` describes.
pub open spec fn interval_operand_holds(st: Map<VariableV, Interval>, op: OperandV, x: i32) -> bool {
    match op {
        OperandV::CInt(c) => x == c,
        OperandV::Var(v) => st.dom().contains(v) && crate::domain::interval_contains(st[v], x),
    }
}

/// An arithmetic instruction in the constant analysis is sound: when the
/// operands may be `x` and `y` (in that order), the value the instruction
/// gives its left-hand side stands for `x aop y`.
pub proof fn constant_arith_instr_sound(
    st: Map<VariableV, Constant>,
    lhs: VariableV,
    aop: ArithOp,
    op1: OperandV,
    op2: OperandV,
    globals: Seq<VariableV>,
    addrof: Seq<VariableV>,
    x: i32,
    y: i32,
)
    requires
        constant_operand_holds(st, op1, x),
        constant_operand_holds(st, op2, y),
        crate::domain::concrete_arith(aop, x, y) is Some,
        instr_spec::<Constant>(st, InstructionV::Arith { lhs, aop, op1, op2 }, globals, addrof) is Ok,
    ensures
        crate::domain::constant_contains(
            instr_spec::<Constant>(st, InstructionV::Arith { lhs, aop, op1, op2 }, globals, addrof)->Ok_0[lhs],
            crate::domain::concrete_arith(aop, x, y).unwrap(),
        ),
{
    if operand_is_int(op1) && operand_is_int(op2) {
        crate::domain::constant_arith_sound(
            operand_value::<Constant>(st, op1),
            operand_value::<Constant>(st, op2),
            aop,
            x,
            y,
        );
    }
}

/// An arithmetic instruction in the interval analysis is sound: when the
/// operands may be `x` and `y` (in that order) and `x aop y` fits in 32
/// bits, the value the instruction gives its left-hand side holds `x aop y`.
pub proof fn interval_arith_instr_sound(
    st: Map<VariableV, Interval>,
    lhs: VariableV,
    aop: ArithOp,
    op1: OperandV,
    op2: OperandV,
    globals: Seq<VariableV>,
    addrof: Seq<VariableV>,
    x: i32,
    y: i32,
)
    requires
        interval_operand_holds(st, op1, x),
        interval_operand_holds(st, op2, y),
        crate::interval_sound::concrete_fits(aop, x, y),
        instr_spec::<Interval>(st, InstructionV::Arith { lhs, aop, op1, op2 }, globals, addrof) is Ok,
    ensures
        crate::domain::interval_contains(
            instr_spec::<Interval>(st, InstructionV::Arith { lhs, aop, op1, op2 }, globals, addrof)->Ok_0[lhs],
            crate::domain::concrete_arith(aop, x, y).unwrap(),
        ),
{
    if operand_is_int(op1) && operand_is_int(op2) {
        crate::interval_sound::interval_arith_sound(
            operand_value::<Interval>(st, op1),
            operand_value::<Interval>(st, op2),
            aop,
            x,
            y,
        );
    }
}

/// The abstract value of a comparison: undecided when an operand is a
/// variable of another type than `int`, else the abstract comparison.
pub open spec fn cmp_value<T: NumericDomain>(
    st: Map<VariableV, T::V>,
    rop: RelaOp,
    op1: OperandV,
    op2: OperandV,
) -> Result<T::V, AnalysisError> {
    if !operand_is_int(op1) || !operand_is_int(op2) {
        Ok(T::undecided_spec())
    } else if !operand_known(st, op1) || !operand_known(st, op2) {
        Err(AnalysisError::UnknownVariable)
    } else {
        Ok(T::cmp_spec(operand_value::<T>(st, op1), operand_value::<T>(st, op2), rop))
    }
}

/// The store after an instruction, or why it cannot be executed.
pub open spec fn instr_spec<T: NumericDomain>(
    st: Map<VariableV, T::V>,
    i: InstructionV,
    globals: Seq<VariableV>,
    addrof: Seq<VariableV>,
) -> Result<Map<VariableV, T::V>, AnalysisError> {
    match i {
        InstructionV::AddrOf { lhs: _, rhs } => if rhs.typ is Int && !addrof.contains(rhs) {
            Err(AnalysisError::NotAddressTaken)
        } else {
            Ok(st)
        },
        InstructionV::Copy { lhs, op } => if !(lhs.typ is Int) {
            Ok(st)
        } else if !operand_is_int(op) {
            Ok(st.insert(lhs, T::any_spec()))
        } else if !operand_known(st, op) {
            Err(AnalysisError::UnknownVariable)
        } else {
            Ok(st.insert(lhs, operand_value::<T>(st, op)))
        },
        InstructionV::Arith { lhs, aop, op1, op2 } => match arith_value::<T>(st, aop, op1, op2) {
            Ok(v) => Ok(st.insert(lhs, v)),
            Err(e) => Err(e),
        },
        InstructionV::Load { lhs, src: _ } => if lhs.typ is Int {
            Ok(st.insert(lhs, T::any_spec()))
        } else {
            Ok(st)
        },
        InstructionV::Store { dst: _, op } => if !operand_is_int(op) {
            Ok(st)
        } else if !operand_known(st, op) {
            Err(AnalysisError::UnknownVariable)
        } else {
            Ok(store_join_spec::<T>(st, fill(addrof, operand_value::<T>(st, op))))
        },
        InstructionV::Cmp { lhs, rop, op1, op2 } => if !(lhs.typ is Int) {
            Ok(st)
        } else {
            match cmp_value::<T>(st, rop, op1, op2) {
                Ok(v) => Ok(st.insert(lhs, v)),
                Err(e) => Err(e),
            }
        },
        InstructionV::CallExt { lhs, ext_callee: _, args } => Ok(call_spec::<T>(st, lhs, args, globals, addrof)),
        _ => Ok(st),
    }
}

/// The store after a sequence of instructions, or why it stops.
pub open spec fn instrs_spec<T: NumericDomain>(
    st: Map<VariableV, T::V>,
    s: Seq<InstructionV>,
    globals: Seq<VariableV>,
    addrof: Seq<VariableV>,
) -> Result<Map<VariableV, T::V>, AnalysisError>
    decreases s.len(),
{
    if s.len() == 0 {
        Ok(st)
    } else {
        match instrs_spec::<T>(st, s.drop_last(), globals, addrof) {
            Ok(m) => instr_spec::<T>(m, s.last(), globals, addrof),
            Err(e) => Err(e),
        }
    }
}

/// The successors that a branch lets through, true target first.
pub open spec fn branch_succs(d: (bool, bool), tt: Seq<char>, ff: Seq<char>) -> Seq<Seq<char>> {
    if d.0 && d.1 {
        seq![tt, ff]
    } else if d.0 {
        seq![tt]
    } else if d.1 {
        seq![ff]
    } else {
        Seq::empty()
    }
}

/// The store after a terminal and the successors it reaches (none given
/// when a branch on a non-integer leaves them as they were), or why it
/// cannot be executed.
pub open spec fn term_spec<T: NumericDomain>(
    st: Map<VariableV, T::V>,
    t: TerminalV,
    globals: Seq<VariableV>,
    addrof: Seq<VariableV>,
) -> Result<(Map<VariableV, T::V>, Option<Seq<Seq<char>>>), AnalysisError> {
    match t {
        TerminalV::CallDirect { lhs, callee: _, args, next_bb } => Ok(
            (call_spec::<T>(st, lhs, args, globals, addrof), Some(seq![next_bb])),
        ),
        TerminalV::CallIndirect { lhs, callee: _, args, next_bb } => Ok(
            (call_spec::<T>(st, lhs, args, globals, addrof), Some(seq![next_bb])),
        ),
        TerminalV::Jump(l) => Ok((st, Some(seq![l]))),
        TerminalV::Branch { cond, tt, ff } => match cond {
            OperandV::Var(v) => if !(v.typ is Int) {
                Ok((st, None))
            } else if !st.dom().contains(v) {
                Err(AnalysisError::UnknownVariable)
            } else {
                Ok((st, Some(branch_succs(T::branch_spec(st[v]), tt, ff))))
            },
            OperandV::CInt(c) => Ok(
                (
                    st,
                    Some(
                        if c == 0 {
                            seq![ff]
                        } else {
                            seq![tt]
                        },
                    ),
                ),
            ),
        },
        TerminalV::Ret(_) => Ok((st, Some(Seq::empty()))),
    }
}

// ------------------------------------------------------------------
// Executing instructions and terminals on a store
// ------------------------------------------------------------------

/// Sets every variable of `vars` to `v`.
pub(crate) fn set_all<T: AbstractSemantics>(st: &mut Store<T>, vars: &Vec<Variable>, v: &T)
    ensures
        final(st)@ == old(st)@.union_prefer_right(fill(vars_view(vars@), v@)),
{
    let mut i: usize = 0;
    assert(old(st)@.union_prefer_right(fill(vars_view(vars@).take(0), v@)) =~= old(st)@);
    while i < vars.len()
        invariant
            i <= vars@.len(),
            st@ == old(st)@.union_prefer_right(fill(vars_view(vars@).take(i as int), v@)),
        decreases vars.len() - i,
    {
        let x = vars[i].clone();
        let ghost xs = vars_view(vars@).take(i as int);
        let ghost prev_st = st@;
        st.set(x, v.clone_value());
        assert(vars_view(vars@).take(i + 1) =~= xs.push(x@));
        assert forall|k: VariableV| xs.push(x@).contains(k) <==> (xs.contains(k) || k == x@) by {
            if xs.push(x@).contains(k) {
                let j = choose|j: int| 0 <= j < xs.len() + 1 && xs.push(x@)[j] == k;
                if j < xs.len() {
                    assert(xs[j] == k);
                }
            }
            if xs.contains(k) {
                let j = choose|j: int| 0 <= j < xs.len() && xs[j] == k;
                assert(xs.push(x@)[j] == k);
            }
            if k == x@ {
                assert(xs.push(x@)[xs.len() as int] == k);
            }
        }
        let ghost goal = old(st)@.union_prefer_right(fill(xs.push(x@), v@));
        assert(st@ == prev_st.insert(x@, v@));
        assert forall|k: VariableV| #![auto] st@.dom().contains(k) <==> goal.dom().contains(k) by {
            assert(fill(xs.push(x@), v@).dom().contains(k) == xs.push(x@).contains(k));
            assert(fill(xs, v@).dom().contains(k) == xs.contains(k));
        }
        assert(st@.dom() =~= goal.dom());
        assert forall|k: VariableV| st@.dom().contains(k) implies st@[k] == goal[k] by {
            assert(fill(xs.push(x@), v@).dom().contains(k) == xs.push(x@).contains(k));
            assert(fill(xs, v@).dom().contains(k) == xs.contains(k));
            if xs.push(x@).contains(k) {
                assert(goal[k] == v@);
            }
        }
        assert(st@ =~= goal);
        i += 1;
    }
    assert(vars_view(vars@).take(vars@.len() as int) =~= vars_view(vars@));
}

/// The value of an integer operand.
fn eval_operand<T: NumericDomain + Copy>(st: &Store<T>, op: &Operand) -> (r: Result<T, AnalysisError>)
    requires
        operand_is_int(op@),
    ensures
        r is Ok == operand_known(st@, op@),
        r matches Ok(v) ==> v@ == operand_value::<T>(st@, op@),
        r matches Err(e) ==> e == AnalysisError::UnknownVariable,
{
    match op {
        Operand::Var(v) => match st.get(v) {
            Some(x) => Ok(*x),
            None => Err(AnalysisError::UnknownVariable),
        },
        Operand::CInt(c) => Ok(T::from_int(*c)),
    }
}

/// Decides whether an operand is an integer.
fn is_int_operand(op: &Operand) -> (r: bool)
    ensures
        r == operand_is_int(op@),
{
    match op {
        Operand::Var(v) => match v.typ {
            Type::Int => true,
            _ => false,
        },
        Operand::CInt(_) => true,
    }
}

fn is_int_type(t: &Type) -> (r: bool)
    ensures
        r == (t@ is Int),
{
    match t {
        Type::Int => true,
        _ => false,
    }
}

/// Decides whether some argument is a pointer that leads to an integer.
fn any_arg_reaches_int(args: &Vec<Operand>) -> (r: bool)
    ensures
        r == some_arg_reaches_int(crate::lir::operands_view(args@)),
{
    let ghost av = crate::lir::operands_view(args@);
    let mut i: usize = 0;
    while i < args.len()
        invariant
            i <= args@.len(),
            av == crate::lir::operands_view(args@),
            forall|j: int|
                0 <= j < i ==> !(#[trigger] av[j] matches OperandV::Var(v) && v.typ matches TypeV::Pointer(to)
                    && reaches_int(*to)),
        decreases args.len() - i,
    {
        assert(av[i as int] == args@[i as int]@);
        if let Operand::Var(var) = &args[i] {
            if let Type::Pointer(to) = &var.typ {
                if able_to_reach_int(to) {
                    return true;
                }
            }
        }
        i += 1;
    }
    false
}

/// The effect of a call on the store.
fn exe_call<T: NumericDomain + Copy>(
    st: &mut Store<T>,
    lhs: &Option<Variable>,
    args: &Vec<Operand>,
    globals: &Vec<Variable>,
    addrof: &Vec<Variable>,
)
    ensures
        final(st)@ == call_spec::<T>(
            old(st)@,
            crate::lir::opt_var_view(*lhs),
            crate::lir::operands_view(args@),
            vars_view(globals@),
            vars_view(addrof@),
        ),
{
    set_all(st, globals, &T::any());
    match lhs {
        Some(l) => {
            if is_int_type(&l.typ) {
                st.set(l.clone(), T::any());
            }
        },
        None => {},
    }
    if any_arg_reaches_int(args) {
        set_all(st, addrof, &T::any());
    }
}

/// Executes one instruction on a store.
pub fn exe_instr_on<T: NumericDomain + Copy>(
    st: &mut Store<T>,
    instr: &Instruction,
    globals: &Vec<Variable>,
    addrof: &Vec<Variable>,
) -> (r: Result<(), AnalysisError>)
    ensures
        match instr_spec::<T>(old(st)@, instr@, vars_view(globals@), vars_view(addrof@)) {
            Ok(m) => r is Ok && final(st)@ == m,
            Err(e) => r == Err::<(), AnalysisError>(e) && final(st)@ == old(st)@,
        },
{
    match instr {
        Instruction::AddrOf { lhs: _, rhs } => {
            if is_int_type(&rhs.typ) && !contains_var(addrof, rhs) {
                return Err(AnalysisError::NotAddressTaken);
            }
            Ok(())
        },
        Instruction::Copy { lhs, op } => {
            if !is_int_type(&lhs.typ) {
                return Ok(());
            }
            if !is_int_operand(op) {
                st.set(lhs.clone(), T::any());
                return Ok(());
            }
            let v = match eval_operand(st, op) {
                Ok(x) => x,
                Err(e) => return Err(e),
            };
            st.set(lhs.clone(), v);
            Ok(())
        },
        Instruction::Arith { lhs, aop, op1, op2 } => {
            if !is_int_operand(op1) || !is_int_operand(op2) {
                st.set(lhs.clone(), T::any());
                return Ok(());
            }
            let a = match eval_operand(st, op1) {
                Ok(x) => x,
                Err(e) => return Err(e),
            };
            let b = match eval_operand(st, op2) {
                Ok(x) => x,
                Err(e) => return Err(e),
            };
            if !a.arith_defined(&b, aop) {
                return Err(AnalysisError::Overflow);
            }
            let v = a.arith(&b, aop);
            st.set(lhs.clone(), v);
            Ok(())
        },
        Instruction::Load { lhs, src: _ } => {
            if is_int_type(&lhs.typ) {
                st.set(lhs.clone(), T::any());
            }
            Ok(())
        },
        Instruction::Store { dst: _, op } => {
            if !is_int_operand(op) {
                return Ok(());
            }
            let v = match eval_operand(st, op) {
                Ok(x) => x,
                Err(e) => return Err(e),
            };
            let mut fresh: Store<T> = Store::new();
            assert(fresh@ == Map::<VariableV, T::V>::empty());
            set_all(&mut fresh, addrof, &v);
            assert(fresh@ == Map::<VariableV, T::V>::empty().union_prefer_right(fill(vars_view(addrof@), v@)));
            assert(fresh@ =~= fill(vars_view(addrof@), v@));
            let joined = st.join(&fresh);
            *st = joined;
            Ok(())
        },
        Instruction::Cmp { lhs, rop, op1, op2 } => {
            if !is_int_type(&lhs.typ) {
                return Ok(());
            }
            if !is_int_operand(op1) || !is_int_operand(op2) {
                st.set(lhs.clone(), T::undecided());
                return Ok(());
            }
            let a = match eval_operand(st, op1) {
                Ok(x) => x,
                Err(e) => return Err(e),
            };
            let b = match eval_operand(st, op2) {
                Ok(x) => x,
                Err(e) => return Err(e),
            };
            proof {
                T::lemma_cmp_defined(a@, b@, *rop);
            }
            let v = a.cmp(&b, rop);
            st.set(lhs.clone(), v);
            Ok(())
        },
        Instruction::CallExt { lhs, ext_callee: _, args } => {
            exe_call(st, lhs, args, globals, addrof);
            Ok(())
        },
        _ => Ok(()),
    }
}

/// The successor labels as views, if any.
pub open spec fn opt_labels_view(s: Option<Vec<String>>) -> Option<Seq<Seq<char>>> {
    match s {
        Some(v) => Some(labels_view(v@)),
        None => None,
    }
}

/// Executes a terminal on a store; gives the successors it reaches, or none
/// when a branch on a non-integer leaves them as they were.
pub fn exe_term_on<T: NumericDomain + Copy>(
    st: &mut Store<T>,
    term: &Terminal,
    globals: &Vec<Variable>,
    addrof: &Vec<Variable>,
) -> (r: Result<Option<Vec<String>>, AnalysisError>)
    ensures
        match term_spec::<T>(old(st)@, term@, vars_view(globals@), vars_view(addrof@)) {
            Ok((m, succ)) => r is Ok && final(st)@ == m && opt_labels_view(r->Ok_0) == succ,
            Err(e) => r == Err::<Option<Vec<String>>, AnalysisError>(e) && final(st)@ == old(st)@,
        },
{
    match term {
        Terminal::CallDirect { lhs, callee: _, args, next_bb } => {
            exe_call(st, lhs, args, globals, addrof);
            let v = vec![next_bb.clone()];
            assert(labels_view(v@) =~= seq![next_bb@]);
            Ok(Some(v))
        },
        Terminal::CallIndirect { lhs, callee: _, args, next_bb } => {
            exe_call(st, lhs, args, globals, addrof);
            let v = vec![next_bb.clone()];
            assert(labels_view(v@) =~= seq![next_bb@]);
            Ok(Some(v))
        },
        Terminal::Jump(l) => {
            let v = vec![l.clone()];
            assert(labels_view(v@) =~= seq![l@]);
            Ok(Some(v))
        },
        Terminal::Branch { cond, tt, ff } => match cond {
            Operand::Var(var) => {
                if !is_int_type(&var.typ) {
                    return Ok(None);
                }
                let d = match st.get(var) {
                    Some(x) => x.branch_targets(),
                    None => {
                        return Err(AnalysisError::UnknownVariable);
                    },
                };
                let v = if d.0 && d.1 {
                    vec![tt.clone(), ff.clone()]
                } else if d.0 {
                    vec![tt.clone()]
                } else if d.1 {
                    vec![ff.clone()]
                } else {
                    Vec::new()
                };
                assert(labels_view(v@) =~= branch_succs(d, tt@, ff@));
                Ok(Some(v))
            },
            Operand::CInt(c) => {
                let v = if *c == 0 {
                    vec![ff.clone()]
                } else {
                    vec![tt.clone()]
                };
                assert(labels_view(v@) =~= (if *c == 0 {
                    seq![ff@]
                } else {
                    seq![tt@]
                }));
                Ok(Some(v))
            },
        },
        Terminal::Ret(_) => {
            let v: Vec<String> = Vec::new();
            assert(labels_view(v@) =~= Seq::<Seq<char>>::empty());
            Ok(Some(v))
        },
    }
}

/// The store after a block and the successors it reaches, or why it stops.
pub open spec fn block_spec<T: NumericDomain>(
    st: Map<VariableV, T::V>,
    b: BlockV,
    globals: Seq<VariableV>,
    addrof: Seq<VariableV>,
) -> Result<(Map<VariableV, T::V>, Option<Seq<Seq<char>>>), AnalysisError> {
    match instrs_spec::<T>(st, b.insts, globals, addrof) {
        Ok(m) => term_spec::<T>(m, b.term, globals, addrof),
        Err(e) => Err(e),
    }
}

/// Executes a block on a store: its instructions in order, then its terminal.
pub fn exe_block_on<T: NumericDomain + Copy>(
    st: &mut Store<T>,
    block: &Block,
    globals: &Vec<Variable>,
    addrof: &Vec<Variable>,
) -> (r: Result<Option<Vec<String>>, AnalysisError>)
    ensures
        match block_spec::<T>(old(st)@, block@, vars_view(globals@), vars_view(addrof@)) {
            Ok((m, succ)) => r is Ok && final(st)@ == m && opt_labels_view(r->Ok_0) == succ,
            Err(e) => r == Err::<Option<Vec<String>>, AnalysisError>(e),
        },
{
    let ghost g = vars_view(globals@);
    let ghost a = vars_view(addrof@);
    let ghost iv = block@.insts;
    let mut i: usize = 0;
    assert(iv.take(0) =~= Seq::<InstructionV>::empty());
    while i < block.insts.len()
        invariant
            i <= block.insts@.len(),
            iv == block@.insts,
            g == vars_view(globals@),
            a == vars_view(addrof@),
            instrs_spec::<T>(old(st)@, iv.take(i as int), g, a) == Ok::<Map<VariableV, T::V>, AnalysisError>(st@),
        decreases block.insts.len() - i,
    {
        assert(iv.take(i + 1).drop_last() =~= iv.take(i as int));
        assert(iv.take(i + 1).last() == block.insts@[i as int]@);
        match exe_instr_on(st, &block.insts[i], globals, addrof) {
            Ok(()) => {},
            Err(e) => {
                proof {
                    lemma_instrs_err_extends::<T>(old(st)@, iv, i as int + 1, g, a);
                }
                return Err(e);
            },
        }
        i += 1;
    }
    assert(iv.take(i as int) =~= iv);
    exe_term_on(st, &block.term, globals, addrof)
}

/// Once a prefix of the instructions fails, the whole sequence fails with the same error.
proof fn lemma_instrs_err_extends<T: NumericDomain>(
    st: Map<VariableV, T::V>,
    s: Seq<InstructionV>,
    n: int,
    g: Seq<VariableV>,
    a: Seq<VariableV>,
)
    requires
        0 <= n <= s.len(),
        instrs_spec::<T>(st, s.take(n), g, a) is Err,
    ensures
        instrs_spec::<T>(st, s, g, a) == instrs_spec::<T>(st, s.take(n), g, a),
    decreases s.len() - n,
{
    if n < s.len() {
        assert(s.take(n + 1).drop_last() =~= s.take(n));
        lemma_instrs_err_extends::<T>(st, s, n + 1, g, a);
    } else {
        assert(s.take(n) =~= s);
    }
}

// ------------------------------------------------------------------
// The analyzers
// ------------------------------------------------------------------

/// A worklist analyzer of one function over a numeric domain: a store per
/// block label, the successors each executed block reaches, and the blocks
/// still to execute, front first.
pub struct Analyzer<T> {
    pub prog: Program,
    pub bb2store: Vec<(String, Store<T>)>,
    pub reachable_successors: Vec<(String, Vec<String>)>,
    pub cfg: ControlFlowGraph,
    pub worklist: Vec<Block>,
    pub global_ints: Vec<Variable>,
    pub addrof_ints: Vec<Variable>,
    pub executed: bool,
}

/// The constant analyzer.
pub type ConstantAnalyzer = Analyzer<Constant>;

/// The interval analyzer.
pub type IntervalAnalyzer = Analyzer<Interval>;

/// A list of labelled stores as views.
pub open spec fn stores_view<T: AbstractSemantics>(s: Seq<(String, Store<T>)>) -> Seq<(Seq<char>, Map<VariableV, T::V>)> {
    s.map_values(|p: (String, Store<T>)| (p.0@, p.1@))
}

/// A list of labelled successor lists as views.
pub open spec fn succs_view(s: Seq<(String, Vec<String>)>) -> Seq<(Seq<char>, Seq<Seq<char>>)> {
    s.map_values(|p: (String, Vec<String>)| (p.0@, labels_view(p.1@)))
}

/// A list of blocks as views.
pub open spec fn blocks_view(s: Seq<Block>) -> Seq<BlockV> {
    s.map_values(|b: Block| b@)
}

/// The first-key position in a list of pairs is the same in any view of it
/// that keeps the keys.
pub proof fn lemma_key_pos_views<A, B>(s: Seq<(String, A)>, t: Seq<(Seq<char>, B)>, k: Seq<char>)
    requires
        s.len() == t.len(),
        forall|i: int| 0 <= i < s.len() ==> #[trigger] t[i].0 == s[i].0@,
    ensures
        key_pos(s, k) == vkey_pos(t, k),
    decreases s.len(),
{
    if s.len() > 0 {
        assert forall|i: int| 0 <= i < s.len() - 1 implies #[trigger] t.drop_first()[i].0 == s.drop_first()[i].0@ by {
            assert(t.drop_first()[i] == t[i + 1]);
            assert(s.drop_first()[i] == s[i + 1]);
        }
        lemma_key_pos_views(s.drop_first(), t.drop_first(), k);
    }
}

/// Sets the entry of a key: replaces the first entry with that key, or appends one.
pub(crate) fn put<A>(v: &mut Vec<(String, A)>, k: String, a: A)
    ensures
        key_pos(old(v)@, k@) >= 0 ==> final(v)@ == old(v)@.update(key_pos(old(v)@, k@), (k, a)),
        key_pos(old(v)@, k@) < 0 ==> final(v)@ == old(v)@.push((k, a)),
{
    proof {
        lemma_key_pos_range(v@, k@);
    }
    match find_key(v, k.as_str()) {
        Some(i) => {
            v.set(i, (k, a));
        },
        None => {
            v.push((k, a));
        },
    }
}

/// Executing one instruction on the store of block `label`: nothing else
/// changes; the store becomes the result of [`instr_spec`], or the error comes.
pub open spec fn instr_post<T: NumericDomain + Copy>(
    a: Analyzer<T>,
    b: Analyzer<T>,
    instr: InstructionV,
    label: Seq<char>,
    r: Result<(), AnalysisError>,
) -> bool {
    &&& b.same_frame(&a)
    &&& b.reachable_successors == a.reachable_successors
    &&& {
        let k = vkey_pos(a.stores(), label);
        if k < 0 {
            r == Err::<(), AnalysisError>(AnalysisError::NoStore) && b.stores() == a.stores()
        } else {
            match instr_spec::<T>(a.stores()[k].1, instr, a.globals(), a.addrofs()) {
                Ok(m) => r is Ok && b.stores() == a.stores().update(k, (label, m)),
                Err(e) => r == Err::<(), AnalysisError>(e) && b.stores() == a.stores(),
            }
        }
    }
}

/// Executing a terminal on the store of block `label`: nothing else changes;
/// the store becomes the result of [`term_spec`] and the successors it reaches
/// are recorded, or the error comes.
pub open spec fn term_post<T: NumericDomain + Copy>(
    a: Analyzer<T>,
    b: Analyzer<T>,
    term: TerminalV,
    label: Seq<char>,
    r: Result<(), AnalysisError>,
) -> bool {
    &&& b.same_frame(&a)
    &&& {
        let k = vkey_pos(a.stores(), label);
        if k < 0 {
            r == Err::<(), AnalysisError>(AnalysisError::NoStore) && b.stores() == a.stores() && b.succs() == a.succs()
        } else {
            match term_spec::<T>(a.stores()[k].1, term, a.globals(), a.addrofs()) {
                Ok((m, succ)) => r is Ok && b.stores() == a.stores().update(k, (label, m)) && b.succs() == match succ {
                    Some(l) => keyed_insert(a.succs(), label, l),
                    None => a.succs(),
                },
                Err(e) => r == Err::<(), AnalysisError>(e) && b.stores() == a.stores() && b.succs() == a.succs(),
            }
        }
    }
}

/// Executing a block on its store: nothing else changes; the store becomes
/// the result of [`block_spec`] and the successors it reaches are recorded,
/// or the error comes.
pub open spec fn block_post<T: NumericDomain + Copy>(
    a: Analyzer<T>,
    b: Analyzer<T>,
    block: BlockV,
    r: Result<(), AnalysisError>,
) -> bool {
    &&& b.same_frame(&a)
    &&& {
        let k = vkey_pos(a.stores(), block.id);
        if k < 0 {
            r == Err::<(), AnalysisError>(AnalysisError::NoStore) && b.stores() == a.stores() && b.succs() == a.succs()
        } else {
            match block_spec::<T>(a.stores()[k].1, block, a.globals(), a.addrofs()) {
                Ok((m, succ)) => r is Ok && b.stores() == a.stores().update(k, (block.id, m)) && b.succs() == match succ {
                    Some(l) => keyed_insert(a.succs(), block.id, l),
                    None => a.succs(),
                },
                Err(e) => r == Err::<(), AnalysisError>(e) && b.stores() == a.stores() && b.succs() == a.succs(),
            }
        }
    }
}

impl<T: NumericDomain + Copy> Analyzer<T> {
    /// The stores, labelled.
    pub open spec fn stores(&self) -> Seq<(Seq<char>, Map<VariableV, T::V>)> {
        stores_view(self.bb2store@)
    }

    /// The reached successors, labelled.
    pub open spec fn succs(&self) -> Seq<(Seq<char>, Seq<Seq<char>>)> {
        succs_view(self.reachable_successors@)
    }

    /// The integer globals.
    pub open spec fn globals(&self) -> Seq<VariableV> {
        vars_view(self.global_ints@)
    }

    /// The address-taken integers.
    pub open spec fn addrofs(&self) -> Seq<VariableV> {
        vars_view(self.addrof_ints@)
    }

    /// Everything but the stores and the reached successors is the same.
    pub open spec fn same_frame(&self, o: &Self) -> bool {
        &&& self.prog == o.prog
        &&& self.cfg == o.cfg
        &&& self.worklist == o.worklist
        &&& self.global_ints == o.global_ints
        &&& self.addrof_ints == o.addrof_ints
        &&& self.executed == o.executed
    }

    /// Everything but the stores, the reached successors and the worklist is the same.
    pub open spec fn same_frame_but_worklist(&self, o: &Self) -> bool {
        &&& self.prog == o.prog
        &&& self.cfg == o.cfg
        &&& self.global_ints == o.global_ints
        &&& self.addrof_ints == o.addrof_ints
        &&& self.executed == o.executed
    }

    proof fn lemma_store_pos(&self, k: Seq<char>)
        ensures
            key_pos(self.bb2store@, k) == vkey_pos(self.stores(), k),
            -1 <= vkey_pos(self.stores(), k) < self.stores().len(),
            vkey_pos(self.stores(), k) >= 0 ==> self.stores()[vkey_pos(self.stores(), k)].0 == k,
    {
        lemma_key_pos_views(self.bb2store@, self.stores(), k);
        lemma_vkey_pos(self.stores(), k);
    }

    proof fn lemma_succ_pos(&self, k: Seq<char>)
        ensures
            key_pos(self.reachable_successors@, k) == vkey_pos(self.succs(), k),
            -1 <= vkey_pos(self.succs(), k) < self.succs().len(),
            vkey_pos(self.succs(), k) >= 0 ==> self.succs()[vkey_pos(self.succs(), k)].0 == k,
    {
        lemma_key_pos_views(self.reachable_successors@, self.succs(), k);
        lemma_vkey_pos(self.succs(), k);
    }

    /// Records the successors that a block reaches.
    fn put_succs(&mut self, label: String, succ: Vec<String>)
        ensures
            final(self).same_frame(old(self)),
            final(self).bb2store == old(self).bb2store,
            final(self).succs() == keyed_insert(old(self).succs(), label@, labels_view(succ@)),
    {
        proof {
            self.lemma_succ_pos(label@);
        }
        let ghost l = label@;
        let ghost sv = labels_view(succ@);
        put(&mut self.reachable_successors, label, succ);
        assert(self.succs() =~= keyed_insert(old(self).succs(), l, sv));
    }

    /// Executes one instruction on the store of a block.
    pub fn exe_instr(&mut self, instr: &Instruction, bb_label: &str) -> (r: Result<(), AnalysisError>)
        ensures
            instr_post(*old(self), *final(self), instr@, bb_label@, r),
    {
        proof {
            self.lemma_store_pos(bb_label@);
        }
        match find_key(&self.bb2store, bb_label) {
            None => Err(AnalysisError::NoStore),
            Some(i) => {
                let mut st = self.bb2store[i].1.clone_store();
                match exe_instr_on(&mut st, instr, &self.global_ints, &self.addrof_ints) {
                    Ok(()) => {
                        let key = self.bb2store[i].0.clone();
                        let ghost m = st@;
                        self.bb2store.set(i, (key, st));
                        assert(self.stores() =~= old(self).stores().update(i as int, (bb_label@, m)));
                        Ok(())
                    },
                    Err(e) => Err(e),
                }
            },
        }
    }

    /// Executes a terminal on the store of a block and records the successors it reaches.
    pub fn exe_term(&mut self, term: &Terminal, bb_label: &str) -> (r: Result<(), AnalysisError>)
        ensures
            term_post(*old(self), *final(self), term@, bb_label@, r),
    {
        proof {
            self.lemma_store_pos(bb_label@);
        }
        match find_key(&self.bb2store, bb_label) {
            None => Err(AnalysisError::NoStore),
            Some(i) => {
                let mut st = self.bb2store[i].1.clone_store();
                match exe_term_on(&mut st, term, &self.global_ints, &self.addrof_ints) {
                    Ok(succ) => {
                        let key = self.bb2store[i].0.clone();
                        let ghost m = st@;
                        self.bb2store.set(i, (key, st));
                        assert(self.stores() =~= old(self).stores().update(i as int, (bb_label@, m)));
                        match succ {
                            Some(l) => {
                                self.put_succs(String::from_str(bb_label), l);
                            },
                            None => {},
                        }
                        Ok(())
                    },
                    Err(e) => Err(e),
                }
            },
        }
    }

    /// Executes a block on its store (the store of its id): its instructions,
    /// then its terminal, recording the successors it reaches.
    pub fn exe_block(&mut self, block: &Block) -> (r: Result<(), AnalysisError>)
        ensures
            block_post(*old(self), *final(self), block@, r),
    {
        proof {
            self.lemma_store_pos(block@.id);
        }
        match find_key(&self.bb2store, block.id.as_str()) {
            None => Err(AnalysisError::NoStore),
            Some(i) => {
                let mut st = self.bb2store[i].1.clone_store();
                match exe_block_on(&mut st, block, &self.global_ints, &self.addrof_ints) {
                    Ok(succ) => {
                        let key = self.bb2store[i].0.clone();
                        let ghost m = st@;
                        self.bb2store.set(i, (key, st));
                        assert(self.stores() =~= old(self).stores().update(i as int, (block@.id, m)));
                        match succ {
                            Some(l) => {
                                self.put_succs(block.id.clone(), l);
                            },
                            None => {},
                        }
                        Ok(())
                    },
                    Err(e) => Err(e),
                }
            },
        }
    }
}

/// The initial stores: an empty store for each label, set in order.
pub open spec fn empty_stores<V>(labels: Seq<Seq<char>>) -> Seq<(Seq<char>, Map<VariableV, V>)>
    decreases labels.len(),
{
    if labels.len() == 0 {
        Seq::empty()
    } else {
        keyed_insert(empty_stores(labels.drop_last()), labels.last(), Map::empty())
    }
}

/// The store at the entry: the integer locals hold no value, then the
/// integer globals and the integer parameters hold any value.
pub open spec fn entry_store_spec<T: NumericDomain>(
    locals: Seq<VariableV>,
    globals: Seq<VariableV>,
    params: Seq<VariableV>,
) -> Map<VariableV, T::V> {
    Map::<VariableV, T::V>::empty().union_prefer_right(fill(locals, T::none_spec())).union_prefer_right(
        fill(globals, T::any_spec()),
    ).union_prefer_right(fill(params, T::any_spec()))
}

/// The integer variables of a list, in order.
pub open spec fn int_vars(s: Seq<Variable>) -> Seq<VariableV> {
    vars_view(s).filter(class_pred(TypeClass::IntVar))
}

impl<T: NumericDomain + Copy> Analyzer<T> {
    /// An analyzer of the named function, which must have a block labelled
    /// `entry`: the graph of the function, the entry block on the worklist,
    /// an empty store for every block but the entry, whose store holds no
    /// value for the integer locals and any value for the integer globals and
    /// parameters.
    pub fn new(prog: Program, func_name: &str) -> (r: Self)
        requires
            prog.has_function(func_name@),
            key_pos(prog.function(func_name@).body@, "entry"@) >= 0,
        ensures
            r.prog == prog,
            r.cfg.node_seq() == body_nodes(prog.function(func_name@).body@),
            r.cfg.edge_seq() == body_edges(prog.function(func_name@).body@),
            r.cfg.node_map().dom().contains("entry"@),
            blocks_view(r.worklist@) == seq![r.cfg.node_map()["entry"@]],
            r.stores() == keyed_insert(
                empty_stores::<T::V>(node_labels(r.cfg.node_seq())),
                "entry"@,
                entry_store_spec::<T>(
                    int_vars(prog.function(func_name@).locals@),
                    int_vars(prog.globals@),
                    int_vars(prog.function(func_name@).params@),
                ),
            ),
            r.succs().len() == 0,
            r.globals() == int_vars(prog.globals@),
            r.addrofs() == dedup(addrof_int_body(prog.function(func_name@).body@) + int_vars(prog.globals@)),
            !r.executed,
    {
        let cfg = ControlFlowGraph::from_function(&prog, func_name);
        let global_ints = prog.get_int_globals();
        let param_ints = prog.get_int_parameters(func_name);
        let local_ints = prog.get_int_locals(func_name);
        let addrof_ints = prog.get_addrof_ints(func_name);
        let mut entry_store: Store<T> = Store::new();
        set_all(&mut entry_store, &local_ints, &T::none());
        set_all(&mut entry_store, &global_ints, &T::any());
        set_all(&mut entry_store, &param_ints, &T::any());
        proof {
            let body = prog.function(func_name@).body@;
            lemma_key_pos_range(body, "entry"@);
            lemma_body_nodes_keys(body, "entry"@);
            assert(body[key_pos(body, "entry"@)].0@ == "entry"@);
        }
        let entry = match cfg.get_entry() {
            Some(b) => b.clone(),
            None => Block::new("entry", &Terminal::Ret(None)),
        };
        let mut worklist: Vec<Block> = Vec::new();
        worklist.push(entry);
        assert(blocks_view(worklist@) =~= seq![cfg.node_map()["entry"@]]);
        let labels = cfg.get_all_block_labels();
        let mut bb2store: Vec<(String, Store<T>)> = Vec::new();
        let mut i: usize = 0;
        assert(labels_view(labels@).take(0) =~= Seq::<Seq<char>>::empty());
        while i < labels.len()
            invariant
                i <= labels@.len(),
                stores_view(bb2store@) == empty_stores::<T::V>(labels_view(labels@).take(i as int)),
            decreases labels.len() - i,
        {
            let ghost prev = stores_view(bb2store@);
            let k = labels[i].clone();
            proof {
                lemma_key_pos_views(bb2store@, prev, k@);
                lemma_vkey_pos(prev, k@);
            }
            let e: Store<T> = Store::new();
            put(&mut bb2store, k, e);
            assert(labels_view(labels@).take(i + 1).drop_last() =~= labels_view(labels@).take(i as int));
            assert(labels_view(labels@)[i as int] == labels@[i as int]@);
            assert(stores_view(bb2store@) =~= keyed_insert(prev, labels@[i as int]@, Map::<VariableV, T::V>::empty()));
            i += 1;
        }
        assert(labels_view(labels@).take(labels@.len() as int) =~= labels_view(labels@));
        let ghost prev = stores_view(bb2store@);
        let ek = String::from_str("entry");
        proof {
            lemma_key_pos_views(bb2store@, prev, ek@);
            lemma_vkey_pos(prev, ek@);
        }
        let ghost em = entry_store@;
        put(&mut bb2store, ek, entry_store);
        assert(stores_view(bb2store@) =~= keyed_insert(prev, "entry"@, em));
        let r = Analyzer {
            prog,
            bb2store,
            reachable_successors: Vec::new(),
            cfg,
            worklist,
            global_ints,
            addrof_ints,
            executed: false,
        };
        assert(r.succs() =~= Seq::<(Seq<char>, Seq<Seq<char>>)>::empty());
        assert(em =~= entry_store_spec::<T>(
            int_vars(r.prog.function(func_name@).locals@),
            int_vars(r.prog.globals@),
            int_vars(r.prog.function(func_name@).params@),
        ));
        r
    }
}

// ------------------------------------------------------------------
// One step of the worklist iteration
// ------------------------------------------------------------------

/// A list of labelled visit counts as views.
pub open spec fn counts_view(s: Seq<(String, u32)>) -> Seq<(Seq<char>, u32)> {
    s.map_values(|p: (String, u32)| (p.0@, p.1))
}

/// A list of block references as views.
pub open spec fn block_refs_view(s: Seq<&Block>) -> Seq<BlockV> {
    s.map_values(|b: &Block| b@)
}

/// The blocks of the predecessors of a block in the graph, or why they cannot be found.
pub open spec fn preds_spec(
    nodes: Seq<(Seq<char>, BlockV)>,
    edges: Seq<(Seq<char>, Seq<char>)>,
    b: BlockV,
) -> Result<Seq<BlockV>, AnalysisError> {
    match label_of_block(nodes, b) {
        None => Err(AnalysisError::UnknownBlock),
        Some(l) => {
            let ps = srcs_into(edges, l);
            if forall|j: int| 0 <= j < ps.len() ==> keyed_map(nodes).dom().contains(#[trigger] ps[j]) {
                Ok(ps.map_values(|p: Seq<char>| keyed_map(nodes)[p]))
            } else {
                Err(AnalysisError::UnknownBlock)
            }
        },
    }
}

/// The join of the stores of those predecessors whose recorded successors
/// hold the block id, in order, or why a store is missing.
pub open spec fn join_preds<T: NumericDomain>(
    stores: Seq<(Seq<char>, Map<VariableV, T::V>)>,
    succs: Seq<(Seq<char>, Seq<Seq<char>>)>,
    preds: Seq<BlockV>,
    id: Seq<char>,
) -> Result<Map<VariableV, T::V>, AnalysisError>
    decreases preds.len(),
{
    if preds.len() == 0 {
        Ok(Map::empty())
    } else {
        match join_preds::<T>(stores, succs, preds.drop_last(), id) {
            Err(e) => Err(e),
            Ok(acc) => {
                let p = preds.last();
                let k = vkey_pos(succs, p.id);
                if k >= 0 && succs[k].1.contains(id) {
                    let ks = vkey_pos(stores, p.id);
                    if ks < 0 {
                        Err(AnalysisError::NoStore)
                    } else {
                        Ok(store_join_spec::<T>(acc, stores[ks].1))
                    }
                } else {
                    Ok(acc)
                }
            },
        }
    }
}

/// The worklist after appending, in order, the block of each label that is
/// not on it yet, or why a label is not a block.
pub open spec fn push_succs(
    wl: Seq<BlockV>,
    labels: Seq<Seq<char>>,
    nm: Map<Seq<char>, BlockV>,
) -> Result<Seq<BlockV>, AnalysisError>
    decreases labels.len(),
{
    if labels.len() == 0 {
        Ok(wl)
    } else {
        match push_succs(wl, labels.drop_last(), nm) {
            Err(e) => Err(e),
            Ok(w) => {
                let l = labels.last();
                if !nm.dom().contains(l) {
                    Err(AnalysisError::UnknownBlock)
                } else if w.contains(nm[l]) {
                    Ok(w)
                } else {
                    Ok(w.push(nm[l]))
                }
            },
        }
    }
}

/// The stores before executing the front block: unchanged for the entry
/// block, else its store is the join from its reaching predecessors.
pub open spec fn constant_prepare<T: NumericDomain>(
    stores: Seq<(Seq<char>, Map<VariableV, T::V>)>,
    succs: Seq<(Seq<char>, Seq<Seq<char>>)>,
    nodes: Seq<(Seq<char>, BlockV)>,
    edges: Seq<(Seq<char>, Seq<char>)>,
    b: BlockV,
) -> Result<Seq<(Seq<char>, Map<VariableV, T::V>)>, AnalysisError> {
    let nm = keyed_map(nodes);
    if !nm.dom().contains("entry"@) {
        Err(AnalysisError::NoEntry)
    } else if b == nm["entry"@] {
        Ok(stores)
    } else {
        match preds_spec(nodes, edges, b) {
            Err(e) => Err(e),
            Ok(ps) => match join_preds::<T>(stores, succs, ps, b.id) {
                Err(e) => Err(e),
                Ok(m) => Ok(keyed_insert(stores, b.id, m)),
            },
        }
    }
}

/// The state after the front block has been executed, given the worklist
/// without it and the stores and reached successors after its execution:
/// its reached successors are queued if its store changed or it had not
/// been visited yet, and its visit count grows by one.
pub open spec fn constant_finish<V>(
    rest: Seq<BlockV>,
    before: Map<VariableV, V>,
    after: Map<VariableV, V>,
    succs: Seq<(Seq<char>, Seq<Seq<char>>)>,
    counts: Seq<(Seq<char>, u32)>,
    nm: Map<Seq<char>, BlockV>,
    id: Seq<char>,
) -> Result<(Seq<BlockV>, Seq<(Seq<char>, u32)>), AnalysisError> {
    let kc = vkey_pos(counts, id);
    let changed = before != after;
    if !changed && kc < 0 {
        Err(AnalysisError::NotCounted)
    } else {
        let queued = if changed || counts[kc].1 == 0 {
            let ks = vkey_pos(succs, id);
            if ks < 0 {
                Err(AnalysisError::NoSuccessors)
            } else {
                push_succs(rest, succs[ks].1, nm)
            }
        } else {
            Ok(rest)
        };
        match queued {
            Err(e) => Err(e),
            Ok(w) => if kc < 0 {
                Err(AnalysisError::NotCounted)
            } else if counts[kc].1 == u32::MAX {
                Err(AnalysisError::Overflow)
            } else {
                Ok((w, counts.update(kc, (id, (counts[kc].1 + 1) as u32))))
            },
        }
    }
}

/// One step of the constant analysis on a nonempty worklist: the front
/// block is taken off; unless it is the entry block its store becomes the
/// join of the stores of the predecessors that reached it; it is executed;
/// then [`constant_finish`] applies. The result is the new worklist, stores,
/// reached successors and visit counts.
pub open spec fn constant_step<T: NumericDomain>(
    wl: Seq<BlockV>,
    stores: Seq<(Seq<char>, Map<VariableV, T::V>)>,
    succs: Seq<(Seq<char>, Seq<Seq<char>>)>,
    counts: Seq<(Seq<char>, u32)>,
    nodes: Seq<(Seq<char>, BlockV)>,
    edges: Seq<(Seq<char>, Seq<char>)>,
    globals: Seq<VariableV>,
    addrof: Seq<VariableV>,
) -> Result<
    (
        Seq<BlockV>,
        Seq<(Seq<char>, Map<VariableV, T::V>)>,
        Seq<(Seq<char>, Seq<Seq<char>>)>,
        Seq<(Seq<char>, u32)>,
    ),
    AnalysisError,
> {
    let b = wl[0];
    let kb = vkey_pos(stores, b.id);
    if kb < 0 {
        Err(AnalysisError::NoStore)
    } else {
        match constant_prepare::<T>(stores, succs, nodes, edges, b) {
            Err(e) => Err(e),
            Ok(st1) => {
                let k1 = vkey_pos(st1, b.id);
                match block_spec::<T>(st1[k1].1, b, globals, addrof) {
                    Err(e) => Err(e),
                    Ok((m, succ)) => {
                        let st2 = st1.update(k1, (b.id, m));
                        let sc2 = match succ {
                            Some(l) => keyed_insert(succs, b.id, l),
                            None => succs,
                        };
                        match constant_finish(wl.drop_first(), stores[kb].1, m, sc2, counts, keyed_map(nodes), b.id) {
                            Err(e) => Err(e),
                            Ok((w, c)) => Ok((w, st2, sc2, c)),
                        }
                    },
                }
            },
        }
    }
}

/// Whether a block with the view of `b` is on the list.
pub fn blocks_contain(wl: &Vec<Block>, b: &Block) -> (r: bool)
    ensures
        r == blocks_view(wl@).contains(b@),
{
    let mut i: usize = 0;
    while i < wl.len()
        invariant
            i <= wl@.len(),
            forall|j: int| 0 <= j < i ==> wl@[j]@ != b@,
        decreases wl.len() - i,
    {
        if block_eq(&wl[i], b) {
            assert(blocks_view(wl@)[i as int] == b@);
            return true;
        }
        i += 1;
    }
    proof {
        if blocks_view(wl@).contains(b@) {
            let j = choose|j: int| 0 <= j < blocks_view(wl@).len() && blocks_view(wl@)[j] == b@;
            assert(wl@[j]@ == b@);
        }
    }
    false
}

/// Whether a label with the view of `l` is on the list.
pub(crate) fn labels_contain(v: &Vec<String>, l: &String) -> (r: bool)
    ensures
        r == labels_view(v@).contains(l@),
{
    let mut i: usize = 0;
    while i < v.len()
        invariant
            i <= v@.len(),
            forall|j: int| 0 <= j < i ==> v@[j]@ != l@,
        decreases v.len() - i,
    {
        if v[i] == *l {
            assert(labels_view(v@)[i as int] == l@);
            return true;
        }
        i += 1;
    }
    proof {
        if labels_view(v@).contains(l@) {
            let j = choose|j: int| 0 <= j < labels_view(v@).len() && labels_view(v@)[j] == l@;
            assert(v@[j]@ == l@);
        }
    }
    false
}

impl<T: NumericDomain + Copy> Analyzer<T> {
    /// Sets the store of a label.
    fn put_store(&mut self, label: String, st: Store<T>)
        ensures
            final(self).same_frame(old(self)),
            final(self).reachable_successors == old(self).reachable_successors,
            final(self).stores() == keyed_insert(old(self).stores(), label@, st@),
    {
        proof {
            self.lemma_store_pos(label@);
        }
        let ghost l = label@;
        let ghost m = st@;
        put(&mut self.bb2store, label, st);
        assert(self.stores() =~= keyed_insert(old(self).stores(), l, m));
    }

    /// Appends, in order, the block of each label that is not on the worklist yet.
    fn queue_labels(&mut self, ks: usize) -> (r: Result<(), AnalysisError>)
        requires
            ks < old(self).reachable_successors@.len(),
        ensures
            final(self).bb2store == old(self).bb2store,
            final(self).reachable_successors == old(self).reachable_successors,
            final(self).prog == old(self).prog,
            final(self).cfg == old(self).cfg,
            final(self).global_ints == old(self).global_ints,
            final(self).addrof_ints == old(self).addrof_ints,
            final(self).executed == old(self).executed,
            match push_succs(
                blocks_view(old(self).worklist@),
                labels_view(old(self).reachable_successors@[ks as int].1@),
                old(self).cfg.node_map(),
            ) {
                Ok(w) => r is Ok && blocks_view(final(self).worklist@) == w,
                Err(e) => r == Err::<(), AnalysisError>(e),
            },
    {
        let ghost labels = labels_view(self.reachable_successors@[ks as int].1@);
        let ghost nm = self.cfg.node_map();
        let ghost w0 = blocks_view(self.worklist@);
        let n = self.reachable_successors[ks].1.len();
        let mut j: usize = 0;
        assert(labels.take(0) =~= Seq::<Seq<char>>::empty());
        while j < n
            invariant
                j <= n,
                n == labels.len(),
                labels == labels_view(self.reachable_successors@[ks as int].1@),
                nm == self.cfg.node_map(),
                ks < self.reachable_successors@.len(),
                self.bb2store == old(self).bb2store,
                self.reachable_successors == old(self).reachable_successors,
                self.prog == old(self).prog,
                self.cfg == old(self).cfg,
                self.global_ints == old(self).global_ints,
                self.addrof_ints == old(self).addrof_ints,
                self.executed == old(self).executed,
                w0 == blocks_view(old(self).worklist@),
                push_succs(w0, labels.take(j as int), nm) == Ok::<Seq<BlockV>, AnalysisError>(blocks_view(self.worklist@)),
            decreases n - j,
        {
            assert(labels.take(j + 1).drop_last() =~= labels.take(j as int));
            assert(labels.take(j + 1).last() == self.reachable_successors@[ks as int].1@[j as int]@);
            match self.cfg.get_block(self.reachable_successors[ks].1[j].as_str()) {
                None => {
                    proof {
                        lemma_push_succs_err_extends(w0, labels, j as int + 1, nm);
                    }
                    return Err(AnalysisError::UnknownBlock);
                },
                Some(b) => {
                    if !blocks_contain(&self.worklist, b) {
                        let c = b.clone();
                        let ghost prev = blocks_view(self.worklist@);
                        self.worklist.push(c);
                        assert(blocks_view(self.worklist@) =~= prev.push(c@));
                    }
                },
            }
            j += 1;
        }
        assert(labels.take(n as int) =~= labels);
        Ok(())
    }
}

/// Once pushing a prefix of the labels fails, pushing all of them fails the same way.
proof fn lemma_push_succs_err_extends(wl: Seq<BlockV>, labels: Seq<Seq<char>>, n: int, nm: Map<Seq<char>, BlockV>)
    requires
        0 <= n <= labels.len(),
        push_succs(wl, labels.take(n), nm) is Err,
    ensures
        push_succs(wl, labels, nm) == push_succs(wl, labels.take(n), nm),
    decreases labels.len() - n,
{
    if n < labels.len() {
        assert(labels.take(n + 1).drop_last() =~= labels.take(n));
        lemma_push_succs_err_extends(wl, labels, n + 1, nm);
    } else {
        assert(labels.take(n) =~= labels);
    }
}

/// Once joining a prefix of the predecessors fails, joining all of them fails the same way.
proof fn lemma_join_preds_err_extends<T: NumericDomain>(
    stores: Seq<(Seq<char>, Map<VariableV, T::V>)>,
    succs: Seq<(Seq<char>, Seq<Seq<char>>)>,
    preds: Seq<BlockV>,
    n: int,
    id: Seq<char>,
)
    requires
        0 <= n <= preds.len(),
        join_preds::<T>(stores, succs, preds.take(n), id) is Err,
    ensures
        join_preds::<T>(stores, succs, preds, id) == join_preds::<T>(stores, succs, preds.take(n), id),
    decreases preds.len() - n,
{
    if n < preds.len() {
        assert(preds.take(n + 1).drop_last() =~= preds.take(n));
        lemma_join_preds_err_extends::<T>(stores, succs, preds, n + 1, id);
    } else {
        assert(preds.take(n) =~= preds);
    }
}

impl<T: NumericDomain + Copy> Analyzer<T> {
    /// Before a block from the worklist is executed: unless it is the entry
    /// block, its store becomes the join of the stores of its predecessors
    /// whose recorded successors hold its id.
    fn prepare_front(&mut self, block: &Block) -> (r: Result<(), AnalysisError>)
        ensures
            final(self).same_frame(old(self)),
            final(self).reachable_successors == old(self).reachable_successors,
            match constant_prepare::<T>(
                old(self).stores(),
                old(self).succs(),
                old(self).cfg.node_seq(),
                old(self).cfg.edge_seq(),
                block@,
            ) {
                Ok(st) => r is Ok && final(self).stores() == st,
                Err(e) => r == Err::<(), AnalysisError>(e),
            },
    {
        match self.cfg.get_entry() {
            None => {
                return Err(AnalysisError::NoEntry);
            },
            Some(e) => {
                if block_eq(block, e) {
                    return Ok(());
                }
            },
        }
        let label = match self.cfg.get_block_label(block) {
            None => {
                return Err(AnalysisError::UnknownBlock);
            },
            Some(l) => l,
        };
        let plabels = self.cfg.get_predecessor_labels(label.as_str());
        let ghost ps = labels_view(plabels@);
        let ghost nm = self.cfg.node_map();
        let mut j: usize = 0;
        while j < plabels.len()
            invariant
                j <= plabels@.len(),
                ps == labels_view(plabels@),
                nm == self.cfg.node_map(),
                forall|jj: int| 0 <= jj < j ==> nm.dom().contains(#[trigger] ps[jj]),
                label_of_block(self.cfg.node_seq(), block@) == Some(label@),
                srcs_into(self.cfg.edge_seq(), label@) == ps,
                nm.dom().contains("entry"@),
                block@ != nm["entry"@],
            decreases plabels.len() - j,
        {
            assert(ps[j as int] == plabels@[j as int]@);
            if self.cfg.get_block(plabels[j].as_str()).is_none() {
                assert(!nm.dom().contains(ps[j as int]));
                assert(!(forall|jj: int| 0 <= jj < ps.len() ==> nm.dom().contains(#[trigger] ps[jj])));
                return Err(AnalysisError::UnknownBlock);
            }
            j += 1;
        }
        proof {
            assert forall|l: Seq<char>| ps.contains(l) implies nm.dom().contains(l) by {
                let jj = choose|jj: int| 0 <= jj < ps.len() && ps[jj] == l;
                assert(nm.dom().contains(ps[jj]));
            }
        }
        let preds = self.cfg.get_predecessors(block);
        let ghost pv = block_refs_view(preds@);
        assert(pv =~= ps.map_values(|p: Seq<char>| nm[p]));
        assert(preds_spec(self.cfg.node_seq(), self.cfg.edge_seq(), block@) == Ok::<Seq<BlockV>, AnalysisError>(pv));
        let ghost stores0 = self.stores();
        let ghost succs0 = self.succs();
        let mut joined: Store<T> = Store::new();
        let mut i: usize = 0;
        assert(pv.take(0) =~= Seq::<BlockV>::empty());
        while i < preds.len()
            invariant
                i <= preds@.len(),
                pv == block_refs_view(preds@),
                stores0 == self.stores(),
                succs0 == self.succs(),
                preds_spec(self.cfg.node_seq(), self.cfg.edge_seq(), block@) == Ok::<Seq<BlockV>, AnalysisError>(pv),
                self.cfg.node_map().dom().contains("entry"@),
                block@ != self.cfg.node_map()["entry"@],
                join_preds::<T>(stores0, succs0, pv.take(i as int), block@.id) == Ok::<
                    Map<VariableV, T::V>,
                    AnalysisError,
                >(joined@),
            decreases preds.len() - i,
        {
            let p = preds[i];
            assert(pv.take(i + 1).drop_last() =~= pv.take(i as int));
            assert(pv.take(i + 1).last() == p@);
            proof {
                self.lemma_succ_pos(p@.id);
                self.lemma_store_pos(p@.id);
            }
            match find_key(&self.reachable_successors, p.id.as_str()) {
                Some(ks) => {
                    assert(succs0[ks as int].1 == labels_view(self.reachable_successors@[ks as int].1@));
                    if labels_contain(&self.reachable_successors[ks].1, &block.id) {
                        match find_key(&self.bb2store, p.id.as_str()) {
                            Some(kp) => {
                                joined = joined.join(&self.bb2store[kp].1);
                            },
                            None => {
                                proof {
                                    assert(join_preds::<T>(stores0, succs0, pv.take(i + 1), block@.id) is Err);
                                    lemma_join_preds_err_extends::<T>(stores0, succs0, pv, i + 1, block@.id);
                                }
                                return Err(AnalysisError::NoStore);
                            },
                        }
                    }
                },
                None => {},
            }
            i += 1;
        }
        assert(pv.take(preds@.len() as int) =~= pv);
        self.put_store(block.id.clone(), joined);
        Ok(())
    }
}

impl Analyzer<Constant> {
    /// One step of the constant analysis; see [`constant_step`]. The visit
    /// counts are kept by the caller across steps.
    pub fn mfp_step(&mut self, visited: &mut Vec<(String, u32)>) -> (r: Result<(), AnalysisError>)
        requires
            old(self).worklist@.len() > 0,
        ensures
            final(self).prog == old(self).prog,
            final(self).cfg == old(self).cfg,
            final(self).global_ints == old(self).global_ints,
            final(self).addrof_ints == old(self).addrof_ints,
            final(self).executed == old(self).executed,
            match constant_step::<Constant>(
                blocks_view(old(self).worklist@),
                old(self).stores(),
                old(self).succs(),
                counts_view(old(visited)@),
                old(self).cfg.node_seq(),
                old(self).cfg.edge_seq(),
                old(self).globals(),
                old(self).addrofs(),
            ) {
                Ok((w, st, sc, c)) => r is Ok && blocks_view(final(self).worklist@) == w && final(self).stores() == st
                    && final(self).succs() == sc && counts_view(final(visited)@) == c,
                Err(e) => r == Err::<(), AnalysisError>(e),
            },
    {
        let ghost wl0 = blocks_view(self.worklist@);
        let ghost stores0 = self.stores();
        let ghost succs0 = self.succs();
        let ghost counts0 = counts_view(visited@);
        let block = self.worklist.remove(0);
        assert(blocks_view(self.worklist@) =~= wl0.drop_first());
        assert(block@ == wl0[0]);
        proof {
            self.lemma_store_pos(block@.id);
        }
        let before = match find_key(&self.bb2store, block.id.as_str()) {
            None => {
                return Err(AnalysisError::NoStore);
            },
            Some(kb) => self.bb2store[kb].1.clone_store(),
        };
        match self.prepare_front(&block) {
            Ok(()) => {},
            Err(e) => {
                return Err(e);
            },
        }
        let ghost st1 = self.stores();
        proof {
            lemma_keyed_insert_keys(stores0, block@.id, Map::<VariableV, Constant>::empty(), block@.id);
            let nodes = self.cfg.node_seq();
            if keyed_map(nodes).dom().contains("entry"@) && block@ != keyed_map(nodes)["entry"@] {
                match preds_spec(nodes, self.cfg.edge_seq(), block@) {
                    Ok(ps) => match join_preds::<Constant>(stores0, succs0, ps, block@.id) {
                        Ok(m) => {
                            lemma_keyed_insert_keys(stores0, block@.id, m, block@.id);
                        },
                        Err(_) => {},
                    },
                    Err(_) => {},
                }
            }
            lemma_vkey_pos(st1, block@.id);
        }
        match self.exe_block(&block) {
            Ok(()) => {},
            Err(e) => {
                return Err(e);
            },
        }
        let ghost k1 = vkey_pos(st1, block@.id);
        proof {
            lemma_vkey_pos_same_keys(st1, self.stores(), block@.id);
            self.lemma_store_pos(block@.id);
            self.lemma_succ_pos(block@.id);
        }
        let changed = match find_key(&self.bb2store, block.id.as_str()) {
            Some(k) => !before.equals(&self.bb2store[k].1),
            None => false,
        };
        let kc = find_key(visited, block.id.as_str());
        proof {
            lemma_key_pos_views(visited@, counts0, block@.id);
            lemma_vkey_pos(counts0, block@.id);
        }
        let queue = match kc {
            None => {
                if !changed {
                    return Err(AnalysisError::NotCounted);
                }
                true
            },
            Some(i) => changed || visited[i].1 == 0,
        };
        if queue {
            match find_key(&self.reachable_successors, block.id.as_str()) {
                None => {
                    return Err(AnalysisError::NoSuccessors);
                },
                Some(ks) => {
                    match self.queue_labels(ks) {
                        Ok(()) => {},
                        Err(e) => {
                            return Err(e);
                        },
                    }
                },
            }
        }
        match kc {
            None => Err(AnalysisError::NotCounted),
            Some(i) => {
                let c = visited[i].1;
                if c == u32::MAX {
                    return Err(AnalysisError::Overflow);
                }
                let k = visited[i].0.clone();
                visited.set(i, (k, c + 1));
                assert(counts_view(visited@) =~= counts0.update(i as int, (block@.id, (c + 1) as u32)));
                Ok(())
            },
        }
    }
}

/// The stores and worklist after the interval analysis visits one reached
/// successor `l` of the executed block `id`: the successor's store is
/// overwritten by the block's store when the block is a loop header, else
/// widened with it (when `l` is a loop header visited before) or joined with
/// it; when the block has been visited more than once and `l` before, the
/// candidate is first tried by executing the successor on it. If the
/// (tried) candidate differs from the successor's store, the candidate
/// becomes its store and the successor is queued unless already queued.
pub open spec fn interval_visit_succ(
    st: Seq<(Seq<char>, Map<VariableV, Interval>)>,
    w: Seq<BlockV>,
    l: Seq<char>,
    id: Seq<char>,
    cnt_b: u32,
    counts: Seq<(Seq<char>, u32)>,
    headers: Seq<Seq<char>>,
    nm: Map<Seq<char>, BlockV>,
    globals: Seq<VariableV>,
    addrof: Seq<VariableV>,
) -> Result<(Seq<(Seq<char>, Map<VariableV, Interval>)>, Seq<BlockV>), AnalysisError> {
    if !nm.dom().contains(l) {
        Err(AnalysisError::UnknownBlock)
    } else if vkey_pos(st, l) < 0 || vkey_pos(st, id) < 0 {
        Err(AnalysisError::NoStore)
    } else if vkey_pos(counts, l) < 0 {
        Err(AnalysisError::NotCounted)
    } else {
        let succ = nm[l];
        let ss = st[vkey_pos(st, l)].1;
        let cur = st[vkey_pos(st, id)].1;
        let cnt_l = counts[vkey_pos(counts, l)].1;
        let updated = ss.union_prefer_right(cur);
        let joined = if cnt_l > 0 && headers.contains(l) {
            store_widen_spec(ss, cur)
        } else {
            store_join_spec::<Interval>(ss, cur)
        };
        let chosen = if headers.contains(id) {
            updated
        } else {
            joined
        };
        let tried = if cnt_b > 1 && cnt_l > 0 {
            let md = keyed_map(st).insert(l, chosen);
            if !md.dom().contains(succ.id) {
                Err(AnalysisError::NoStore)
            } else {
                match block_spec::<Interval>(md[succ.id], succ, globals, addrof) {
                    Err(e) => Err(e),
                    Ok((m, _)) => Ok(
                        if succ.id == l {
                            m
                        } else {
                            chosen
                        },
                    ),
                }
            }
        } else {
            Ok(chosen)
        };
        match tried {
            Err(e) => Err(e),
            Ok(nv) => if nv != ss {
                Ok(
                    (
                        keyed_insert(st, l, chosen),
                        if w.contains(succ) {
                            w
                        } else {
                            w.push(succ)
                        },
                    ),
                )
            } else {
                Ok((st, w))
            },
        }
    }
}

/// [`interval_visit_succ`] for each reached successor in order.
pub open spec fn interval_visit_all(
    st: Seq<(Seq<char>, Map<VariableV, Interval>)>,
    w: Seq<BlockV>,
    labels: Seq<Seq<char>>,
    id: Seq<char>,
    cnt_b: u32,
    counts: Seq<(Seq<char>, u32)>,
    headers: Seq<Seq<char>>,
    nm: Map<Seq<char>, BlockV>,
    globals: Seq<VariableV>,
    addrof: Seq<VariableV>,
) -> Result<(Seq<(Seq<char>, Map<VariableV, Interval>)>, Seq<BlockV>), AnalysisError>
    decreases labels.len(),
{
    if labels.len() == 0 {
        Ok((st, w))
    } else {
        match interval_visit_all(st, w, labels.drop_last(), id, cnt_b, counts, headers, nm, globals, addrof) {
            Err(e) => Err(e),
            Ok((st1, w1)) => interval_visit_succ(st1, w1, labels.last(), id, cnt_b, counts, headers, nm, globals, addrof),
        }
    }
}

/// One step of the interval analysis on a nonempty worklist: the front
/// block is taken off and executed on its store, its visit count grows by
/// one, and each successor it reached is visited ([`interval_visit_all`]).
pub open spec fn interval_step(
    wl: Seq<BlockV>,
    stores: Seq<(Seq<char>, Map<VariableV, Interval>)>,
    succs: Seq<(Seq<char>, Seq<Seq<char>>)>,
    counts: Seq<(Seq<char>, u32)>,
    headers: Seq<Seq<char>>,
    nodes: Seq<(Seq<char>, BlockV)>,
    globals: Seq<VariableV>,
    addrof: Seq<VariableV>,
) -> Result<
    (
        Seq<BlockV>,
        Seq<(Seq<char>, Map<VariableV, Interval>)>,
        Seq<(Seq<char>, Seq<Seq<char>>)>,
        Seq<(Seq<char>, u32)>,
    ),
    AnalysisError,
> {
    let b = wl[0];
    let kb = vkey_pos(stores, b.id);
    if kb < 0 {
        Err(AnalysisError::NoStore)
    } else {
        match block_spec::<Interval>(stores[kb].1, b, globals, addrof) {
            Err(e) => Err(e),
            Ok((m, succ)) => {
                let st1 = stores.update(kb, (b.id, m));
                let sc1 = match succ {
                    Some(l) => keyed_insert(succs, b.id, l),
                    None => succs,
                };
                let kc = vkey_pos(counts, b.id);
                if kc < 0 {
                    Err(AnalysisError::NotCounted)
                } else if counts[kc].1 == u32::MAX {
                    Err(AnalysisError::Overflow)
                } else {
                    let cnt_b = (counts[kc].1 + 1) as u32;
                    let c1 = counts.update(kc, (b.id, cnt_b));
                    let ks = vkey_pos(sc1, b.id);
                    if ks < 0 {
                        Err(AnalysisError::NoSuccessors)
                    } else {
                        match interval_visit_all(
                            st1,
                            wl.drop_first(),
                            sc1[ks].1,
                            b.id,
                            cnt_b,
                            c1,
                            headers,
                            keyed_map(nodes),
                            globals,
                            addrof,
                        ) {
                            Err(e) => Err(e),
                            Ok((st2, w2)) => Ok((w2, st2, sc1, c1)),
                        }
                    }
                }
            },
        }
    }
}

/// Once visiting a prefix of the successors fails, visiting all of them fails the same way.
proof fn lemma_visit_all_err_extends(
    st: Seq<(Seq<char>, Map<VariableV, Interval>)>,
    w: Seq<BlockV>,
    labels: Seq<Seq<char>>,
    n: int,
    id: Seq<char>,
    cnt_b: u32,
    counts: Seq<(Seq<char>, u32)>,
    headers: Seq<Seq<char>>,
    nm: Map<Seq<char>, BlockV>,
    globals: Seq<VariableV>,
    addrof: Seq<VariableV>,
)
    requires
        0 <= n <= labels.len(),
        interval_visit_all(st, w, labels.take(n), id, cnt_b, counts, headers, nm, globals, addrof) is Err,
    ensures
        interval_visit_all(st, w, labels, id, cnt_b, counts, headers, nm, globals, addrof) == interval_visit_all(
            st,
            w,
            labels.take(n),
            id,
            cnt_b,
            counts,
            headers,
            nm,
            globals,
            addrof,
        ),
    decreases labels.len() - n,
{
    if n < labels.len() {
        assert(labels.take(n + 1).drop_last() =~= labels.take(n));
        lemma_visit_all_err_extends(st, w, labels, n + 1, id, cnt_b, counts, headers, nm, globals, addrof);
    } else {
        assert(labels.take(n) =~= labels);
    }
}

impl Analyzer<Interval> {
    /// Visits one reached successor of an executed block; see [`interval_visit_succ`].
    fn visit_succ(
        &mut self,
        l: &String,
        id: &String,
        cnt_b: u32,
        counts: &Vec<(String, u32)>,
        headers: &Vec<String>,
    ) -> (r: Result<(), AnalysisError>)
        ensures
            final(self).same_frame_but_worklist(old(self)),
            final(self).reachable_successors == old(self).reachable_successors,
            match interval_visit_succ(
                old(self).stores(),
                blocks_view(old(self).worklist@),
                l@,
                id@,
                cnt_b,
                counts_view(counts@),
                labels_view(headers@),
                old(self).cfg.node_map(),
                old(self).globals(),
                old(self).addrofs(),
            ) {
                Ok((st, w)) => r is Ok && final(self).stores() == st && blocks_view(final(self).worklist@) == w,
                Err(e) => r == Err::<(), AnalysisError>(e),
            },
    {
        let succ = match self.cfg.get_block(l.as_str()) {
            None => {
                return Err(AnalysisError::UnknownBlock);
            },
            Some(b) => b.clone(),
        };
        proof {
            self.lemma_store_pos(l@);
            self.lemma_store_pos(id@);
            self.lemma_store_pos(succ@.id);
            lemma_key_pos_views(counts@, counts_view(counts@), l@);
            lemma_vkey_pos(counts_view(counts@), l@);
        }
        let ks = match find_key(&self.bb2store, l.as_str()) {
            None => {
                return Err(AnalysisError::NoStore);
            },
            Some(k) => k,
        };
        let kb = match find_key(&self.bb2store, id.as_str()) {
            None => {
                return Err(AnalysisError::NoStore);
            },
            Some(k) => k,
        };
        let kv = match find_key(counts, l.as_str()) {
            None => {
                return Err(AnalysisError::NotCounted);
            },
            Some(k) => k,
        };
        let ss = self.bb2store[ks].1.clone_store();
        let cur = self.bb2store[kb].1.clone_store();
        let cnt_l = counts[kv].1;
        let updated = ss.update(&cur);
        let joined = if cnt_l > 0 && labels_contain(headers, l) {
            ss.widen(&cur)
        } else {
            ss.join(&cur)
        };
        let chosen = if labels_contain(headers, id) {
            updated
        } else {
            joined
        };
        let nv: Store<Interval> = if cnt_b > 1 && cnt_l > 0 {
            let same = succ.id == *l;
            let mut tmp = if same {
                chosen.clone_store()
            } else {
                match find_key(&self.bb2store, succ.id.as_str()) {
                    None => {
                        return Err(AnalysisError::NoStore);
                    },
                    Some(k) => self.bb2store[k].1.clone_store(),
                }
            };
            match exe_block_on(&mut tmp, &succ, &self.global_ints, &self.addrof_ints) {
                Err(e) => {
                    return Err(e);
                },
                Ok(_) => {},
            }
            if same {
                tmp
            } else {
                chosen.clone_store()
            }
        } else {
            chosen.clone_store()
        };
        if !nv.equals(&ss) {
            self.put_store(l.clone(), chosen);
            if !blocks_contain(&self.worklist, &succ) {
                let ghost prev = blocks_view(self.worklist@);
                self.worklist.push(succ);
                assert(blocks_view(self.worklist@) =~= prev.push(succ@));
            }
        }
        Ok(())
    }

    /// One step of the interval analysis; see [`interval_step`]. The visit
    /// counts and the loop headers are kept by the caller across steps.
    pub fn mfp_step(&mut self, visited: &mut Vec<(String, u32)>, loop_headers: &Vec<String>) -> (r: Result<
        (),
        AnalysisError,
    >)
        requires
            old(self).worklist@.len() > 0,
        ensures
            final(self).prog == old(self).prog,
            final(self).cfg == old(self).cfg,
            final(self).global_ints == old(self).global_ints,
            final(self).addrof_ints == old(self).addrof_ints,
            final(self).executed == old(self).executed,
            match interval_step(
                blocks_view(old(self).worklist@),
                old(self).stores(),
                old(self).succs(),
                counts_view(old(visited)@),
                labels_view(loop_headers@),
                old(self).cfg.node_seq(),
                old(self).globals(),
                old(self).addrofs(),
            ) {
                Ok((w, st, sc, c)) => r is Ok && blocks_view(final(self).worklist@) == w && final(self).stores() == st
                    && final(self).succs() == sc && counts_view(final(visited)@) == c,
                Err(e) => r == Err::<(), AnalysisError>(e),
            },
    {
        let ghost wl0 = blocks_view(self.worklist@);
        let ghost counts0 = counts_view(visited@);
        let block = self.worklist.remove(0);
        assert(blocks_view(self.worklist@) =~= wl0.drop_first());
        assert(block@ == wl0[0]);
        match self.exe_block(&block) {
            Ok(()) => {},
            Err(e) => {
                return Err(e);
            },
        }
        proof {
            lemma_key_pos_views(visited@, counts0, block@.id);
            lemma_vkey_pos(counts0, block@.id);
            self.lemma_succ_pos(block@.id);
        }
        let kc = match find_key(visited, block.id.as_str()) {
            None => {
                return Err(AnalysisError::NotCounted);
            },
            Some(k) => k,
        };
        let c = visited[kc].1;
        if c == u32::MAX {
            return Err(AnalysisError::Overflow);
        }
        let key = visited[kc].0.clone();
        visited.set(kc, (key, c + 1));
        assert(counts_view(visited@) =~= counts0.update(kc as int, (block@.id, (c + 1) as u32)));
        let ks = match find_key(&self.reachable_successors, block.id.as_str()) {
            None => {
                return Err(AnalysisError::NoSuccessors);
            },
            Some(k) => k,
        };
        let ghost labels = labels_view(self.reachable_successors@[ks as int].1@);
        let ghost st1 = self.stores();
        let ghost w1 = blocks_view(self.worklist@);
        let ghost nm = self.cfg.node_map();
        let ghost rsv = self.reachable_successors@;
        let ghost sc1 = self.succs();
        let n = self.reachable_successors[ks].1.len();
        let mut j: usize = 0;
        assert(labels.take(0) =~= Seq::<Seq<char>>::empty());
        while j < n
            invariant
                j <= n,
                n == labels.len(),
                c < u32::MAX,
                ks < self.reachable_successors@.len(),
                labels == labels_view(self.reachable_successors@[ks as int].1@),
                self.reachable_successors@ == rsv,
                self.succs() == sc1,
                interval_step(
                    blocks_view(old(self).worklist@),
                    old(self).stores(),
                    old(self).succs(),
                    counts_view(old(visited)@),
                    labels_view(loop_headers@),
                    old(self).cfg.node_seq(),
                    old(self).globals(),
                    old(self).addrofs(),
                ) == match interval_visit_all(
                    st1,
                    w1,
                    labels,
                    block@.id,
                    (c + 1) as u32,
                    counts_view(visited@),
                    labels_view(loop_headers@),
                    nm,
                    self.globals(),
                    self.addrofs(),
                ) {
                    Err(e) => Err(e),
                    Ok((st2, w2)) => Ok((w2, st2, sc1, counts_view(visited@))),
                },
                self.prog == old(self).prog,
                self.cfg == old(self).cfg,
                self.global_ints == old(self).global_ints,
                self.addrof_ints == old(self).addrof_ints,
                self.executed == old(self).executed,
                nm == self.cfg.node_map(),
                interval_visit_all(
                    st1,
                    w1,
                    labels.take(j as int),
                    block@.id,
                    (c + 1) as u32,
                    counts_view(visited@),
                    labels_view(loop_headers@),
                    nm,
                    self.globals(),
                    self.addrofs(),
                ) == Ok::<(Seq<(Seq<char>, Map<VariableV, Interval>)>, Seq<BlockV>), AnalysisError>(
                    (self.stores(), blocks_view(self.worklist@)),
                ),
            decreases n - j,
        {
            assert(labels.take(j + 1).drop_last() =~= labels.take(j as int));
            assert(labels.take(j + 1).last() == self.reachable_successors@[ks as int].1@[j as int]@);
            let l = self.reachable_successors[ks].1[j].clone();
            match self.visit_succ(&l, &block.id, c + 1, visited, loop_headers) {
                Ok(()) => {},
                Err(e) => {
                    proof {
                        lemma_visit_all_err_extends(
                            st1,
                            w1,
                            labels,
                            j as int + 1,
                            block@.id,
                            (c + 1) as u32,
                            counts_view(visited@),
                            labels_view(loop_headers@),
                            nm,
                            self.globals(),
                            self.addrofs(),
                        );
                    }
                    return Err(e);
                },
            }
            j += 1;
        }
        assert(labels.take(n as int) =~= labels);
        Ok(())
    }
}

/// A zero count for each label, set in order.
pub open spec fn zero_counts(labels: Seq<Seq<char>>) -> Seq<(Seq<char>, u32)>
    decreases labels.len(),
{
    if labels.len() == 0 {
        Seq::empty()
    } else {
        keyed_insert(zero_counts(labels.drop_last()), labels.last(), 0u32)
    }
}

/// A visit count of zero for each block label of a graph.
pub fn zero_visits(cfg: &ControlFlowGraph) -> (r: Vec<(String, u32)>)
    ensures
        counts_view(r@) == zero_counts(node_labels(cfg.node_seq())),
{
        let labels = cfg.get_all_block_labels();
        let mut visited: Vec<(String, u32)> = Vec::new();
        let mut i: usize = 0;
        assert(labels_view(labels@).take(0) =~= Seq::<Seq<char>>::empty());
        while i < labels.len()
            invariant
                i <= labels@.len(),
                counts_view(visited@) == zero_counts(labels_view(labels@).take(i as int)),
            decreases labels.len() - i,
        {
            let ghost prev = counts_view(visited@);
            let k = labels[i].clone();
            proof {
                lemma_key_pos_views(visited@, prev, k@);
                lemma_vkey_pos(prev, k@);
            }
            put(&mut visited, k, 0);
            assert(labels_view(labels@).take(i + 1).drop_last() =~= labels_view(labels@).take(i as int));
            assert(labels_view(labels@)[i as int] == labels@[i as int]@);
            assert(counts_view(visited@) =~= keyed_insert(prev, labels@[i as int]@, 0u32));
            i += 1;
        }
        assert(labels_view(labels@).take(labels@.len() as int) =~= labels_view(labels@));
        visited
}

impl<T: NumericDomain + Copy> Analyzer<T> {
    /// Starts the worklist iteration: nothing when it was started before;
    /// else the analyzer is marked as executed, and every block label gets a
    /// visit count of zero.
    pub fn mfp_start(&mut self) -> (r: Option<Vec<(String, u32)>>)
        ensures
            old(self).executed ==> r is None && final(self).executed,
            !old(self).executed ==> r is Some && counts_view(r->Some_0@) == zero_counts(
                node_labels(old(self).cfg.node_seq()),
            ) && final(self).executed,
            final(self).prog == old(self).prog,
            final(self).cfg == old(self).cfg,
            final(self).bb2store == old(self).bb2store,
            final(self).reachable_successors == old(self).reachable_successors,
            final(self).worklist == old(self).worklist,
            final(self).global_ints == old(self).global_ints,
            final(self).addrof_ints == old(self).addrof_ints,
    {
        if self.executed {
            return None;
        }
        let visited = zero_visits(&self.cfg);
        self.executed = true;
        Some(visited)
    }
}

} // verus!

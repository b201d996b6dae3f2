//! The LIR data model: programs, functions, basic blocks, instructions,
//! terminals, operands, variables and types, each with a mathematical view.
use vstd::prelude::*;

verus! {

/// A type of the LIR.
#[derive(Debug, PartialEq, Eq, Hash)]
pub enum Type {
    Int,
    Struct(String),
    Function(Box<FunctionType>),
    Pointer(Box<Type>),
}

/// The type of a function: optional return type and parameter types.
#[derive(Debug, PartialEq, Eq, Hash)]
pub struct FunctionType {
    pub ret_ty: Option<Type>,
    pub param_ty: Vec<Type>,
}

/// Mathematical view of a [`Type`].
pub enum TypeV {
    Int,
    Struct(Seq<char>),
    Function(Box<FunctionTypeV>),
    Pointer(Box<TypeV>),
}

/// Mathematical view of a [`FunctionType`].
pub struct FunctionTypeV {
    pub ret_ty: Option<TypeV>,
    pub param_ty: Seq<TypeV>,
}

pub open spec fn type_view(t: Type) -> TypeV
    decreases t,
{
    match t {
        Type::Int => TypeV::Int,
        Type::Struct(s) => TypeV::Struct(s@),
        Type::Function(f) => TypeV::Function(Box::new(fn_type_view(*f))),
        Type::Pointer(p) => TypeV::Pointer(Box::new(type_view(*p))),
    }
}

pub open spec fn fn_type_view(f: FunctionType) -> FunctionTypeV
    decreases f,
{
    FunctionTypeV {
        ret_ty: match f.ret_ty {
            Some(t) => Some(type_view(t)),
            None => None,
        },
        param_ty: types_view(f.param_ty@),
    }
}

pub open spec fn types_view(s: Seq<Type>) -> Seq<TypeV>
    decreases s,
{
    if s.len() == 0 {
        Seq::empty()
    } else {
        seq![type_view(s[0])] + types_view(s.drop_first())
    }
}

impl View for Type {
    type V = TypeV;

    open spec fn view(&self) -> TypeV {
        type_view(*self)
    }
}

impl View for FunctionType {
    type V = FunctionTypeV;

    open spec fn view(&self) -> FunctionTypeV {
        fn_type_view(*self)
    }
}


/// The view of a sequence of types has the same length and is taken element by element.
pub broadcast proof fn lemma_types_view(s: Seq<Type>)
    ensures
        #[trigger] types_view(s).len() == s.len(),
        forall|i: int| 0 <= i < s.len() ==> #[trigger] types_view(s)[i] == type_view(s[i]),
    decreases s.len(),
{
    if s.len() > 0 {
        lemma_types_view(s.drop_first());
        assert forall|i: int| 0 <= i < s.len() implies #[trigger] types_view(s)[i] == type_view(s[i]) by {
            if i > 0 {
                assert(s.drop_first()[i - 1] == s[i]);
            }
        }
    }
}

/// Copies a type, keeping its view.
pub fn clone_type(t: &Type) -> (r: Type)
    ensures
        r@ == t@,
    decreases t,
{
    match t {
        Type::Int => Type::Int,
        Type::Struct(s) => Type::Struct(s.clone()),
        Type::Function(f) => Type::Function(Box::new(clone_fn_type(f))),
        Type::Pointer(p) => Type::Pointer(Box::new(clone_type(p))),
    }
}

/// Copies a function type, keeping its view.
pub fn clone_fn_type(f: &FunctionType) -> (r: FunctionType)
    ensures
        r@ == f@,
    decreases f,
{
    broadcast use lemma_types_view;
    let ret_ty = match &f.ret_ty {
        Some(t) => Some(clone_type(t)),
        None => None,
    };
    let mut params: Vec<Type> = Vec::new();
    let mut i: usize = 0;
    while i < f.param_ty.len()
        invariant
            i <= f.param_ty.len(),
            params.len() == i,
            forall|j: int| 0 <= j < i ==> #[trigger] params@[j]@ == f.param_ty@[j]@,
        decreases f.param_ty.len() - i,
    {
        proof {
            assert(decreases_to!(*f => f.param_ty));
            assert(decreases_to!(f.param_ty => f.param_ty@));
            assert(decreases_to!(f.param_ty@ => f.param_ty@[i as int]));
        }
        let c = clone_type(&f.param_ty[i]);
        params.push(c);
        i += 1;
    }
    proof {
        lemma_types_view(params@);
        lemma_types_view(f.param_ty@);
        assert(types_view(params@).len() == params@.len());
        assert(params@.len() == f.param_ty@.len());
        assert forall|j: int| 0 <= j < params@.len() implies types_view(params@)[j] == types_view(f.param_ty@)[j] by {
            assert(params@[j]@ == f.param_ty@[j]@);
            assert(types_view(params@)[j] == type_view(params@[j]));
        }
    }
    assert(types_view(params@) =~= types_view(f.param_ty@));
    FunctionType { ret_ty, param_ty: params }
}

/// Decides whether two types have the same view.
pub fn type_eq(a: &Type, b: &Type) -> (r: bool)
    ensures
        r == (a@ == b@),
    decreases a,
{
    match (a, b) {
        (Type::Int, Type::Int) => true,
        (Type::Struct(x), Type::Struct(y)) => *x == *y,
        (Type::Function(f), Type::Function(g)) => {
            let r = fn_type_eq(f, g);
            assert(r == (fn_type_view(**f) == fn_type_view(**g)));
            r
        },
        (Type::Pointer(p), Type::Pointer(q)) => {
            let r = type_eq(p, q);
            assert(r == (type_view(**p) == type_view(**q)));
            r
        },
        _ => false,
    }
}

/// Decides whether two function types have the same view.
pub fn fn_type_eq(a: &FunctionType, b: &FunctionType) -> (r: bool)
    ensures
        r == (a@ == b@),
    decreases a,
{
    broadcast use lemma_types_view;
    let ret_same = match (&a.ret_ty, &b.ret_ty) {
        (Some(x), Some(y)) => type_eq(x, y),
        (None, None) => true,
        _ => false,
    };
    if !ret_same {
        return false;
    }
    proof {
        lemma_types_view(a.param_ty@);
        lemma_types_view(b.param_ty@);
    }
    if a.param_ty.len() != b.param_ty.len() {
        assert(types_view(a.param_ty@).len() != types_view(b.param_ty@).len());
        return false;
    }
    let mut i: usize = 0;
    while i < a.param_ty.len()
        invariant
            i <= a.param_ty.len(),
            a.param_ty.len() == b.param_ty.len(),
            forall|j: int| 0 <= j < i ==> #[trigger] a.param_ty@[j]@ == b.param_ty@[j]@,
        decreases a.param_ty.len() - i,
    {
        proof {
            assert(decreases_to!(*a => a.param_ty));
            assert(decreases_to!(a.param_ty => a.param_ty@));
            assert(decreases_to!(a.param_ty@ => a.param_ty@[i as int]));
        }
        if !type_eq(&a.param_ty[i], &b.param_ty[i]) {
            proof {
                lemma_types_view(a.param_ty@);
                lemma_types_view(b.param_ty@);
                assert(types_view(a.param_ty@)[i as int] == type_view(a.param_ty@[i as int]));
                assert(types_view(b.param_ty@)[i as int] == type_view(b.param_ty@[i as int]));
            }
            return false;
        }
        i += 1;
    }
    proof {
        lemma_types_view(a.param_ty@);
        lemma_types_view(b.param_ty@);
        assert forall|j: int| 0 <= j < a.param_ty@.len() implies types_view(a.param_ty@)[j] == types_view(b.param_ty@)[j] by {
            assert(a.param_ty@[j]@ == b.param_ty@[j]@);
        }
    }
    assert(types_view(a.param_ty@) =~= types_view(b.param_ty@));
    true
}

impl Clone for Type {
    fn clone(&self) -> (r: Self)
        ensures
            r@ == self@,
    {
        clone_type(self)
    }
}

impl Clone for FunctionType {
    fn clone(&self) -> (r: Self)
        ensures
            r@ == self@,
    {
        clone_fn_type(self)
    }
}


/// A field of a struct type.
#[derive(Debug, PartialEq, Eq, Hash)]
pub struct Field {
    pub name: String,
    pub typ: Type,
}

/// A variable: a parameter, a local or a global.
#[derive(Debug, PartialEq, Eq, Hash)]
pub struct Variable {
    pub name: String,
    pub typ: Type,
    pub scope: Option<String>,
}

/// Mathematical view of a [`Field`].
pub struct FieldV {
    pub name: Seq<char>,
    pub typ: TypeV,
}

/// Mathematical view of a [`Variable`].
pub struct VariableV {
    pub name: Seq<char>,
    pub typ: TypeV,
    pub scope: Option<Seq<char>>,
}

pub open spec fn opt_str_view(s: Option<String>) -> Option<Seq<char>> {
    match s {
        Some(x) => Some(x@),
        None => None,
    }
}

impl View for Field {
    type V = FieldV;

    open spec fn view(&self) -> FieldV {
        FieldV { name: self.name@, typ: self.typ@ }
    }
}

impl View for Variable {
    type V = VariableV;

    open spec fn view(&self) -> VariableV {
        VariableV { name: self.name@, typ: self.typ@, scope: opt_str_view(self.scope) }
    }
}

pub fn clone_opt_string(s: &Option<String>) -> (r: Option<String>)
    ensures
        opt_str_view(r) == opt_str_view(*s),
{
    match s {
        Some(x) => Some(x.clone()),
        None => None,
    }
}

impl Clone for Variable {
    fn clone(&self) -> (r: Self)
        ensures
            r@ == self@,
    {
        Variable { name: self.name.clone(), typ: clone_type(&self.typ), scope: clone_opt_string(&self.scope) }
    }
}

impl Clone for Field {
    fn clone(&self) -> (r: Self)
        ensures
            r@ == self@,
    {
        Field { name: self.name.clone(), typ: clone_type(&self.typ) }
    }
}

impl Variable {
    /// A variable of type `Int` with the given name and no scope.
    pub fn new(name: &str) -> (r: Variable)
        ensures
            r@ == (VariableV { name: name@, typ: TypeV::Int, scope: None }),
    {
        Variable { name: String::from_str(name), typ: Type::Int, scope: None }
    }
}

/// Decides whether two variables have the same view.
pub fn var_eq(a: &Variable, b: &Variable) -> (r: bool)
    ensures
        r == (a@ == b@),
{
    if a.name != b.name {
        return false;
    }
    if !type_eq(&a.typ, &b.typ) {
        return false;
    }
    match (&a.scope, &b.scope) {
        (Some(x), Some(y)) => *x == *y,
        (None, None) => true,
        _ => false,
    }
}

/// Arithmetic operators.
#[derive(Debug, Clone, Copy, PartialEq, Eq, Structural, Hash)]
pub enum ArithOp {
    Add,
    Subtract,
    Multiply,
    Divide,
}

/// Relational operators.
#[derive(Debug, Clone, Copy, PartialEq, Eq, Structural, Hash)]
pub enum RelaOp {
    Neq,
    Eq,
    Less,
    LessEq,
    Greater,
    GreaterEq,
}

/// An operand: a variable or an integer constant.
#[derive(Debug, PartialEq, Eq, Hash)]
pub enum Operand {
    Var(Variable),
    CInt(i32),
}

/// Mathematical view of an [`Operand`].
pub enum OperandV {
    Var(VariableV),
    CInt(i32),
}

impl View for Operand {
    type V = OperandV;

    open spec fn view(&self) -> OperandV {
        match self {
            Operand::Var(v) => OperandV::Var(v@),
            Operand::CInt(c) => OperandV::CInt(*c),
        }
    }
}

impl Clone for Operand {
    fn clone(&self) -> (r: Self)
        ensures
            r@ == self@,
    {
        match self {
            Operand::Var(v) => Operand::Var(v.clone()),
            Operand::CInt(c) => Operand::CInt(*c),
        }
    }
}

pub fn operand_eq(a: &Operand, b: &Operand) -> (r: bool)
    ensures
        r == (a@ == b@),
{
    match (a, b) {
        (Operand::Var(x), Operand::Var(y)) => var_eq(x, y),
        (Operand::CInt(x), Operand::CInt(y)) => *x == *y,
        _ => false,
    }
}

pub open spec fn operands_view(s: Seq<Operand>) -> Seq<OperandV> {
    s.map_values(|o: Operand| o@)
}

pub open spec fn opt_var_view(v: Option<Variable>) -> Option<VariableV> {
    match v {
        Some(x) => Some(x@),
        None => None,
    }
}

pub fn clone_opt_var(v: &Option<Variable>) -> (r: Option<Variable>)
    ensures
        opt_var_view(r) == opt_var_view(*v),
{
    match v {
        Some(x) => Some(x.clone()),
        None => None,
    }
}

pub fn opt_var_eq(a: &Option<Variable>, b: &Option<Variable>) -> (r: bool)
    ensures
        r == (opt_var_view(*a) == opt_var_view(*b)),
{
    match (a, b) {
        (Some(x), Some(y)) => var_eq(x, y),
        (None, None) => true,
        _ => false,
    }
}

pub fn clone_operands(v: &Vec<Operand>) -> (r: Vec<Operand>)
    ensures
        operands_view(r@) == operands_view(v@),
{
    let mut r: Vec<Operand> = Vec::new();
    let mut i: usize = 0;
    while i < v.len()
        invariant
            i <= v.len(),
            r.len() == i,
            forall|j: int| 0 <= j < i ==> #[trigger] r@[j]@ == v@[j]@,
        decreases v.len() - i,
    {
        r.push(v[i].clone());
        i += 1;
    }
    assert(operands_view(r@) =~= operands_view(v@));
    r
}

pub fn operands_eq(a: &Vec<Operand>, b: &Vec<Operand>) -> (r: bool)
    ensures
        r == (operands_view(a@) == operands_view(b@)),
{
    if a.len() != b.len() {
        assert(operands_view(a@).len() != operands_view(b@).len());
        return false;
    }
    let mut i: usize = 0;
    while i < a.len()
        invariant
            i <= a.len(),
            a.len() == b.len(),
            forall|j: int| 0 <= j < i ==> #[trigger] a@[j]@ == b@[j]@,
        decreases a.len() - i,
    {
        if !operand_eq(&a[i], &b[i]) {
            assert(operands_view(a@)[i as int] != operands_view(b@)[i as int]);
            return false;
        }
        i += 1;
    }
    assert(operands_view(a@) =~= operands_view(b@));
    true
}


/// An instruction of a basic block.
#[derive(Debug, PartialEq, Eq, Hash)]
pub enum Instruction {
    AddrOf { lhs: Variable, rhs: Variable },
    Alloc { lhs: Variable, num: Operand, id: Variable },
    Copy { lhs: Variable, op: Operand },
    Gep { lhs: Variable, src: Variable, idx: Operand },
    Arith { lhs: Variable, aop: ArithOp, op1: Operand, op2: Operand },
    Load { lhs: Variable, src: Variable },
    Store { dst: Variable, op: Operand },
    Gfp { lhs: Variable, src: Variable, field: Variable },
    Cmp { lhs: Variable, rop: RelaOp, op1: Operand, op2: Operand },
    CallExt { lhs: Option<Variable>, ext_callee: String, args: Vec<Operand> },
}

/// Mathematical view of an [`Instruction`].
pub enum InstructionV {
    AddrOf { lhs: VariableV, rhs: VariableV },
    Alloc { lhs: VariableV, num: OperandV, id: VariableV },
    Copy { lhs: VariableV, op: OperandV },
    Gep { lhs: VariableV, src: VariableV, idx: OperandV },
    Arith { lhs: VariableV, aop: ArithOp, op1: OperandV, op2: OperandV },
    Load { lhs: VariableV, src: VariableV },
    Store { dst: VariableV, op: OperandV },
    Gfp { lhs: VariableV, src: VariableV, field: VariableV },
    Cmp { lhs: VariableV, rop: RelaOp, op1: OperandV, op2: OperandV },
    CallExt { lhs: Option<VariableV>, ext_callee: Seq<char>, args: Seq<OperandV> },
}

impl View for Instruction {
    type V = InstructionV;

    open spec fn view(&self) -> InstructionV {
        match self {
            Instruction::AddrOf { lhs, rhs } => InstructionV::AddrOf { lhs: lhs@, rhs: rhs@ },
            Instruction::Alloc { lhs, num, id } => InstructionV::Alloc { lhs: lhs@, num: num@, id: id@ },
            Instruction::Copy { lhs, op } => InstructionV::Copy { lhs: lhs@, op: op@ },
            Instruction::Gep { lhs, src, idx } => InstructionV::Gep { lhs: lhs@, src: src@, idx: idx@ },
            Instruction::Arith { lhs, aop, op1, op2 } => InstructionV::Arith {
                lhs: lhs@,
                aop: *aop,
                op1: op1@,
                op2: op2@,
            },
            Instruction::Load { lhs, src } => InstructionV::Load { lhs: lhs@, src: src@ },
            Instruction::Store { dst, op } => InstructionV::Store { dst: dst@, op: op@ },
            Instruction::Gfp { lhs, src, field } => InstructionV::Gfp { lhs: lhs@, src: src@, field: field@ },
            Instruction::Cmp { lhs, rop, op1, op2 } => InstructionV::Cmp {
                lhs: lhs@,
                rop: *rop,
                op1: op1@,
                op2: op2@,
            },
            Instruction::CallExt { lhs, ext_callee, args } => InstructionV::CallExt {
                lhs: opt_var_view(*lhs),
                ext_callee: ext_callee@,
                args: operands_view(args@),
            },
        }
    }
}

impl Clone for Instruction {
    fn clone(&self) -> (r: Self)
        ensures
            r@ == self@,
    {
        match self {
            Instruction::AddrOf { lhs, rhs } => Instruction::AddrOf { lhs: lhs.clone(), rhs: rhs.clone() },
            Instruction::Alloc { lhs, num, id } => Instruction::Alloc {
                lhs: lhs.clone(),
                num: num.clone(),
                id: id.clone(),
            },
            Instruction::Copy { lhs, op } => Instruction::Copy { lhs: lhs.clone(), op: op.clone() },
            Instruction::Gep { lhs, src, idx } => Instruction::Gep {
                lhs: lhs.clone(),
                src: src.clone(),
                idx: idx.clone(),
            },
            Instruction::Arith { lhs, aop, op1, op2 } => Instruction::Arith {
                lhs: lhs.clone(),
                aop: *aop,
                op1: op1.clone(),
                op2: op2.clone(),
            },
            Instruction::Load { lhs, src } => Instruction::Load { lhs: lhs.clone(), src: src.clone() },
            Instruction::Store { dst, op } => Instruction::Store { dst: dst.clone(), op: op.clone() },
            Instruction::Gfp { lhs, src, field } => Instruction::Gfp {
                lhs: lhs.clone(),
                src: src.clone(),
                field: field.clone(),
            },
            Instruction::Cmp { lhs, rop, op1, op2 } => Instruction::Cmp {
                lhs: lhs.clone(),
                rop: *rop,
                op1: op1.clone(),
                op2: op2.clone(),
            },
            Instruction::CallExt { lhs, ext_callee, args } => Instruction::CallExt {
                lhs: clone_opt_var(lhs),
                ext_callee: ext_callee.clone(),
                args: clone_operands(args),
            },
        }
    }
}

pub fn instr_eq(a: &Instruction, b: &Instruction) -> (r: bool)
    ensures
        r == (a@ == b@),
{
    match (a, b) {
        (Instruction::AddrOf { lhs: l1, rhs: r1 }, Instruction::AddrOf { lhs: l2, rhs: r2 }) => var_eq(l1, l2)
            && var_eq(r1, r2),
        (Instruction::Alloc { lhs: l1, num: n1, id: i1 }, Instruction::Alloc { lhs: l2, num: n2, id: i2 }) => {
            var_eq(l1, l2) && operand_eq(n1, n2) && var_eq(i1, i2)
        },
        (Instruction::Copy { lhs: l1, op: o1 }, Instruction::Copy { lhs: l2, op: o2 }) => var_eq(l1, l2)
            && operand_eq(o1, o2),
        (Instruction::Gep { lhs: l1, src: s1, idx: i1 }, Instruction::Gep { lhs: l2, src: s2, idx: i2 }) => {
            var_eq(l1, l2) && var_eq(s1, s2) && operand_eq(i1, i2)
        },
        (
            Instruction::Arith { lhs: l1, aop: a1, op1: x1, op2: y1 },
            Instruction::Arith { lhs: l2, aop: a2, op1: x2, op2: y2 },
        ) => var_eq(l1, l2) && *a1 == *a2 && operand_eq(x1, x2) && operand_eq(y1, y2),
        (Instruction::Load { lhs: l1, src: s1 }, Instruction::Load { lhs: l2, src: s2 }) => var_eq(l1, l2)
            && var_eq(s1, s2),
        (Instruction::Store { dst: d1, op: o1 }, Instruction::Store { dst: d2, op: o2 }) => var_eq(d1, d2)
            && operand_eq(o1, o2),
        (Instruction::Gfp { lhs: l1, src: s1, field: f1 }, Instruction::Gfp { lhs: l2, src: s2, field: f2 }) => {
            var_eq(l1, l2) && var_eq(s1, s2) && var_eq(f1, f2)
        },
        (
            Instruction::Cmp { lhs: l1, rop: r1, op1: x1, op2: y1 },
            Instruction::Cmp { lhs: l2, rop: r2, op1: x2, op2: y2 },
        ) => var_eq(l1, l2) && *r1 == *r2 && operand_eq(x1, x2) && operand_eq(y1, y2),
        (
            Instruction::CallExt { lhs: l1, ext_callee: c1, args: a1 },
            Instruction::CallExt { lhs: l2, ext_callee: c2, args: a2 },
        ) => opt_var_eq(l1, l2) && *c1 == *c2 && operands_eq(a1, a2),
        _ => false,
    }
}

/// The terminal that ends a basic block.
#[derive(Debug, PartialEq, Eq, Hash)]
pub enum Terminal {
    Jump(String),
    Branch { cond: Operand, tt: String, ff: String },
    Ret(Option<Operand>),
    CallDirect { lhs: Option<Variable>, callee: String, args: Vec<Operand>, next_bb: String },
    CallIndirect { lhs: Option<Variable>, callee: Variable, args: Vec<Operand>, next_bb: String },
}

/// Mathematical view of a [`Terminal`].
pub enum TerminalV {
    Jump(Seq<char>),
    Branch { cond: OperandV, tt: Seq<char>, ff: Seq<char> },
    Ret(Option<OperandV>),
    CallDirect { lhs: Option<VariableV>, callee: Seq<char>, args: Seq<OperandV>, next_bb: Seq<char> },
    CallIndirect { lhs: Option<VariableV>, callee: VariableV, args: Seq<OperandV>, next_bb: Seq<char> },
}

impl View for Terminal {
    type V = TerminalV;

    open spec fn view(&self) -> TerminalV {
        match self {
            Terminal::Jump(l) => TerminalV::Jump(l@),
            Terminal::Branch { cond, tt, ff } => TerminalV::Branch { cond: cond@, tt: tt@, ff: ff@ },
            Terminal::Ret(r) => TerminalV::Ret(
                match r {
                    Some(o) => Some(o@),
                    None => None,
                },
            ),
            Terminal::CallDirect { lhs, callee, args, next_bb } => TerminalV::CallDirect {
                lhs: opt_var_view(*lhs),
                callee: callee@,
                args: operands_view(args@),
                next_bb: next_bb@,
            },
            Terminal::CallIndirect { lhs, callee, args, next_bb } => TerminalV::CallIndirect {
                lhs: opt_var_view(*lhs),
                callee: callee@,
                args: operands_view(args@),
                next_bb: next_bb@,
            },
        }
    }
}

impl Clone for Terminal {
    fn clone(&self) -> (r: Self)
        ensures
            r@ == self@,
    {
        match self {
            Terminal::Jump(l) => Terminal::Jump(l.clone()),
            Terminal::Branch { cond, tt, ff } => Terminal::Branch {
                cond: cond.clone(),
                tt: tt.clone(),
                ff: ff.clone(),
            },
            Terminal::Ret(r) => Terminal::Ret(
                match r {
                    Some(o) => Some(o.clone()),
                    None => None,
                },
            ),
            Terminal::CallDirect { lhs, callee, args, next_bb } => Terminal::CallDirect {
                lhs: clone_opt_var(lhs),
                callee: callee.clone(),
                args: clone_operands(args),
                next_bb: next_bb.clone(),
            },
            Terminal::CallIndirect { lhs, callee, args, next_bb } => Terminal::CallIndirect {
                lhs: clone_opt_var(lhs),
                callee: callee.clone(),
                args: clone_operands(args),
                next_bb: next_bb.clone(),
            },
        }
    }
}

pub fn term_eq(a: &Terminal, b: &Terminal) -> (r: bool)
    ensures
        r == (a@ == b@),
{
    match (a, b) {
        (Terminal::Jump(x), Terminal::Jump(y)) => *x == *y,
        (Terminal::Branch { cond: c1, tt: t1, ff: f1 }, Terminal::Branch { cond: c2, tt: t2, ff: f2 }) => {
            operand_eq(c1, c2) && *t1 == *t2 && *f1 == *f2
        },
        (Terminal::Ret(x), Terminal::Ret(y)) => match (x, y) {
            (Some(o1), Some(o2)) => operand_eq(o1, o2),
            (None, None) => true,
            _ => false,
        },
        (
            Terminal::CallDirect { lhs: l1, callee: c1, args: a1, next_bb: n1 },
            Terminal::CallDirect { lhs: l2, callee: c2, args: a2, next_bb: n2 },
        ) => opt_var_eq(l1, l2) && *c1 == *c2 && operands_eq(a1, a2) && *n1 == *n2,
        (
            Terminal::CallIndirect { lhs: l1, callee: c1, args: a1, next_bb: n1 },
            Terminal::CallIndirect { lhs: l2, callee: c2, args: a2, next_bb: n2 },
        ) => opt_var_eq(l1, l2) && var_eq(c1, c2) && operands_eq(a1, a2) && *n1 == *n2,
        _ => false,
    }
}


/// A basic block: an id, a list of instructions and a terminal.
#[derive(Debug, PartialEq, Eq, Hash)]
pub struct Block {
    pub id: String,
    pub insts: Vec<Instruction>,
    pub term: Terminal,
}

/// Mathematical view of a [`Block`].
pub struct BlockV {
    pub id: Seq<char>,
    pub insts: Seq<InstructionV>,
    pub term: TerminalV,
}

pub open spec fn instrs_view(s: Seq<Instruction>) -> Seq<InstructionV> {
    s.map_values(|i: Instruction| i@)
}

impl View for Block {
    type V = BlockV;

    open spec fn view(&self) -> BlockV {
        BlockV { id: self.id@, insts: instrs_view(self.insts@), term: self.term@ }
    }
}

impl Clone for Block {
    fn clone(&self) -> (r: Self)
        ensures
            r@ == self@,
    {
        let mut insts: Vec<Instruction> = Vec::new();
        let mut i: usize = 0;
        while i < self.insts.len()
            invariant
                i <= self.insts.len(),
                insts.len() == i,
                forall|j: int| 0 <= j < i ==> #[trigger] insts@[j]@ == self.insts@[j]@,
            decreases self.insts.len() - i,
        {
            insts.push(self.insts[i].clone());
            i += 1;
        }
        assert(instrs_view(insts@) =~= instrs_view(self.insts@));
        Block { id: self.id.clone(), insts, term: self.term.clone() }
    }
}

impl Block {
    /// A block with the given id and terminal and no instructions.
    pub fn new(id: &str, term: &Terminal) -> (r: Block)
        ensures
            r@ == (BlockV { id: id@, insts: Seq::empty(), term: term@ }),
    {
        let r = Block { id: String::from_str(id), insts: Vec::new(), term: term.clone() };
        assert(instrs_view(r.insts@) =~= Seq::empty());
        r
    }
}

/// Decides whether two blocks have the same view.
pub fn block_eq(a: &Block, b: &Block) -> (r: bool)
    ensures
        r == (a@ == b@),
{
    if a.id != b.id {
        return false;
    }
    if !term_eq(&a.term, &b.term) {
        return false;
    }
    if a.insts.len() != b.insts.len() {
        assert(instrs_view(a.insts@).len() != instrs_view(b.insts@).len());
        return false;
    }
    let mut i: usize = 0;
    while i < a.insts.len()
        invariant
            i <= a.insts.len(),
            a.insts.len() == b.insts.len(),
            forall|j: int| 0 <= j < i ==> #[trigger] a.insts@[j]@ == b.insts@[j]@,
        decreases a.insts.len() - i,
    {
        if !instr_eq(&a.insts[i], &b.insts[i]) {
            assert(instrs_view(a.insts@)[i as int] != instrs_view(b.insts@)[i as int]);
            return false;
        }
        i += 1;
    }
    assert(instrs_view(a.insts@) =~= instrs_view(b.insts@));
    true
}

/// A function definition; its body maps block labels to blocks.
#[derive(Debug)]
pub struct Function {
    pub id: String,
    pub ret_ty: Option<Type>,
    pub params: Vec<Variable>,
    pub locals: Vec<Variable>,
    pub body: Vec<(String, Block)>,
}

/// A LIR program. Each list of pairs is a map: its keys are meant to be distinct.
#[derive(Debug)]
pub struct Program {
    pub structs: Vec<(String, Vec<Field>)>,
    pub globals: Vec<Variable>,
    pub functions: Vec<(String, Function)>,
    pub externs: Vec<(String, Type)>,
}

pub open spec fn vars_view(s: Seq<Variable>) -> Seq<VariableV> {
    s.map_values(|v: Variable| v@)
}

/// The location of a program point inside a block.
#[derive(Debug, Clone, Copy, PartialEq, Eq, Structural, Hash, PartialOrd, Ord)]
pub enum Location {
    Instruction(usize),
    Terminal,
}

/// A program point: a block and a location in it, with the instruction or
/// terminal found there.
#[derive(Debug, PartialEq, Eq, Hash)]
pub struct ProgramPoint {
    pub block: String,
    pub location: Location,
    pub instr: Option<Instruction>,
    pub term: Option<Terminal>,
}

/// Mathematical view of a [`ProgramPoint`].
pub struct ProgramPointV {
    pub block: Seq<char>,
    pub location: Location,
    pub instr: Option<InstructionV>,
    pub term: Option<TerminalV>,
}

impl View for ProgramPoint {
    type V = ProgramPointV;

    open spec fn view(&self) -> ProgramPointV {
        ProgramPointV {
            block: self.block@,
            location: self.location,
            instr: match self.instr {
                Some(i) => Some(i@),
                None => None,
            },
            term: match self.term {
                Some(t) => Some(t@),
                None => None,
            },
        }
    }
}

impl Clone for ProgramPoint {
    fn clone(&self) -> (r: Self)
        ensures
            r@ == self@,
    {
        ProgramPoint {
            block: self.block.clone(),
            location: self.location,
            instr: match &self.instr {
                Some(i) => Some(i.clone()),
                None => None,
            },
            term: match &self.term {
                Some(t) => Some(t.clone()),
                None => None,
            },
        }
    }
}

/// Decides whether two program points have the same view.
pub fn pp_eq(a: &ProgramPoint, b: &ProgramPoint) -> (r: bool)
    ensures
        r == (a@ == b@),
{
    if a.block != b.block || a.location != b.location {
        return false;
    }
    let same_instr = match (&a.instr, &b.instr) {
        (Some(x), Some(y)) => instr_eq(x, y),
        (None, None) => true,
        _ => false,
    };
    if !same_instr {
        return false;
    }
    match (&a.term, &b.term) {
        (Some(x), Some(y)) => term_eq(x, y),
        (None, None) => true,
        _ => false,
    }
}

} // verus!

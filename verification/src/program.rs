//! Queries over a LIR program: its variables by kind, address-taken
//! variables, basic blocks, and counts.
use vstd::prelude::*;
use crate::lir::{var_eq, vars_view, Block, Field, Function, Instruction, Program, Type, TypeV, Variable, VariableV};
use crate::stats::Stats;

verus! {

/// The value of `x` reduced to 32 bits, as a count kept in a `u32` that wraps.
pub open spec fn wrap32(x: nat) -> u32 {
    (x % 0x1_0000_0000) as u32
}

proof fn lemma_wrap32_add(x: nat, y: nat)
    ensures
        wrap32(x).wrapping_add(wrap32(y)) == wrap32(x + y),
{
    let m: int = 0x1_0000_0000;
    vstd::arithmetic::div_mod::lemma_add_mod_noop(x as int, y as int, m);
    let a: int = (x as int) % m;
    let b: int = (y as int) % m;
    assert(0 <= a < m && 0 <= b < m);
    if a + b >= m {
        vstd::arithmetic::div_mod::lemma_mod_sub_multiples_vanish(a + b, m);
        vstd::arithmetic::div_mod::lemma_small_mod((a + b - m) as nat, m as nat);
    } else {
        vstd::arithmetic::div_mod::lemma_small_mod((a + b) as nat, m as nat);
    }
}

/// Kinds of types by which variables are counted and selected.
#[derive(Debug, Clone, Copy, PartialEq, Eq, Structural)]
pub enum TypeClass {
    IntVar,
    StructVar,
    PointerVar,
    PtrInt,
    PtrStruct,
    PtrFunc,
    PtrPtr,
}

/// Whether a type belongs to a kind.
pub open spec fn in_class(k: TypeClass, t: TypeV) -> bool {
    match k {
        TypeClass::IntVar => match t {
            TypeV::Int => true,
            _ => false,
        },
        TypeClass::StructVar => match t {
            TypeV::Struct(_) => true,
            _ => false,
        },
        TypeClass::PointerVar => match t {
            TypeV::Pointer(_) => true,
            _ => false,
        },
        TypeClass::PtrInt => match t {
            TypeV::Pointer(b) => *b is Int,
            _ => false,
        },
        TypeClass::PtrStruct => match t {
            TypeV::Pointer(b) => *b is Struct,
            _ => false,
        },
        TypeClass::PtrFunc => match t {
            TypeV::Pointer(b) => *b is Function,
            _ => false,
        },
        TypeClass::PtrPtr => match t {
            TypeV::Pointer(b) => *b is Pointer,
            _ => false,
        },
    }
}

/// Decides whether a type belongs to a kind.
pub fn type_in_class(t: &Type, k: TypeClass) -> (r: bool)
    ensures
        r == in_class(k, t@),
{
    proof {
        reveal_with_fuel(crate::lir::type_view, 2);
    }
    match k {
        TypeClass::IntVar => match t {
            Type::Int => true,
            _ => false,
        },
        TypeClass::StructVar => match t {
            Type::Struct(_) => true,
            _ => false,
        },
        TypeClass::PointerVar => match t {
            Type::Pointer(_) => true,
            _ => false,
        },
        TypeClass::PtrInt => match t {
            Type::Pointer(b) => match &**b {
                Type::Int => true,
                _ => false,
            },
            _ => false,
        },
        TypeClass::PtrStruct => match t {
            Type::Pointer(b) => match &**b {
                Type::Struct(_) => true,
                _ => false,
            },
            _ => false,
        },
        TypeClass::PtrFunc => match t {
            Type::Pointer(b) => match &**b {
                Type::Function(_) => true,
                _ => false,
            },
            _ => false,
        },
        TypeClass::PtrPtr => match t {
            Type::Pointer(b) => match &**b {
                Type::Pointer(_) => true,
                _ => false,
            },
            _ => false,
        },
    }
}

/// The predicate on variables whose type belongs to a kind.
pub open spec fn class_pred(k: TypeClass) -> spec_fn(VariableV) -> bool {
    |x: VariableV| in_class(k, x.typ)
}

proof fn lemma_vars_view_push(s: Seq<Variable>, i: int)
    requires
        0 <= i < s.len(),
    ensures
        vars_view(s.take(i + 1)) == vars_view(s.take(i)).push(s[i]@),
{
    assert(vars_view(s.take(i + 1)) =~= vars_view(s.take(i)).push(s[i]@));
}

/// The variables of `v` whose type belongs to kind `k`, in order.
fn filter_class(v: &Vec<Variable>, k: TypeClass) -> (r: Vec<Variable>)
    ensures
        vars_view(r@) == vars_view(v@).filter(class_pred(k)),
{
    let mut r: Vec<Variable> = Vec::new();
    let mut i: usize = 0;
    assert(vars_view(r@) =~= vars_view(v@.take(0)).filter(class_pred(k))) by {
        reveal(Seq::filter);
    }
    while i < v.len()
        invariant
            i <= v.len(),
            vars_view(r@) == vars_view(v@.take(i as int)).filter(class_pred(k)),
        decreases v.len() - i,
    {
        proof {
            lemma_vars_view_push(v@, i as int);
            vars_view(v@.take(i as int)).lemma_filter_push(v@[i as int]@, class_pred(k));
        }
        if type_in_class(&v[i].typ, k) {
            let c = v[i].clone();
            let ghost old_r = r@;
            r.push(c);
            assert(vars_view(r@) =~= vars_view(old_r).push(c@));
        }
        i += 1;
    }
    assert(v@.take(v.len() as int) =~= v@);
    r
}

/// The sequence with every element after its first occurrence removed.
pub open spec fn dedup(s: Seq<VariableV>) -> Seq<VariableV>
    decreases s.len(),
{
    if s.len() == 0 {
        s
    } else {
        let d = dedup(s.drop_last());
        if d.contains(s.last()) {
            d
        } else {
            d.push(s.last())
        }
    }
}

/// The `int` variables whose address an instruction takes: the right-hand side of an `AddrOf` of type `int`.
pub open spec fn addrof_int_of(i: Instruction) -> Seq<VariableV> {
    match i {
        Instruction::AddrOf { lhs: _, rhs } => if rhs.typ@ is Int {
            seq![rhs@]
        } else {
            Seq::empty()
        },
        _ => Seq::empty(),
    }
}

/// The `int` variables whose address the instructions take, in order (with repetitions).
pub open spec fn addrof_int_insts(s: Seq<Instruction>) -> Seq<VariableV>
    decreases s.len(),
{
    if s.len() == 0 {
        Seq::empty()
    } else {
        addrof_int_insts(s.drop_last()) + addrof_int_of(s.last())
    }
}

/// The `int` variables whose address the blocks take, block by block (with repetitions).
pub open spec fn addrof_int_body(b: Seq<(String, Block)>) -> Seq<VariableV>
    decreases b.len(),
{
    if b.len() == 0 {
        Seq::empty()
    } else {
        addrof_int_body(b.drop_last()) + addrof_int_insts(b.last().1.insts@)
    }
}

/// Whether a variable with the view of `x` occurs in `v`.
pub fn contains_var(v: &Vec<Variable>, x: &Variable) -> (r: bool)
    ensures
        r == vars_view(v@).contains(x@),
{
    let mut i: usize = 0;
    while i < v.len()
        invariant
            i <= v.len(),
            forall|j: int| 0 <= j < i ==> v@[j]@ != x@,
        decreases v.len() - i,
    {
        if var_eq(&v[i], x) {
            assert(vars_view(v@)[i as int] == x@);
            return true;
        }
        i += 1;
    }
    assert forall|j: int| 0 <= j < vars_view(v@).len() implies vars_view(v@)[j] != x@ by {
        assert(v@[j]@ != x@);
    }
    false
}

/// Appends `x` to `r` unless a variable with its view is there already.
fn push_unique(r: &mut Vec<Variable>, x: &Variable)
    ensures
        vars_view(final(r)@) == if vars_view(old(r)@).contains(x@) {
            vars_view(old(r)@)
        } else {
            vars_view(old(r)@).push(x@)
        },
{
    if !contains_var(r, x) {
        let c = x.clone();
        let ghost before = r@;
        r.push(c);
        assert(vars_view(r@) =~= vars_view(before).push(x@));
    }
}

proof fn lemma_dedup_push(s: Seq<VariableV>, x: VariableV)
    ensures
        dedup(s.push(x)) == if dedup(s).contains(x) {
            dedup(s)
        } else {
            dedup(s).push(x)
        },
{
    assert(s.push(x).drop_last() =~= s);
}

/// The blocks of a function body, in order.
pub open spec fn body_blocks(b: Seq<(String, Block)>) -> Seq<Block> {
    b.map_values(|p: (String, Block)| p.1)
}

/// The blocks of all functions, function by function.
pub open spec fn all_blocks(fs: Seq<(String, Function)>) -> Seq<Block>
    decreases fs.len(),
{
    if fs.len() == 0 {
        Seq::empty()
    } else {
        all_blocks(fs.drop_last()) + body_blocks(fs.last().1.body@)
    }
}

/// Number of variables of a sequence whose type belongs to a kind.
pub open spec fn count_class(s: Seq<Variable>, k: TypeClass) -> nat
    decreases s.len(),
{
    if s.len() == 0 {
        0
    } else {
        count_class(s.drop_last(), k) + if in_class(k, s.last().typ@) {
            1nat
        } else {
            0nat
        }
    }
}

/// Number of locals, over all functions, whose type belongs to a kind.
pub open spec fn count_locals_class(fs: Seq<(String, Function)>, k: TypeClass) -> nat
    decreases fs.len(),
{
    if fs.len() == 0 {
        0
    } else {
        count_locals_class(fs.drop_last(), k) + count_class(fs.last().1.locals@, k)
    }
}

/// Number of locals and globals whose type belongs to a kind.
pub open spec fn count_vars_class(p: Program, k: TypeClass) -> nat {
    count_locals_class(p.functions@, k) + count_class(p.globals@, k)
}

/// The variable counts cover globals and locals: a program with one more
/// global counts one more variable of the global's kind and the same of
/// every other kind; a program with one more function counts, in addition,
/// that function's locals of the kind.
pub proof fn count_vars_law(p: Program, q: Program, k: TypeClass, g: Variable, f: (String, Function))
    ensures
        q.functions@ == p.functions@ && q.globals@ == p.globals@.push(g) ==> count_vars_class(q, k)
            == count_vars_class(p, k) + if in_class(k, g.typ@) {
            1nat
        } else {
            0nat
        },
        q.functions@ == p.functions@.push(f) && q.globals@ == p.globals@ ==> count_vars_class(q, k)
            == count_vars_class(p, k) + count_class(f.1.locals@, k),
        p.functions@.len() == 0 && p.globals@.len() == 0 ==> count_vars_class(p, k) == 0,
{
    if q.globals@ == p.globals@.push(g) {
        assert(q.globals@.drop_last() =~= p.globals@);
    }
    if q.functions@ == p.functions@.push(f) {
        assert(q.functions@.drop_last() =~= p.functions@);
    }
}

/// Total number of fields over all struct types.
pub open spec fn sum_fields(s: Seq<(String, Vec<Field>)>) -> nat
    decreases s.len(),
{
    if s.len() == 0 {
        0
    } else {
        sum_fields(s.drop_last()) + s.last().1@.len()
    }
}

/// Number of functions that return a value.
pub open spec fn count_returning(fs: Seq<(String, Function)>) -> nat
    decreases fs.len(),
{
    if fs.len() == 0 {
        0
    } else {
        count_returning(fs.drop_last()) + if fs.last().1.ret_ty is Some {
            1nat
        } else {
            0nat
        }
    }
}

/// Total number of parameters over all functions.
pub open spec fn sum_params(fs: Seq<(String, Function)>) -> nat
    decreases fs.len(),
{
    if fs.len() == 0 {
        0
    } else {
        sum_params(fs.drop_last()) + fs.last().1.params@.len()
    }
}

/// Total number of locals over all functions.
pub open spec fn sum_locals(fs: Seq<(String, Function)>) -> nat
    decreases fs.len(),
{
    if fs.len() == 0 {
        0
    } else {
        sum_locals(fs.drop_last()) + fs.last().1.locals@.len()
    }
}

/// Total number of basic blocks over all functions (each block has one terminal).
pub open spec fn sum_blocks(fs: Seq<(String, Function)>) -> nat
    decreases fs.len(),
{
    if fs.len() == 0 {
        0
    } else {
        sum_blocks(fs.drop_last()) + fs.last().1.body@.len()
    }
}

/// Number of instructions in a list of blocks.
pub open spec fn sum_block_instrs(bs: Seq<(String, Block)>) -> nat
    decreases bs.len(),
{
    if bs.len() == 0 {
        0
    } else {
        sum_block_instrs(bs.drop_last()) + bs.last().1.insts@.len()
    }
}

/// Total number of instructions over all functions.
pub open spec fn sum_instrs(fs: Seq<(String, Function)>) -> nat
    decreases fs.len(),
{
    if fs.len() == 0 {
        0
    } else {
        sum_instrs(fs.drop_last()) + sum_block_instrs(fs.last().1.body@)
    }
}

fn count_class_exec(v: &Vec<Variable>, k: TypeClass) -> (r: u32)
    ensures
        r == wrap32(count_class(v@, k)),
{
    let mut acc: u32 = 0;
    let mut i: usize = 0;
    while i < v.len()
        invariant
            i <= v.len(),
            acc == wrap32(count_class(v@.take(i as int), k)),
        decreases v.len() - i,
    {
        assert(v@.take(i + 1).drop_last() =~= v@.take(i as int));
        if type_in_class(&v[i].typ, k) {
            proof {
                lemma_wrap32_add(count_class(v@.take(i as int), k), 1);
            }
            acc = acc.wrapping_add(1);
        }
        i += 1;
    }
    assert(v@.take(v.len() as int) =~= v@);
    acc
}

fn len_wrap32(n: usize) -> (r: u32)
    ensures
        r == wrap32(n as nat),
{
    ((n as u64) % 0x1_0000_0000u64) as u32
}

/// Position of the first entry of a list of pairs whose key has the given view, or -1.
pub open spec fn key_pos<A>(s: Seq<(String, A)>, k: Seq<char>) -> int
    decreases s.len(),
{
    if s.len() == 0 {
        -1
    } else if s[0].0@ == k {
        0
    } else {
        let r = key_pos(s.drop_first(), k);
        if r < 0 {
            -1
        } else {
            r + 1
        }
    }
}

proof fn lemma_key_pos_found<A>(s: Seq<(String, A)>, k: Seq<char>, i: int)
    requires
        0 <= i < s.len(),
        s[i].0@ == k,
        forall|j: int| 0 <= j < i ==> s[j].0@ != k,
    ensures
        key_pos(s, k) == i,
    decreases i,
{
    if i > 0 {
        lemma_key_pos_found(s.drop_first(), k, i - 1);
    }
}

proof fn lemma_key_pos_absent<A>(s: Seq<(String, A)>, k: Seq<char>)
    requires
        forall|j: int| 0 <= j < s.len() ==> s[j].0@ != k,
    ensures
        key_pos(s, k) == -1,
    decreases s.len(),
{
    if s.len() > 0 {
        lemma_key_pos_absent(s.drop_first(), k);
    }
}

/// The bounds of the first-key position.
pub proof fn lemma_key_pos_range<A>(s: Seq<(String, A)>, k: Seq<char>)
    ensures
        -1 <= key_pos(s, k) < s.len(),
        key_pos(s, k) >= 0 ==> s[key_pos(s, k)].0@ == k,
        key_pos(s, k) == -1 ==> forall|j: int| 0 <= j < s.len() ==> s[j].0@ != k,
    decreases s.len(),
{
    if s.len() > 0 {
        lemma_key_pos_range(s.drop_first(), k);
        if s[0].0@ != k && key_pos(s, k) == -1 {
            assert forall|j: int| 0 <= j < s.len() implies s[j].0@ != k by {
                if j > 0 {
                    assert(s.drop_first()[j - 1] == s[j]);
                }
            }
        }
    }
}

/// Finds the first entry of a list of pairs whose key equals `k`.
pub fn find_key<A>(s: &Vec<(String, A)>, k: &str) -> (r: Option<usize>)
    ensures
        match r {
            Some(i) => key_pos(s@, k@) == i,
            None => key_pos(s@, k@) == -1,
        },
{
    let key = String::from_str(k);
    let mut i: usize = 0;
    while i < s.len()
        invariant
            i <= s.len(),
            key@ == k@,
            forall|j: int| 0 <= j < i ==> s@[j].0@ != k@,
        decreases s.len() - i,
    {
        if s[i].0 == key {
            proof {
                lemma_key_pos_found(s@, k@, i as int);
            }
            return Some(i);
        }
        i += 1;
    }
    proof {
        lemma_key_pos_absent(s@, k@);
    }
    None
}

impl Program {
    /// Whether the program defines a function with this name.
    pub open spec fn has_function(self, name: Seq<char>) -> bool {
        key_pos(self.functions@, name) >= 0
    }

    /// The function with this name (the first entry with this key).
    pub open spec fn function(self, name: Seq<char>) -> Function {
        self.functions@[key_pos(self.functions@, name)].1
    }

    /// Variables of type `int` among the globals, in order.
    pub fn get_int_globals(&self) -> (r: Vec<Variable>)
        ensures
            vars_view(r@) == vars_view(self.globals@).filter(class_pred(TypeClass::IntVar)),
    {
        filter_class(&self.globals, TypeClass::IntVar)
    }

    /// Variables of a pointer type among the globals, in order.
    pub fn get_ptr_globals(&self) -> (r: Vec<Variable>)
        ensures
            vars_view(r@) == vars_view(self.globals@).filter(class_pred(TypeClass::PointerVar)),
    {
        filter_class(&self.globals, TypeClass::PointerVar)
    }

    fn function_index(&self, func_name: &str) -> (r: usize)
        requires
            self.has_function(func_name@),
        ensures
            r == key_pos(self.functions@, func_name@),
            r < self.functions@.len(),
    {
        proof {
            lemma_key_pos_range(self.functions@, func_name@);
        }
        match find_key(&self.functions, func_name) {
            Some(i) => i,
            None => 0,
        }
    }

    /// Parameters of type `int` of the named function, in order.
    pub fn get_int_parameters(&self, func_name: &str) -> (r: Vec<Variable>)
        requires
            self.has_function(func_name@),
        ensures
            vars_view(r@) == vars_view(self.function(func_name@).params@).filter(class_pred(TypeClass::IntVar)),
    {
        let i = self.function_index(func_name);
        filter_class(&self.functions[i].1.params, TypeClass::IntVar)
    }

    /// Parameters of a pointer type of the named function, in order.
    pub fn get_ptr_parameters(&self, func_name: &str) -> (r: Vec<Variable>)
        requires
            self.has_function(func_name@),
        ensures
            vars_view(r@) == vars_view(self.function(func_name@).params@).filter(
                class_pred(TypeClass::PointerVar),
            ),
    {
        let i = self.function_index(func_name);
        filter_class(&self.functions[i].1.params, TypeClass::PointerVar)
    }

    /// Locals of type `int` of the named function, in order.
    pub fn get_int_locals(&self, func_name: &str) -> (r: Vec<Variable>)
        requires
            self.has_function(func_name@),
        ensures
            vars_view(r@) == vars_view(self.function(func_name@).locals@).filter(class_pred(TypeClass::IntVar)),
    {
        let i = self.function_index(func_name);
        filter_class(&self.functions[i].1.locals, TypeClass::IntVar)
    }

    /// Locals of a pointer type of the named function, in order.
    pub fn get_ptr_locals(&self, func_name: &str) -> (r: Vec<Variable>)
        requires
            self.has_function(func_name@),
        ensures
            vars_view(r@) == vars_view(self.function(func_name@).locals@).filter(
                class_pred(TypeClass::PointerVar),
            ),
    {
        let i = self.function_index(func_name);
        filter_class(&self.functions[i].1.locals, TypeClass::PointerVar)
    }

    /// All basic blocks of all functions, function by function, in order.
    pub fn get_all_basic_blocks(&self) -> (r: Vec<&Block>)
        ensures
            r@.len() == all_blocks(self.functions@).len(),
            forall|i: int| 0 <= i < r@.len() ==> *r@[i] == all_blocks(self.functions@)[i],
    {
        let mut r: Vec<&Block> = Vec::new();
        let mut i: usize = 0;
        while i < self.functions.len()
            invariant
                i <= self.functions.len(),
                r@.len() == all_blocks(self.functions@.take(i as int)).len(),
                forall|k: int| 0 <= k < r@.len() ==> *r@[k] == all_blocks(self.functions@.take(i as int))[k],
            decreases self.functions.len() - i,
        {
            assert(self.functions@.take(i + 1).drop_last() =~= self.functions@.take(i as int));
            let body = &self.functions[i].1.body;
            let ghost before = all_blocks(self.functions@.take(i as int));
            let mut j: usize = 0;
            while j < body.len()
                invariant
                    j <= body.len(),
                    r@.len() == before.len() + j,
                    forall|k: int| 0 <= k < before.len() ==> *r@[k] == before[k],
                    forall|k: int| 0 <= k < j ==> *r@[before.len() + k] == body@[k].1,
                decreases body.len() - j,
            {
                r.push(&body[j].1);
                j += 1;
            }
            assert forall|k: int| 0 <= k < r@.len() implies *r@[k] == all_blocks(self.functions@.take(i + 1))[k] by {
                if k >= before.len() {
                    assert(body_blocks(body@)[k - before.len()] == body@[k - before.len()].1);
                }
            }
            i += 1;
        }
        assert(self.functions@.take(self.functions.len() as int) =~= self.functions@);
        r
    }

    /// The `int` variables whose address the named function takes, then the
    /// `int` globals, each once, in order of first occurrence.
    pub fn get_addrof_ints(&self, func_name: &str) -> (r: Vec<Variable>)
        requires
            self.has_function(func_name@),
        ensures
            vars_view(r@) == dedup(
                addrof_int_body(self.function(func_name@).body@) + vars_view(self.globals@).filter(
                    class_pred(TypeClass::IntVar),
                ),
            ),
    {
        let fi = self.function_index(func_name);
        let body = &self.functions[fi].1.body;
        let mut r: Vec<Variable> = Vec::new();
        let mut i: usize = 0;
        assert(vars_view(r@) =~= dedup(addrof_int_body(body@.take(0))));
        while i < body.len()
            invariant
                i <= body.len(),
                vars_view(r@) == dedup(addrof_int_body(body@.take(i as int))),
            decreases body.len() - i,
        {
            assert(body@.take(i + 1).drop_last() =~= body@.take(i as int));
            let insts = &body[i].1.insts;
            let ghost base = addrof_int_body(body@.take(i as int));
            let mut j: usize = 0;
            assert(base + addrof_int_insts(insts@.take(0)) =~= base);
            while j < insts.len()
                invariant
                    j <= insts.len(),
                    vars_view(r@) == dedup(base + addrof_int_insts(insts@.take(j as int))),
                decreases insts.len() - j,
            {
                assert(insts@.take(j + 1).drop_last() =~= insts@.take(j as int));
                let ghost prev = base + addrof_int_insts(insts@.take(j as int));
                match &insts[j] {
                    Instruction::AddrOf { lhs: _, rhs } => {
                        if let Type::Int = rhs.typ {
                            proof {
                                assert(base + addrof_int_insts(insts@.take(j + 1)) =~= prev.push(rhs@));
                                lemma_dedup_push(prev, rhs@);
                            }
                            push_unique(&mut r, rhs);
                        } else {
                            assert(base + addrof_int_insts(insts@.take(j + 1)) =~= prev);
                        }
                    },
                    _ => {
                        assert(base + addrof_int_insts(insts@.take(j + 1)) =~= prev);
                    },
                }
                j += 1;
            }
            assert(insts@.take(insts.len() as int) =~= insts@);
            i += 1;
        }
        assert(body@.take(body.len() as int) =~= body@);
        let globals = self.get_int_globals();
        let ghost base = addrof_int_body(body@);
        let mut k: usize = 0;
        assert(base + vars_view(globals@).take(0) =~= base);
        while k < globals.len()
            invariant
                k <= globals.len(),
                vars_view(r@) == dedup(base + vars_view(globals@).take(k as int)),
            decreases globals.len() - k,
        {
            let ghost prev = base + vars_view(globals@).take(k as int);
            proof {
                assert(base + vars_view(globals@).take(k + 1) =~= prev.push(globals@[k as int]@));
                lemma_dedup_push(prev, globals@[k as int]@);
            }
            push_unique(&mut r, &globals[k]);
            k += 1;
        }
        assert(vars_view(globals@).take(globals.len() as int) =~= vars_view(globals@));
        r
    }

    /// An empty program.
    pub fn new() -> (r: Program)
        ensures
            r.structs@.len() == 0,
            r.globals@.len() == 0,
            r.functions@.len() == 0,
            r.externs@.len() == 0,
    {
        Program { structs: Vec::new(), globals: Vec::new(), functions: Vec::new(), externs: Vec::new() }
    }

    /// Number of fields across all struct types.
    pub fn get_num_fields(&self) -> (r: u32)
        ensures
            r == wrap32(sum_fields(self.structs@)),
    {
        let mut acc: u32 = 0;
        let mut i: usize = 0;
        while i < self.structs.len()
            invariant
                i <= self.structs.len(),
                acc == wrap32(sum_fields(self.structs@.take(i as int))),
            decreases self.structs.len() - i,
        {
            assert(self.structs@.take(i + 1).drop_last() =~= self.structs@.take(i as int));
            proof {
                lemma_wrap32_add(sum_fields(self.structs@.take(i as int)), self.structs@[i as int].1.len() as nat);
            }
            acc = acc.wrapping_add(len_wrap32(self.structs[i].1.len()));
            i += 1;
        }
        assert(self.structs@.take(self.structs.len() as int) =~= self.structs@);
        acc
    }

    /// Number of functions that return a value.
    pub fn get_num_functions(&self) -> (r: u32)
        ensures
            r == wrap32(count_returning(self.functions@)),
    {
        let mut acc: u32 = 0;
        let mut i: usize = 0;
        while i < self.functions.len()
            invariant
                i <= self.functions.len(),
                acc == wrap32(count_returning(self.functions@.take(i as int))),
            decreases self.functions.len() - i,
        {
            assert(self.functions@.take(i + 1).drop_last() =~= self.functions@.take(i as int));
            if self.functions[i].1.ret_ty.is_some() {
                proof {
                    lemma_wrap32_add(count_returning(self.functions@.take(i as int)), 1);
                }
                acc = acc.wrapping_add(1);
            }
            i += 1;
        }
        assert(self.functions@.take(self.functions.len() as int) =~= self.functions@);
        acc
    }

    /// Number of function parameters.
    pub fn get_num_func_params(&self) -> (r: u32)
        ensures
            r == wrap32(sum_params(self.functions@)),
    {
        let mut acc: u32 = 0;
        let mut i: usize = 0;
        while i < self.functions.len()
            invariant
                i <= self.functions.len(),
                acc == wrap32(sum_params(self.functions@.take(i as int))),
            decreases self.functions.len() - i,
        {
            assert(self.functions@.take(i + 1).drop_last() =~= self.functions@.take(i as int));
            proof {
                lemma_wrap32_add(
                    sum_params(self.functions@.take(i as int)),
                    self.functions@[i as int].1.params.len() as nat,
                );
            }
            acc = acc.wrapping_add(len_wrap32(self.functions[i].1.params.len()));
            i += 1;
        }
        assert(self.functions@.take(self.functions.len() as int) =~= self.functions@);
        acc
    }

    /// Number of local variables.
    pub fn get_num_locals(&self) -> (r: u32)
        ensures
            r == wrap32(sum_locals(self.functions@)),
    {
        let mut acc: u32 = 0;
        let mut i: usize = 0;
        while i < self.functions.len()
            invariant
                i <= self.functions.len(),
                acc == wrap32(sum_locals(self.functions@.take(i as int))),
            decreases self.functions.len() - i,
        {
            assert(self.functions@.take(i + 1).drop_last() =~= self.functions@.take(i as int));
            proof {
                lemma_wrap32_add(
                    sum_locals(self.functions@.take(i as int)),
                    self.functions@[i as int].1.locals.len() as nat,
                );
            }
            acc = acc.wrapping_add(len_wrap32(self.functions[i].1.locals.len()));
            i += 1;
        }
        assert(self.functions@.take(self.functions.len() as int) =~= self.functions@);
        acc
    }

    /// Number of basic blocks.
    pub fn get_num_basic_blocks(&self) -> (r: u32)
        ensures
            r == wrap32(sum_blocks(self.functions@)),
    {
        let mut acc: u32 = 0;
        let mut i: usize = 0;
        while i < self.functions.len()
            invariant
                i <= self.functions.len(),
                acc == wrap32(sum_blocks(self.functions@.take(i as int))),
            decreases self.functions.len() - i,
        {
            assert(self.functions@.take(i + 1).drop_last() =~= self.functions@.take(i as int));
            proof {
                lemma_wrap32_add(
                    sum_blocks(self.functions@.take(i as int)),
                    self.functions@[i as int].1.body.len() as nat,
                );
            }
            acc = acc.wrapping_add(len_wrap32(self.functions[i].1.body.len()));
            i += 1;
        }
        assert(self.functions@.take(self.functions.len() as int) =~= self.functions@);
        acc
    }

    /// Number of terminals: every basic block ends with exactly one.
    pub fn get_num_terminals(&self) -> (r: u32)
        ensures
            r == wrap32(sum_blocks(self.functions@)),
    {
        self.get_num_basic_blocks()
    }

    /// Number of instructions.
    pub fn get_num_instructions(&self) -> (r: u32)
        ensures
            r == wrap32(sum_instrs(self.functions@)),
    {
        let mut acc: u32 = 0;
        let mut i: usize = 0;
        while i < self.functions.len()
            invariant
                i <= self.functions.len(),
                acc == wrap32(sum_instrs(self.functions@.take(i as int))),
            decreases self.functions.len() - i,
        {
            assert(self.functions@.take(i + 1).drop_last() =~= self.functions@.take(i as int));
            let body = &self.functions[i].1.body;
            let mut j: usize = 0;
            while j < body.len()
                invariant
                    j <= body.len(),
                    acc == wrap32(
                        sum_instrs(self.functions@.take(i as int)) + sum_block_instrs(body@.take(j as int)),
                    ),
                decreases body.len() - j,
            {
                assert(body@.take(j + 1).drop_last() =~= body@.take(j as int));
                proof {
                    lemma_wrap32_add(
                        sum_instrs(self.functions@.take(i as int)) + sum_block_instrs(body@.take(j as int)),
                        body@[j as int].1.insts.len() as nat,
                    );
                }
                acc = acc.wrapping_add(len_wrap32(body[j].1.insts.len()));
                j += 1;
            }
            assert(body@.take(body.len() as int) =~= body@);
            i += 1;
        }
        assert(self.functions@.take(self.functions.len() as int) =~= self.functions@);
        acc
    }

    fn count_vars(&self, k: TypeClass) -> (r: u32)
        ensures
            r == wrap32(count_vars_class(*self, k)),
    {
        let mut acc: u32 = 0;
        let mut i: usize = 0;
        while i < self.functions.len()
            invariant
                i <= self.functions.len(),
                acc == wrap32(count_locals_class(self.functions@.take(i as int), k)),
            decreases self.functions.len() - i,
        {
            assert(self.functions@.take(i + 1).drop_last() =~= self.functions@.take(i as int));
            proof {
                lemma_wrap32_add(
                    count_locals_class(self.functions@.take(i as int), k),
                    count_class(self.functions@[i as int].1.locals@, k),
                );
            }
            acc = acc.wrapping_add(count_class_exec(&self.functions[i].1.locals, k));
            i += 1;
        }
        assert(self.functions@.take(self.functions.len() as int) =~= self.functions@);
        proof {
            lemma_wrap32_add(count_locals_class(self.functions@, k), count_class(self.globals@, k));
        }
        acc.wrapping_add(count_class_exec(&self.globals, k))
    }

    /// Number of locals and globals of type `int`.
    pub fn get_num_ints(&self) -> (r: u32)
        ensures
            r == wrap32(count_vars_class(*self, TypeClass::IntVar)),
    {
        self.count_vars(TypeClass::IntVar)
    }

    /// Number of locals and globals of a struct type.
    pub fn get_num_structs(&self) -> (r: u32)
        ensures
            r == wrap32(count_vars_class(*self, TypeClass::StructVar)),
    {
        self.count_vars(TypeClass::StructVar)
    }

    /// Number of locals and globals of type pointer to `int`.
    pub fn get_num_ptr_ints(&self) -> (r: u32)
        ensures
            r == wrap32(count_vars_class(*self, TypeClass::PtrInt)),
    {
        self.count_vars(TypeClass::PtrInt)
    }

    /// Number of locals and globals of type pointer to a struct.
    pub fn get_num_ptr_structs(&self) -> (r: u32)
        ensures
            r == wrap32(count_vars_class(*self, TypeClass::PtrStruct)),
    {
        self.count_vars(TypeClass::PtrStruct)
    }

    /// Number of locals and globals of type pointer to a function.
    pub fn get_num_ptr_funcs(&self) -> (r: u32)
        ensures
            r == wrap32(count_vars_class(*self, TypeClass::PtrFunc)),
    {
        self.count_vars(TypeClass::PtrFunc)
    }

    /// Number of locals and globals of type pointer to a pointer.
    pub fn get_num_ptr_ptrs(&self) -> (r: u32)
        ensures
            r == wrap32(count_vars_class(*self, TypeClass::PtrPtr)),
    {
        self.count_vars(TypeClass::PtrPtr)
    }

    /// All statistics of the program.
    pub fn get_stats(&self) -> (r: Stats)
        ensures
            r.num_fields == wrap32(sum_fields(self.structs@)),
            r.num_functions == wrap32(count_returning(self.functions@)),
            r.num_func_params == wrap32(sum_params(self.functions@)),
            r.num_locals == wrap32(sum_locals(self.functions@)),
            r.num_basic_blocks == wrap32(sum_blocks(self.functions@)),
            r.num_instructions == wrap32(sum_instrs(self.functions@)),
            r.num_terminals == wrap32(sum_blocks(self.functions@)),
            r.num_ints == wrap32(count_vars_class(*self, TypeClass::IntVar)),
            r.num_structs == wrap32(count_vars_class(*self, TypeClass::StructVar)),
            r.num_ptr_ints == wrap32(count_vars_class(*self, TypeClass::PtrInt)),
            r.num_ptr_structs == wrap32(count_vars_class(*self, TypeClass::PtrStruct)),
            r.num_ptr_funcs == wrap32(count_vars_class(*self, TypeClass::PtrFunc)),
            r.num_ptr_ptrs == wrap32(count_vars_class(*self, TypeClass::PtrPtr)),
    {
        let mut stats = Stats::new();
        stats.num_fields = self.get_num_fields();
        stats.num_functions = self.get_num_functions();
        stats.num_func_params = self.get_num_func_params();
        stats.num_locals = self.get_num_locals();
        stats.num_basic_blocks = self.get_num_basic_blocks();
        stats.num_instructions = self.get_num_instructions();
        stats.num_terminals = self.get_num_terminals();
        stats.num_ints = self.get_num_ints();
        stats.num_structs = self.get_num_structs();
        stats.num_ptr_ints = self.get_num_ptr_ints();
        stats.num_ptr_structs = self.get_num_ptr_structs();
        stats.num_ptr_funcs = self.get_num_ptr_funcs();
        stats.num_ptr_ptrs = self.get_num_ptr_ptrs();
        stats
    }
}

} // verus!

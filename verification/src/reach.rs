//! The types reachable from a type by dereferencing pointers and reading
//! struct fields, and the address-taken variables of a function.
use vstd::prelude::*;
use crate::lir::{type_eq, vars_view, Field, FieldV, Program, Type, TypeV, Variable, VariableV};
use crate::program::{class_pred, dedup, addrof_int_body, find_key, key_pos, lemma_key_pos_range, TypeClass};

verus! {

/// The fields of each struct of a program, as views.
pub open spec fn struct_fields(structs: Seq<(String, Vec<Field>)>, name: Seq<char>) -> Option<Seq<FieldV>> {
    if key_pos(structs, name) >= 0 {
        Some(structs[key_pos(structs, name)].1@.map_values(|f: Field| f@))
    } else {
        None
    }
}

/// One step of a type search: a pointer type leads to the type it points
/// to, and a struct type to the type of each field of its definition (a
/// struct that the program does not define has no fields to read).
pub open spec fn type_step(structs: Seq<(String, Vec<Field>)>, a: TypeV, b: TypeV) -> bool {
    match a {
        TypeV::Pointer(inner) => *inner == b,
        TypeV::Struct(name) => match struct_fields(structs, name) {
            Some(fs) => exists|k: int| 0 <= k < fs.len() && #[trigger] fs[k].typ == b,
            None => false,
        },
        _ => false,
    }
}

/// A chain of search steps.
pub open spec fn type_path(structs: Seq<(String, Vec<Field>)>, p: Seq<TypeV>) -> bool {
    &&& p.len() >= 1
    &&& forall|i: int| 0 <= i < p.len() - 1 ==> type_step(structs, #[trigger] p[i], p[i + 1])
}

/// Whether `b` is reached from `a` by dereferencing pointers and reading
/// struct fields (every type reaches itself).
pub open spec fn type_reaches(structs: Seq<(String, Vec<Field>)>, a: TypeV, b: TypeV) -> bool {
    exists|p: Seq<TypeV>| #[trigger] type_path(structs, p) && p[0] == a && p.last() == b
}

/// The types a search collects: neither struct nor function types.
pub open spec fn value_type(t: TypeV) -> bool {
    t is Int || t is Pointer
}

/// The types reachable from `t` by dereferencing pointers and reading struct
/// fields, without struct and function types.
pub open spec fn reachable(structs: Seq<(String, Vec<Field>)>, t: TypeV) -> Set<TypeV> {
    Set::new(|b: TypeV| type_reaches(structs, t, b) && value_type(b))
}

/// The set `r` with the types reachable from `t` added.
pub open spec fn reached(structs: Seq<(String, Vec<Field>)>, t: TypeV, r: Set<TypeV>) -> Set<TypeV> {
    r.union(reachable(structs, t))
}

/// Every type reaches itself, and a step extends a reach.
pub proof fn lemma_type_reaches_step(structs: Seq<(String, Vec<Field>)>, a: TypeV, b: TypeV, c: TypeV)
    ensures
        type_reaches(structs, a, a),
        type_reaches(structs, a, b) && type_step(structs, b, c) ==> type_reaches(structs, a, c),
{
    assert(type_path(structs, seq![a]));
    if type_reaches(structs, a, b) && type_step(structs, b, c) {
        let p = choose|p: Seq<TypeV>| #[trigger] type_path(structs, p) && p[0] == a && p.last() == b;
        let q = p.push(c);
        assert forall|i: int| 0 <= i < q.len() - 1 implies type_step(structs, #[trigger] q[i], q[i + 1]) by {
            if i < p.len() - 1 {
                assert(q[i] == p[i] && q[i + 1] == p[i + 1]);
            }
        }
        assert(type_path(structs, q));
    }
}

/// A set that holds `a` and is closed under search steps holds every type
/// that `a` reaches.
pub proof fn lemma_closed_holds_reached(structs: Seq<(String, Vec<Field>)>, s: Set<TypeV>, a: TypeV, b: TypeV)
    requires
        s.contains(a),
        forall|x: TypeV, y: TypeV| s.contains(x) && #[trigger] type_step(structs, x, y) ==> s.contains(y),
        type_reaches(structs, a, b),
    ensures
        s.contains(b),
{
    let p = choose|p: Seq<TypeV>| #[trigger] type_path(structs, p) && p[0] == a && p.last() == b;
    lemma_path_inside(structs, s, p, p.len() - 1);
}

proof fn lemma_path_inside(structs: Seq<(String, Vec<Field>)>, s: Set<TypeV>, p: Seq<TypeV>, i: int)
    requires
        type_path(structs, p),
        s.contains(p[0]),
        forall|x: TypeV, y: TypeV| s.contains(x) && #[trigger] type_step(structs, x, y) ==> s.contains(y),
        0 <= i < p.len(),
    ensures
        s.contains(p[i]),
    decreases i,
{
    if i > 0 {
        lemma_path_inside(structs, s, p, i - 1);
        assert(type_step(structs, p[i - 1], p[i]));
    }
}

/// A type followed by the types it points to, pointer by pointer.
pub open spec fn ptr_chain(t: TypeV) -> Seq<TypeV>
    decreases t,
{
    match t {
        TypeV::Pointer(inner) => seq![t] + ptr_chain(*inner),
        _ => seq![t],
    }
}

/// The pointer chains of a list of types, one after the other.
pub open spec fn chains(ts: Seq<TypeV>) -> Seq<TypeV>
    decreases ts.len(),
{
    if ts.len() == 0 {
        Seq::empty()
    } else {
        chains(ts.drop_last()) + ptr_chain(ts.last())
    }
}

/// The field types of all structs of a program, struct by struct.
pub open spec fn field_types(structs: Seq<(String, Vec<Field>)>) -> Seq<TypeV>
    decreases structs.len(),
{
    if structs.len() == 0 {
        Seq::empty()
    } else {
        field_types(structs.drop_last()) + structs.last().1@.map_values(|f: Field| f@.typ)
    }
}

/// A finite set of types that holds `t` and every type a search from it meets.
pub open spec fn type_universe(structs: Seq<(String, Vec<Field>)>, t: TypeV) -> Set<TypeV> {
    (ptr_chain(t) + chains(field_types(structs))).to_set()
}

proof fn lemma_ptr_chain(x: TypeV, a: TypeV)
    ensures
        ptr_chain(x).len() >= 1,
        ptr_chain(x)[0] == x,
        ptr_chain(x).contains(a) && a is Pointer ==> ptr_chain(x).contains(*a->Pointer_0),
    decreases x,
{
    match x {
        TypeV::Pointer(inner) => {
            lemma_ptr_chain(*inner, a);
            let c = ptr_chain(x);
            if c.contains(a) && a is Pointer {
                let i = choose|i: int| 0 <= i < c.len() && c[i] == a;
                if i == 0 {
                    assert(c[1] == *inner);
                } else {
                    assert(ptr_chain(*inner)[i - 1] == a);
                    assert(ptr_chain(*inner).contains(a));
                    let j = choose|j: int| 0 <= j < ptr_chain(*inner).len() && ptr_chain(*inner)[j] == *a->Pointer_0;
                    assert(c[j + 1] == *a->Pointer_0);
                }
            }
        },
        _ => {},
    }
}

proof fn lemma_chains(ts: Seq<TypeV>, a: TypeV)
    ensures
        chains(ts).contains(a) ==> exists|i: int| 0 <= i < ts.len() && #[trigger] ptr_chain(ts[i]).contains(a),
        forall|i: int| 0 <= i < ts.len() && #[trigger] ptr_chain(ts[i]).contains(a) ==> chains(ts).contains(a),
    decreases ts.len(),
{
    if ts.len() > 0 {
        let init = ts.drop_last();
        lemma_chains(init, a);
        let c = chains(ts);
        assert(c == chains(init) + ptr_chain(ts.last()));
        if c.contains(a) {
            let k = choose|k: int| 0 <= k < c.len() && c[k] == a;
            if k < chains(init).len() {
                assert(chains(init)[k] == a);
                assert(chains(init).contains(a));
                let i = choose|i: int| 0 <= i < init.len() && #[trigger] ptr_chain(init[i]).contains(a);
                assert(ts[i] == init[i]);
            } else {
                assert(ptr_chain(ts.last())[k - chains(init).len()] == a);
                assert(ptr_chain(ts[ts.len() - 1]).contains(a));
            }
        }
        assert forall|i: int| 0 <= i < ts.len() && #[trigger] ptr_chain(ts[i]).contains(a) implies c.contains(a) by {
            if i < ts.len() - 1 {
                assert(init[i] == ts[i]);
                assert(chains(init).contains(a));
                let k = choose|k: int| 0 <= k < chains(init).len() && chains(init)[k] == a;
                assert(c[k] == a);
            } else {
                let k = choose|k: int| 0 <= k < ptr_chain(ts.last()).len() && ptr_chain(ts.last())[k] == a;
                assert(c[chains(init).len() + k] == a);
            }
        }
    }
}

proof fn lemma_field_types(structs: Seq<(String, Vec<Field>)>, i: int, k: int)
    requires
        0 <= i < structs.len(),
        0 <= k < structs[i].1@.len(),
    ensures
        field_types(structs).contains(structs[i].1@[k]@.typ),
    decreases structs.len(),
{
    let init = structs.drop_last();
    let last = structs.last().1@.map_values(|f: Field| f@.typ);
    assert(field_types(structs) == field_types(init) + last);
    if i < structs.len() - 1 {
        assert(init[i] == structs[i]);
        lemma_field_types(init, i, k);
        let j = choose|j: int| 0 <= j < field_types(init).len() && field_types(init)[j] == structs[i].1@[k]@.typ;
        assert(field_types(structs)[j] == structs[i].1@[k]@.typ);
    } else {
        assert(last[k] == structs[i].1@[k]@.typ);
        assert(field_types(structs)[field_types(init).len() + k] == structs[i].1@[k]@.typ);
    }
}

/// The universe of a search is finite, holds its start, and is closed under steps.
pub proof fn lemma_type_universe(structs: Seq<(String, Vec<Field>)>, t: TypeV, a: TypeV, b: TypeV)
    ensures
        type_universe(structs, t).finite(),
        type_universe(structs, t).contains(t),
        type_universe(structs, t).contains(a) && type_step(structs, a, b) ==> type_universe(structs, t).contains(b),
{
    let c = ptr_chain(t);
    let f = chains(field_types(structs));
    let u = type_universe(structs, t);
    vstd::seq_lib::seq_to_set_is_finite(c + f);
    lemma_ptr_chain(t, a);
    assert((c + f)[0] == t);
    if u.contains(a) && type_step(structs, a, b) {
        let n = choose|n: int| 0 <= n < (c + f).len() && (c + f)[n] == a;
        match a {
            TypeV::Pointer(inner) => {
                if n < c.len() {
                    assert(c[n] == a);
                    let j = choose|j: int| 0 <= j < c.len() && c[j] == *inner;
                    assert((c + f)[j] == b);
                } else {
                    assert(f[n - c.len()] == a);
                    lemma_chains(field_types(structs), a);
                    lemma_chains(field_types(structs), b);
                    let i = choose|i: int|
                        0 <= i < field_types(structs).len() && #[trigger] ptr_chain(field_types(structs)[i]).contains(a);
                    lemma_ptr_chain(field_types(structs)[i], a);
                    assert(ptr_chain(field_types(structs)[i]).contains(b));
                    let j = choose|j: int| 0 <= j < f.len() && f[j] == b;
                    assert((c + f)[c.len() + j] == b);
                }
            },
            TypeV::Struct(name) => {
                lemma_key_pos_range(structs, name);
                let kp = key_pos(structs, name);
                let fs = structs[kp].1@.map_values(|x: Field| x@);
                let k = choose|k: int| 0 <= k < fs.len() && #[trigger] fs[k].typ == b;
                lemma_field_types(structs, kp, k);
                let i = choose|i: int| 0 <= i < field_types(structs).len() && field_types(structs)[i] == b;
                lemma_ptr_chain(b, b);
                lemma_chains(field_types(structs), b);
                assert(ptr_chain(field_types(structs)[i]).contains(b));
                let j = choose|j: int| 0 <= j < f.len() && f[j] == b;
                assert((c + f)[c.len() + j] == b);
            },
            _ => {},
        }
    }
}

/// The types of a list, as a set.
pub open spec fn type_set(v: Seq<Type>) -> Set<TypeV> {
    v.map_values(|t: Type| t@).to_set()
}

/// Adds a type to a list that stands for a set.
fn type_set_insert(v: &mut Vec<Type>, t: &Type)
    ensures
        type_set(final(v)@) == type_set(old(v)@).insert(t@),
{
    if !types_contain(v, t) {
        let ghost tv = old(v)@.map_values(|x: Type| x@);
        v.push(t.clone());
        proof {
            assert(v@.map_values(|x: Type| x@) =~= tv + seq![t@]);
            Seq::lemma_to_set_insert_commutes(tv, t@);
        }
    } else {
        assert(type_set(v@) =~= type_set(v@).insert(t@));
    }
}

/// Whether a type with the view of `t` is on the list.
pub fn types_contain(v: &Vec<Type>, t: &Type) -> (r: bool)
    ensures
        r == type_set(v@).contains(t@),
{
    let mut i: usize = 0;
    while i < v.len()
        invariant
            i <= v@.len(),
            forall|j: int| 0 <= j < i ==> (#[trigger] v@[j])@ != t@,
        decreases v.len() - i,
    {
        if type_eq(&v[i], t) {
            assert(v@.map_values(|x: Type| x@)[i as int] == t@);
            return true;
        }
        i += 1;
    }
    proof {
        let tv = v@.map_values(|x: Type| x@);
        if tv.contains(t@) {
            let j = choose|j: int| 0 <= j < tv.len() && #[trigger] tv[j] == t@;
            assert(v@[j]@ == t@);
        }
    }
    false
}

/// The type set of a list grows by the pushed type.
proof fn lemma_type_set_push(v: Seq<Type>, x: Type)
    ensures
        type_set(v.push(x)) == type_set(v).insert(x@),
{
    let tv = v.map_values(|t: Type| t@);
    assert(v.push(x).map_values(|t: Type| t@) =~= tv + seq![x@]);
    Seq::lemma_to_set_insert_commutes(tv, x@);
}

/// Pushes the type of each field.
fn push_field_types(work: &mut Vec<Type>, fields: &Vec<Field>)
    ensures
        type_set(final(work)@) == type_set(old(work)@).union(fields@.map_values(|f: Field| f@.typ).to_set()),
{
    let ghost ft = fields@.map_values(|f: Field| f@.typ);
    let mut k: usize = 0;
    assert(ft.take(0).to_set() =~= Set::<TypeV>::empty());
    assert(type_set(work@) =~= type_set(old(work)@).union(ft.take(0).to_set()));
    while k < fields.len()
        invariant
            k <= fields@.len(),
            ft == fields@.map_values(|f: Field| f@.typ),
            type_set(work@) == type_set(old(work)@).union(ft.take(k as int).to_set()),
        decreases fields.len() - k,
    {
        let x = fields[k].typ.clone();
        proof {
            lemma_type_set_push(work@, x);
            assert(ft.take(k + 1) =~= ft.take(k as int) + seq![ft[k as int]]);
            Seq::lemma_to_set_insert_commutes(ft.take(k as int), ft[k as int]);
        }
        work.push(x);
        assert(type_set(work@) =~= type_set(old(work)@).union(ft.take(k + 1).to_set()));
        k += 1;
    }
    assert(ft.take(fields@.len() as int) =~= ft);
}

impl Type {
    /// Adds to `res` the types reachable from this type by dereferencing
    /// pointers and reading struct fields ([`reachable`]): every `int` and
    /// pointer type met, never a struct or function type. The search keeps
    /// the types it has explored, so it ends on every program, recursive
    /// structs included.
    pub fn reaching_types(&self, prog: &Program, res: &mut Vec<Type>)
        ensures
            type_set(final(res)@) == reached(prog.structs@, self@, type_set(old(res)@)),
            type_set(old(res)@).subset_of(type_set(final(res)@)),
            forall|t: TypeV|
                type_set(final(res)@).contains(t) && !type_set(old(res)@).contains(t) ==> value_type(t)
                    && type_reaches(prog.structs@, self@, t),
    {
        let ghost structs = prog.structs@;
        let ghost u = type_universe(structs, self@);
        let ghost r0 = type_set(res@);
        proof {
            lemma_type_universe(structs, self@, self@, self@);
            lemma_type_reaches_step(structs, self@, self@, self@);
        }
        let mut seen: Vec<Type> = Vec::new();
        let mut work: Vec<Type> = Vec::new();
        let first = self.clone();
        proof {
            lemma_type_set_push(work@, first);
        }
        work.push(first);
        assert(type_set(seen@) =~= Set::<TypeV>::empty());
        assert(type_set(res@) =~= r0.union(type_set(seen@).filter(|x: TypeV| value_type(x))));
        while work.len() > 0
            invariant
                structs == prog.structs@,
                u == type_universe(structs, self@),
                u.finite(),
                type_set(seen@).subset_of(u),
                type_set(work@).subset_of(u),
                forall|x: TypeV|
                    type_set(seen@).contains(x) || type_set(work@).contains(x) ==> #[trigger] type_reaches(
                        structs,
                        self@,
                        x,
                    ),
                type_set(seen@).contains(self@) || type_set(work@).contains(self@),
                forall|x: TypeV, y: TypeV|
                    type_set(seen@).contains(x) && #[trigger] type_step(structs, x, y) ==> type_set(seen@).contains(y)
                        || type_set(work@).contains(y),
                type_set(res@) == r0.union(type_set(seen@).filter(|x: TypeV| value_type(x))),
            decreases u.difference(type_set(seen@)).len(), work.len(),
        {
            let ghost w0 = work@;
            let t = work.pop().unwrap();
            proof {
                assert(w0 == work@.push(t));
                lemma_type_set_push(work@, t);
            }
            if types_contain(&seen, &t) {
                continue;
            }
            let ghost s0 = type_set(seen@);
            let ghost wt = type_set(work@);
            let tc = t.clone();
            proof {
                lemma_type_set_push(seen@, tc);
                lemma_type_universe(structs, self@, t@, t@);
                vstd::set_lib::lemma_len_subset(u.difference(s0.insert(t@)), u.difference(s0).remove(t@));
            }
            seen.push(tc);
            assert(type_set(seen@) == s0.insert(t@));
            match &t {
                Type::Int => {
                    type_set_insert(res, &t);
                },
                Type::Function(_) => {},
                Type::Pointer(inner) => {
                    type_set_insert(res, &t);
                    let x = (**inner).clone();
                    proof {
                        lemma_type_set_push(work@, x);
                        lemma_type_universe(structs, self@, t@, x@);
                        lemma_type_reaches_step(structs, self@, t@, x@);
                    }
                    work.push(x);
                },
                Type::Struct(name) => {
                    proof {
                        lemma_key_pos_range(prog.structs@, name@);
                    }
                    match find_key(&prog.structs, name.as_str()) {
                        None => {},
                        Some(i) => {
                            let fields = &prog.structs[i].1;
                            let ghost ft = fields@.map_values(|f: Field| f@.typ);
                            push_field_types(&mut work, fields);
                            proof {
                                assert forall|y: TypeV| ft.to_set().contains(y) implies u.contains(y) && type_reaches(
                                    structs,
                                    self@,
                                    y,
                                ) && type_step(structs, t@, y) by {
                                    let k = choose|k: int| 0 <= k < ft.len() && ft[k] == y;
                                    let fs = struct_fields(structs, name@)->Some_0;
                                    assert(fs[k].typ == y);
                                    lemma_type_universe(structs, self@, t@, y);
                                    lemma_type_reaches_step(structs, self@, t@, y);
                                }
                                assert forall|y: TypeV| #[trigger] type_step(structs, t@, y) implies ft.to_set().contains(y) by {
                                    let fs = struct_fields(structs, name@)->Some_0;
                                    let k = choose|k: int| 0 <= k < fs.len() && #[trigger] fs[k].typ == y;
                                    assert(ft[k] == y);
                                }
                            }
                        },
                    }
                },
            }
            proof {
                let sn = type_set(seen@);
                let wn = type_set(work@);
                assert(sn.filter(|x: TypeV| value_type(x)) =~= s0.filter(|x: TypeV| value_type(x)).union(
                    if value_type(t@) { set![t@] } else { Set::empty() },
                ));
                assert(type_set(res@) =~= r0.union(sn.filter(|x: TypeV| value_type(x))));
                assert forall|x: TypeV, y: TypeV| sn.contains(x) && #[trigger] type_step(structs, x, y) implies sn.contains(y)
                    || wn.contains(y) by {
                    if x == t@ {
                    } else {
                        assert(s0.contains(x));
                    }
                }
            }
        }
        proof {
            let sn = type_set(seen@);
            assert forall|x: TypeV, y: TypeV| sn.contains(x) && #[trigger] type_step(structs, x, y) implies sn.contains(y) by {
                assert(type_set(work@) =~= Set::<TypeV>::empty());
            }
            assert forall|b: TypeV| reachable(structs, self@).contains(b) implies sn.contains(b) by {
                assert(type_set(work@) =~= Set::<TypeV>::empty());
                lemma_closed_holds_reached(structs, sn, self@, b);
            }
            assert(type_set(res@) =~= reached(structs, self@, r0));
        }
    }

    /// The types reachable from this type by dereferencing pointers and
    /// reading struct fields, without struct and function types.
    pub fn reachable_types(&self, prog: &Program) -> (r: Vec<Type>)
        ensures
            type_set(r@) == reachable(prog.structs@, self@),
    {
        let mut r: Vec<Type> = Vec::new();
        assert(type_set(r@) =~= Set::<TypeV>::empty());
        self.reaching_types(prog, &mut r);
        assert(reached(prog.structs@, self@, Set::empty()) =~= reachable(prog.structs@, self@));
        r
    }
}

/// The union of the types reached from each type of a list.
pub open spec fn reached_union(structs: Seq<(String, Vec<Field>)>, ts: Seq<TypeV>) -> Set<TypeV>
    decreases ts.len(),
{
    if ts.len() == 0 {
        Set::empty()
    } else {
        reached_union(structs, ts.drop_last()).union(reachable(structs, ts.last()))
    }
}

/// The variables of a pointer type among the globals, the locals and the
/// parameters of the named function, in that order.
pub open spec fn pointer_vars(p: Program, f: Seq<char>) -> Seq<VariableV> {
    vars_view(p.globals@).filter(class_pred(TypeClass::PointerVar)) + vars_view(p.function(f).locals@).filter(
        class_pred(TypeClass::PointerVar),
    ) + vars_view(p.function(f).params@).filter(class_pred(TypeClass::PointerVar))
}

/// Whether a variable stands for the memory of a reached type: named `fake_var`, in scope `fake`.
pub open spec fn is_fake_var(v: VariableV) -> bool {
    v.name == "fake_var"@ && v.scope == Some("fake"@)
}

/// Whether `v` lists the address-taken variables of function `f`: first one
/// stand-in variable for each type reachable from a pointer global, local or
/// parameter (each type once, in some order), then the `int` variables whose
/// address the function takes and the `int` globals, each once, in order of
/// first occurrence.
pub open spec fn addr_taken_list(p: Program, f: Seq<char>, v: Seq<VariableV>) -> bool {
    exists|k: int|
        0 <= k <= v.len() && v.skip(k) == dedup(
            addrof_int_body(p.function(f).body@) + vars_view(p.globals@).filter(class_pred(TypeClass::IntVar)),
        ) && (forall|j: int| 0 <= j < k ==> is_fake_var(#[trigger] v[j])) && v.take(k).map_values(
            |x: VariableV| x.typ,
        ).to_set() == reached_union(p.structs@, pointer_vars(p, f).map_values(|x: VariableV| x.typ)) && v.take(
            k,
        ).map_values(|x: VariableV| x.typ).no_duplicates()
}

impl Program {
    /// The address-taken variables of the named function: one stand-in
    /// variable for each type reachable from a pointer global, local or
    /// parameter, then the `int` variables whose address it takes and the
    /// `int` globals.
    pub fn get_addr_taken(&self, func_name: &str) -> (r: Vec<Variable>)
        requires
            self.has_function(func_name@),
        ensures
            addr_taken_list(*self, func_name@, vars_view(r@)),
    {
        let mut ptrs = self.get_ptr_globals();
        let locals = self.get_ptr_locals(func_name);
        let params = self.get_ptr_parameters(func_name);
        let mut i: usize = 0;
        let ghost g = vars_view(ptrs@);
        while i < locals.len()
            invariant
                i <= locals@.len(),
                vars_view(ptrs@) == g + vars_view(locals@).take(i as int),
            decreases locals.len() - i,
        {
            let x = locals[i].clone();
            let ghost prev = vars_view(ptrs@);
            ptrs.push(x);
            assert(vars_view(ptrs@) =~= prev.push(x@));
            assert(vars_view(locals@).take(i + 1) =~= vars_view(locals@).take(i as int).push(x@));
            assert(vars_view(ptrs@) =~= g + vars_view(locals@).take(i + 1));
            i += 1;
        }
        assert(vars_view(locals@).take(locals@.len() as int) =~= vars_view(locals@));
        let ghost gl = vars_view(ptrs@);
        let mut i: usize = 0;
        while i < params.len()
            invariant
                i <= params@.len(),
                vars_view(ptrs@) == gl + vars_view(params@).take(i as int),
            decreases params.len() - i,
        {
            let x = params[i].clone();
            let ghost prev = vars_view(ptrs@);
            ptrs.push(x);
            assert(vars_view(ptrs@) =~= prev.push(x@));
            assert(vars_view(params@).take(i + 1) =~= vars_view(params@).take(i as int).push(x@));
            assert(vars_view(ptrs@) =~= gl + vars_view(params@).take(i + 1));
            i += 1;
        }
        assert(vars_view(params@).take(params@.len() as int) =~= vars_view(params@));
        let ghost pv = vars_view(ptrs@);
        assert(pv == pointer_vars(*self, func_name@));
        let reached_types = reached_from_vars(self, &ptrs);
        let mut r: Vec<Variable> = Vec::new();
        let mut k: usize = 0;
        let ghost rt = reached_types@.map_values(|t: Type| t@);
        while k < reached_types.len()
            invariant
                k <= reached_types@.len(),
                rt == reached_types@.map_values(|t: Type| t@),
                r@.len() == k,
                forall|j: int| 0 <= j < k ==> is_fake_var(#[trigger] r@[j]@),
                vars_view(r@).map_values(|v: VariableV| v.typ) == rt.take(k as int),
            decreases reached_types.len() - k,
        {
            let v = Variable {
                name: String::from_str("fake_var"),
                typ: reached_types[k].clone(),
                scope: Some(String::from_str("fake")),
            };
            r.push(v);
            assert(vars_view(r@).map_values(|v: VariableV| v.typ) =~= rt.take(k + 1));
            k += 1;
        }
        let nfake = r.len();
        assert(vars_view(r@).take(nfake as int) =~= vars_view(r@));
        assert(rt.take(nfake as int) =~= rt);
        let addrof = self.get_addrof_ints(func_name);
        assert(vars_view(r@).skip(nfake as int) =~= vars_view(addrof@).take(0));
        let mut m: usize = 0;
        while m < addrof.len()
            invariant
                m <= addrof@.len(),
                nfake <= r@.len(),
                r@.len() == nfake + m,
                forall|j: int| 0 <= j < nfake ==> is_fake_var(#[trigger] r@[j]@),
                vars_view(r@).take(nfake as int).map_values(|v: VariableV| v.typ) == rt,
                vars_view(r@).skip(nfake as int) == vars_view(addrof@).take(m as int),
            decreases addrof.len() - m,
        {
            let ghost prev = vars_view(r@);
            r.push(addrof[m].clone());
            assert(vars_view(r@).take(nfake as int) =~= prev.take(nfake as int));
            assert(vars_view(r@).skip(nfake as int) =~= vars_view(addrof@).take(m + 1));
            m += 1;
        }
        assert(vars_view(addrof@).take(addrof@.len() as int) =~= vars_view(addrof@));
        assert(rt.to_set() == type_set(reached_types@));
        assert(forall|j: int| 0 <= j < nfake ==> is_fake_var(#[trigger] vars_view(r@)[j])) by {
            assert forall|j: int| 0 <= j < nfake implies is_fake_var(#[trigger] vars_view(r@)[j]) by {
                assert(is_fake_var(r@[j]@));
            }
        }
        assert(addr_taken_list(*self, func_name@, vars_view(r@)));
        r
    }
}

/// The union of the types reached from the types of the given variables, each type once.
pub fn reached_from_vars(prog: &Program, ptrs: &Vec<Variable>) -> (r: Vec<Type>)
    ensures
        type_set(r@) == reached_union(prog.structs@, vars_view(ptrs@).map_values(|v: VariableV| v.typ)),
        r@.map_values(|t: Type| t@).no_duplicates(),
{
    let ghost pv = vars_view(ptrs@);
    let ghost pts = pv.map_values(|v: VariableV| v.typ);
    let mut reached_types: Vec<Type> = Vec::new();
    assert(type_set(reached_types@) =~= Set::<TypeV>::empty());
    let mut j: usize = 0;
    assert(reached_union(prog.structs@, pts.take(0)) =~= Set::<TypeV>::empty());
    while j < ptrs.len()
        invariant
            j <= ptrs@.len(),
            pv == vars_view(ptrs@),
            pts == pv.map_values(|v: VariableV| v.typ),
            type_set(reached_types@) == reached_union(prog.structs@, pts.take(j as int)),
            reached_types@.map_values(|t: Type| t@).no_duplicates(),
        decreases ptrs.len() - j,
    {
        assert(pv[j as int] == ptrs@[j as int]@);
        let found = ptrs[j].typ.reachable_types(prog);
        let mut k: usize = 0;
        let ghost before = type_set(reached_types@);
        while k < found.len()
            invariant
                k <= found@.len(),
                type_set(reached_types@) == before.union(found@.take(k as int).map_values(|t: Type| t@).to_set()),
                reached_types@.map_values(|t: Type| t@).no_duplicates(),
            decreases found.len() - k,
        {
            let ghost tv = reached_types@.map_values(|t: Type| t@);
            let ghost s0 = type_set(reached_types@);
            if !types_contain(&reached_types, &found[k]) {
                reached_types.push(found[k].clone());
                assert(reached_types@.map_values(|t: Type| t@) =~= tv.push(found@[k as int]@));
                proof {
                    assert(tv.push(found@[k as int]@) =~= tv + seq![found@[k as int]@]);
                    Seq::lemma_to_set_insert_commutes(tv, found@[k as int]@);
                }
                assert(type_set(reached_types@) == s0.insert(found@[k as int]@));
            } else {
                assert(type_set(reached_types@) =~= s0.insert(found@[k as int]@));
            }
            assert(found@.take(k + 1).map_values(|t: Type| t@) =~= found@.take(k as int).map_values(|t: Type| t@).push(
                found@[k as int]@,
            ));
            proof {
                let ft = found@.take(k as int).map_values(|t: Type| t@);
                assert(ft.push(found@[k as int]@) =~= ft + seq![found@[k as int]@]);
                Seq::lemma_to_set_insert_commutes(ft, found@[k as int]@);
            }
            assert(type_set(reached_types@) =~= before.union(found@.take(k + 1).map_values(|t: Type| t@).to_set()));
            k += 1;
        }
        assert(found@.take(found@.len() as int) =~= found@);
        assert(pts.take(j + 1).drop_last() =~= pts.take(j as int));
        assert(type_set(reached_types@) =~= reached_union(prog.structs@, pts.take(j + 1)));
        j += 1;
    }
    assert(pts.take(ptrs@.len() as int) =~= pts);
    reached_types
}

} // verus!

//! A store maps variables to abstract values: the state of an abstract
//! execution at a program point.
use vstd::prelude::*;
use crate::lir::{var_eq, Variable, VariableV};
use crate::semantics::AbstractSemantics;
use crate::domain::{Constant, Interval, interval_widen};

verus! {

/// Whether an entry list maps each variable (by view) at most once.
pub open spec fn keys_distinct<T>(s: Seq<(Variable, T)>) -> bool {
    forall|i: int, j: int| 0 <= i < s.len() && 0 <= j < s.len() && i != j ==> s[i].0@ != s[j].0@
}

/// Whether the entry list has an entry for `k`.
pub open spec fn has_key<T>(s: Seq<(Variable, T)>, k: VariableV) -> bool {
    exists|i: int| 0 <= i < s.len() && s[i].0@ == k
}

/// The position of the entry for `k`.
pub open spec fn key_index<T>(s: Seq<(Variable, T)>, k: VariableV) -> int {
    choose|i: int| 0 <= i < s.len() && s[i].0@ == k
}

/// A map from variables to abstract values.
pub struct Store<T> {
    status: Vec<(Variable, T)>,
}

/// Stores of the constant analysis.
pub type ConstantStore = Store<Constant>;

/// Stores of the interval analysis.
pub type IntervalStore = Store<Interval>;

/// The map that an entry list stands for.
pub open spec fn entries_map<T: View>(s: Seq<(Variable, T)>) -> Map<VariableV, T::V> {
    Map::new(|k: VariableV| has_key(s, k), |k: VariableV| s[key_index(s, k)].1@)
}

/// With distinct keys, the map of a longer prefix adds the next entry.
pub proof fn lemma_entries_map_take<T: View>(s: Seq<(Variable, T)>, i: int)
    requires
        keys_distinct(s),
        0 <= i < s.len(),
    ensures
        entries_map(s.take(i + 1)) == entries_map(s.take(i)).insert(s[i].0@, s[i].1@),
        !entries_map(s.take(i)).dom().contains(s[i].0@),
{
    let a = s.take(i + 1);
    let b = s.take(i);
    let m = entries_map(b).insert(s[i].0@, s[i].1@);
    assert forall|k: VariableV| #![auto] entries_map(a).dom().contains(k) == m.dom().contains(k) by {
        if has_key(a, k) {
            let j = choose|j: int| 0 <= j < a.len() && a[j].0@ == k;
            if j < i {
                assert(b[j].0@ == k);
            }
        }
        if has_key(b, k) {
            let j = choose|j: int| 0 <= j < b.len() && b[j].0@ == k;
            assert(a[j].0@ == k);
        }
        if k == s[i].0@ {
            assert(a[i].0@ == k);
        }
    }
    assert forall|k: VariableV| #![auto] entries_map(a).dom().contains(k) implies entries_map(a)[k] == m[k] by {
        let j = key_index(a, k);
        if k == s[i].0@ {
            assert(j == i);
        } else {
            assert(j < i);
            let jb = key_index(b, k);
            assert(has_key(b, k)) by {
                assert(b[j].0@ == k);
            }
            assert(jb == j);
        }
    }
    assert(entries_map(a) =~= m);
    if has_key(b, s[i].0@) {
        let j = choose|j: int| 0 <= j < b.len() && b[j].0@ == s[i].0@;
        assert(s[j].0@ == s[i].0@);
    }
}

impl<T: AbstractSemantics> View for Store<T> {
    type V = Map<VariableV, T::V>;

    closed spec fn view(&self) -> Map<VariableV, T::V> {
        entries_map(self.status@)
    }
}

/// The join of two stores: every variable of either, with the join of the
/// two values where both have one.
pub open spec fn store_join_spec<T: AbstractSemantics>(a: Map<VariableV, T::V>, b: Map<VariableV, T::V>) -> Map<
    VariableV,
    T::V,
> {
    Map::new(
        |k: VariableV| a.dom().contains(k) || b.dom().contains(k),
        |k: VariableV|
            if a.dom().contains(k) && b.dom().contains(k) {
                T::join_spec(a[k], b[k])
            } else if a.dom().contains(k) {
                a[k]
            } else {
                b[k]
            },
    )
}

/// Joining stores with a commutative join of values is commutative, and
/// joining a store with the empty store gives it back.
pub proof fn store_join_laws<T: AbstractSemantics>(a: Map<VariableV, T::V>, b: Map<VariableV, T::V>)
    requires
        forall|x: T::V, y: T::V| #[trigger] T::join_spec(x, y) == T::join_spec(y, x),
    ensures
        store_join_spec::<T>(a, b) == store_join_spec::<T>(b, a),
        store_join_spec::<T>(a, Map::empty()) == a,
        store_join_spec::<T>(Map::empty(), a) == a,
{
    assert(store_join_spec::<T>(a, b) =~= store_join_spec::<T>(b, a));
    assert(store_join_spec::<T>(a, Map::empty()) =~= a);
    assert(store_join_spec::<T>(Map::empty(), a) =~= a);
}

impl<T> Store<T> {
    #[verifier::type_invariant]
    closed spec fn inv(&self) -> bool {
        keys_distinct(self.status@)
    }
}

impl<T: AbstractSemantics> Store<T> {
    proof fn lemma_index(&self, i: int)
        requires
            keys_distinct(self.status@),
            0 <= i < self.status@.len(),
        ensures
            self@.dom().contains(self.status@[i].0@),
            key_index(self.status@, self.status@[i].0@) == i,
            self@[self.status@[i].0@] == self.status@[i].1@,
    {
        let k = self.status@[i].0@;
        assert(has_key(self.status@, k));
        let j = key_index(self.status@, k);
        assert(self.status@[j].0@ == k);
    }

    /// An empty store.
    pub fn new() -> (r: Self)
        ensures
            r@ == Map::<VariableV, T::V>::empty(),
    {
        let r = Store { status: Vec::new() };
        assert(r@ =~= Map::<VariableV, T::V>::empty());
        r
    }

    fn find(&self, var: &Variable) -> (r: Option<usize>)
        ensures
            match r {
                Some(i) => i < self.status@.len() && self.status@[i as int].0@ == var@,
                None => !has_key(self.status@, var@),
            },
    {
        let mut i: usize = 0;
        while i < self.status.len()
            invariant
                i <= self.status@.len(),
                forall|j: int| 0 <= j < i ==> self.status@[j].0@ != var@,
            decreases self.status.len() - i,
        {
            if var_eq(&self.status[i].0, var) {
                return Some(i);
            }
            i += 1;
        }
        None
    }

    /// The value of a variable, if the store has one.
    pub fn get(&self, var: &Variable) -> (r: Option<&T>)
        ensures
            r is Some == self@.dom().contains(var@),
            r matches Some(v) ==> v@ == self@[var@],
    {
        proof {
            use_type_invariant(self);
        }
        match self.find(var) {
            Some(i) => {
                proof {
                    self.lemma_index(i as int);
                }
                Some(&self.status[i].1)
            },
            None => None,
        }
    }

    /// Sets the value of a variable.
    pub fn set(&mut self, var: Variable, domain: T)
        ensures
            final(self)@ == old(self)@.insert(var@, domain@),
    {
        proof {
            use_type_invariant(&*self);
        }
        let ghost old_s = self.status@;
        let ghost k = var@;
        let ghost v = domain@;
        match self.find(&var) {
            Some(i) => {
                let mut st: Vec<(Variable, T)> = Vec::new();
                std::mem::swap(&mut st, &mut self.status);
                st.set(i, (var, domain));
                proof {
                    assert forall|a: int, b: int|
                        0 <= a < st@.len() && 0 <= b < st@.len() && a != b implies st@[a].0@ != st@[b].0@ by {
                        if a != i && b != i {
                            assert(old_s[a] == st@[a] && old_s[b] == st@[b]);
                        } else if a == i {
                            assert(st@[b] == old_s[b]);
                        } else {
                            assert(st@[a] == old_s[a]);
                        }
                    }
                }
                self.status = st;
                proof {
                    assert(old_s[i as int].0@ == k);
                    assert forall|kk: VariableV| #![auto] self@.dom().contains(kk) == old(self)@.insert(
                        k,
                        v,
                    ).dom().contains(kk) by {
                        if has_key(old_s, kk) {
                            let j = choose|j: int| 0 <= j < old_s.len() && old_s[j].0@ == kk;
                            assert(self.status@[j].0@ == kk);
                        }
                        if kk == k {
                            assert(self.status@[i as int].0@ == kk);
                        }
                    }
                    assert forall|kk: VariableV| #![auto] self@.dom().contains(kk) implies self@[kk] == old(
                        self,
                    )@.insert(k, v)[kk] by {
                        let j = choose|j: int| 0 <= j < self.status@.len() && self.status@[j].0@ == kk;
                        self.lemma_index(j);
                        if kk != k {
                            assert(j != i);
                            old(self).lemma_index(j);
                        }
                    }
                    assert(self@ =~= old(self)@.insert(k, v));
                }
            },
            None => {
                let mut st: Vec<(Variable, T)> = Vec::new();
                std::mem::swap(&mut st, &mut self.status);
                st.push((var, domain));
                proof {
                    assert forall|a: int, b: int|
                        0 <= a < st@.len() && 0 <= b < st@.len() && a != b implies st@[a].0@ != st@[b].0@ by {
                        if a < old_s.len() && b < old_s.len() {
                            assert(old_s[a] == st@[a] && old_s[b] == st@[b]);
                        } else if a < old_s.len() {
                            assert(st@[a] == old_s[a]);
                        } else {
                            assert(st@[b] == old_s[b]);
                        }
                    }
                }
                self.status = st;
                proof {
                    let n = old_s.len() as int;
                    assert forall|kk: VariableV| #![auto] self@.dom().contains(kk) == old(self)@.insert(
                        k,
                        v,
                    ).dom().contains(kk) by {
                        if has_key(old_s, kk) {
                            let j = choose|j: int| 0 <= j < old_s.len() && old_s[j].0@ == kk;
                            assert(self.status@[j].0@ == kk);
                        }
                        if kk == k {
                            assert(self.status@[n].0@ == kk);
                        }
                    }
                    assert forall|kk: VariableV| #![auto] self@.dom().contains(kk) implies self@[kk] == old(
                        self,
                    )@.insert(k, v)[kk] by {
                        let j = choose|j: int| 0 <= j < self.status@.len() && self.status@[j].0@ == kk;
                        self.lemma_index(j);
                        if kk != k {
                            assert(j != n);
                            old(self).lemma_index(j);
                        }
                    }
                    assert(self@ =~= old(self)@.insert(k, v));
                }
            },
        }
    }
}

impl<T: AbstractSemantics> Store<T> {
    /// The join of two stores: every variable of either, joined where both have it.
    pub fn join(&self, other: &Self) -> (r: Self)
        ensures
            r@ == store_join_spec::<T>(self@, other@),
    {
        proof {
            use_type_invariant(self);
            use_type_invariant(other);
        }
        let mut res = self.clone_store();
        let mut i: usize = 0;
        assert(store_join_spec::<T>(self@, entries_map(other.status@.take(0))) =~= self@);
        while i < other.status.len()
            invariant
                i <= other.status@.len(),
                keys_distinct(other.status@),
                res@ == store_join_spec::<T>(self@, entries_map(other.status@.take(i as int))),
            decreases other.status.len() - i,
        {
            proof {
                lemma_entries_map_take(other.status@, i as int);
            }
            let ghost b = entries_map(other.status@.take(i as int));
            let var = &other.status[i].0;
            let d = &other.status[i].1;
            let nv = match res.get(var) {
                Some(v) => v.join(d),
                None => d.clone_value(),
            };
            res.set(var.clone(), nv);
            assert(res@ =~= store_join_spec::<T>(self@, b.insert(var@, d@)));
            i += 1;
        }
        assert(other.status@.take(other.status@.len() as int) =~= other.status@);
        res
    }

    /// A copy of the store.
    pub fn clone_store(&self) -> (r: Self)
        ensures
            r@ == self@,
    {
        proof {
            use_type_invariant(self);
        }
        let mut st: Vec<(Variable, T)> = Vec::new();
        let mut i: usize = 0;
        while i < self.status.len()
            invariant
                i <= self.status@.len(),
                st@.len() == i,
                keys_distinct(self.status@),
                forall|j: int| 0 <= j < i ==> #[trigger] st@[j].0@ == self.status@[j].0@ && st@[j].1@
                    == self.status@[j].1@,
            decreases self.status.len() - i,
        {
            st.push((self.status[i].0.clone(), self.status[i].1.clone_value()));
            i += 1;
        }
        assert forall|k: VariableV| #![auto] has_key(st@, k) == has_key(self.status@, k) by {
            if has_key(st@, k) {
                let j = choose|j: int| 0 <= j < st@.len() && st@[j].0@ == k;
                assert(self.status@[j].0@ == k);
            }
            if has_key(self.status@, k) {
                let j = choose|j: int| 0 <= j < self.status@.len() && self.status@[j].0@ == k;
                assert(st@[j].0@ == k);
            }
        }
        assert forall|k: VariableV| #![auto] has_key(st@, k) implies st@[key_index(st@, k)].1@
            == self.status@[key_index(self.status@, k)].1@ by {
            let j = key_index(st@, k);
            let j2 = key_index(self.status@, k);
            assert(self.status@[j].0@ == k);
        }
        let r = Store { status: st };
        assert(r@ =~= self@);
        r
    }

    /// The variables of the store.
    pub fn variables(&self) -> (r: Vec<Variable>)
        ensures
            crate::lir::vars_view(r@).to_set() == self@.dom(),
    {
        let mut r: Vec<Variable> = Vec::new();
        let mut i: usize = 0;
        while i < self.status.len()
            invariant
                i <= self.status@.len(),
                crate::lir::vars_view(r@) == self.status@.take(i as int).map_values(|p: (Variable, T)| p.0@),
            decreases self.status.len() - i,
        {
            r.push(self.status[i].0.clone());
            assert(self.status@.take(i + 1).map_values(|p: (Variable, T)| p.0@) =~= self.status@.take(
                i as int,
            ).map_values(|p: (Variable, T)| p.0@).push(self.status@[i as int].0@));
            assert(crate::lir::vars_view(r@) =~= self.status@.take(i as int).map_values(|p: (Variable, T)| p.0@).push(
                self.status@[i as int].0@,
            ));
            i += 1;
        }
        assert(self.status@.take(self.status@.len() as int) =~= self.status@);
        let ghost ks = crate::lir::vars_view(r@);
        assert forall|k: VariableV| ks.to_set().contains(k) == self@.dom().contains(k) by {
            if ks.contains(k) {
                let j = choose|j: int| 0 <= j < ks.len() && ks[j] == k;
                assert(self.status@[j].0@ == k);
            }
            if has_key(self.status@, k) {
                let j = choose|j: int| 0 <= j < self.status@.len() && self.status@[j].0@ == k;
                assert(ks[j] == k);
            }
        }
        assert(ks.to_set() =~= self@.dom());
        r
    }

    /// Number of variables in the store.
    pub fn len(&self) -> (r: usize)
        ensures
            r == self@.dom().len(),
    {
        proof {
            use_type_invariant(self);
            lemma_entries_len(self.status@);
        }
        self.status.len()
    }
}

/// The widening of two interval stores: every variable of either, widened where both have it.
pub open spec fn store_widen_spec(a: Map<VariableV, Interval>, b: Map<VariableV, Interval>) -> Map<VariableV, Interval> {
    Map::new(
        |k: VariableV| a.dom().contains(k) || b.dom().contains(k),
        |k: VariableV|
            if a.dom().contains(k) && b.dom().contains(k) {
                interval_widen(a[k], b[k])
            } else if a.dom().contains(k) {
                a[k]
            } else {
                b[k]
            },
    )
}

impl Store<Interval> {
    /// The widening of two stores: every variable of either, widened where both have it.
    pub fn widen(&self, other: &Self) -> (r: Self)
        ensures
            r@ == store_widen_spec(self@, other@),
    {
        proof {
            use_type_invariant(self);
            use_type_invariant(other);
        }
        let mut res = self.clone_store();
        let mut i: usize = 0;
        assert(store_widen_spec(self@, entries_map(other.status@.take(0))) =~= self@);
        while i < other.status.len()
            invariant
                i <= other.status@.len(),
                keys_distinct(other.status@),
                res@ == store_widen_spec(self@, entries_map(other.status@.take(i as int))),
            decreases other.status.len() - i,
        {
            proof {
                lemma_entries_map_take(other.status@, i as int);
            }
            let ghost b = entries_map(other.status@.take(i as int));
            let var = &other.status[i].0;
            let d = &other.status[i].1;
            let nv = match res.get(var) {
                Some(v) => v.widen(d),
                None => *d,
            };
            res.set(var.clone(), nv);
            assert(res@ =~= store_widen_spec(self@, b.insert(var@, d@)));
            i += 1;
        }
        assert(other.status@.take(other.status@.len() as int) =~= other.status@);
        res
    }
}

impl<T: AbstractSemantics> Store<T> {
    /// Whether two stores map the same variables to the same values.
    pub fn equals(&self, other: &Self) -> (r: bool)
        ensures
            r == (self@ == other@),
    {
        proof {
            use_type_invariant(self);
            use_type_invariant(other);
            lemma_entries_len(self.status@);
            lemma_entries_len(other.status@);
        }
        if self.status.len() != other.status.len() {
            return false;
        }
        let mut i: usize = 0;
        while i < self.status.len()
            invariant
                i <= self.status@.len(),
                self.status@.len() == other.status@.len(),
                keys_distinct(self.status@),
                forall|j: int| #![auto] 0 <= j < i ==> other@.dom().contains(self.status@[j].0@) && other@[self.status@[j].0@]
                    == self.status@[j].1@,
            decreases self.status.len() - i,
        {
            match other.get(&self.status[i].0) {
                Some(v) => {
                    if !v.eq_value(&self.status[i].1) {
                        proof {
                            self.lemma_index(i as int);
                        }
                        return false;
                    }
                },
                None => {
                    proof {
                        self.lemma_index(i as int);
                    }
                    return false;
                },
            }
            i += 1;
        }
        proof {
            assert forall|k: VariableV| self@.dom().contains(k) implies other@.dom().contains(k) && other@[k] == self@[k] by {
                let j = key_index(self.status@, k);
                self.lemma_index(j);
            }
            assert(self@.dom().subset_of(other@.dom()));
            vstd::set_lib::lemma_subset_equality(self@.dom(), other@.dom());
            assert(self@ =~= other@);
        }
        true
    }
}

/// With distinct keys, the map has as many keys as the list has entries.
pub proof fn lemma_entries_len<T: View>(s: Seq<(Variable, T)>)
    requires
        keys_distinct(s),
    ensures
        entries_map(s).dom().finite(),
        entries_map(s).dom().len() == s.len(),
    decreases s.len(),
{
    if s.len() == 0 {
        assert(entries_map(s).dom() =~= Set::empty());
    } else {
        let n = s.len() - 1;
        lemma_entries_len(s.take(n));
        lemma_entries_map_take(s, n);
        assert(s.take(n + 1) =~= s);
        assert(keys_distinct(s.take(n)));
    }
}

impl<T: AbstractSemantics> Store<T> {
    /// The store with the values of `other` written over it: every variable
    /// of either, with the value of `other` where it has one.
    pub fn update(&self, other: &Self) -> (r: Self)
        ensures
            r@ == self@.union_prefer_right(other@),
    {
        proof {
            use_type_invariant(self);
            use_type_invariant(other);
        }
        let mut res = self.clone_store();
        let mut i: usize = 0;
        assert(self@.union_prefer_right(entries_map(other.status@.take(0))) =~= self@);
        while i < other.status.len()
            invariant
                i <= other.status@.len(),
                keys_distinct(other.status@),
                res@ == self@.union_prefer_right(entries_map(other.status@.take(i as int))),
            decreases other.status.len() - i,
        {
            proof {
                lemma_entries_map_take(other.status@, i as int);
            }
            let ghost b = entries_map(other.status@.take(i as int));
            let var = &other.status[i].0;
            let d = &other.status[i].1;
            res.set(var.clone(), d.clone_value());
            assert(res@ =~= self@.union_prefer_right(b.insert(var@, d@)));
            i += 1;
        }
        assert(other.status@.take(other.status@.len() as int) =~= other.status@);
        res
    }
}

} // verus!

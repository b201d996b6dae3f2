//! The order in which analysis results are reported: block labels and
//! variable names in text order, and only the blocks that hold something
//! (and the entry block).
use vstd::prelude::*;
use vstd::relations::sorted_by;
use crate::cfg::labels_view;
use crate::lir::{vars_view, Variable, VariableV};
use crate::points::{lemma_text_lt_irreflexive, lemma_text_lt_total, lemma_text_lt_transitive, text_less, text_lt};
use crate::semantics::AbstractSemantics;
use crate::store::Store;

verus! {

/// Texts in order: `a` does not come after `b`.
pub open spec fn text_le(a: Seq<char>, b: Seq<char>) -> bool {
    !text_lt(b, a)
}

/// Variables in order of their names.
pub open spec fn name_le(a: VariableV, b: VariableV) -> bool {
    text_le(a.name, b.name)
}

/// The text order is total, reflexive and transitive.
pub proof fn lemma_text_le_order(a: Seq<char>, b: Seq<char>, c: Seq<char>)
    ensures
        text_le(a, b) || text_le(b, a),
        text_le(a, b) && text_le(b, c) ==> text_le(a, c),
        text_le(a, a),
{
    lemma_text_lt_total(a, b);
    lemma_text_lt_total(b, c);
    lemma_text_lt_total(a, c);
    lemma_text_lt_irreflexive(a);
    if text_le(a, b) && text_le(b, c) && text_lt(c, a) {
        if a == b {
            assert(text_lt(c, b));
        } else if b == c {
            assert(text_lt(b, a));
        } else {
            lemma_text_lt_transitive(c, a, b);
        }
    }
}

/// Sorts texts into text order, keeping each text as often as it occurs.
pub fn sort_texts(v: &mut Vec<String>)
    ensures
        sorted_by(labels_view(final(v)@), |a: Seq<char>, b: Seq<char>| text_le(a, b)),
        labels_view(final(v)@).to_multiset() == labels_view(old(v)@).to_multiset(),
{
    let ghost le = |a: Seq<char>, b: Seq<char>| text_le(a, b);
    let ghost all = labels_view(v@).to_multiset();
    let mut out: Vec<String> = Vec::new();
    proof {
        assert(labels_view(out@) =~= Seq::<Seq<char>>::empty());
        Seq::<Seq<char>>::empty().to_multiset_ensures();
        assert(labels_view(out@).to_multiset() =~= vstd::multiset::Multiset::<Seq<char>>::empty());
    }
    while v.len() > 0
        invariant
            sorted_by(labels_view(out@), le),
            labels_view(out@).to_multiset().add(labels_view(v@).to_multiset()) == all,
            le == (|a: Seq<char>, b: Seq<char>| text_le(a, b)),
        decreases v.len(),
    {
        let ghost vv = labels_view(v@);
        let x = v.remove(0);
        let ghost om = labels_view(out@).to_multiset();
        proof {
            assert(labels_view(v@) =~= vv.remove(0));
            vv.to_multiset_ensures();
            assert(vv.contains(x@)) by {
                assert(vv[0] == x@);
            }
        }
        let mut j: usize = 0;
        while j < out.len() && !text_less(x.as_str(), out[j].as_str())
            invariant
                j <= out@.len(),
                forall|i: int| 0 <= i < j ==> text_le(#[trigger] labels_view(out@)[i], x@),
            decreases out.len() - j,
        {
            assert(labels_view(out@)[j as int] == out@[j as int]@);
            j += 1;
        }
        let ghost ov = labels_view(out@);
        proof {
            if j < out@.len() {
                assert(ov[j as int] == out@[j as int]@);
                assert(text_lt(x@, ov[j as int]));
                lemma_text_lt_total(x@, ov[j as int]);
                assert forall|i: int| j <= i < ov.len() implies text_le(x@, #[trigger] ov[i]) by {
                    if i > j {
                        assert(le(ov[j as int], ov[i]));
                    }
                    lemma_text_le_order(x@, ov[j as int], ov[i]);
                }
            }
        }
        out.insert(j, x);
        proof {
            assert(labels_view(out@) =~= ov.insert(j as int, x@));
            vstd::seq_lib::to_multiset_insert(ov, j as int, x@);
            assert(labels_view(out@).to_multiset().add(labels_view(v@).to_multiset()) =~= om.add(vv.to_multiset()));
            let nv = labels_view(out@);
            assert forall|a: int, b: int| 0 <= a < b < nv.len() implies #[trigger] le(nv[a], nv[b]) by {
                if a < j && b < j {
                    assert(le(ov[a], ov[b]));
                } else if a < j && b == j {
                } else if a < j && b > j {
                    assert(le(ov[a], ov[b - 1]));
                    lemma_text_le_order(ov[a], x@, ov[b - 1]);
                } else if a == j {
                    assert(text_le(x@, ov[b - 1]));
                } else {
                    assert(le(ov[a - 1], ov[b - 1]));
                }
            }
        }
    }
    proof {
        assert(labels_view(v@) =~= Seq::<Seq<char>>::empty());
        Seq::<Seq<char>>::empty().to_multiset_ensures();
        assert(labels_view(v@).to_multiset() =~= vstd::multiset::Multiset::<Seq<char>>::empty());
        assert(labels_view(out@).to_multiset().add(labels_view(v@).to_multiset()) =~= labels_view(out@).to_multiset());
    }
    *v = out;
}

/// Sorts variables into the text order of their names, keeping each variable
/// as often as it occurs.
pub fn sort_by_name(v: &mut Vec<Variable>)
    ensures
        sorted_by(vars_view(final(v)@), |a: VariableV, b: VariableV| name_le(a, b)),
        vars_view(final(v)@).to_multiset() == vars_view(old(v)@).to_multiset(),
{
    let ghost le = |a: VariableV, b: VariableV| name_le(a, b);
    let ghost all = vars_view(v@).to_multiset();
    let mut out: Vec<Variable> = Vec::new();
    proof {
        assert(vars_view(out@) =~= Seq::<VariableV>::empty());
        Seq::<VariableV>::empty().to_multiset_ensures();
        assert(vars_view(out@).to_multiset() =~= vstd::multiset::Multiset::<VariableV>::empty());
    }
    while v.len() > 0
        invariant
            sorted_by(vars_view(out@), le),
            vars_view(out@).to_multiset().add(vars_view(v@).to_multiset()) == all,
            le == (|a: VariableV, b: VariableV| name_le(a, b)),
        decreases v.len(),
    {
        let ghost vv = vars_view(v@);
        let x = v.remove(0);
        let ghost om = vars_view(out@).to_multiset();
        proof {
            assert(vars_view(v@) =~= vv.remove(0));
            vv.to_multiset_ensures();
            assert(vv.contains(x@)) by {
                assert(vv[0] == x@);
            }
        }
        let mut j: usize = 0;
        while j < out.len() && !text_less(x.name.as_str(), out[j].name.as_str())
            invariant
                j <= out@.len(),
                forall|i: int| 0 <= i < j ==> name_le(#[trigger] vars_view(out@)[i], x@),
            decreases out.len() - j,
        {
            assert(vars_view(out@)[j as int] == out@[j as int]@);
            j += 1;
        }
        let ghost ov = vars_view(out@);
        proof {
            if j < out@.len() {
                assert(ov[j as int] == out@[j as int]@);
                assert(text_lt(x@.name, ov[j as int].name));
                lemma_text_lt_total(x@.name, ov[j as int].name);
                assert forall|i: int| j <= i < ov.len() implies name_le(x@, #[trigger] ov[i]) by {
                    if i > j {
                        assert(le(ov[j as int], ov[i]));
                    }
                    lemma_text_le_order(x@.name, ov[j as int].name, ov[i].name);
                }
            }
        }
        out.insert(j, x);
        proof {
            assert(vars_view(out@) =~= ov.insert(j as int, x@));
            vstd::seq_lib::to_multiset_insert(ov, j as int, x@);
            assert(vars_view(out@).to_multiset().add(vars_view(v@).to_multiset()) =~= om.add(vv.to_multiset()));
            let nv = vars_view(out@);
            assert forall|a: int, b: int| 0 <= a < b < nv.len() implies #[trigger] le(nv[a], nv[b]) by {
                if a < j && b < j {
                    assert(le(ov[a], ov[b]));
                } else if a < j && b == j {
                } else if a < j && b > j {
                    assert(le(ov[a], ov[b - 1]));
                    lemma_text_le_order(ov[a].name, x@.name, ov[b - 1].name);
                } else if a == j {
                    assert(name_le(x@, ov[b - 1]));
                } else {
                    assert(le(ov[a - 1], ov[b - 1]));
                }
            }
        }
    }
    proof {
        assert(vars_view(v@) =~= Seq::<VariableV>::empty());
        Seq::<VariableV>::empty().to_multiset_ensures();
        assert(vars_view(v@).to_multiset() =~= vstd::multiset::Multiset::<VariableV>::empty());
        assert(vars_view(out@).to_multiset().add(vars_view(v@).to_multiset()) =~= vars_view(out@).to_multiset());
    }
    *v = out;
}

/// The labels of the stores that are reported: those of stores that hold a
/// variable, and `entry`, in the order of the list.
pub open spec fn reported_labels<T: AbstractSemantics>(s: Seq<(String, Store<T>)>) -> Seq<Seq<char>> {
    s.filter(|p: (String, Store<T>)| p.1@.dom().len() > 0 || p.0@ == "entry"@).map_values(
        |p: (String, Store<T>)| p.0@,
    )
}

/// The labels of the stores to report (those that hold a variable, and
/// `entry`), in text order.
pub fn report_labels<T: AbstractSemantics>(bb2store: &Vec<(String, Store<T>)>) -> (r: Vec<String>)
    ensures
        sorted_by(labels_view(r@), |a: Seq<char>, b: Seq<char>| text_le(a, b)),
        labels_view(r@).to_multiset() == reported_labels(bb2store@).to_multiset(),
{
    let ghost pred = |p: (String, Store<T>)| p.1@.dom().len() > 0 || p.0@ == "entry"@;
    let ghost key = |p: (String, Store<T>)| p.0@;
    let entry = String::from_str("entry");
    let mut r: Vec<String> = Vec::new();
    let mut i: usize = 0;
    proof {
        reveal(Seq::filter);
        assert(bb2store@.take(0).filter(pred) =~= Seq::<(String, Store<T>)>::empty());
        assert(labels_view(r@) =~= bb2store@.take(0).filter(pred).map_values(key));
    }
    while i < bb2store.len()
        invariant
            i <= bb2store@.len(),
            pred == (|p: (String, Store<T>)| p.1@.dom().len() > 0 || p.0@ == "entry"@),
            key == (|p: (String, Store<T>)| p.0@),
            entry@ == "entry"@,
            labels_view(r@) == bb2store@.take(i as int).filter(pred).map_values(key),
        decreases bb2store.len() - i,
    {
        let ghost prev = bb2store@.take(i as int);
        proof {
            assert(bb2store@.take(i + 1).drop_last() =~= prev);
            assert(bb2store@.take(i + 1).last() == bb2store@[i as int]);
        }
        let keep = bb2store[i].1.len() > 0 || bb2store[i].0 == entry;
        assert(pred(bb2store@[i as int]) == keep);
        proof {
            let t = bb2store@.take(i + 1);
            assert(t.len() > 0);
            reveal(Seq::filter);
            assert(t.filter(pred) == (if pred(t.last()) {
                t.drop_last().filter(pred).push(t.last())
            } else {
                t.drop_last().filter(pred)
            }));
        }
        if keep {
            let ghost lv = labels_view(r@);
            r.push(bb2store[i].0.clone());
            assert(labels_view(r@) =~= lv.push(bb2store@[i as int].0@));
            assert(bb2store@.take(i + 1).filter(pred) == prev.filter(pred).push(bb2store@[i as int]));
            assert(bb2store@.take(i + 1).filter(pred).map_values(key) =~= prev.filter(pred).map_values(key).push(
                bb2store@[i as int].0@,
            ));
        } else {
            assert(bb2store@.take(i + 1).filter(pred) == prev.filter(pred));
        }
        i += 1;
    }
    assert(bb2store@.take(bb2store@.len() as int) =~= bb2store@);
    let ghost unsorted = labels_view(r@);
    sort_texts(&mut r);
    r
}

impl<T: AbstractSemantics> Store<T> {
    /// The variables of the store, each once, in the text order of their names.
    pub fn variables_by_name(&self) -> (r: Vec<Variable>)
        ensures
            vars_view(r@).to_set() == self@.dom(),
            sorted_by(vars_view(r@), |a: VariableV, b: VariableV| name_le(a, b)),
    {
        let mut r = self.variables();
        let ghost before = vars_view(r@);
        sort_by_name(&mut r);
        proof {
            assert forall|x: VariableV| vars_view(r@).contains(x) <==> before.contains(x) by {
                before.to_multiset_ensures();
                vars_view(r@).to_multiset_ensures();
                assert(before.to_multiset().count(x) == vars_view(r@).to_multiset().count(x));
            }
            assert(vars_view(r@).to_set() =~= before.to_set());
        }
        r
    }
}

} // verus!

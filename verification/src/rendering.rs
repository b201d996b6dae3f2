//! Texts of analysis values and graphs: numbers, constants and intervals;
//! reaching-definition values, with their program points in the order of
//! their block labels, then naturally by what follows the dot; dependence
//! values; and graphs in the DOT and GraphML formats.
use vstd::prelude::*;
use vstd::string::*;
use crate::cfg::{edges_view, ControlFlowGraph};
use crate::defs::{ControlDependence, ProgramPoint};
use crate::domain::{Constant, Interval, Number};
use crate::graph::{table_view, Graph};
use crate::lir;
use crate::lir::{Location, ProgramPointV};
use crate::natural::{natural_compare, natural_order, TextOrder};
use crate::points::{decimal, format_decimal, indexed_text, lemma_text_lt_total, terminal_text, text_less, text_lt};

verus! {

/// The position of the first `.` in `t` at or after `i`, or the length.
pub open spec fn dot_pos(t: Seq<char>, i: int) -> int
    decreases t.len() - i,
{
    if i < 0 || i >= t.len() {
        t.len() as int
    } else if t[i] == '.' {
        i
    } else {
        dot_pos(t, i + 1)
    }
}

/// The part of a text before its first dot.
pub open spec fn head_part(t: Seq<char>) -> Seq<char> {
    t.take(dot_pos(t, 0))
}

/// The part of a text between its first and its second dot.
pub open spec fn second_part(t: Seq<char>) -> Seq<char> {
    let d = dot_pos(t, 0);
    t.subrange(d + 1, dot_pos(t, d + 1))
}

/// The order of two point texts: by the parts before the first dot in text
/// order, then naturally by the parts after it.
pub open spec fn text_order(a: Seq<char>, b: Seq<char>) -> TextOrder {
    if head_part(a) != head_part(b) {
        if text_lt(head_part(a), head_part(b)) {
            TextOrder::Less
        } else {
            TextOrder::Greater
        }
    } else {
        natural_order(second_part(a), second_part(b))
    }
}

/// Inserts `t` into a list after the last text that it does not precede.
pub open spec fn insert_text(s: Seq<Seq<char>>, t: Seq<char>) -> Seq<Seq<char>>
    decreases s.len(),
{
    if s.len() == 0 {
        seq![t]
    } else if text_order(t, s.last()) == TextOrder::Less {
        insert_text(s.drop_last(), t).push(s.last())
    } else {
        s.push(t)
    }
}

/// The texts sorted stably by [`text_order`], one insertion at a time.
pub open spec fn sort_texts(ts: Seq<Seq<char>>) -> Seq<Seq<char>>
    decreases ts.len(),
{
    if ts.len() == 0 {
        Seq::empty()
    } else {
        insert_text(sort_texts(ts.drop_last()), ts.last())
    }
}

/// The texts joined with `sep` between each two.
pub open spec fn join_texts(ts: Seq<Seq<char>>, sep: Seq<char>) -> Seq<char>
    decreases ts.len(),
{
    if ts.len() == 0 {
        Seq::empty()
    } else if ts.len() == 1 {
        ts[0]
    } else {
        join_texts(ts.drop_last(), sep) + sep + ts.last()
    }
}

/// The text of a program point: `block.index`, or `block.term`.
pub open spec fn point_text(p: ProgramPointV) -> Seq<char> {
    match p.location {
        Location::Instruction(i) => indexed_text(p.block, i),
        Location::Terminal => terminal_text(p.block),
    }
}

/// The texts of a list of program points, in order.
pub open spec fn point_texts(v: Seq<lir::ProgramPoint>) -> Seq<Seq<char>> {
    v.map_values(|p: lir::ProgramPoint| point_text(p@))
}

/// The text of a reaching-definitions value: `⊥`, `Top`, or its points in
/// braces, sorted by [`text_order`] and separated by `, `.
pub open spec fn value_text(x: ProgramPoint) -> Seq<char> {
    match x {
        ProgramPoint::Bottom => "⊥"@,
        ProgramPoint::Top => "Top"@,
        ProgramPoint::ProgramPointSet(v) => seq!['{'] + join_texts(sort_texts(point_texts(v@)), seq![',', ' '])
            + seq!['}'],
    }
}

/// A point text has a dot.
proof fn lemma_point_text_dot(b: Seq<char>, rest: Seq<char>)
    ensures
        dot_pos(b.push('.') + rest, 0) < (b.push('.') + rest).len(),
{
    let t = b.push('.') + rest;
    assert(t[b.len() as int] == '.');
    lemma_dot_pos_bound(t, 0, b.len() as int);
}

/// The first dot from `i` on is at most at any dot from `i` on.
proof fn lemma_dot_pos_bound(t: Seq<char>, i: int, k: int)
    requires
        0 <= i <= k < t.len(),
        t[k] == '.',
    ensures
        dot_pos(t, i) <= k,
    decreases k - i,
{
    if t[i] != '.' {
        lemma_dot_pos_bound(t, i + 1, k);
    }
}

/// Every point text has a dot.
proof fn lemma_point_text_has_dot(p: ProgramPointV)
    ensures
        dot_pos(point_text(p), 0) < point_text(p).len(),
{
    match p.location {
        Location::Instruction(i) => {
            lemma_point_text_dot(p.block, decimal(i as nat));
        },
        Location::Terminal => {
            assert(terminal_text(p.block) =~= p.block.push('.') + seq!['t', 'e', 'r', 'm']);
            lemma_point_text_dot(p.block, seq!['t', 'e', 'r', 'm']);
        },
    }
}

/// The position of the first `.` in `t` at or after `from`, or the length.
fn find_dot(t: &str, from: usize) -> (r: usize)
    requires
        from <= t@.len(),
    ensures
        r == dot_pos(t@, from as int),
        from <= r <= t@.len(),
        t@.len() <= usize::MAX,
{
    let n = t.unicode_len();
    let mut i = from;
    while i < n
        invariant
            n == t@.len(),
            from <= i <= n,
            dot_pos(t@, from as int) == dot_pos(t@, i as int),
        decreases n - i,
    {
        if t.get_char(i) == '.' {
            return i;
        }
        i += 1;
    }
    n
}

/// Compares two point texts by [`text_order`]; both must have a dot.
fn order_texts(a: &String, b: &String) -> (r: TextOrder)
    requires
        dot_pos(a@, 0) < a@.len(),
        dot_pos(b@, 0) < b@.len(),
    ensures
        r == text_order(a@, b@),
{
    let sa = a.as_str();
    let sb = b.as_str();
    let da = find_dot(sa, 0);
    let db = find_dot(sb, 0);
    let ha = sa.substring_char(0, da);
    let hb = sb.substring_char(0, db);
    assert(ha@ == head_part(a@));
    assert(hb@ == head_part(b@));
    proof {
        lemma_text_lt_total(ha@, hb@);
    }
    if text_less(ha, hb) {
        return TextOrder::Less;
    }
    if text_less(hb, ha) {
        return TextOrder::Greater;
    }
    let ea = find_dot(sa, da + 1);
    let eb = find_dot(sb, db + 1);
    let pa = sa.substring_char(da + 1, ea);
    let pb = sb.substring_char(db + 1, eb);
    assert(pa@ == second_part(a@));
    assert(pb@ == second_part(b@));
    natural_compare(pa, pb)
}

/// Inserts a point text after the last text of the list that it does not precede.
fn insert_sorted(out: &mut Vec<String>, t: String)
    requires
        forall|j: int| 0 <= j < old(out)@.len() ==> dot_pos(#[trigger] old(out)@[j]@, 0) < old(out)@[j]@.len(),
        dot_pos(t@, 0) < t@.len(),
    ensures
        final(out)@.map_values(|s: String| s@) == insert_text(old(out)@.map_values(|s: String| s@), t@),
        forall|j: int| 0 <= j < final(out)@.len() ==> dot_pos(#[trigger] final(out)@[j]@, 0) < final(out)@[j]@.len(),
{
    let ghost ov = old(out)@.map_values(|s: String| s@);
    let mut k = out.len();
    assert(ov.take(k as int) =~= ov);
    assert(ov.skip(k as int) =~= Seq::<Seq<char>>::empty());
    while k > 0
        invariant
            k <= out@.len(),
            out@ == old(out)@,
            ov == old(out)@.map_values(|s: String| s@),
            forall|j: int| 0 <= j < out@.len() ==> dot_pos(#[trigger] out@[j]@, 0) < out@[j]@.len(),
            dot_pos(t@, 0) < t@.len(),
            insert_text(ov, t@) == insert_text(ov.take(k as int), t@) + ov.skip(k as int),
        ensures
            k == 0 || text_order(t@, ov[k - 1]) != TextOrder::Less,
        decreases k,
    {
        assert(ov[k - 1] == out@[k - 1]@);
        if order_texts(&t, &out[k - 1]) != TextOrder::Less {
            break;
        }
        assert(ov.take(k as int).drop_last() =~= ov.take(k - 1));
        assert(ov.take(k as int).last() == ov[k - 1]);
        assert(ov.skip(k - 1) =~= seq![ov[k - 1]] + ov.skip(k as int));
        assert(insert_text(ov.take(k - 1), t@).push(ov[k - 1]) + ov.skip(k as int) =~= insert_text(
            ov.take(k - 1),
            t@,
        ) + ov.skip(k - 1));
        k -= 1;
    }
    proof {
        if k > 0 {
            assert(ov.take(k as int).last() == ov[k - 1]);
            assert(insert_text(ov.take(k as int), t@) == ov.take(k as int).push(t@));
        } else {
            assert(ov.take(0) =~= Seq::<Seq<char>>::empty());
        }
    }
    out.insert(k, t);
    assert(out@.map_values(|s: String| s@) =~= insert_text(ov, t@));
}

impl ProgramPoint {
    /// The text of the value; see [`value_text`].
    pub fn to_string(&self) -> (r: String)
        ensures
            r@ == value_text(*self),
    {
        match self {
            ProgramPoint::Bottom => String::from_str("⊥"),
            ProgramPoint::Top => String::from_str("Top"),
            ProgramPoint::ProgramPointSet(v) => {
                let ghost tv = point_texts(v@);
                let mut sorted: Vec<String> = Vec::new();
                let mut i: usize = 0;
                assert(tv.take(0) =~= Seq::<Seq<char>>::empty());
                assert(sorted@.map_values(|s: String| s@) =~= Seq::<Seq<char>>::empty());
                while i < v.len()
                    invariant
                        i <= v@.len(),
                        tv == point_texts(v@),
                        sorted@.map_values(|s: String| s@) == sort_texts(tv.take(i as int)),
                        forall|j: int| 0 <= j < sorted@.len() ==> dot_pos(#[trigger] sorted@[j]@, 0) < sorted@[j]@.len(),
                    decreases v.len() - i,
                {
                    let t = v[i].to_string();
                    assert(t@ == point_text(v@[i as int]@));
                    proof {
                        lemma_point_text_has_dot(v@[i as int]@);
                    }
                    insert_sorted(&mut sorted, t);
                    assert(tv.take(i + 1).drop_last() =~= tv.take(i as int));
                    assert(tv.take(i + 1).last() == tv[i as int]);
                    i += 1;
                }
                assert(tv.take(v@.len() as int) =~= tv);
                let ghost sv = sorted@.map_values(|s: String| s@);
                let mut r = String::from_str("{");
                let mut k: usize = 0;
                proof {
                    reveal_strlit("{");
                    reveal_strlit(", ");
                    reveal_strlit("}");
                }
                assert(r@ =~= seq!['{'] + join_texts(sv.take(0), seq![',', ' ']));
                while k < sorted.len()
                    invariant
                        k <= sorted@.len(),
                        sv == sorted@.map_values(|s: String| s@),
                        r@ == seq!['{'] + join_texts(sv.take(k as int), seq![',', ' ']),
                    decreases sorted.len() - k,
                {
                    let ghost before = r@;
                    if k > 0 {
                        r.append(", ");
                    }
                    r.append(sorted[k].as_str());
                    proof {
                        reveal_strlit(", ");
                        let tk = sv.take(k + 1);
                        assert(tk.drop_last() =~= sv.take(k as int));
                        assert(tk.last() == sorted@[k as int]@);
                        if k == 0 {
                            assert(tk.len() == 1);
                            assert(join_texts(sv.take(0), seq![',', ' ']) =~= Seq::<char>::empty());
                            assert(r@ =~= seq!['{'] + join_texts(tk, seq![',', ' ']));
                        } else {
                            assert(r@ =~= seq!['{'] + join_texts(tk, seq![',', ' ']));
                        }
                    }
                    k += 1;
                }
                assert(sv.take(sorted@.len() as int) =~= sv);
                r.append("}");
                proof {
                    reveal_strlit("}");
                }
                assert(r@ =~= value_text(*self));
                r
            },
        }
    }
}

// ------------------------------------------------------------------
// Numbers, constants and intervals
// ------------------------------------------------------------------

/// The decimal text of an integer, with a minus sign when it is negative.
pub open spec fn int_text(x: int) -> Seq<char> {
    if x < 0 {
        seq!['-'] + decimal((-x) as nat)
    } else {
        decimal(x as nat)
    }
}

/// The decimal text of an `i32`: its digits, after a minus sign when it is negative.
fn format_int(x: i32) -> (r: String)
    ensures
        r@ == int_text(x as int),
{
    if x < 0 {
        let m: usize = (0i64 - x as i64) as usize;
        let mut r = String::from_str("-");
        proof {
            reveal_strlit("-");
        }
        let d = format_decimal(m);
        r.append(d.as_str());
        assert(r@ =~= int_text(x as int));
        r
    } else {
        format_decimal(x as usize)
    }
}

/// The text of an extended integer: its digits, `PosInf` or `NegInf`.
pub open spec fn number_text(n: Number) -> Seq<char> {
    match n {
        Number::Integer(x) => int_text(x as int),
        Number::Infinity => "PosInf"@,
        Number::NInfinity => "NegInf"@,
    }
}

/// The text of a constant: `⊥`, `Top` or its digits.
pub open spec fn constant_text(c: Constant) -> Seq<char> {
    match c {
        Constant::Bottom => "⊥"@,
        Constant::Top => "Top"@,
        Constant::CInt(x) => int_text(x as int),
    }
}

/// The text of an interval: `⊥`; open at an infinite end, closed at a finite one.
pub open spec fn interval_text(i: Interval) -> Seq<char> {
    match i {
        Interval::Bottom => "⊥"@,
        Interval::Top => "(NegInf, PosInf)"@,
        Interval::Range(l, u) => if l == Number::NInfinity && u == Number::Infinity {
            "(NegInf, PosInf)"@
        } else if l == Number::NInfinity {
            "(NegInf, "@ + number_text(u) + "]"@
        } else if u == Number::Infinity {
            "["@ + number_text(l) + ", PosInf)"@
        } else {
            "["@ + number_text(l) + ", "@ + number_text(u) + "]"@
        },
    }
}

impl Number {
    /// The text of the number; see [`number_text`].
    pub fn to_string(&self) -> (r: String)
        ensures
            r@ == number_text(*self),
    {
        match self {
            Number::Integer(x) => format_int(*x),
            Number::Infinity => String::from_str("PosInf"),
            Number::NInfinity => String::from_str("NegInf"),
        }
    }
}

impl Constant {
    /// The text of the constant; see [`constant_text`].
    pub fn to_string(&self) -> (r: String)
        ensures
            r@ == constant_text(*self),
    {
        match self {
            Constant::Bottom => String::from_str("⊥"),
            Constant::Top => String::from_str("Top"),
            Constant::CInt(x) => format_int(*x),
        }
    }
}

impl Interval {
    /// The text of the interval; see [`interval_text`].
    pub fn to_string(&self) -> (r: String)
        ensures
            r@ == interval_text(*self),
    {
        match self {
            Interval::Bottom => String::from_str("⊥"),
            Interval::Top => String::from_str("(NegInf, PosInf)"),
            Interval::Range(l, u) => {
                let lo_inf = match l {
                    Number::NInfinity => true,
                    _ => false,
                };
                let hi_inf = match u {
                    Number::Infinity => true,
                    _ => false,
                };
                if lo_inf && hi_inf {
                    String::from_str("(NegInf, PosInf)")
                } else if lo_inf {
                    let mut r = String::from_str("(NegInf, ");
                    r.append(u.to_string().as_str());
                    r.append("]");
                    r
                } else if hi_inf {
                    let mut r = String::from_str("[");
                    r.append(l.to_string().as_str());
                    r.append(", PosInf)");
                    r
                } else {
                    let mut r = String::from_str("[");
                    r.append(l.to_string().as_str());
                    r.append(", ");
                    r.append(u.to_string().as_str());
                    r.append("]");
                    r
                }
            },
        }
    }
}

// ------------------------------------------------------------------
// Dependence values
// ------------------------------------------------------------------

/// The debug text of one label, as `format!("{:?}", ..)` writes a string:
/// the label in double quotes, with quotes, backslashes and control
/// characters escaped.
pub uninterp spec fn debug_text(label: Seq<char>) -> Seq<char>;

/// The debug texts of a list of labels, separated by `, `.
pub open spec fn debug_items(labels: Seq<Seq<char>>) -> Seq<char>
    decreases labels.len(),
{
    if labels.len() == 0 {
        Seq::empty()
    } else if labels.len() == 1 {
        debug_text(labels[0])
    } else {
        debug_items(labels.drop_last()) + ", "@ + debug_text(labels.last())
    }
}

/// The debug text of a list of labels, as `format!("{:?}", ..)` writes a
/// list: the debug texts of the labels, separated by `, `, in brackets.
pub open spec fn debug_labels_text(labels: Seq<Seq<char>>) -> Seq<char> {
    "["@ + debug_items(labels) + "]"@
}

/// Formats a label with `format!("{:?}", ..)`. The contract names the result
/// as a function of the label; the quoting and escaping are not stated.
#[verifier::external_body]
fn format_debug_label(s: &String) -> (r: String)
    ensures
        r@ == debug_text(s@),
{
    format!("{:?}", s)
}

/// Formats a list of labels as `format!("{:?}", ..)` does.
fn format_debug_labels(v: &Vec<String>) -> (r: String)
    ensures
        r@ == debug_labels_text(crate::cfg::labels_view(v@)),
{
    let ghost lv = crate::cfg::labels_view(v@);
    let mut r = String::from_str("[");
    let mut i: usize = 0;
    proof {
        reveal_strlit("[");
        assert(lv.take(0) =~= Seq::<Seq<char>>::empty());
        assert(r@ =~= "["@ + debug_items(lv.take(0)));
    }
    while i < v.len()
        invariant
            i <= v@.len(),
            lv == crate::cfg::labels_view(v@),
            r@ == "["@ + debug_items(lv.take(i as int)),
        decreases v.len() - i,
    {
        let ghost prev = r@;
        if i > 0 {
            r.append(", ");
        }
        let d = format_debug_label(&v[i]);
        r.append(d.as_str());
        proof {
            assert(lv.take(i + 1).drop_last() =~= lv.take(i as int));
            assert(lv.take(i + 1).last() == v@[i as int]@);
            if i == 0 {
                assert(lv.take(1)[0] == v@[0]@);
            }
            assert(r@ =~= "["@ + debug_items(lv.take(i + 1)));
        }
        i += 1;
    }
    assert(lv.take(v@.len() as int) =~= lv);
    r.append("]");
    r
}

/// Inserts `t` into a list after the last text that is not greater.
pub open spec fn insert_label(s: Seq<Seq<char>>, t: Seq<char>) -> Seq<Seq<char>>
    decreases s.len(),
{
    if s.len() == 0 {
        seq![t]
    } else if text_lt(t, s.last()) {
        insert_label(s.drop_last(), t).push(s.last())
    } else {
        s.push(t)
    }
}

/// The labels sorted in text order, one insertion at a time.
pub open spec fn sort_labels(ts: Seq<Seq<char>>) -> Seq<Seq<char>>
    decreases ts.len(),
{
    if ts.len() == 0 {
        Seq::empty()
    } else {
        insert_label(sort_labels(ts.drop_last()), ts.last())
    }
}

/// The text of a dependence value: `⊥`, `{}` for top, or the debug text of
/// its labels in text order.
pub open spec fn dependence_text(x: ControlDependence) -> Seq<char> {
    match x {
        ControlDependence::Bottom => "⊥"@,
        ControlDependence::Top => "{}"@,
        ControlDependence::BlockSet(v) => debug_labels_text(sort_labels(crate::cfg::labels_view(v@))),
    }
}

/// Inserts a label after the last label of the list that is not greater.
fn insert_label_sorted(out: &mut Vec<String>, t: String)
    ensures
        crate::cfg::labels_view(final(out)@) == insert_label(crate::cfg::labels_view(old(out)@), t@),
{
    let ghost ov = crate::cfg::labels_view(old(out)@);
    let mut k = out.len();
    assert(ov.take(k as int) =~= ov);
    assert(ov.skip(k as int) =~= Seq::<Seq<char>>::empty());
    while k > 0
        invariant
            k <= out@.len(),
            out@ == old(out)@,
            ov == crate::cfg::labels_view(old(out)@),
            insert_label(ov, t@) == insert_label(ov.take(k as int), t@) + ov.skip(k as int),
        ensures
            k == 0 || !text_lt(t@, ov[k - 1]),
        decreases k,
    {
        assert(ov[k - 1] == out@[k - 1]@);
        if !text_less(t.as_str(), out[k - 1].as_str()) {
            break;
        }
        assert(ov.take(k as int).drop_last() =~= ov.take(k - 1));
        assert(ov.take(k as int).last() == ov[k - 1]);
        assert(ov.skip(k - 1) =~= seq![ov[k - 1]] + ov.skip(k as int));
        assert(insert_label(ov.take(k - 1), t@).push(ov[k - 1]) + ov.skip(k as int) =~= insert_label(
            ov.take(k - 1),
            t@,
        ) + ov.skip(k - 1));
        k -= 1;
    }
    proof {
        if k > 0 {
            assert(ov.take(k as int).last() == ov[k - 1]);
            assert(insert_label(ov.take(k as int), t@) == ov.take(k as int).push(t@));
        } else {
            assert(ov.take(0) =~= Seq::<Seq<char>>::empty());
        }
    }
    out.insert(k, t);
    assert(crate::cfg::labels_view(out@) =~= insert_label(ov, t@));
}

impl ControlDependence {
    /// The text of the value; see [`dependence_text`].
    pub fn to_string(&self) -> (r: String)
        ensures
            r@ == dependence_text(*self),
    {
        match self {
            ControlDependence::Bottom => String::from_str("⊥"),
            ControlDependence::Top => String::from_str("{}"),
            ControlDependence::BlockSet(v) => {
                let ghost lv = crate::cfg::labels_view(v@);
                let mut sorted: Vec<String> = Vec::new();
                let mut i: usize = 0;
                assert(lv.take(0) =~= Seq::<Seq<char>>::empty());
                assert(crate::cfg::labels_view(sorted@) =~= Seq::<Seq<char>>::empty());
                while i < v.len()
                    invariant
                        i <= v@.len(),
                        lv == crate::cfg::labels_view(v@),
                        crate::cfg::labels_view(sorted@) == sort_labels(lv.take(i as int)),
                    decreases v.len() - i,
                {
                    insert_label_sorted(&mut sorted, v[i].clone());
                    assert(lv.take(i + 1).drop_last() =~= lv.take(i as int));
                    assert(lv.take(i + 1).last() == v@[i as int]@);
                    i += 1;
                }
                assert(lv.take(v@.len() as int) =~= lv);
                format_debug_labels(&sorted)
            },
        }
    }
}

// ------------------------------------------------------------------
// Graph files
// ------------------------------------------------------------------

/// The DOT lines of the edges, in order: `  src -> dst;`.
pub open spec fn dot_edge_lines(e: Seq<(Seq<char>, Seq<char>)>) -> Seq<char>
    decreases e.len(),
{
    if e.len() == 0 {
        Seq::empty()
    } else {
        dot_edge_lines(e.drop_last()) + "  "@ + e.last().0 + " -> "@ + e.last().1 + ";\n"@
    }
}

/// The GraphML lines of the edges of a table, source by source.
pub open spec fn graphml_edge_lines(adj: Seq<(usize, Seq<usize>)>) -> Seq<char>
    decreases adj.len(),
{
    if adj.len() == 0 {
        Seq::empty()
    } else {
        graphml_edge_lines(adj.drop_last()) + graphml_targets(adj.last().0, adj.last().1)
    }
}

/// The GraphML lines of the edges from `from` to each of `tos`, in order.
pub open spec fn graphml_targets(from: usize, tos: Seq<usize>) -> Seq<char>
    decreases tos.len(),
{
    if tos.len() == 0 {
        Seq::empty()
    } else {
        graphml_targets(from, tos.drop_last()) + "<edge source=\""@ + decimal(from as nat) + "\" target=\""@
            + decimal(tos.last() as nat) + "\"/>\n"@
    }
}

/// The opening lines of a GraphML file with a directed graph.
pub open spec fn graphml_head() -> Seq<char> {
    "<?xml version=\"1.0\" encoding=\"UTF-8\"?>\n"@
        + "<graphml xmlns=\"http://graphml.graphdrawing.org/xmlns\" xmlns:xsi=\"http://www.w3.org/2001/XMLSchema-instance\" xsi:schemaLocation=\"http://graphml.graphdrawing.org/xmlns http://graphml.graphdrawing.org/xmlns/1.0/graphml.xsd\">\n"@
        + "<graph id=\"G\" edgedefault=\"directed\">\n"@
}

/// The closing lines of a GraphML file.
pub open spec fn graphml_tail() -> Seq<char> {
    "</graph>\n"@ + "</graphml>\n"@
}

impl ControlFlowGraph {
    /// The graph in the DOT format: `digraph G {`, a line per edge, `}`.
    pub fn to_dot_text(&self) -> (r: String)
        ensures
            r@ == "digraph G {\n"@ + dot_edge_lines(self.edge_seq()) + "}"@,
    {
        let ghost e = self.edge_seq();
        let mut r = String::from_str("digraph G {\n");
        let ghost head = r@;
        let mut i: usize = 0;
        assert(e.take(0) =~= Seq::<(Seq<char>, Seq<char>)>::empty());
        assert(r@ =~= head + dot_edge_lines(e.take(0)));
        while i < self.edges.len()
            invariant
                i <= self.edges@.len(),
                e == self.edge_seq(),
                e == edges_view(self.edges@),
                head == "digraph G {\n"@,
                r@ == head + dot_edge_lines(e.take(i as int)),
            decreases self.edges.len() - i,
        {
            r.append("  ");
            r.append(self.edges[i].0.as_str());
            r.append(" -> ");
            r.append(self.edges[i].1.as_str());
            r.append(";\n");
            assert(e.take(i + 1).drop_last() =~= e.take(i as int));
            assert(e.take(i + 1).last() == (self.edges@[i as int].0@, self.edges@[i as int].1@));
            assert(r@ =~= head + dot_edge_lines(e.take(i + 1)));
            i += 1;
        }
        assert(e.take(self.edges@.len() as int) =~= e);
        r.append("}");
        r
    }
}

impl Graph {
    /// The graph in the GraphML format: the opening lines, a line per edge
    /// source by source, the closing lines.
    pub fn to_graphml_text(&self) -> (r: String)
        ensures
            r@ == graphml_head() + graphml_edge_lines(self.adj()) + graphml_tail(),
    {
        let ghost adj = self.adj();
        let mut r = String::from_str("<?xml version=\"1.0\" encoding=\"UTF-8\"?>\n");
        r.append("<graphml xmlns=\"http://graphml.graphdrawing.org/xmlns\" xmlns:xsi=\"http://www.w3.org/2001/XMLSchema-instance\" xsi:schemaLocation=\"http://graphml.graphdrawing.org/xmlns http://graphml.graphdrawing.org/xmlns/1.0/graphml.xsd\">\n");
        r.append("<graph id=\"G\" edgedefault=\"directed\">\n");
        let ghost head = r@;
        assert(head == graphml_head());
        let mut i: usize = 0;
        assert(adj.take(0) =~= Seq::<(usize, Seq<usize>)>::empty());
        assert(r@ =~= head + graphml_edge_lines(adj.take(0)));
        while i < self.edges.len()
            invariant
                i <= self.edges@.len(),
                adj == self.adj(),
                adj == table_view(self.edges@),
                head == graphml_head(),
                r@ == head + graphml_edge_lines(adj.take(i as int)),
            decreases self.edges.len() - i,
        {
            let from = self.edges[i].0;
            let tos = &self.edges[i].1;
            let ghost before = r@;
            let mut j: usize = 0;
            assert(tos@.take(0) =~= Seq::<usize>::empty());
            assert(r@ =~= before + graphml_targets(from, tos@.take(0)));
            while j < tos.len()
                invariant
                    j <= tos@.len(),
                    r@ == before + graphml_targets(from, tos@.take(j as int)),
                decreases tos.len() - j,
            {
                r.append("<edge source=\"");
                r.append(format_decimal(from).as_str());
                r.append("\" target=\"");
                r.append(format_decimal(tos[j]).as_str());
                r.append("\"/>\n");
                assert(tos@.take(j + 1).drop_last() =~= tos@.take(j as int));
                assert(tos@.take(j + 1).last() == tos@[j as int]);
                assert(r@ =~= before + graphml_targets(from, tos@.take(j + 1)));
                j += 1;
            }
            assert(tos@.take(tos@.len() as int) =~= tos@);
            assert(adj.take(i + 1).drop_last() =~= adj.take(i as int));
            assert(adj.take(i + 1).last() == (from, tos@));
            assert(r@ =~= head + graphml_edge_lines(adj.take(i + 1)));
            i += 1;
        }
        assert(adj.take(self.edges@.len() as int) =~= adj);
        r.append("</graph>\n");
        r.append("</graphml>\n");
        r
    }
}

} // verus!

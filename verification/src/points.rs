//! The order of program points (by block label, then location) and their
//! text form `block.index` or `block.term`.
use vstd::prelude::*;
use vstd::relations::sorted_by;
use vstd::string::*;
use crate::lir::{Location, ProgramPoint, ProgramPointV};

verus! {

/// The lexicographic order of texts by code point: a proper prefix comes first.
pub open spec fn text_lt(a: Seq<char>, b: Seq<char>) -> bool
    decreases a.len(),
{
    if a.len() == 0 {
        b.len() > 0
    } else if b.len() == 0 {
        false
    } else if a[0] != b[0] {
        (a[0] as int) < (b[0] as int)
    } else {
        text_lt(a.drop_first(), b.drop_first())
    }
}

/// The text order is irreflexive.
pub proof fn lemma_text_lt_irreflexive(a: Seq<char>)
    ensures
        !text_lt(a, a),
    decreases a.len(),
{
    if a.len() > 0 {
        lemma_text_lt_irreflexive(a.drop_first());
    }
}

/// The text order is asymmetric and total on distinct texts.
pub proof fn lemma_text_lt_total(a: Seq<char>, b: Seq<char>)
    ensures
        text_lt(a, b) ==> !text_lt(b, a),
        a != b ==> text_lt(a, b) || text_lt(b, a),
    decreases a.len(),
{
    if a.len() > 0 && b.len() > 0 {
        lemma_text_lt_total(a.drop_first(), b.drop_first());
        if a[0] != b[0] {
            assert((a[0] as int) != (b[0] as int));
        }
        if a != b && a[0] == b[0] {
            assert(a.drop_first() != b.drop_first()) by {
                if a.drop_first() == b.drop_first() {
                    assert(a =~= seq![a[0]] + a.drop_first());
                    assert(b =~= seq![b[0]] + b.drop_first());
                }
            }
        }
    }
    if a.len() == 0 && b.len() == 0 {
        assert(a =~= b);
    }
}

/// The text order is transitive.
pub proof fn lemma_text_lt_transitive(a: Seq<char>, b: Seq<char>, c: Seq<char>)
    requires
        text_lt(a, b),
        text_lt(b, c),
    ensures
        text_lt(a, c),
    decreases a.len(),
{
    if a.len() > 0 && b.len() > 0 && c.len() > 0 && a[0] == b[0] && b[0] == c[0] {
        lemma_text_lt_transitive(a.drop_first(), b.drop_first(), c.drop_first());
    }
}

/// Decides the text order.
pub fn text_less(a: &str, b: &str) -> (r: bool)
    ensures
        r == text_lt(a@, b@),
{
    let la = a.unicode_len();
    let lb = b.unicode_len();
    let mut i: usize = 0;
    assert(a@.skip(0) =~= a@);
    assert(b@.skip(0) =~= b@);
    while i < la && i < lb
        invariant
            la == a@.len(),
            lb == b@.len(),
            i <= la,
            i <= lb,
            text_lt(a@, b@) == text_lt(a@.skip(i as int), b@.skip(i as int)),
        decreases la - i,
    {
        let ca = a.get_char(i);
        let cb = b.get_char(i);
        let ghost sa = a@.skip(i as int);
        let ghost sb = b@.skip(i as int);
        assert(sa[0] == ca);
        assert(sb[0] == cb);
        if ca != cb {
            return (ca as u32) < (cb as u32);
        }
        assert(sa.drop_first() =~= a@.skip(i + 1));
        assert(sb.drop_first() =~= b@.skip(i + 1));
        i += 1;
    }
    assert(a@.skip(i as int).len() == la - i);
    assert(b@.skip(i as int).len() == lb - i);
    i < lb
}

/// The order of locations: instructions by index, then the terminal.
pub open spec fn loc_le(a: Location, b: Location) -> bool {
    match (a, b) {
        (Location::Instruction(x), Location::Instruction(y)) => x <= y,
        (Location::Instruction(_), Location::Terminal) => true,
        (Location::Terminal, Location::Instruction(_)) => false,
        (Location::Terminal, Location::Terminal) => true,
    }
}

/// The order of program points: by block label in text order, then by location.
pub open spec fn pp_le(a: ProgramPointV, b: ProgramPointV) -> bool {
    text_lt(a.block, b.block) || (a.block == b.block && loc_le(a.location, b.location))
}

/// The program-point order is total and transitive.
pub proof fn lemma_pp_le_order(a: ProgramPointV, b: ProgramPointV, c: ProgramPointV)
    ensures
        pp_le(a, b) || pp_le(b, a),
        pp_le(a, b) && pp_le(b, c) ==> pp_le(a, c),
        pp_le(a, a),
{
    lemma_text_lt_total(a.block, b.block);
    lemma_text_lt_irreflexive(a.block);
    if text_lt(a.block, b.block) && text_lt(b.block, c.block) {
        lemma_text_lt_transitive(a.block, b.block, c.block);
    }
}

/// Decides the program-point order.
pub fn point_le(a: &ProgramPoint, b: &ProgramPoint) -> (r: bool)
    ensures
        r == pp_le(a@, b@),
{
    if text_less(a.block.as_str(), b.block.as_str()) {
        return true;
    }
    if a.block != b.block {
        return false;
    }
    match (a.location, b.location) {
        (Location::Instruction(x), Location::Instruction(y)) => x <= y,
        (Location::Instruction(_), Location::Terminal) => true,
        (Location::Terminal, Location::Instruction(_)) => false,
        (Location::Terminal, Location::Terminal) => true,
    }
}

/// A list of program points as views.
pub open spec fn points_view(s: Seq<ProgramPoint>) -> Seq<ProgramPointV> {
    s.map_values(|p: ProgramPoint| p@)
}

/// Sorts program points by block label, then location, keeping the order of equal ones.
pub fn sort_points(v: &mut Vec<ProgramPoint>)
    ensures
        sorted_by(points_view(final(v)@), |a: ProgramPointV, b: ProgramPointV| pp_le(a, b)),
        points_view(final(v)@).to_multiset() == points_view(old(v)@).to_multiset(),
{
    let ghost le = |a: ProgramPointV, b: ProgramPointV| pp_le(a, b);
    let ghost all = points_view(v@).to_multiset();
    let mut out: Vec<ProgramPoint> = Vec::new();
    proof {
        assert(points_view(out@) =~= Seq::<ProgramPointV>::empty());
        Seq::<ProgramPointV>::empty().to_multiset_ensures();
        assert(points_view(out@).to_multiset() =~= vstd::multiset::Multiset::<ProgramPointV>::empty());
    }
    while v.len() > 0
        invariant
            sorted_by(points_view(out@), le),
            points_view(out@).to_multiset().add(points_view(v@).to_multiset()) == all,
            le == (|a: ProgramPointV, b: ProgramPointV| pp_le(a, b)),
        decreases v.len(),
    {
        let ghost vv = points_view(v@);
        let x = v.remove(0);
        let ghost om = points_view(out@).to_multiset();
        proof {
            assert(points_view(v@) =~= vv.remove(0));
            vv.to_multiset_ensures();
            assert(vv.contains(x@)) by {
                assert(vv[0] == x@);
            }
        }
        let mut j: usize = 0;
        while j < out.len() && point_le(&out[j], &x)
            invariant
                j <= out@.len(),
                forall|i: int| 0 <= i < j ==> pp_le(#[trigger] points_view(out@)[i], x@),
            decreases out.len() - j,
        {
            j += 1;
        }
        let ghost ov = points_view(out@);
        proof {
            if j < out@.len() {
                assert(!pp_le(ov[j as int], x@));
                lemma_pp_le_order(ov[j as int], x@, x@);
                assert forall|i: int| j <= i < ov.len() implies pp_le(x@, #[trigger] ov[i]) by {
                    if i > j {
                        assert(le(ov[j as int], ov[i]));
                    }
                    lemma_pp_le_order(x@, ov[j as int], ov[i]);
                }
            }
        }
        out.insert(j, x);
        proof {
            assert(points_view(out@) =~= ov.insert(j as int, x@));
            vstd::seq_lib::to_multiset_insert(ov, j as int, x@);
            assert(points_view(out@).to_multiset().add(points_view(v@).to_multiset()) =~= om.add(vv.to_multiset()));
            let nv = points_view(out@);
            assert forall|a: int, b: int| 0 <= a < b < nv.len() implies #[trigger] le(nv[a], nv[b]) by {
                if a < j && b < j {
                    assert(le(ov[a], ov[b]));
                } else if a < j && b == j {
                } else if a < j && b > j {
                    assert(le(ov[a], ov[b - 1]));
                } else if a == j {
                    assert(pp_le(x@, ov[b - 1]));
                } else {
                    assert(le(ov[a - 1], ov[b - 1]));
                }
            }
        }
    }
    proof {
        assert(points_view(v@) =~= Seq::<ProgramPointV>::empty());
        Seq::<ProgramPointV>::empty().to_multiset_ensures();
        assert(points_view(v@).to_multiset() =~= vstd::multiset::Multiset::<ProgramPointV>::empty());
        assert(points_view(out@).to_multiset().add(points_view(v@).to_multiset()) =~= points_view(out@).to_multiset());
    }
    *v = out;
}

/// The character of a decimal digit.
pub open spec fn digit_char(d: nat) -> char {
    (d + 48) as char
}

/// The decimal digits of a number, most significant first, without leading zeros.
pub open spec fn decimal(n: nat) -> Seq<char>
    decreases n,
{
    if n < 10 {
        seq![digit_char(n)]
    } else {
        decimal(n / 10).push(digit_char(n % 10))
    }
}

/// The text of a program point with an instruction index: the block label, a dot and the index.
pub open spec fn indexed_text(block: Seq<char>, index: usize) -> Seq<char> {
    block.push('.') + decimal(index as nat)
}

/// The text of a program point at a terminal: the block label and `.term`.
pub open spec fn terminal_text(block: Seq<char>) -> Seq<char> {
    block + seq!['.', 't', 'e', 'r', 'm']
}

/// The text of one decimal digit.
fn digit_text(d: usize) -> (r: String)
    requires
        d < 10,
    ensures
        r@ == seq![digit_char(d as nat)],
{
    match d {
        0 => {
            proof {
                reveal_strlit("0");
            }
            String::from_str("0")
        },
        1 => {
            proof {
                reveal_strlit("1");
            }
            String::from_str("1")
        },
        2 => {
            proof {
                reveal_strlit("2");
            }
            String::from_str("2")
        },
        3 => {
            proof {
                reveal_strlit("3");
            }
            String::from_str("3")
        },
        4 => {
            proof {
                reveal_strlit("4");
            }
            String::from_str("4")
        },
        5 => {
            proof {
                reveal_strlit("5");
            }
            String::from_str("5")
        },
        6 => {
            proof {
                reveal_strlit("6");
            }
            String::from_str("6")
        },
        7 => {
            proof {
                reveal_strlit("7");
            }
            String::from_str("7")
        },
        8 => {
            proof {
                reveal_strlit("8");
            }
            String::from_str("8")
        },
        _ => {
            proof {
                reveal_strlit("9");
            }
            String::from_str("9")
        },
    }
}

/// The decimal text of a number, most significant digit first.
pub(crate) fn format_decimal(n: usize) -> (r: String)
    ensures
        r@ == decimal(n as nat),
    decreases n,
{
    if n < 10 {
        digit_text(n)
    } else {
        let mut r = format_decimal(n / 10);
        let d = digit_text(n % 10);
        r.append(d.as_str());
        assert(r@ =~= decimal((n / 10) as nat).push(digit_char((n % 10) as nat)));
        r
    }
}

impl ProgramPoint {
    /// The text of the point: `block.index` for an instruction, `block.term` for the terminal.
    pub fn to_string(&self) -> (r: String)
        ensures
            r@ == match self.location {
                Location::Instruction(i) => indexed_text(self.block@, i),
                Location::Terminal => terminal_text(self.block@),
            },
    {
        match self.location {
            Location::Instruction(i) => {
                let mut r = self.block.clone();
                r.append(".");
                r.append(format_decimal(i).as_str());
                proof {
                    reveal_strlit(".");
                }
                assert(r@ =~= indexed_text(self.block@, i));
                r
            },
            Location::Terminal => {
                let mut r = self.block.clone();
                r.append(".term");
                proof {
                    reveal_strlit(".term");
                }
                assert(r@ =~= terminal_text(self.block@));
                r
            },
        }
    }
}

} // verus!

//! Set domains: sets of program points for reaching definitions (joined by
//! union) and sets of blocks for control dependence (joined by intersection).
use vstd::prelude::*;
use crate::cfg::labels_view;
use crate::lir::{pp_eq, ArithOp, ProgramPointV, RelaOp};
use crate::lir;
use crate::points::points_view;
use crate::semantics::AbstractSemantics;

verus! {

/// The reaching-definitions domain: no information, any definition, or a
/// set of program points.
#[derive(Debug)]
pub enum ProgramPoint {
    Bottom,
    Top,
    ProgramPointSet(Vec<lir::ProgramPoint>),
}

/// Mathematical view of the reaching-definitions domain.
pub enum PointsV {
    Bottom,
    Top,
    Points(Set<ProgramPointV>),
}

impl View for ProgramPoint {
    type V = PointsV;

    open spec fn view(&self) -> PointsV {
        match self {
            ProgramPoint::Bottom => PointsV::Bottom,
            ProgramPoint::Top => PointsV::Top,
            ProgramPoint::ProgramPointSet(v) => PointsV::Points(points_view(v@).to_set()),
        }
    }
}

/// The join of the reaching-definitions domain: bottom is the identity,
/// top absorbs, sets are united.
pub open spec fn points_join(a: PointsV, b: PointsV) -> PointsV {
    match (a, b) {
        (PointsV::Bottom, _) => b,
        (_, PointsV::Bottom) => a,
        (PointsV::Top, _) => PointsV::Top,
        (_, PointsV::Top) => PointsV::Top,
        (PointsV::Points(x), PointsV::Points(y)) => PointsV::Points(x.union(y)),
    }
}

/// The join of reaching definitions: bottom is its identity, top absorbs
/// every other value, and it is idempotent, commutative and associative.
pub proof fn points_join_laws(a: PointsV, b: PointsV, c: PointsV)
    ensures
        points_join(PointsV::Bottom, a) == a,
        points_join(a, PointsV::Bottom) == a,
        a !is Bottom ==> points_join(PointsV::Top, a) == PointsV::Top,
        points_join(a, a) == a,
        points_join(a, b) == points_join(b, a),
        points_join(points_join(a, b), c) == points_join(a, points_join(b, c)),
{
    match (a, b, c) {
        (PointsV::Points(x), PointsV::Points(y), PointsV::Points(z)) => {
            assert(x.union(y) =~= y.union(x));
            assert(x.union(y).union(z) =~= x.union(y.union(z)));
            assert(x.union(x) =~= x);
        },
        (PointsV::Points(x), PointsV::Points(y), _) => {
            assert(x.union(y) =~= y.union(x));
            assert(x.union(x) =~= x);
        },
        (PointsV::Points(x), _, _) => {
            assert(x.union(x) =~= x);
        },
        _ => {},
    }
}

/// Whether a point with the view of `p` is on the list.
fn points_contain(v: &Vec<lir::ProgramPoint>, p: &lir::ProgramPoint) -> (r: bool)
    ensures
        r == points_view(v@).contains(p@),
{
    let mut i: usize = 0;
    while i < v.len()
        invariant
            i <= v@.len(),
            forall|j: int| 0 <= j < i ==> (#[trigger] v@[j])@ != p@,
        decreases v.len() - i,
    {
        if pp_eq(&v[i], p) {
            assert(points_view(v@)[i as int] == p@);
            return true;
        }
        i += 1;
    }
    proof {
        let pv = points_view(v@);
        if pv.contains(p@) {
            let j = choose|j: int| 0 <= j < pv.len() && #[trigger] pv[j] == p@;
            assert(v@[j]@ == p@);
        }
    }
    false
}

/// A copy of a list of points.
fn clone_points(v: &Vec<lir::ProgramPoint>) -> (r: Vec<lir::ProgramPoint>)
    ensures
        points_view(r@) == points_view(v@),
{
    let mut r: Vec<lir::ProgramPoint> = Vec::new();
    let mut i: usize = 0;
    while i < v.len()
        invariant
            i <= v@.len(),
            points_view(r@) == points_view(v@).take(i as int),
        decreases v.len() - i,
    {
        let c = v[i].clone();
        let ghost prev = points_view(r@);
        r.push(c);
        assert(points_view(r@) =~= prev.push(c@));
        assert(points_view(v@).take(i + 1) =~= points_view(v@).take(i as int).push(c@));
        i += 1;
    }
    assert(points_view(v@).take(v@.len() as int) =~= points_view(v@));
    r
}

/// The union of two lists of points, as a list: the first, then the points
/// of the second not on it yet.
fn union_points(a: &Vec<lir::ProgramPoint>, b: &Vec<lir::ProgramPoint>) -> (r: Vec<lir::ProgramPoint>)
    ensures
        points_view(r@).to_set() == points_view(a@).to_set().union(points_view(b@).to_set()),
{
    let mut r = clone_points(a);
    let mut i: usize = 0;
    assert(points_view(b@).take(0).to_set() =~= Set::<ProgramPointV>::empty());
    assert(points_view(r@).to_set() =~= points_view(a@).to_set().union(points_view(b@).take(0).to_set()));
    while i < b.len()
        invariant
            i <= b@.len(),
            points_view(r@).to_set() == points_view(a@).to_set().union(points_view(b@).take(i as int).to_set()),
        decreases b.len() - i,
    {
        let ghost rv = points_view(r@);
        let ghost bt = points_view(b@).take(i as int);
        let ghost x = b@[i as int]@;
        assert(points_view(b@).take(i + 1) =~= bt + seq![x]);
        proof {
            Seq::lemma_to_set_insert_commutes(bt, x);
        }
        if !points_contain(&r, &b[i]) {
            let c = b[i].clone();
            r.push(c);
            assert(points_view(r@) =~= rv + seq![x]);
            proof {
                Seq::lemma_to_set_insert_commutes(rv, x);
            }
        }
        assert(points_view(r@).to_set() =~= points_view(a@).to_set().union(points_view(b@).take(i + 1).to_set()));
        i += 1;
    }
    assert(points_view(b@).take(b@.len() as int) =~= points_view(b@));
    r
}

/// Whether every point of `a` is on `b`.
fn points_subset(a: &Vec<lir::ProgramPoint>, b: &Vec<lir::ProgramPoint>) -> (r: bool)
    ensures
        r == points_view(a@).to_set().subset_of(points_view(b@).to_set()),
{
    let mut i: usize = 0;
    while i < a.len()
        invariant
            i <= a@.len(),
            forall|j: int| 0 <= j < i ==> points_view(b@).contains(#[trigger] points_view(a@)[j]),
        decreases a.len() - i,
    {
        assert(points_view(a@)[i as int] == a@[i as int]@);
        if !points_contain(b, &a[i]) {
            assert(points_view(a@).to_set().contains(points_view(a@)[i as int]));
            return false;
        }
        i += 1;
    }
    proof {
        assert forall|p: ProgramPointV| points_view(a@).to_set().contains(p) implies points_view(b@).to_set().contains(p) by {
            let j = choose|j: int| 0 <= j < points_view(a@).len() && points_view(a@)[j] == p;
            assert(points_view(b@).contains(points_view(a@)[j]));
        }
    }
    true
}

impl AbstractSemantics for ProgramPoint {
    open spec fn bottom_spec(v: PointsV) -> bool {
        v is Bottom
    }

    open spec fn top_spec(v: PointsV) -> bool {
        v is Top
    }

    open spec fn join_spec(a: PointsV, b: PointsV) -> PointsV {
        points_join(a, b)
    }

    /// Reaching definitions have no arithmetic.
    open spec fn arith_ok(a: PointsV, b: PointsV, op: ArithOp) -> bool {
        false
    }

    open spec fn arith_spec(a: PointsV, b: PointsV, op: ArithOp) -> PointsV {
        PointsV::Top
    }

    /// Reaching definitions have no comparison.
    open spec fn cmp_ok(a: PointsV, b: PointsV, op: RelaOp) -> bool {
        false
    }

    open spec fn cmp_spec(a: PointsV, b: PointsV, op: RelaOp) -> PointsV {
        PointsV::Top
    }

    fn is_bottom(&self) -> (r: bool) {
        match self {
            ProgramPoint::Bottom => true,
            _ => false,
        }
    }

    fn is_top(&self) -> (r: bool) {
        match self {
            ProgramPoint::Top => true,
            _ => false,
        }
    }

    fn join(&self, other: &Self) -> (r: Self) {
        match (self, other) {
            (ProgramPoint::Bottom, _) => other.clone_value(),
            (_, ProgramPoint::Bottom) => self.clone_value(),
            (ProgramPoint::Top, _) => ProgramPoint::Top,
            (_, ProgramPoint::Top) => ProgramPoint::Top,
            (ProgramPoint::ProgramPointSet(a), ProgramPoint::ProgramPointSet(b)) => ProgramPoint::ProgramPointSet(
                union_points(a, b),
            ),
        }
    }

    fn join_in_place(&mut self, other: &Self) {
        *self = self.join(other);
    }

    fn eq_value(&self, other: &Self) -> (r: bool) {
        match (self, other) {
            (ProgramPoint::Bottom, ProgramPoint::Bottom) => true,
            (ProgramPoint::Top, ProgramPoint::Top) => true,
            (ProgramPoint::ProgramPointSet(a), ProgramPoint::ProgramPointSet(b)) => {
                let r = points_subset(a, b) && points_subset(b, a);
                proof {
                    if points_view(a@).to_set().subset_of(points_view(b@).to_set()) && points_view(b@).to_set().subset_of(
                        points_view(a@).to_set(),
                    ) {
                        assert(points_view(a@).to_set() =~= points_view(b@).to_set());
                    }
                }
                r
            },
            _ => false,
        }
    }

    fn clone_value(&self) -> (r: Self) {
        match self {
            ProgramPoint::Bottom => ProgramPoint::Bottom,
            ProgramPoint::Top => ProgramPoint::Top,
            ProgramPoint::ProgramPointSet(v) => ProgramPoint::ProgramPointSet(clone_points(v)),
        }
    }

    fn arith_defined(&self, other: &Self, op: &ArithOp) -> (r: bool) {
        false
    }

    fn arith(&self, other: &Self, op: &ArithOp) -> (r: Self) {
        ProgramPoint::Top
    }

    fn cmp(&self, other: &Self, op: &RelaOp) -> (r: Self) {
        ProgramPoint::Top
    }
}

/// The control-dependence domain: no information, any block, or a set of block labels.
#[derive(Debug)]
pub enum ControlDependence {
    Bottom,
    Top,
    BlockSet(Vec<String>),
}

/// Mathematical view of the control-dependence domain.
pub enum BlocksV {
    Bottom,
    Top,
    Blocks(Set<Seq<char>>),
}

impl View for ControlDependence {
    type V = BlocksV;

    open spec fn view(&self) -> BlocksV {
        match self {
            ControlDependence::Bottom => BlocksV::Bottom,
            ControlDependence::Top => BlocksV::Top,
            ControlDependence::BlockSet(v) => BlocksV::Blocks(labels_view(v@).to_set()),
        }
    }
}

/// The join of the control-dependence domain: bottom is the identity, top
/// absorbs, and sets are intersected.
pub open spec fn blocks_join(a: BlocksV, b: BlocksV) -> BlocksV {
    match (a, b) {
        (BlocksV::Bottom, _) => b,
        (_, BlocksV::Bottom) => a,
        (BlocksV::Top, _) => BlocksV::Top,
        (_, BlocksV::Top) => BlocksV::Top,
        (BlocksV::Blocks(x), BlocksV::Blocks(y)) => BlocksV::Blocks(x.intersect(y)),
    }
}

/// The join of dependence values: bottom is its identity, top absorbs every
/// other value, and on sets it is the intersection, so it is idempotent,
/// commutative and associative.
pub proof fn blocks_join_laws(a: BlocksV, b: BlocksV, c: BlocksV)
    ensures
        blocks_join(BlocksV::Bottom, a) == a,
        blocks_join(a, BlocksV::Bottom) == a,
        a !is Bottom ==> blocks_join(BlocksV::Top, a) == BlocksV::Top,
        blocks_join(a, a) == a,
        blocks_join(a, b) == blocks_join(b, a),
        blocks_join(blocks_join(a, b), c) == blocks_join(a, blocks_join(b, c)),
{
    match (a, b, c) {
        (BlocksV::Blocks(x), BlocksV::Blocks(y), BlocksV::Blocks(z)) => {
            assert(x.intersect(y) =~= y.intersect(x));
            assert(x.intersect(y).intersect(z) =~= x.intersect(y.intersect(z)));
            assert(x.intersect(x) =~= x);
        },
        (BlocksV::Blocks(x), BlocksV::Blocks(y), _) => {
            assert(x.intersect(y) =~= y.intersect(x));
            assert(x.intersect(x) =~= x);
        },
        (BlocksV::Blocks(x), _, _) => {
            assert(x.intersect(x) =~= x);
        },
        _ => {},
    }
}

/// Whether a label with the view of `l` is on the list.
fn labels_have(v: &Vec<String>, l: &String) -> (r: bool)
    ensures
        r == labels_view(v@).contains(l@),
{
    let mut i: usize = 0;
    while i < v.len()
        invariant
            i <= v@.len(),
            forall|j: int| 0 <= j < i ==> (#[trigger] v@[j])@ != l@,
        decreases v.len() - i,
    {
        if v[i] == *l {
            assert(labels_view(v@)[i as int] == l@);
            return true;
        }
        i += 1;
    }
    proof {
        let lv = labels_view(v@);
        if lv.contains(l@) {
            let j = choose|j: int| 0 <= j < lv.len() && #[trigger] lv[j] == l@;
            assert(v@[j]@ == l@);
        }
    }
    false
}

/// The labels of `a` that are also on `b`, in the order of `a`.
fn intersect_labels(a: &Vec<String>, b: &Vec<String>) -> (r: Vec<String>)
    ensures
        labels_view(r@).to_set() == labels_view(a@).to_set().intersect(labels_view(b@).to_set()),
{
    let mut r: Vec<String> = Vec::new();
    let mut i: usize = 0;
    assert(labels_view(a@).take(0).to_set() =~= Set::<Seq<char>>::empty());
    assert(labels_view(r@).to_set() =~= labels_view(a@).take(0).to_set().intersect(labels_view(b@).to_set()));
    while i < a.len()
        invariant
            i <= a@.len(),
            labels_view(r@).to_set() == labels_view(a@).take(i as int).to_set().intersect(labels_view(b@).to_set()),
        decreases a.len() - i,
    {
        let ghost rv = labels_view(r@);
        let ghost at = labels_view(a@).take(i as int);
        let ghost x = a@[i as int]@;
        assert(labels_view(a@).take(i + 1) =~= at + seq![x]);
        proof {
            Seq::lemma_to_set_insert_commutes(at, x);
        }
        if labels_have(b, &a[i]) {
            let c = a[i].clone();
            r.push(c);
            assert(labels_view(r@) =~= rv + seq![x]);
            proof {
                Seq::lemma_to_set_insert_commutes(rv, x);
            }
        }
        assert(labels_view(r@).to_set() =~= labels_view(a@).take(i + 1).to_set().intersect(labels_view(b@).to_set()));
        i += 1;
    }
    assert(labels_view(a@).take(a@.len() as int) =~= labels_view(a@));
    r
}

/// A copy of a list of labels.
pub(crate) fn clone_labels(v: &Vec<String>) -> (r: Vec<String>)
    ensures
        labels_view(r@) == labels_view(v@),
{
    let mut r: Vec<String> = Vec::new();
    let mut i: usize = 0;
    while i < v.len()
        invariant
            i <= v@.len(),
            labels_view(r@) == labels_view(v@).take(i as int),
        decreases v.len() - i,
    {
        let c = v[i].clone();
        let ghost prev = labels_view(r@);
        r.push(c);
        assert(labels_view(r@) =~= prev.push(c@));
        assert(labels_view(v@).take(i + 1) =~= labels_view(v@).take(i as int).push(c@));
        i += 1;
    }
    assert(labels_view(v@).take(v@.len() as int) =~= labels_view(v@));
    r
}

impl AbstractSemantics for ControlDependence {
    open spec fn bottom_spec(v: BlocksV) -> bool {
        v is Bottom
    }

    open spec fn top_spec(v: BlocksV) -> bool {
        v is Top
    }

    open spec fn join_spec(a: BlocksV, b: BlocksV) -> BlocksV {
        blocks_join(a, b)
    }

    /// Control dependences have no arithmetic.
    open spec fn arith_ok(a: BlocksV, b: BlocksV, op: ArithOp) -> bool {
        false
    }

    open spec fn arith_spec(a: BlocksV, b: BlocksV, op: ArithOp) -> BlocksV {
        BlocksV::Top
    }

    /// Control dependences have no comparison.
    open spec fn cmp_ok(a: BlocksV, b: BlocksV, op: RelaOp) -> bool {
        false
    }

    open spec fn cmp_spec(a: BlocksV, b: BlocksV, op: RelaOp) -> BlocksV {
        BlocksV::Top
    }

    fn is_bottom(&self) -> (r: bool) {
        match self {
            ControlDependence::Bottom => true,
            _ => false,
        }
    }

    fn is_top(&self) -> (r: bool) {
        match self {
            ControlDependence::Top => true,
            _ => false,
        }
    }

    fn join(&self, other: &Self) -> (r: Self) {
        match (self, other) {
            (ControlDependence::Bottom, _) => other.clone_value(),
            (_, ControlDependence::Bottom) => self.clone_value(),
            (ControlDependence::Top, _) => ControlDependence::Top,
            (_, ControlDependence::Top) => ControlDependence::Top,
            (ControlDependence::BlockSet(a), ControlDependence::BlockSet(b)) => ControlDependence::BlockSet(
                intersect_labels(a, b),
            ),
        }
    }

    fn join_in_place(&mut self, other: &Self) {
        *self = self.join(other);
    }

    fn eq_value(&self, other: &Self) -> (r: bool) {
        match (self, other) {
            (ControlDependence::Bottom, ControlDependence::Bottom) => true,
            (ControlDependence::Top, ControlDependence::Top) => true,
            (ControlDependence::BlockSet(a), ControlDependence::BlockSet(b)) => {
                let r = labels_subset(a, b) && labels_subset(b, a);
                proof {
                    if labels_view(a@).to_set().subset_of(labels_view(b@).to_set()) && labels_view(b@).to_set().subset_of(
                        labels_view(a@).to_set(),
                    ) {
                        assert(labels_view(a@).to_set() =~= labels_view(b@).to_set());
                    }
                }
                r
            },
            _ => false,
        }
    }

    fn clone_value(&self) -> (r: Self) {
        match self {
            ControlDependence::Bottom => ControlDependence::Bottom,
            ControlDependence::Top => ControlDependence::Top,
            ControlDependence::BlockSet(v) => ControlDependence::BlockSet(clone_labels(v)),
        }
    }

    fn arith_defined(&self, other: &Self, op: &ArithOp) -> (r: bool) {
        false
    }

    fn arith(&self, other: &Self, op: &ArithOp) -> (r: Self) {
        ControlDependence::Top
    }

    fn cmp(&self, other: &Self, op: &RelaOp) -> (r: Self) {
        ControlDependence::Top
    }
}

/// Whether every label of `a` is on `b`.
fn labels_subset(a: &Vec<String>, b: &Vec<String>) -> (r: bool)
    ensures
        r == labels_view(a@).to_set().subset_of(labels_view(b@).to_set()),
{
    let mut i: usize = 0;
    while i < a.len()
        invariant
            i <= a@.len(),
            forall|j: int| 0 <= j < i ==> labels_view(b@).contains(#[trigger] labels_view(a@)[j]),
        decreases a.len() - i,
    {
        assert(labels_view(a@)[i as int] == a@[i as int]@);
        if !labels_have(b, &a[i]) {
            assert(labels_view(a@).to_set().contains(labels_view(a@)[i as int]));
            return false;
        }
        i += 1;
    }
    proof {
        assert forall|l: Seq<char>| labels_view(a@).to_set().contains(l) implies labels_view(b@).to_set().contains(l) by {
            let j = choose|j: int| 0 <= j < labels_view(a@).len() && labels_view(a@)[j] == l;
            assert(labels_view(b@).contains(labels_view(a@)[j]));
        }
    }
    true
}

} // verus!

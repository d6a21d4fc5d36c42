//! The partial order over footprints and offsets that drives the encoding.
//!
//! Nodes are the effective footprints followed by every offset of the
//! enclosing rectangle that some footprint covers. A node lies below another
//! when it fits inside it: a footprint inside a larger footprint, an offset
//! inside a footprint. `petgraph` sorts the order topologically and computes
//! its transitive reduction and closure; since the order is transitive, the
//! closure is proved to be the order itself, and the reduction its covering
//! pairs, those with no node in between.
use vstd::prelude::*;

use crate::dimensions::{area, dims_eq, dims_lt, in_dims, is_empty, row_major, Dimensions};
use crate::point::Point;
use crate::tred::{edges_in, linked, reduction_closure, topological_order, walk};
use crate::vars::EncodeError;

verus! {

/// A node of the encoding order.
#[derive(Copy, Clone, Debug)]
pub enum EncodingNode {
    Platform(Dimensions),
    Point(Point),
}

/// `a` lies strictly below `b`.
pub open spec fn node_lt(a: EncodingNode, b: EncodingNode) -> bool {
    match (a, b) {
        (EncodingNode::Platform(d1), EncodingNode::Platform(d2)) => dims_lt(d1, d2),
        (EncodingNode::Point(p), EncodingNode::Platform(d)) => in_dims(d, p),
        _ => false,
    }
}

/// Equality of nodes: equal footprints, or identical offsets.
pub open spec fn node_eq(a: EncodingNode, b: EncodingNode) -> bool {
    match (a, b) {
        (EncodingNode::Platform(d1), EncodingNode::Platform(d2)) => dims_eq(d1, d2),
        (EncodingNode::Point(p), EncodingNode::Point(q)) => p == q,
        _ => false,
    }
}

/// The order as a three-way comparison, `None` if incomparable.
pub open spec fn node_cmp(a: EncodingNode, b: EncodingNode) -> Option<std::cmp::Ordering> {
    if node_eq(a, b) {
        Some(std::cmp::Ordering::Equal)
    } else if node_lt(a, b) {
        Some(std::cmp::Ordering::Less)
    } else if node_lt(b, a) {
        Some(std::cmp::Ordering::Greater)
    } else {
        None
    }
}

/// A rank that grows along the order.
pub open spec fn node_rank(a: EncodingNode) -> nat {
    match a {
        EncodingNode::Point(_) => 0,
        EncodingNode::Platform(d) => if is_empty(d) {
            1
        } else {
            (d.width + d.height + 1) as nat
        },
    }
}

/// The order is transitive and grows the rank.
pub proof fn lemma_node_order(a: EncodingNode, b: EncodingNode, c: EncodingNode)
    ensures
        !node_lt(a, a),
        node_lt(a, b) ==> node_rank(a) < node_rank(b),
        node_lt(a, b) && node_lt(b, c) ==> node_lt(a, c),
{
}

/// The rectangle enclosing all of `fps`, at least `1 x 1`.
pub open spec fn enclosing_upto(fps: Seq<Dimensions>, n: int) -> Dimensions
    decreases n,
{
    if n <= 0 {
        Dimensions { width: 1, height: 1 }
    } else {
        let m = enclosing_upto(fps, n - 1);
        Dimensions {
            width: if fps[n - 1].width > m.width {
                fps[n - 1].width
            } else {
                m.width
            },
            height: if fps[n - 1].height > m.height {
                fps[n - 1].height
            } else {
                m.height
            },
        }
    }
}

/// Some footprint covers offset `p`.
pub open spec fn covered(fps: Seq<Dimensions>, p: Point) -> bool {
    exists|k: int| 0 <= k < fps.len() && in_dims(#[trigger] fps[k], p)
}

/// The offset nodes: the covered points of the enclosing rectangle in
/// row-major order.
pub open spec fn point_nodes(fps: Seq<Dimensions>) -> Seq<Point> {
    row_major(enclosing_upto(fps, fps.len() as int)).filter(|p: Point| covered(fps, p))
}

impl EncodingNode {
    /// Strictly below `other`.
    pub fn less_than(&self, other: &EncodingNode) -> (r: bool)
        ensures
            r == node_lt(*self, *other),
    {
        match (self, other) {
            (EncodingNode::Platform(d1), EncodingNode::Platform(d2)) => d2.contains_dims(*d1)
                && !(*d1 == *d2),
            (EncodingNode::Point(p), EncodingNode::Platform(d)) => d.contains(*p),
            _ => false,
        }
    }
}

impl PartialEq for EncodingNode {
    fn eq(&self, other: &EncodingNode) -> (r: bool) {
        match (self, other) {
            (EncodingNode::Platform(d1), EncodingNode::Platform(d2)) => *d1 == *d2,
            (EncodingNode::Point(p), EncodingNode::Point(q)) => *p == *q,
            _ => false,
        }
    }
}

impl vstd::std_specs::cmp::PartialEqSpecImpl for EncodingNode {
    open spec fn obeys_eq_spec() -> bool {
        true
    }

    open spec fn eq_spec(&self, other: &EncodingNode) -> bool {
        node_eq(*self, *other)
    }
}

impl Eq for EncodingNode {

}

impl PartialOrd for EncodingNode {
    /// Footprints compare by containment, an offset lies below each
    /// footprint that covers it, and distinct offsets are incomparable.
    fn partial_cmp(&self, other: &EncodingNode) -> (r: Option<std::cmp::Ordering>) {
        if *self == *other {
            Some(std::cmp::Ordering::Equal)
        } else if self.less_than(other) {
            Some(std::cmp::Ordering::Less)
        } else if other.less_than(self) {
            Some(std::cmp::Ordering::Greater)
        } else {
            None
        }
    }
}

impl vstd::std_specs::cmp::PartialOrdSpecImpl for EncodingNode {
    open spec fn obeys_partial_cmp_spec() -> bool {
        true
    }

    open spec fn partial_cmp_spec(&self, other: &EncodingNode) -> Option<std::cmp::Ordering> {
        node_cmp(*self, *other)
    }
}

/// The encoding order over footprints and covered offsets, with its
/// transitive closure and reduction.
#[derive(Clone, Debug)]
pub struct EncodingDag {
    nodes: Vec<EncodingNode>,
    n_platforms: usize,
    closure: Vec<Vec<bool>>,
    reduced: Vec<Vec<usize>>,
}

impl EncodingDag {
    pub closed spec fn spec_nodes(&self) -> Seq<EncodingNode> {
        self.nodes@
    }

    /// The number of footprint nodes; they come first.
    pub closed spec fn spec_n_platforms(&self) -> nat {
        self.n_platforms as nat
    }

    /// The reduced out-neighbours of node `i`, in increasing order.
    pub closed spec fn reduced_out(&self, i: int) -> Seq<usize> {
        self.reduced@[i]@
    }

    /// Number of nodes.
    pub open spec fn n(&self) -> int {
        self.spec_nodes().len() as int
    }

    /// Node `i` lies strictly below node `j`: an edge of the order, and of
    /// its transitive closure.
    pub open spec fn lt_ix(&self, i: int, j: int) -> bool {
        node_lt(self.spec_nodes()[i], self.spec_nodes()[j])
    }

    /// `i -> j` is an edge of the transitive reduction: no node lies between.
    pub open spec fn covers_ix(&self, i: int, j: int) -> bool {
        covers(self.spec_nodes(), i, j)
    }

    pub closed spec fn wf(&self) -> bool {
        &&& self.n() <= usize::MAX
        &&& self.spec_n_platforms() <= self.n()
        &&& self.closure@.len() == self.n()
        &&& self.reduced@.len() == self.n()
        &&& forall|i: int| 0 <= i < self.n() ==> (#[trigger] self.closure@[i])@.len() == self.n()
        &&& forall|i: int, j: int|
            0 <= i < self.n() && 0 <= j < self.n() ==> #[trigger] self.closure@[i]@[j]
                == self.lt_ix(i, j)
        &&& forall|i: int| 0 <= i < self.n() ==> #[trigger] self.reduced_ok(i)
    }

    /// The reduced out-list of `i` lists exactly the covered nodes, in
    /// increasing order.
    pub open spec fn reduced_ok(&self, i: int) -> bool {
        let out = self.reduced_out(i);
        &&& forall|t: int| 0 <= t < out.len() ==> #[trigger] out[t] < self.n()
        &&& forall|t: int| 0 <= t < out.len() ==> self.covers_ix(i, #[trigger] out[t] as int)
        &&& forall|s: int, t: int| 0 <= s < t < out.len() ==> #[trigger] out[s] < #[trigger] out[t]
        &&& forall|j: int| 0 <= j < self.n() && #[trigger] self.covers_ix(i, j) ==> out.contains(j as usize)
    }

    /// The order built from the footprints `fps`.
    pub open spec fn built_from(&self, fps: Seq<Dimensions>) -> bool {
        &&& self.wf()
        &&& self.spec_n_platforms() == fps.len()
        &&& self.n() == fps.len() + point_nodes(fps).len()
        &&& forall|k: int| 0 <= k < fps.len() ==> #[trigger] self.spec_nodes()[k] == EncodingNode::Platform(fps[k])
        &&& forall|k: int|
            0 <= k < point_nodes(fps).len() ==> #[trigger] self.spec_nodes()[fps.len() + k]
                == EncodingNode::Point(point_nodes(fps)[k])
    }
}

/// Some entry of `fps` covers `p`.
fn is_covered(fps: &Vec<Dimensions>, p: Point) -> (r: bool)
    ensures
        r == covered(fps@, p),
{
    let mut k: usize = 0;
    while k < fps.len()
        invariant
            k <= fps@.len(),
            forall|j: int| 0 <= j < k ==> !in_dims(#[trigger] fps@[j], p),
        decreases fps@.len() - k,
    {
        if fps[k].contains(p) {
            return true;
        }
        k = k + 1;
    }
    false
}

impl EncodingDag {
    /// The reduced out-list of a node is exact.
    pub proof fn lemma_reduced(&self, i: int)
        requires
            self.wf(),
            0 <= i < self.n(),
        ensures
            self.reduced_ok(i),
            self.n() <= usize::MAX,
            self.spec_n_platforms() <= self.n(),
    {
    }

    /// Builds the order over the footprints `fps` and the offsets they cover,
    /// with its closure and reduction. Fails when the enclosing rectangle of
    /// the footprints has more than `isize::MAX` cells.
    pub fn new(fps: &Vec<Dimensions>) -> (r: Result<EncodingDag, EncodeError>)
        ensures
            r is Err <==> area(enclosing_upto(fps@, fps@.len() as int)) > isize::MAX,
            r is Err ==> r == Err::<EncodingDag, EncodeError>(EncodeError::DimensionOverflow),
            r matches Ok(dag) ==> dag.built_from(fps@),
    {
        let mut dmax = Dimensions::new(1, 1);
        let mut k: usize = 0;
        while k < fps.len()
            invariant
                k <= fps@.len(),
                dmax == enclosing_upto(fps@, k as int),
            decreases fps@.len() - k,
        {
            let d = fps[k];
            dmax = Dimensions::new(
                if d.width > dmax.width {
                    d.width
                } else {
                    dmax.width
                },
                if d.height > dmax.height {
                    d.height
                } else {
                    dmax.height
                },
            );
            k = k + 1;
        }
        match dmax.width.checked_mul(dmax.height) {
            Some(a) => {
                if a > isize::MAX as usize {
                    return Err(EncodeError::DimensionOverflow);
                }
            },
            None => {
                return Err(EncodeError::DimensionOverflow);
            },
        }
        proof {
            assert(dmax.width >= 1 && dmax.height >= 1) by {
                lemma_enclosing_pos(fps@, fps@.len() as int);
            }
            assert(dmax.width <= dmax.width * dmax.height) by (nonlinear_arith)
                requires
                    dmax.height >= 1,
            ;
            assert(dmax.height <= dmax.width * dmax.height) by (nonlinear_arith)
                requires
                    dmax.width >= 1,
            ;
        }
        let points = dmax.points();
        let mut nodes: Vec<EncodingNode> = Vec::new();
        let mut k: usize = 0;
        while k < fps.len()
            invariant
                k <= fps@.len(),
                nodes@ == Seq::new(k as nat, |m: int| EncodingNode::Platform(fps@[m])),
            decreases fps@.len() - k,
        {
            nodes.push(EncodingNode::Platform(fps[k]));
            k = k + 1;
            proof {
                assert(nodes@ =~= Seq::new(k as nat, |m: int| EncodingNode::Platform(fps@[m])));
            }
        }
        let ghost pred = |p: Point| covered(fps@, p);
        let ghost kept: Seq<Point> = Seq::empty();
        let mut j: usize = 0;
        while j < points.len()
            invariant
                j <= points@.len(),
                points@ == row_major(enclosing_upto(fps@, fps@.len() as int)),
                pred == (|p: Point| covered(fps@, p)),
                kept == points@.subrange(0, j as int).filter(pred),
                nodes@.len() == fps@.len() + kept.len(),
                forall|m: int| 0 <= m < fps@.len() ==> #[trigger] nodes@[m] == EncodingNode::Platform(fps@[m]),
                forall|m: int| 0 <= m < kept.len() ==> #[trigger] nodes@[fps@.len() + m] == EncodingNode::Point(kept[m]),
            decreases points@.len() - j,
        {
            let q = points[j];
            proof {
                assert(points@.subrange(0, j + 1).drop_last() =~= points@.subrange(0, j as int));
                reveal(Seq::filter);
            }
            if is_covered(fps, q) {
                nodes.push(EncodingNode::Point(q));
                proof {
                    kept = kept.push(q);
                }
            }
            j = j + 1;
        }
        proof {
            assert(points@.subrange(0, points@.len() as int) =~= points@);
        }
        let n = nodes.len();
        let es = order_edges(&nodes);
        proof {
            assert forall|path: Seq<int>| #[trigger] walk(es@, path) && path.len() >= 2 implies path[0] != path.last() by {
                lemma_walk_lt(nodes@, es@, path);
                lemma_node_order(nodes@[path[0]], nodes@[path[0]], nodes@[path[0]]);
            }
        }
        let order = match topological_order(n, &es) {
            Some(order) => order,
            None => {
                proof {
                    assert(false);
                }
                return Err(EncodeError::DimensionOverflow);
            },
        };
        let (red, clos) = reduction_closure(n, &es, &order);
        let mut closure: Vec<Vec<bool>> = Vec::new();
        let mut i: usize = 0;
        while i < n
            invariant
                n == nodes@.len(),
                edge_spec(nodes@, es@),
                forall|a: usize, b: usize|
                    a < n && b < n ==> (#[trigger] clos@.contains((a, b)) <==> linked(es@, a as int, b as int, 2)),
                forall|a: usize, b: usize|
                    a < n && b < n ==> (#[trigger] red@.contains((a, b)) <==> (es@.contains((a, b)) && !linked(es@, a as int, b as int, 3))),
                i <= n,
                closure@.len() == i,
                forall|a: int| 0 <= a < i ==> (#[trigger] closure@[a])@.len() == n,
                forall|a: int, b: int|
                    0 <= a < i && 0 <= b < n ==> #[trigger] closure@[a]@[b] == node_lt(nodes@[a], nodes@[b]),
            decreases n - i,
        {
            let mut row: Vec<bool> = Vec::new();
            let mut j: usize = 0;
            while j < n
                invariant
                    n == nodes@.len(),
                    edge_spec(nodes@, es@),
                    forall|a: usize, b: usize|
                        a < n && b < n ==> (#[trigger] clos@.contains((a, b)) <==> linked(es@, a as int, b as int, 2)),
                    forall|a: usize, b: usize|
                        a < n && b < n ==> (#[trigger] red@.contains((a, b)) <==> (es@.contains((a, b)) && !linked(es@, a as int, b as int, 3))),
                    i < n,
                    j <= n,
                    row@.len() == j,
                    forall|b: int| 0 <= b < j ==> #[trigger] row@[b] == node_lt(nodes@[i as int], nodes@[b]),
                decreases n - j,
            {
                proof {
                    lemma_linked2(nodes@, es@, i as int, j as int);
                }
                row.push(has_pair(&clos, i, j));
                j = j + 1;
            }
            closure.push(row);
            i = i + 1;
        }
        let mut reduced: Vec<Vec<usize>> = Vec::new();
        let mut i: usize = 0;
        while i < n
            invariant
                n == nodes@.len(),
                i <= n,
                closure@.len() == n,
                forall|a: int| 0 <= a < n ==> (#[trigger] closure@[a])@.len() == n,
                forall|a: int, b: int|
                    0 <= a < n && 0 <= b < n ==> #[trigger] closure@[a]@[b] == node_lt(nodes@[a], nodes@[b]),
                reduced@.len() == i,
                forall|a: int| 0 <= a < i ==> #[trigger] covers_list(nodes@, a, reduced@[a]@),
                edge_spec(nodes@, es@),
                forall|a: usize, b: usize|
                    a < n && b < n ==> (#[trigger] red@.contains((a, b)) <==> (es@.contains((a, b)) && !linked(es@, a as int, b as int, 3))),
            decreases n - i,
        {
            let mut out: Vec<usize> = Vec::new();
            let mut j: usize = 0;
            while j < n
                invariant
                    n == nodes@.len(),
                    i < n,
                    j <= n,
                    closure@.len() == n,
                    forall|a: int| 0 <= a < n ==> (#[trigger] closure@[a])@.len() == n,
                    forall|a: int, b: int|
                        0 <= a < n && 0 <= b < n ==> #[trigger] closure@[a]@[b] == node_lt(nodes@[a], nodes@[b]),
                    forall|t: int| 0 <= t < out@.len() ==> #[trigger] out@[t] < j,
                    forall|t: int| 0 <= t < out@.len() ==> covers(nodes@, i as int, #[trigger] out@[t] as int),
                    forall|s: int, t: int| 0 <= s < t < out@.len() ==> #[trigger] out@[s] < #[trigger] out@[t],
                    forall|b: int| 0 <= b < j && #[trigger] covers(nodes@, i as int, b) ==> out@.contains(b as usize),
                    edge_spec(nodes@, es@),
                    forall|a: usize, b: usize|
                        a < n && b < n ==> (#[trigger] red@.contains((a, b)) <==> (es@.contains((a, b)) && !linked(es@, a as int, b as int, 3))),
                decreases n - j,
            {
                let ghost out0 = out@;
                proof {
                    lemma_linked3(nodes@, es@, i as int, j as int);
                }
                if has_pair(&red, i, j) {
                    out.push(j);
                }
                proof {
                    assert forall|b: int| 0 <= b <= j && #[trigger] covers(nodes@, i as int, b) implies out@.contains(b as usize) by {
                        if b < j {
                            let t = choose|t: int| 0 <= t < out0.len() && out0[t] == b as usize;
                            assert(out@[t] == b as usize);
                        } else {
                            assert(out@[out@.len() - 1] == j);
                        }
                    }
                }
                j = j + 1;
            }
            reduced.push(out);
            i = i + 1;
        }
        let dag = EncodingDag { nodes, n_platforms: fps.len(), closure, reduced };
        proof {
            assert forall|a: int| 0 <= a < dag.n() implies #[trigger] dag.reduced_ok(a) by {
                assert(covers_list(nodes@, a, dag.reduced_out(a)));
            }
        }
        Ok(dag)
    }
}

/// `i -> j` is a covering pair of the order on `nodes`.
pub open spec fn covers(nodes: Seq<EncodingNode>, i: int, j: int) -> bool {
    &&& node_lt(nodes[i], nodes[j])
    &&& !exists|m: int| 0 <= m < nodes.len() && #[trigger] node_lt(nodes[i], nodes[m]) && node_lt(nodes[m], nodes[j])
}

/// `out` lists exactly the covering successors of `i`, increasing.
pub open spec fn covers_list(nodes: Seq<EncodingNode>, i: int, out: Seq<usize>) -> bool {
    &&& forall|t: int| 0 <= t < out.len() ==> #[trigger] out[t] < nodes.len()
    &&& forall|t: int| 0 <= t < out.len() ==> covers(nodes, i, #[trigger] out[t] as int)
    &&& forall|s: int, t: int| 0 <= s < t < out.len() ==> #[trigger] out[s] < #[trigger] out[t]
    &&& forall|j: int| 0 <= j < nodes.len() && #[trigger] covers(nodes, i, j) ==> out.contains(j as usize)
}

/// The enclosing rectangle is at least `1 x 1`.
proof fn lemma_enclosing_pos(fps: Seq<Dimensions>, n: int)
    ensures
        enclosing_upto(fps, n).width >= 1,
        enclosing_upto(fps, n).height >= 1,
    decreases n,
{
    if n > 0 {
        lemma_enclosing_pos(fps, n - 1);
    }
}

impl EncodingDag {
    /// `path` walks edges of the transitive reduction.
    pub open spec fn r_path(&self, path: Seq<int>) -> bool {
        &&& path.len() >= 1
        &&& forall|t: int| 0 <= t < path.len() ==> 0 <= #[trigger] path[t] < self.n()
        &&& forall|t: int| 0 <= t < path.len() - 1 ==> self.covers_ix(#[trigger] path[t], path[t + 1])
    }

    /// `path` walks edges of the order itself.
    pub open spec fn dag_path(&self, path: Seq<int>) -> bool {
        &&& path.len() >= 1
        &&& forall|t: int| 0 <= t < path.len() ==> 0 <= #[trigger] path[t] < self.n()
        &&& forall|t: int| 0 <= t < path.len() - 1 ==> self.lt_ix(#[trigger] path[t], path[t + 1])
    }

    proof fn lemma_dag_path_lt(&self, path: Seq<int>)
        requires
            self.dag_path(path),
            path.len() >= 2,
        ensures
            self.lt_ix(path[0], path.last()),
        decreases path.len(),
    {
        if path.len() > 2 {
            let rest = path.drop_first();
            assert forall|t: int| 0 <= t < rest.len() - 1 implies self.lt_ix(#[trigger] rest[t], rest[t + 1]) by {
                assert(self.lt_ix(path[t + 1], path[t + 2]));
            }
            self.lemma_dag_path_lt(rest);
            lemma_node_order(self.spec_nodes()[path[0]], self.spec_nodes()[path[1]], self.spec_nodes()[path.last()]);
        } else {
            assert(self.lt_ix(path[0], path[1]));
        }
    }

    proof fn lemma_r_path_is_dag_path(&self, path: Seq<int>)
        requires
            self.r_path(path),
        ensures
            self.dag_path(path),
    {
        assert forall|t: int| 0 <= t < path.len() - 1 implies self.lt_ix(#[trigger] path[t], path[t + 1]) by {
            assert(self.covers_ix(path[t], path[t + 1]));
        }
    }

    /// A reduction path between any two ordered nodes.
    proof fn lemma_lt_r_path(&self, i: int, j: int) -> (path: Seq<int>)
        requires
            0 <= i < self.n(),
            0 <= j < self.n(),
            self.lt_ix(i, j),
        ensures
            self.r_path(path),
            path.len() >= 2,
            path[0] == i,
            path.last() == j,
        decreases node_rank(self.spec_nodes()[j]) - node_rank(self.spec_nodes()[i]),
    {
        lemma_node_order(self.spec_nodes()[i], self.spec_nodes()[j], self.spec_nodes()[j]);
        if self.covers_ix(i, j) {
            let path = seq![i, j];
            assert(self.covers_ix(path[0], path[1]));
            path
        } else {
            let m = choose|m: int|
                0 <= m < self.n() && #[trigger] node_lt(self.spec_nodes()[i], self.spec_nodes()[m])
                    && node_lt(self.spec_nodes()[m], self.spec_nodes()[j]);
            lemma_node_order(self.spec_nodes()[i], self.spec_nodes()[m], self.spec_nodes()[j]);
            lemma_node_order(self.spec_nodes()[m], self.spec_nodes()[j], self.spec_nodes()[j]);
            let p1 = self.lemma_lt_r_path(i, m);
            let p2 = self.lemma_lt_r_path(m, j);
            let path = p1 + p2.drop_first();
            assert forall|t: int| 0 <= t < path.len() - 1 implies self.covers_ix(#[trigger] path[t], path[t + 1]) by {
                if t < p1.len() - 1 {
                    assert(path[t] == p1[t] && path[t + 1] == p1[t + 1]);
                } else if t == p1.len() - 1 {
                    assert(path[t] == m && p2[0] == m && path[t + 1] == p2[1]);
                    assert(self.covers_ix(p2[0], p2[1]));
                } else {
                    let u = t - p1.len() + 1;
                    assert(path[t] == p2[u] && path[t + 1] == p2[u + 1]);
                    assert(self.covers_ix(p2[u], p2[u + 1]));
                }
            }
            assert forall|t: int| 0 <= t < path.len() implies 0 <= #[trigger] path[t] < self.n() by {
                if t >= p1.len() {
                    assert(path[t] == p2[t - p1.len() + 1]);
                }
            }
            path
        }
    }
}

/// The transitive reduction is a sub-relation of the order, it is acyclic,
/// and together with the identity it has the same reachability as the order:
/// a reduction path leads from `i` to `j` exactly when an order path does.
/// The stored reduced lists hold exactly the reduction's edges.
pub proof fn lemma_reduction_law(dag: &EncodingDag)
    requires
        dag.wf(),
    ensures
        forall|i: int, j: int|
            0 <= i < dag.n() && 0 <= j < dag.n() ==> (dag.reduced_out(i).contains(j as usize)
                <==> #[trigger] dag.covers_ix(i, j)),
        forall|i: int, j: int| #[trigger] dag.covers_ix(i, j) ==> dag.lt_ix(i, j),
        forall|path: Seq<int>|
            #[trigger] dag.r_path(path) && path.len() >= 2 ==> path[0] != path.last(),
        forall|path: Seq<int>|
            #[trigger] dag.r_path(path) ==> exists|q: Seq<int>|
                #[trigger] dag.dag_path(q) && q[0] == path[0] && q.last() == path.last(),
        forall|path: Seq<int>|
            #[trigger] dag.dag_path(path) ==> exists|q: Seq<int>|
                #[trigger] dag.r_path(q) && q[0] == path[0] && q.last() == path.last(),
{
    assert forall|i: int, j: int|
        0 <= i < dag.n() && 0 <= j < dag.n() implies (dag.reduced_out(i).contains(j as usize)
            <==> #[trigger] dag.covers_ix(i, j)) by {
        dag.lemma_reduced(i);
        if dag.reduced_out(i).contains(j as usize) {
            let t = choose|t: int| 0 <= t < dag.reduced_out(i).len() && dag.reduced_out(i)[t] == j as usize;
            assert(dag.covers_ix(i, dag.reduced_out(i)[t] as int));
        }
    }
    assert forall|path: Seq<int>| #[trigger] dag.r_path(path) && path.len() >= 2 implies path[0] != path.last() by {
        dag.lemma_r_path_is_dag_path(path);
        dag.lemma_dag_path_lt(path);
        lemma_node_order(dag.spec_nodes()[path[0]], dag.spec_nodes()[path[0]], dag.spec_nodes()[path[0]]);
    }
    assert forall|path: Seq<int>| #[trigger] dag.r_path(path) implies exists|q: Seq<int>|
        #[trigger] dag.dag_path(q) && q[0] == path[0] && q.last() == path.last() by {
        dag.lemma_r_path_is_dag_path(path);
        assert(dag.dag_path(path));
    }
    assert forall|path: Seq<int>| #[trigger] dag.dag_path(path) implies exists|q: Seq<int>|
        #[trigger] dag.r_path(q) && q[0] == path[0] && q.last() == path.last() by {
        if path.len() >= 2 {
            dag.lemma_dag_path_lt(path);
            let q = dag.lemma_lt_r_path(path[0], path.last());
            assert(dag.r_path(q));
        } else {
            let q = seq![path[0]];
            assert(dag.r_path(q));
        }
    }
}

/// The indices `0..n` whose value satisfies `pred`, increasing.
pub open spec fn index_filter(n: nat, pred: spec_fn(int) -> bool) -> Seq<usize> {
    Seq::new(n, |j: int| j as usize).filter(|j: usize| pred(j as int))
}

impl EncodingDag {
    /// `c` is a footprint node above both `a` and `b`.
    pub open spec fn is_common(&self, a: int, b: int, c: int) -> bool {
        &&& 0 <= c < self.spec_n_platforms()
        &&& self.lt_ix(a, c)
        &&& self.lt_ix(b, c)
    }

    /// `c` is a common footprint above `a` and `b` with no other such node
    /// above it.
    pub open spec fn is_max_common(&self, a: int, b: int, c: int) -> bool {
        &&& self.is_common(a, b, c)
        &&& !exists|m: int| #[trigger] self.is_common(a, b, m) && self.lt_ix(c, m)
    }

    /// The maximal common footprints above `a` and `b`, increasing.
    pub open spec fn max_common(&self, a: int, b: int) -> Seq<usize> {
        index_filter(self.n() as nat, |c: int| self.is_max_common(a, b, c))
    }

    /// `e` is the pair of nodes of some edge of the transitive reduction.
    pub open spec fn is_reduced_edge(&self, e: (EncodingNode, EncodingNode)) -> bool {
        exists|i: int, j: int|
            0 <= i < self.n() && 0 <= j < self.n() && #[trigger] self.covers_ix(i, j) && e == (
                self.spec_nodes()[i],
                self.spec_nodes()[j],
            )
    }

    pub fn n_nodes(&self) -> (r: usize)
        ensures
            r == self.n(),
    {
        self.nodes.len()
    }

    pub fn n_platforms(&self) -> (r: usize)
        ensures
            r == self.spec_n_platforms(),
    {
        self.n_platforms
    }

    pub fn node(&self, i: usize) -> (r: EncodingNode)
        requires
            i < self.n(),
        ensures
            r == self.spec_nodes()[i as int],
    {
        self.nodes[i]
    }

    /// The reduced out-neighbours of node `i`, increasing.
    pub fn reduced_targets(&self, i: usize) -> (r: &Vec<usize>)
        requires
            self.wf(),
            i < self.n(),
        ensures
            r@ == self.reduced_out(i as int),
    {
        &self.reduced[i]
    }

    /// Node `i` lies strictly below node `j`.
    pub fn closure_has(&self, i: usize, j: usize) -> (r: bool)
        requires
            self.wf(),
            i < self.n(),
            j < self.n(),
        ensures
            r == self.lt_ix(i as int, j as int),
    {
        self.closure[i][j]
    }

    /// All edges of the transitive reduction, by source then target.
    pub fn iter_edges_reduced(&self) -> (r: Vec<(EncodingNode, EncodingNode)>)
        requires
            self.wf(),
        ensures
            forall|t: int| 0 <= t < r@.len() ==> self.is_reduced_edge(#[trigger] r@[t]),
            forall|i: int, j: int|
                0 <= i < self.n() && 0 <= j < self.n() && #[trigger] self.covers_ix(i, j)
                    ==> r@.contains((self.spec_nodes()[i], self.spec_nodes()[j])),
    {
        let mut out: Vec<(EncodingNode, EncodingNode)> = Vec::new();
        let mut i: usize = 0;
        while i < self.nodes.len()
            invariant
                self.wf(),
                i <= self.n(),
                forall|t: int| 0 <= t < out@.len() ==> self.is_reduced_edge(#[trigger] out@[t]),
                forall|a: int, b: int|
                    0 <= a < i && 0 <= b < self.n() && #[trigger] self.covers_ix(a, b)
                        ==> out@.contains((self.spec_nodes()[a], self.spec_nodes()[b])),
            decreases self.n() - i,
        {
            proof {
                self.lemma_reduced(i as int);
            }
            let targets = &self.reduced[i];
            let mut t: usize = 0;
            while t < targets.len()
                invariant
                    self.wf(),
                    i < self.n(),
                    targets@ == self.reduced_out(i as int),
                    self.reduced_ok(i as int),
                    t <= targets@.len(),
                    forall|u: int| 0 <= u < out@.len() ==> self.is_reduced_edge(#[trigger] out@[u]),
                    forall|a: int, b: int|
                        0 <= a < i && 0 <= b < self.n() && #[trigger] self.covers_ix(a, b)
                            ==> out@.contains((self.spec_nodes()[a], self.spec_nodes()[b])),
                    forall|u: int|
                        0 <= u < t ==> out@.contains(
                            (self.spec_nodes()[i as int], self.spec_nodes()[#[trigger] targets@[u] as int]),
                        ),
                decreases targets@.len() - t,
            {
                let j = targets[t];
                let ghost old_out = out@;
                out.push((self.nodes[i], self.nodes[j]));
                proof {
                    assert(self.covers_ix(i as int, j as int));
                    assert(self.is_reduced_edge(out@[out@.len() - 1]));
                    assert forall|a: int, b: int|
                        0 <= a < i && 0 <= b < self.n() && #[trigger] self.covers_ix(a, b)
                            implies out@.contains((self.spec_nodes()[a], self.spec_nodes()[b])) by {
                        let w = choose|w: int| 0 <= w < old_out.len() && old_out[w] == (self.spec_nodes()[a], self.spec_nodes()[b]);
                        assert(out@[w] == old_out[w]);
                    }
                    assert forall|u: int| 0 <= u <= t implies out@.contains(
                        (self.spec_nodes()[i as int], self.spec_nodes()[#[trigger] targets@[u] as int]),
                    ) by {
                        if u < t {
                            let w = choose|w: int| 0 <= w < old_out.len() && old_out[w] == (self.spec_nodes()[i as int], self.spec_nodes()[targets@[u] as int]);
                            assert(out@[w] == old_out[w]);
                        } else {
                            assert(out@[out@.len() - 1] == (self.spec_nodes()[i as int], self.spec_nodes()[j as int]));
                        }
                    }
                }
                t = t + 1;
            }
            proof {
                assert forall|a: int, b: int|
                    0 <= a < i + 1 && 0 <= b < self.n() && #[trigger] self.covers_ix(a, b)
                        implies out@.contains((self.spec_nodes()[a], self.spec_nodes()[b])) by {
                    if a == i {
                        assert(targets@.contains(b as usize));
                        let u = choose|u: int| 0 <= u < targets@.len() && targets@[u] == b as usize;
                        assert(out@.contains((self.spec_nodes()[i as int], self.spec_nodes()[targets@[u] as int])));
                    }
                }
            }
            i = i + 1;
        }
        out
    }

    /// For every footprint node, its reduced out-neighbours (larger
    /// footprints it fits in directly) with their dimensions.
    pub fn iter_platform_targets_by_source(&self) -> (r: Vec<Vec<(usize, Dimensions)>>)
        requires
            self.wf(),
            self.spec_n_platforms() <= self.n(),
            forall|k: int| 0 <= k < self.spec_n_platforms() ==> #[trigger] self.spec_nodes()[k] is Platform,
        ensures
            r@.len() == self.spec_n_platforms(),
            forall|k: int|
                0 <= k < r@.len() ==> (#[trigger] r@[k])@.len() == self.reduced_out(k).len(),
            forall|k: int, t: int|
                0 <= k < r@.len() && 0 <= t < r@[k]@.len() ==> #[trigger] r@[k]@[t].0 == self.reduced_out(k)[t]
                    && self.spec_nodes()[r@[k]@[t].0 as int] == EncodingNode::Platform(r@[k]@[t].1),
    {
        let mut out: Vec<Vec<(usize, Dimensions)>> = Vec::new();
        let mut k: usize = 0;
        while k < self.n_platforms
            invariant
                self.wf(),
                self.spec_n_platforms() <= self.n(),
                forall|m: int| 0 <= m < self.spec_n_platforms() ==> #[trigger] self.spec_nodes()[m] is Platform,
                k <= self.spec_n_platforms(),
                out@.len() == k,
                forall|m: int|
                    0 <= m < k ==> (#[trigger] out@[m])@.len() == self.reduced_out(m).len(),
                forall|m: int, t: int|
                    0 <= m < k && 0 <= t < out@[m]@.len() ==> #[trigger] out@[m]@[t].0 == self.reduced_out(m)[t]
                        && self.spec_nodes()[out@[m]@[t].0 as int] == EncodingNode::Platform(out@[m]@[t].1),
            decreases self.spec_n_platforms() - k,
        {
            proof {
                self.lemma_reduced(k as int);
            }
            let targets = &self.reduced[k];
            let mut row: Vec<(usize, Dimensions)> = Vec::new();
            let mut t: usize = 0;
            while t < targets.len()
                invariant
                    self.wf(),
                    k < self.spec_n_platforms() <= self.n(),
                    self.spec_nodes()[k as int] is Platform,
                    targets@ == self.reduced_out(k as int),
                    self.reduced_ok(k as int),
                    t <= targets@.len(),
                    row@.len() == t,
                    forall|u: int|
                        0 <= u < t ==> #[trigger] row@[u].0 == targets@[u]
                            && self.spec_nodes()[row@[u].0 as int] == EncodingNode::Platform(row@[u].1),
                decreases targets@.len() - t,
            {
                let j = targets[t];
                proof {
                    assert(self.covers_ix(k as int, j as int));
                }
                match self.nodes[j] {
                    EncodingNode::Platform(d) => {
                        row.push((j, d));
                    },
                    EncodingNode::Point(_) => {
                        proof {
                            assert(false);
                        }
                    },
                }
                t = t + 1;
            }
            out.push(row);
            k = k + 1;
        }
        out
    }

    /// The footprint nodes above both `a` and `b`, increasing, with their
    /// dimensions.
    pub fn common_platform_successors(&self, a: usize, b: usize) -> (r: Vec<(usize, Dimensions)>)
        requires
            self.wf(),
            a < self.n(),
            b < self.n(),
            self.spec_n_platforms() <= self.n(),
            forall|k: int| 0 <= k < self.spec_n_platforms() ==> #[trigger] self.spec_nodes()[k] is Platform,
        ensures
            r@.map_values(|e: (usize, Dimensions)| e.0) == index_filter(
                self.n() as nat,
                |c: int| self.is_common(a as int, b as int, c),
            ),
            forall|t: int|
                0 <= t < r@.len() ==> self.spec_nodes()[(#[trigger] r@[t]).0 as int] == EncodingNode::Platform(r@[t].1),
    {
        let ghost pred = |c: usize| self.is_common(a as int, b as int, c as int);
        let ghost all = Seq::new(self.n() as nat, |j: int| j as usize);
        let mut out: Vec<(usize, Dimensions)> = Vec::new();
        let mut c: usize = 0;
        while c < self.nodes.len()
            invariant
                self.wf(),
                a < self.n(),
                b < self.n(),
                self.spec_n_platforms() <= self.n(),
                forall|k: int| 0 <= k < self.spec_n_platforms() ==> #[trigger] self.spec_nodes()[k] is Platform,
                c <= self.n(),
                all == Seq::new(self.n() as nat, |j: int| j as usize),
                pred == (|c: usize| self.is_common(a as int, b as int, c as int)),
                out@.map_values(|e: (usize, Dimensions)| e.0) == all.subrange(0, c as int).filter(pred),
                forall|t: int|
                    0 <= t < out@.len() ==> self.spec_nodes()[(#[trigger] out@[t]).0 as int] == EncodingNode::Platform(out@[t].1),
            decreases self.n() - c,
        {
            proof {
                assert(all.subrange(0, c + 1).drop_last() =~= all.subrange(0, c as int));
                reveal(Seq::filter);
            }
            let ghost before = out@;
            if c < self.n_platforms && self.closure[a][c] && self.closure[b][c] {
                match self.nodes[c] {
                    EncodingNode::Platform(d) => {
                        out.push((c, d));
                    },
                    EncodingNode::Point(_) => {
                        proof {
                            assert(false);
                        }
                    },
                }
            }
            proof {
                assert(all.subrange(0, c + 1).last() == c);
                if pred(c) {
                    assert(out@.map_values(|e: (usize, Dimensions)| e.0) =~= before.map_values(|e: (usize, Dimensions)| e.0).push(c));
                }
            }
            c = c + 1;
        }
        proof {
            assert(all.subrange(0, self.n()) =~= all);
            let p2 = |c: int| self.is_common(a as int, b as int, c);
            assert(pred == (|j: usize| p2(j as int)));
        }
        out
    }

    /// The members of `indices` with no strict successor among the members.
    pub fn maximal_from(&self, indices: &Vec<usize>) -> (r: Vec<usize>)
        requires
            self.wf(),
            forall|t: int| 0 <= t < indices@.len() ==> #[trigger] indices@[t] < self.n(),
        ensures
            r@ == indices@.filter(
                |x: usize| !exists|m: int| 0 <= m < indices@.len() && #[trigger] self.lt_ix(x as int, indices@[m] as int),
            ),
    {
        let ghost pred = |x: usize| !exists|m: int| 0 <= m < indices@.len() && #[trigger] self.lt_ix(x as int, indices@[m] as int);
        let mut out: Vec<usize> = Vec::new();
        let mut t: usize = 0;
        while t < indices.len()
            invariant
                self.wf(),
                forall|u: int| 0 <= u < indices@.len() ==> #[trigger] indices@[u] < self.n(),
                t <= indices@.len(),
                pred == (|x: usize| !exists|m: int| 0 <= m < indices@.len() && #[trigger] self.lt_ix(x as int, indices@[m] as int)),
                out@ == indices@.subrange(0, t as int).filter(pred),
            decreases indices@.len() - t,
        {
            proof {
                assert(indices@.subrange(0, t + 1).drop_last() =~= indices@.subrange(0, t as int));
                reveal(Seq::filter);
            }
            let x = indices[t];
            let mut below = false;
            let mut m: usize = 0;
            while m < indices.len()
                invariant
                    self.wf(),
                    forall|u: int| 0 <= u < indices@.len() ==> #[trigger] indices@[u] < self.n(),
                    x < self.n(),
                    m <= indices@.len(),
                    below == exists|u: int| 0 <= u < m && #[trigger] self.lt_ix(x as int, indices@[u] as int),
                decreases indices@.len() - m,
            {
                if self.closure[x][indices[m]] {
                    proof {
                        assert(self.lt_ix(x as int, indices@[m as int] as int));
                    }
                    below = true;
                }
                m = m + 1;
            }
            if !below {
                out.push(x);
            }
            t = t + 1;
        }
        proof {
            assert(indices@.subrange(0, indices@.len() as int) =~= indices@);
        }
        out
    }
}

impl EncodingDag {
    /// Footprint node `c` lies above both `a` and `b`.
    fn common_at(&self, a: usize, b: usize, c: usize) -> (r: bool)
        requires
            self.wf(),
            a < self.n(),
            b < self.n(),
            c < self.n(),
        ensures
            r == self.is_common(a as int, b as int, c as int),
    {
        c < self.n_platforms && self.closure[a][c] && self.closure[b][c]
    }

    /// The maximal common footprints above `a` and `b`: the common footprint
    /// successors with no other common one above them, increasing.
    pub fn greatest_common_successors(&self, a: usize, b: usize) -> (r: Vec<usize>)
        requires
            self.wf(),
            a < self.n(),
            b < self.n(),
        ensures
            r@ == self.max_common(a as int, b as int),
    {
        let ghost pred = |c: usize| self.is_max_common(a as int, b as int, c as int);
        let ghost all = Seq::new(self.n() as nat, |j: int| j as usize);
        let n = self.nodes.len();
        let mut out: Vec<usize> = Vec::new();
        let mut c: usize = 0;
        while c < n
            invariant
                self.wf(),
                n == self.n(),
                a < n,
                b < n,
                c <= n,
                all == Seq::new(self.n() as nat, |j: int| j as usize),
                pred == (|c: usize| self.is_max_common(a as int, b as int, c as int)),
                out@ == all.subrange(0, c as int).filter(pred),
            decreases n - c,
        {
            proof {
                assert(all.subrange(0, c + 1).drop_last() =~= all.subrange(0, c as int));
                assert(all.subrange(0, c + 1).last() == c);
                reveal(Seq::filter);
            }
            if self.common_at(a, b, c) {
                let mut below = false;
                let mut m: usize = 0;
                while m < n
                    invariant
                        self.wf(),
                        n == self.n(),
                        a < n,
                        b < n,
                        c < n,
                        m <= n,
                        below == exists|u: int|
                            0 <= u < m && #[trigger] self.is_common(a as int, b as int, u) && self.lt_ix(
                                c as int,
                                u,
                            ),
                    decreases n - m,
                {
                    if self.common_at(a, b, m) && self.closure[c][m] {
                        below = true;
                    }
                    m = m + 1;
                }
                proof {
                    if !below {
                        assert forall|u: int| #[trigger] self.is_common(a as int, b as int, u) implies !self.lt_ix(c as int, u) by {
                            assert(0 <= u < self.spec_n_platforms());
                        }
                    }
                }
                if !below {
                    out.push(c);
                }
            }
            c = c + 1;
        }
        proof {
            assert(all.subrange(0, n as int) =~= all);
            let p2 = |c: int| self.is_max_common(a as int, b as int, c);
            assert(pred == (|j: usize| p2(j as int)));
        }
        out
    }
}

impl EncodingDag {
    /// `(a, b)` are the footprints of a reduced edge between footprint nodes.
    pub open spec fn is_platform_edge(&self, e: (Dimensions, Dimensions)) -> bool {
        self.is_reduced_edge((EncodingNode::Platform(e.0), EncodingNode::Platform(e.1)))
    }

    /// `(p, d)` are the offset and footprint of a reduced edge from an offset
    /// node to a footprint node.
    pub open spec fn is_point_platform_edge(&self, e: (Point, Dimensions)) -> bool {
        self.is_reduced_edge((EncodingNode::Point(e.0), EncodingNode::Platform(e.1)))
    }

    /// The reduced edges from a smaller to a larger footprint.
    pub fn iter_platform_edges_reduced(&self) -> (r: Vec<(Dimensions, Dimensions)>)
        requires
            self.wf(),
        ensures
            forall|t: int| 0 <= t < r@.len() ==> self.is_platform_edge(#[trigger] r@[t]),
            forall|i: int, j: int|
                0 <= i < self.n() && 0 <= j < self.n() && #[trigger] self.covers_ix(i, j)
                    && self.spec_nodes()[i] is Platform && self.spec_nodes()[j] is Platform
                    ==> r@.contains((self.spec_nodes()[i]->Platform_0, self.spec_nodes()[j]->Platform_0)),
    {
        let all = self.iter_edges_reduced();
        let mut out: Vec<(Dimensions, Dimensions)> = Vec::new();
        let mut t: usize = 0;
        while t < all.len()
            invariant
                self.wf(),
                forall|u: int| 0 <= u < all@.len() ==> self.is_reduced_edge(#[trigger] all@[u]),
                forall|i: int, j: int|
                    0 <= i < self.n() && 0 <= j < self.n() && #[trigger] self.covers_ix(i, j)
                        ==> all@.contains((self.spec_nodes()[i], self.spec_nodes()[j])),
                t <= all@.len(),
                forall|u: int| 0 <= u < out@.len() ==> self.is_platform_edge(#[trigger] out@[u]),
                forall|u: int|
                    0 <= u < t && (#[trigger] all@[u]).0 is Platform && all@[u].1 is Platform
                        ==> out@.contains((all@[u].0->Platform_0, all@[u].1->Platform_0)),
            decreases all@.len() - t,
        {
            let ghost before = out@;
            match all[t] {
                (EncodingNode::Platform(a), EncodingNode::Platform(b)) => {
                    out.push((a, b));
                    proof {
                        assert(self.is_platform_edge(out@[out@.len() - 1]));
                        assert forall|u: int|
                            0 <= u <= t && (#[trigger] all@[u]).0 is Platform && all@[u].1 is Platform
                                implies out@.contains((all@[u].0->Platform_0, all@[u].1->Platform_0)) by {
                            if u < t {
                                let w = choose|w: int| 0 <= w < before.len() && before[w] == (all@[u].0->Platform_0, all@[u].1->Platform_0);
                                assert(out@[w] == before[w]);
                            } else {
                                assert(out@[out@.len() - 1] == (a, b));
                            }
                        }
                    }
                },
                _ => {},
            }
            t = t + 1;
        }
        proof {
            assert forall|i: int, j: int|
                0 <= i < self.n() && 0 <= j < self.n() && #[trigger] self.covers_ix(i, j)
                    && self.spec_nodes()[i] is Platform && self.spec_nodes()[j] is Platform
                    implies out@.contains((self.spec_nodes()[i]->Platform_0, self.spec_nodes()[j]->Platform_0)) by {
                let u = choose|u: int| 0 <= u < all@.len() && all@[u] == (self.spec_nodes()[i], self.spec_nodes()[j]);
                assert(all@[u].0 is Platform);
            }
        }
        out
    }

    /// The reduced edges from an offset to a footprint that covers it.
    pub fn iter_point_platform_edges_reduced(&self) -> (r: Vec<(Point, Dimensions)>)
        requires
            self.wf(),
        ensures
            forall|t: int| 0 <= t < r@.len() ==> self.is_point_platform_edge(#[trigger] r@[t]),
            forall|i: int, j: int|
                0 <= i < self.n() && 0 <= j < self.n() && #[trigger] self.covers_ix(i, j)
                    && self.spec_nodes()[i] is Point && self.spec_nodes()[j] is Platform
                    ==> r@.contains((self.spec_nodes()[i]->Point_0, self.spec_nodes()[j]->Platform_0)),
    {
        let all = self.iter_edges_reduced();
        let mut out: Vec<(Point, Dimensions)> = Vec::new();
        let mut t: usize = 0;
        while t < all.len()
            invariant
                self.wf(),
                forall|u: int| 0 <= u < all@.len() ==> self.is_reduced_edge(#[trigger] all@[u]),
                forall|i: int, j: int|
                    0 <= i < self.n() && 0 <= j < self.n() && #[trigger] self.covers_ix(i, j)
                        ==> all@.contains((self.spec_nodes()[i], self.spec_nodes()[j])),
                t <= all@.len(),
                forall|u: int| 0 <= u < out@.len() ==> self.is_point_platform_edge(#[trigger] out@[u]),
                forall|u: int|
                    0 <= u < t && (#[trigger] all@[u]).0 is Point && all@[u].1 is Platform
                        ==> out@.contains((all@[u].0->Point_0, all@[u].1->Platform_0)),
            decreases all@.len() - t,
        {
            let ghost before = out@;
            match all[t] {
                (EncodingNode::Point(a), EncodingNode::Platform(b)) => {
                    out.push((a, b));
                    proof {
                        assert(self.is_point_platform_edge(out@[out@.len() - 1]));
                        assert forall|u: int|
                            0 <= u <= t && (#[trigger] all@[u]).0 is Point && all@[u].1 is Platform
                                implies out@.contains((all@[u].0->Point_0, all@[u].1->Platform_0)) by {
                            if u < t {
                                let w = choose|w: int| 0 <= w < before.len() && before[w] == (all@[u].0->Point_0, all@[u].1->Platform_0);
                                assert(out@[w] == before[w]);
                            } else {
                                assert(out@[out@.len() - 1] == (a, b));
                            }
                        }
                    }
                },
                _ => {},
            }
            t = t + 1;
        }
        proof {
            assert forall|i: int, j: int|
                0 <= i < self.n() && 0 <= j < self.n() && #[trigger] self.covers_ix(i, j)
                    && self.spec_nodes()[i] is Point && self.spec_nodes()[j] is Platform
                    implies out@.contains((self.spec_nodes()[i]->Point_0, self.spec_nodes()[j]->Platform_0)) by {
                let u = choose|u: int| 0 <= u < all@.len() && all@[u] == (self.spec_nodes()[i], self.spec_nodes()[j]);
                assert(all@[u].0 is Point);
            }
        }
        out
    }
}

/// `es` lists exactly the pairs of the order on `nodes`.
pub open spec fn edge_spec(nodes: Seq<EncodingNode>, es: Seq<(usize, usize)>) -> bool {
    &&& nodes.len() <= usize::MAX
    &&& edges_in(nodes.len(), es)
    &&& forall|a: usize, b: usize|
        a < nodes.len() && b < nodes.len() ==> (#[trigger] es.contains((a, b)) <==> node_lt(
            nodes[a as int],
            nodes[b as int],
        ))
}

/// The pairs of the order on `nodes`, as an edge list.
fn order_edges(nodes: &Vec<EncodingNode>) -> (r: Vec<(usize, usize)>)
    ensures
        edge_spec(nodes@, r@),
{
    let n = nodes.len();
    let mut es: Vec<(usize, usize)> = Vec::new();
    let mut i: usize = 0;
    while i < n
        invariant
            n == nodes@.len(),
            i <= n,
            edges_in(n as nat, es@),
            forall|a: usize, b: usize|
                a < n && b < n ==> (#[trigger] es@.contains((a, b)) <==> (node_lt(nodes@[a as int], nodes@[b as int])
                    && a < i)),
        decreases n - i,
    {
        let mut j: usize = 0;
        while j < n
            invariant
                n == nodes@.len(),
                i < n,
                j <= n,
                edges_in(n as nat, es@),
                forall|a: usize, b: usize|
                    a < n && b < n ==> (#[trigger] es@.contains((a, b)) <==> (node_lt(
                        nodes@[a as int],
                        nodes@[b as int],
                    ) && (a < i || (a == i && b < j)))),
            decreases n - j,
        {
            if nodes[i].less_than(&nodes[j]) {
                let ghost old_es = es@;
                es.push((i, j));
                proof {
                    assert forall|a: usize, b: usize|
                        a < n && b < n implies (#[trigger] es@.contains((a, b)) <==> (node_lt(
                            nodes@[a as int],
                            nodes@[b as int],
                        ) && (a < i || (a == i && b < j + 1)))) by {
                        if es@.contains((a, b)) {
                            let t = choose|t: int| 0 <= t < es@.len() && es@[t] == (a, b);
                            if t < old_es.len() {
                                assert(old_es[t] == es@[t]);
                                assert(old_es.contains((a, b)));
                            }
                        }
                        if node_lt(nodes@[a as int], nodes@[b as int]) && (a < i || (a == i && b < j + 1)) {
                            if a == i && b == j {
                                assert(es@[old_es.len() as int] == (a, b));
                            } else {
                                assert(old_es.contains((a, b)));
                                let t = choose|t: int| 0 <= t < old_es.len() && old_es[t] == (a, b);
                                assert(es@[t] == old_es[t]);
                            }
                        }
                    }
                }
            }
            j = j + 1;
        }
        i = i + 1;
    }
    es
}

/// Whether `list` holds the pair `(i, j)`.
fn has_pair(list: &Vec<(usize, usize)>, i: usize, j: usize) -> (r: bool)
    ensures
        r == list@.contains((i, j)),
{
    let mut t: usize = 0;
    while t < list.len()
        invariant
            t <= list@.len(),
            forall|u: int| 0 <= u < t ==> list@[u] != (i, j),
        decreases list@.len() - t,
    {
        if list[t].0 == i && list[t].1 == j {
            assert(list@[t as int] == (i, j));
            return true;
        }
        t = t + 1;
    }
    false
}

/// A walk along the order's pairs goes strictly up.
proof fn lemma_walk_lt(nodes: Seq<EncodingNode>, es: Seq<(usize, usize)>, path: Seq<int>)
    requires
        edge_spec(nodes, es),
        walk(es, path),
        path.len() >= 2,
    ensures
        0 <= path[0] < nodes.len(),
        0 <= path.last() < nodes.len(),
        node_lt(nodes[path[0]], nodes[path.last()]),
    decreases path.len(),
{
    let (p0, p1) = (path[0], path[1]);
    assert(es.contains((p0 as usize, p1 as usize)));
    let t = choose|t: int| 0 <= t < es.len() && es[t] == (p0 as usize, p1 as usize);
    assert(es[t].0 < nodes.len() && es[t].1 < nodes.len());
    assert(es.contains((p0 as usize, p1 as usize)));
    assert(node_lt(nodes[(p0 as usize) as int], nodes[(p1 as usize) as int]));
    assert(node_lt(nodes[p0], nodes[p1]));
    if path.len() > 2 {
        let rest = path.drop_first();
        assert forall|u: int| 0 <= u < rest.len() - 1 implies es.contains(
            ((#[trigger] rest[u]) as usize, rest[u + 1] as usize),
        ) by {
            assert(rest[u] == path[u + 1] && rest[u + 1] == path[u + 2]);
        }
        assert forall|u: int| 0 <= u < rest.len() implies 0 <= #[trigger] rest[u] <= usize::MAX by {
            assert(rest[u] == path[u + 1]);
        }
        lemma_walk_lt(nodes, es, rest);
        lemma_node_order(nodes[p0], nodes[p1], nodes[path.last()]);
    }
}

/// Walks of two or more nodes join exactly the ordered pairs.
proof fn lemma_linked2(nodes: Seq<EncodingNode>, es: Seq<(usize, usize)>, i: int, j: int)
    requires
        edge_spec(nodes, es),
        0 <= i < nodes.len(),
        0 <= j < nodes.len(),
    ensures
        linked(es, i, j, 2) <==> node_lt(nodes[i], nodes[j]),
{
    if linked(es, i, j, 2) {
        let path = choose|path: Seq<int>| #[trigger] walk(es, path) && path.len() >= 2 && path[0] == i && path.last() == j;
        lemma_walk_lt(nodes, es, path);
    }
    if node_lt(nodes[i], nodes[j]) {
        let path = seq![i, j];
        assert(node_lt(nodes[(i as usize) as int], nodes[(j as usize) as int]));
        assert(es.contains((i as usize, j as usize)));
        assert(walk(es, path));
    }
}

/// Walks of three or more nodes join exactly the pairs with a node between.
#[verifier::rlimit(60)]
proof fn lemma_linked3(nodes: Seq<EncodingNode>, es: Seq<(usize, usize)>, i: int, j: int)
    requires
        edge_spec(nodes, es),
        0 <= i < nodes.len(),
        0 <= j < nodes.len(),
    ensures
        linked(es, i, j, 3) <==> exists|m: int|
            0 <= m < nodes.len() && #[trigger] node_lt(nodes[i], nodes[m]) && node_lt(nodes[m], nodes[j]),
        es.contains((i as usize, j as usize)) <==> node_lt(nodes[i], nodes[j]),
{
    assert(es.contains((i as usize, j as usize)) <==> node_lt(nodes[(i as usize) as int], nodes[(j as usize) as int]));
    if linked(es, i, j, 3) {
        let path = choose|path: Seq<int>| #[trigger] walk(es, path) && path.len() >= 3 && path[0] == i && path.last() == j;
        let head = path.subrange(0, 2);
        assert forall|u: int| 0 <= u < head.len() - 1 implies es.contains(
            ((#[trigger] head[u]) as usize, head[u + 1] as usize),
        ) by {
            assert(head[u] == path[u] && head[u + 1] == path[u + 1]);
        }
        assert forall|u: int| 0 <= u < head.len() implies 0 <= #[trigger] head[u] <= usize::MAX by {
            assert(head[u] == path[u]);
        }
        lemma_walk_lt(nodes, es, head);
        let rest = path.drop_first();
        assert forall|u: int| 0 <= u < rest.len() - 1 implies es.contains(
            ((#[trigger] rest[u]) as usize, rest[u + 1] as usize),
        ) by {
            assert(rest[u] == path[u + 1] && rest[u + 1] == path[u + 2]);
        }
        assert forall|u: int| 0 <= u < rest.len() implies 0 <= #[trigger] rest[u] <= usize::MAX by {
            assert(rest[u] == path[u + 1]);
        }
        lemma_walk_lt(nodes, es, rest);
        assert(node_lt(nodes[i], nodes[path[1]]));
    }
    if exists|m: int| 0 <= m < nodes.len() && #[trigger] node_lt(nodes[i], nodes[m]) && node_lt(nodes[m], nodes[j]) {
        let m = choose|m: int| 0 <= m < nodes.len() && #[trigger] node_lt(nodes[i], nodes[m]) && node_lt(nodes[m], nodes[j]);
        let path = seq![i, m, j];
        assert(node_lt(nodes[(i as usize) as int], nodes[(m as usize) as int]));
        assert(es.contains((i as usize, m as usize)));
        assert(node_lt(nodes[(m as usize) as int], nodes[(j as usize) as int]));
        assert(es.contains((m as usize, j as usize)));
        assert(walk(es, path));
    }
}

} // verus!

//! # Platform SAT encoding
//!
//! Every tile gets one variable per effective footprint, claiming that a
//! platform of that footprint has its origin there, and every terrain tile a
//! stack of support-layer variables. Per tile the encoder emits:
//!
//! - (a) for each reduced footprint edge `s -> l`: `P(l) -> P(s)`, so a larger
//!   footprint implies every footprint directly inside it;
//! - (b) for each node (footprint or offset) and each pair `a`, `b` of its
//!   reduced successors:
//!   `P(a) & P(b) -> P(c1) | P(c2) | ...` over the maximal common footprints above
//!   both, so that the active footprints at a tile always have one maximum;
//! - (d) for a terrain tile: `T(K-1) -> P(p - off, d)` over the reduced
//!   offset-to-footprint edges whose origin lies in the world;
//! - (c) for a terrain tile: `T(l) -> T(q, l+1)` over the terrain tiles `q` among
//!   the tile and its four neighbours, for `l < K-1`, and the unit `T(0)`.
use vstd::prelude::*;

use crate::dag::{covered, enclosing_upto, point_nodes, EncodingDag, EncodingNode};
use crate::dimensions::{area, in_dims, lemma_point_at_in, point_at, row_major, Dimensions};
use crate::grid::{flat_index, lemma_flat_index_in, reach, Grid};
use crate::point::{neighbors_of, pt, Point};
use crate::sat::{add_clause, sat_clauses, sat_var_count, Literal, SatProblem, MAX_VAR_INDEX};
use crate::vars::{depth, effective_footprints, footprints, tile_base, EncodeError, EncodingVars};
use crate::layout::{decodes, has_source};
use crate::platform::{Platform, PlatformDef};
use crate::world::WorldGrid;
use crate::TERRAIN_SUPPORT_DISTANCE;

verus! {

/// The positive literal of a variable.
pub open spec fn pos(v: int) -> Literal {
    (v as u32, false)
}

/// The negative literal of a variable.
pub open spec fn neg(v: int) -> Literal {
    (v as u32, true)
}

/// Flattening one more block appends it.
pub proof fn lemma_flatten_new<A>(n: nat, f: spec_fn(int) -> Seq<A>)
    ensures
        Seq::new(n + 1, f).flatten() == Seq::new(n, f).flatten() + f(n as int),
{
    assert(Seq::new(n + 1, f) =~= Seq::new(n, f).push(f(n as int)));
    Seq::new(n, f).lemma_flatten_push(f(n as int));
}

/// (a) The implication chain of tile `i`: `P(i, l) -> P(i, s)` for each
/// reduced footprint edge `s -> l`.
pub open spec fn chain_clauses(vars: EncodingVars, dag: EncodingDag, i: int) -> Seq<Seq<Literal>> {
    chain_prefix(vars, dag, i, dag.spec_n_platforms() as int)
}

/// The chain clauses of tile `i` for the edges out of footprints `0..s`.
pub open spec fn chain_prefix(vars: EncodingVars, dag: EncodingDag, i: int, s: int) -> Seq<Seq<Literal>> {
    Seq::new(s as nat, |s2: int| chain_of(vars, dag, i, s2)).flatten()
}

/// The chain clauses of tile `i` for the edges out of footprint `s`.
pub open spec fn chain_of(vars: EncodingVars, dag: EncodingDag, i: int, s: int) -> Seq<Seq<Literal>> {
    Seq::new(
        dag.reduced_out(s).len(),
        |t: int| seq![neg(vars.pvar(i, dag.reduced_out(s)[t] as int)), pos(vars.pvar(i, s))],
    )
}

/// (b) The soundness clause of tile `i` for the incomparable pair `a`, `b`.
pub open spec fn pair_clause(vars: EncodingVars, dag: EncodingDag, i: int, a: int, b: int) -> Seq<
    Literal,
> {
    seq![neg(vars.pvar(i, a)), neg(vars.pvar(i, b))] + dag.max_common(a, b).map_values(
        |c: usize| pos(vars.pvar(i, c as int)),
    )
}

/// The soundness clauses of tile `i` for the pairs of reduced successors of
/// footprint `s`, pair `(x, y)` with `x < y` in list order.
pub open spec fn pairs_of(vars: EncodingVars, dag: EncodingDag, i: int, s: int) -> Seq<Seq<Literal>> {
    pairs_prefix(vars, dag, i, s, dag.reduced_out(s).len() as int)
}

/// The soundness clauses of tile `i` and footprint `s` for first members `0..x`.
pub open spec fn pairs_prefix(vars: EncodingVars, dag: EncodingDag, i: int, s: int, x: int) -> Seq<
    Seq<Literal>,
> {
    Seq::new(x as nat, |x2: int| pairs_at(vars, dag, i, s, x2)).flatten()
}

/// The soundness clauses pairing the `x`-th successor of `s` with the later ones.
pub open spec fn pairs_at(vars: EncodingVars, dag: EncodingDag, i: int, s: int, x: int) -> Seq<
    Seq<Literal>,
> {
    Seq::new(
        (dag.reduced_out(s).len() - x - 1) as nat,
        |y: int|
            pair_clause(
                vars,
                dag,
                i,
                dag.reduced_out(s)[x] as int,
                dag.reduced_out(s)[x + 1 + y] as int,
            ),
    )
}

/// (b) All soundness clauses of tile `i`: for every node (footprint or
/// offset), each pair of its reduced successors.
pub open spec fn sound_clauses(vars: EncodingVars, dag: EncodingDag, i: int) -> Seq<Seq<Literal>> {
    sound_prefix(vars, dag, i, dag.n())
}

/// The soundness clauses of tile `i` for nodes `0..s`.
pub open spec fn sound_prefix(vars: EncodingVars, dag: EncodingDag, i: int, s: int) -> Seq<Seq<Literal>> {
    Seq::new(s as nat, |s2: int| pairs_of(vars, dag, i, s2)).flatten()
}

/// The table and the order belong together, and the instance has handed out
/// exactly the table's variables.
pub open spec fn ctx(vars: EncodingVars, dag: EncodingDag, inst: SatProblem) -> bool {
    &&& vars.valid()
    &&& dag.built_from(vars.fps())
    &&& sat_var_count(inst) == vars.first() + vars.n_vars()
}

/// The reduced successors of any node are footprint nodes.
proof fn lemma_platform_succ(vars: EncodingVars, dag: EncodingDag, s: int, t: int)
    requires
        vars.valid(),
        dag.built_from(vars.fps()),
        0 <= s < dag.n(),
        0 <= t < dag.reduced_out(s).len(),
    ensures
        dag.reduced_out(s)[t] < dag.spec_n_platforms(),
{
    dag.lemma_reduced(s);
    if s >= dag.spec_n_platforms() {
        lemma_point_node(vars, dag, s);
    }
    let j = dag.reduced_out(s)[t] as int;
    assert(dag.covers_ix(s, j));
    if j >= dag.spec_n_platforms() {
        let k = j - vars.fps().len();
        assert(dag.spec_nodes()[vars.fps().len() + k] is Point);
    }
}

/// The least common footprints lie among the footprint nodes.
proof fn lemma_max_common_platforms(dag: EncodingDag, a: int, b: int)
    ensures
        forall|t: int|
            0 <= t < dag.max_common(a, b).len() ==> #[trigger] dag.max_common(a, b)[t]
                < dag.spec_n_platforms(),
{
    let pred_int = |c: int| dag.is_max_common(a, b, c);
    let pred = |j: usize| pred_int(j as int);
    let all = Seq::new(dag.n() as nat, |j: int| j as usize);
    assert(dag.max_common(a, b) == all.filter(pred));
    assert forall|t: int| 0 <= t < dag.max_common(a, b).len() implies #[trigger] dag.max_common(a, b)[t]
        < dag.spec_n_platforms() by {
        all.lemma_filter_pred(pred, t);
    }
}

/// Appends the chain clauses (a) of tile `i`.
fn add_chain(inst: &mut SatProblem, vars: &EncodingVars, dag: &EncodingDag, i: usize)
    requires
        ctx(*vars, *dag, *old(inst)),
        i < vars.n_tiles(),
    ensures
        ctx(*vars, *dag, *final(inst)),
        sat_clauses(*final(inst)) == sat_clauses(*old(inst)) + chain_clauses(*vars, *dag, i as int),
{
    let np = dag.n_platforms();
    let mut s: usize = 0;
    while s < np
        invariant
            ctx(*vars, *dag, *inst),
            i < vars.n_tiles(),
            np == dag.spec_n_platforms(),
            s <= np,
            sat_clauses(*inst) == sat_clauses(*old(inst)) + chain_prefix(*vars, *dag, i as int, s as int),
        decreases np - s,
    {
        proof {
            dag.lemma_reduced(s as int);
        }
        let targets = dag.reduced_targets(s);
        let ghost before = sat_clauses(*inst);
        let mut t: usize = 0;
        while t < targets.len()
            invariant
                ctx(*vars, *dag, *inst),
                i < vars.n_tiles(),
                np == dag.spec_n_platforms(),
                s < np,
                targets@ == dag.reduced_out(s as int),
                t <= targets@.len(),
                before == sat_clauses(*old(inst)) + chain_prefix(*vars, *dag, i as int, s as int),
                sat_clauses(*inst) == before + chain_of(*vars, *dag, i as int, s as int).subrange(0, t as int),
            decreases targets@.len() - t,
        {
            let l = targets[t];
            proof {
                lemma_platform_succ(*vars, *dag, s as int, t as int);
                vars.lemma_var_bounds(i as int, l as int);
                vars.lemma_var_bounds(i as int, s as int);
            }
            let cl = vec![(vars.placement_var(i, l), true), (vars.placement_var(i, s), false)];
            proof {
                assert(cl@ =~= chain_of(*vars, *dag, i as int, s as int)[t as int]);
            }
            add_clause(inst, &cl);
            t = t + 1;
            proof {
                assert(chain_of(*vars, *dag, i as int, s as int).subrange(0, t as int) =~= chain_of(
                    *vars,
                    *dag,
                    i as int,
                    s as int,
                ).subrange(0, t - 1).push(cl@));
                assert(sat_clauses(*inst) =~= before + chain_of(*vars, *dag, i as int, s as int).subrange(0, t as int));
            }
        }
        proof {
            assert(chain_of(*vars, *dag, i as int, s as int).subrange(0, t as int) =~= chain_of(*vars, *dag, i as int, s as int));
            lemma_flatten_new(s as nat, |s2: int| chain_of(*vars, *dag, i as int, s2));
            assert(sat_clauses(*inst) =~= sat_clauses(*old(inst)) + chain_prefix(*vars, *dag, i as int, s + 1));
        }
        s = s + 1;
    }
}

/// Every literal of `cl` names a variable of the table.
pub open spec fn lits_in_table(vars: EncodingVars, cl: Seq<Literal>) -> bool {
    forall|t: int| 0 <= t < cl.len() ==> (#[trigger] cl[t]).0 < vars.first() + vars.n_vars()
}

/// The soundness clause (b) of tile `i` for footprints `a` and `b`.
fn pair_clause_exec(vars: &EncodingVars, dag: &EncodingDag, i: usize, a: usize, b: usize) -> (r: Vec<Literal>)
    requires
        vars.valid(),
        dag.built_from(vars.fps()),
        i < vars.n_tiles(),
        a < dag.spec_n_platforms(),
        b < dag.spec_n_platforms(),
    ensures
        r@ == pair_clause(*vars, *dag, i as int, a as int, b as int),
        lits_in_table(*vars, r@),
{
    let cs = dag.greatest_common_successors(a, b);
    proof {
        lemma_max_common_platforms(*dag, a as int, b as int);
        vars.lemma_var_bounds(i as int, a as int);
        vars.lemma_var_bounds(i as int, b as int);
    }
    let ghost head = seq![neg(vars.pvar(i as int, a as int)), neg(vars.pvar(i as int, b as int))];
    let mut cl: Vec<Literal> = vec![(vars.placement_var(i, a), true), (vars.placement_var(i, b), true)];
    proof {
        assert(cl@ =~= head);
    }
    let mut t: usize = 0;
    while t < cs.len()
        invariant
            vars.valid(),
            dag.built_from(vars.fps()),
            i < vars.n_tiles(),
            cs@ == dag.max_common(a as int, b as int),
            forall|u: int| 0 <= u < cs@.len() ==> #[trigger] cs@[u] < dag.spec_n_platforms(),
            t <= cs@.len(),
            head == seq![neg(vars.pvar(i as int, a as int)), neg(vars.pvar(i as int, b as int))],
            cl@ == head + cs@.subrange(0, t as int).map_values(|c: usize| pos(vars.pvar(i as int, c as int))),
            lits_in_table(*vars, cl@),
        decreases cs@.len() - t,
    {
        let c = cs[t];
        proof {
            vars.lemma_var_bounds(i as int, c as int);
        }
        cl.push((vars.placement_var(i, c), false));
        t = t + 1;
        proof {
            assert(cl@ =~= head + cs@.subrange(0, t as int).map_values(|c: usize| pos(vars.pvar(i as int, c as int))));
        }
    }
    proof {
        assert(cs@.subrange(0, t as int) =~= cs@);
    }
    cl
}

/// Appends the soundness clauses (b) of tile `i`.
fn add_soundness(inst: &mut SatProblem, vars: &EncodingVars, dag: &EncodingDag, i: usize)
    requires
        ctx(*vars, *dag, *old(inst)),
        i < vars.n_tiles(),
    ensures
        ctx(*vars, *dag, *final(inst)),
        sat_clauses(*final(inst)) == sat_clauses(*old(inst)) + sound_clauses(*vars, *dag, i as int),
{
    let np = dag.n_nodes();
    let mut s: usize = 0;
    while s < np
        invariant
            ctx(*vars, *dag, *inst),
            i < vars.n_tiles(),
            np == dag.n(),
            s <= np,
            sat_clauses(*inst) == sat_clauses(*old(inst)) + sound_prefix(*vars, *dag, i as int, s as int),
        decreases np - s,
    {
        proof {
            dag.lemma_reduced(s as int);
        }
        let out = dag.reduced_targets(s);
        let len = out.len();
        let ghost before_s = sat_clauses(*inst);
        let mut x: usize = 0;
        while x < len
            invariant
                ctx(*vars, *dag, *inst),
                i < vars.n_tiles(),
                np == dag.n(),
                s < np,
                out@ == dag.reduced_out(s as int),
                len == out@.len(),
                x <= len,
                before_s == sat_clauses(*old(inst)) + sound_prefix(*vars, *dag, i as int, s as int),
                sat_clauses(*inst) == before_s + pairs_prefix(*vars, *dag, i as int, s as int, x as int),
            decreases len - x,
        {
            let ghost before_x = sat_clauses(*inst);
            let mut y: usize = 0;
            while y < len - x - 1
                invariant
                    ctx(*vars, *dag, *inst),
                    i < vars.n_tiles(),
                    np == dag.n(),
                    s < np,
                    out@ == dag.reduced_out(s as int),
                    len == out@.len(),
                    x < len,
                    y <= len - x - 1,
                    before_x == before_s + pairs_prefix(*vars, *dag, i as int, s as int, x as int),
                    sat_clauses(*inst) == before_x + pairs_at(*vars, *dag, i as int, s as int, x as int).subrange(0, y as int),
                decreases len - x - 1 - y,
            {
                let a = out[x];
                let b = out[x + 1 + y];
                proof {
                    lemma_platform_succ(*vars, *dag, s as int, x as int);
                    lemma_platform_succ(*vars, *dag, s as int, x + 1 + y);
                }
                let cl = pair_clause_exec(vars, dag, i, a, b);
                add_clause(inst, &cl);
                y = y + 1;
                proof {
                    assert(pairs_at(*vars, *dag, i as int, s as int, x as int).subrange(0, y as int) =~= pairs_at(
                        *vars,
                        *dag,
                        i as int,
                        s as int,
                        x as int,
                    ).subrange(0, y - 1).push(cl@));
                    assert(sat_clauses(*inst) =~= before_x + pairs_at(*vars, *dag, i as int, s as int, x as int).subrange(0, y as int));
                }
            }
            proof {
                assert(pairs_at(*vars, *dag, i as int, s as int, x as int).subrange(0, y as int) =~= pairs_at(*vars, *dag, i as int, s as int, x as int));
                lemma_flatten_new(x as nat, |x2: int| pairs_at(*vars, *dag, i as int, s as int, x2));
                assert(sat_clauses(*inst) =~= before_s + pairs_prefix(*vars, *dag, i as int, s as int, x + 1));
            }
            x = x + 1;
        }
        proof {
            lemma_flatten_new(s as nat, |s2: int| pairs_of(*vars, *dag, i as int, s2));
            assert(sat_clauses(*inst) =~= sat_clauses(*old(inst)) + sound_prefix(*vars, *dag, i as int, s + 1));
        }
        s = s + 1;
    }
}

/// The origin from which a platform covering tile `i` at offset `off` starts.
pub open spec fn origin_for(vars: EncodingVars, i: int, off: Point) -> Point {
    let p = point_at(vars.world_dims(), i);
    pt(p.x - off.x, p.y - off.y)
}

/// (d) The binding literals of tile `i` from offset node `q`: the footprints
/// that `q` is directly inside, placed so that they cover the tile, when that
/// origin lies in the world.
pub open spec fn bind_of(vars: EncodingVars, dag: EncodingDag, i: int, q: int) -> Seq<Literal> {
    let origin = origin_for(vars, i, dag.spec_nodes()[q]->Point_0);
    if in_dims(vars.world_dims(), origin) {
        Seq::new(
            dag.reduced_out(q).len(),
            |t: int| pos(vars.pvar(flat_index(vars.world_dims(), origin), dag.reduced_out(q)[t] as int)),
        )
    } else {
        Seq::empty()
    }
}

/// The binding literals of tile `i` from the first `u` offset nodes.
pub open spec fn bind_prefix(vars: EncodingVars, dag: EncodingDag, i: int, u: int) -> Seq<Literal> {
    Seq::new(u as nat, |u2: int| bind_of(vars, dag, i, dag.spec_n_platforms() + u2)).flatten()
}

/// (d) The binding clause of terrain tile `i`: its deepest layer needs a
/// platform covering it.
pub open spec fn bind_clause(vars: EncodingVars, dag: EncodingDag, i: int) -> Seq<Literal> {
    seq![neg(vars.tvar(i, depth() - 1))] + bind_prefix(
        vars,
        dag,
        i,
        dag.n() - dag.spec_n_platforms(),
    )
}

/// The `u`-th support candidate of tile `i` on layer `l`: the four
/// neighbours, then the tile itself, when it is a terrain tile of the world.
pub open spec fn support_of(vars: EncodingVars, i: int, l: int, u: int) -> Seq<Literal> {
    let p = point_at(vars.world_dims(), i);
    let q = neighbors_of(p).push(p)[u];
    if in_dims(vars.world_dims(), q) && vars.terrain_cells()[flat_index(vars.world_dims(), q)] {
        seq![pos(vars.tvar(flat_index(vars.world_dims(), q), l))]
    } else {
        Seq::empty()
    }
}

/// The support candidates of tile `i` on layer `l`, for candidates `0..u`.
pub open spec fn support_prefix(vars: EncodingVars, i: int, l: int, u: int) -> Seq<Literal> {
    Seq::new(u as nat, |u2: int| support_of(vars, i, l, u2)).flatten()
}

/// (c) The diffusion clause of terrain tile `i` for layer `l`.
pub open spec fn diffusion_clause(vars: EncodingVars, i: int, l: int) -> Seq<Literal> {
    seq![neg(vars.tvar(i, l))] + support_prefix(vars, i, l + 1, 5)
}

/// (c) The diffusion clauses of terrain tile `i` for layers `0..l`.
pub open spec fn diffusion_prefix(vars: EncodingVars, i: int, l: int) -> Seq<Seq<Literal>> {
    Seq::new(l as nat, |l2: int| diffusion_clause(vars, i, l2))
}

/// (c) All diffusion clauses of terrain tile `i`, then the unit clause on
/// its top layer.
pub open spec fn diffusion_clauses(vars: EncodingVars, i: int) -> Seq<Seq<Literal>> {
    diffusion_prefix(vars, i, depth() - 1).push(seq![pos(vars.tvar(i, 0))])
}

/// Offset nodes are points covered by some footprint.
proof fn lemma_point_node(vars: EncodingVars, dag: EncodingDag, q: int)
    requires
        vars.valid(),
        dag.built_from(vars.fps()),
        dag.spec_n_platforms() <= q < dag.n(),
    ensures
        dag.spec_nodes()[q] is Point,
        covered(vars.fps(), dag.spec_nodes()[q]->Point_0),
        forall|t: int|
            0 <= t < dag.reduced_out(q).len() ==> #[trigger] dag.reduced_out(q)[t] < dag.spec_n_platforms(),
{
    let fps = vars.fps();
    let k = q - fps.len();
    assert(dag.spec_nodes()[fps.len() + k] == EncodingNode::Point(point_nodes(fps)[k]));
    let pred = |p: Point| covered(fps, p);
    row_major(enclosing_upto(fps, fps.len() as int)).lemma_filter_pred(pred, k);
    dag.lemma_reduced(q);
    assert forall|t: int| 0 <= t < dag.reduced_out(q).len() implies #[trigger] dag.reduced_out(q)[t]
        < dag.spec_n_platforms() by {
        let j = dag.reduced_out(q)[t] as int;
        assert(dag.covers_ix(q, j));
        if j >= fps.len() {
            assert(dag.spec_nodes()[fps.len() + (j - fps.len())] is Point);
        }
    }
}

/// Builds the binding clause (d) of terrain tile `i`.
fn bind_clause_exec(vars: &EncodingVars, dag: &EncodingDag, i: usize) -> (r: Vec<Literal>)
    requires
        vars.valid(),
        dag.built_from(vars.fps()),
        i < vars.n_tiles(),
        vars.terrain_cells()[i as int],
    ensures
        r@ == bind_clause(*vars, *dag, i as int),
        lits_in_table(*vars, r@),
{
    let wd = vars.world_dims_exec();
    proof {
        lemma_point_at_in(wd, i as int);
        vars.lemma_var_bounds(i as int, vars.fps().len() + depth() - 1);
    }
    let p = Point::new((i % wd.width) as isize, (i / wd.width) as isize);
    let ghost head = seq![neg(vars.tvar(i as int, depth() - 1))];
    let mut cl: Vec<Literal> = vec![(vars.terrain_var(i, TERRAIN_SUPPORT_DISTANCE - 1), true)];
    proof {
        assert(cl@ =~= head);
    }
    let np = dag.n_platforms();
    let n = dag.n_nodes();
    let mut u: usize = 0;
    while u < n - np
        invariant
            vars.valid(),
            dag.built_from(vars.fps()),
            i < vars.n_tiles(),
            wd == vars.world_dims(),
            p == point_at(wd, i as int),
            0 <= p.x < wd.width,
            0 <= p.y < wd.height,
            np == dag.spec_n_platforms(),
            n == dag.n(),
            np <= n,
            u <= n - np,
            cl@ == head + bind_prefix(*vars, *dag, i as int, u as int),
            lits_in_table(*vars, cl@),
        decreases n - np - u,
    {
        let q = np + u;
        proof {
            lemma_point_node(*vars, *dag, q as int);
        }
        let ghost before = cl@;
        match dag.node(q) {
            EncodingNode::Point(off) => {
                proof {
                    let k = choose|k: int| 0 <= k < vars.fps().len() && in_dims(#[trigger] vars.fps()[k], off);
                }
                let origin = Point::new(p.x - off.x, p.y - off.y);
                if wd.contains(origin) {
                    proof {
                        lemma_flat_index_in(wd, origin);
                    }
                    let j = (origin.y as usize) * wd.width + (origin.x as usize);
                    let targets = dag.reduced_targets(q);
                    let mut t: usize = 0;
                    while t < targets.len()
                        invariant
                            vars.valid(),
                            dag.built_from(vars.fps()),
                            wd == vars.world_dims(),
                            in_dims(wd, origin),
                            j == flat_index(wd, origin),
                            j < vars.n_tiles(),
                            targets@ == dag.reduced_out(q as int),
                            forall|t2: int| 0 <= t2 < targets@.len() ==> #[trigger] targets@[t2] < dag.spec_n_platforms(),
                            t <= targets@.len(),
                            cl@ == before + Seq::new(
                                t as nat,
                                |t2: int| pos(vars.pvar(j as int, targets@[t2] as int)),
                            ),
                            lits_in_table(*vars, cl@),
                        decreases targets@.len() - t,
                    {
                        let k = targets[t];
                        proof {
                            vars.lemma_var_bounds(j as int, k as int);
                        }
                        cl.push((vars.placement_var(j, k), false));
                        t = t + 1;
                        proof {
                            assert(cl@ =~= before + Seq::new(
                                t as nat,
                                |t2: int| pos(vars.pvar(j as int, targets@[t2] as int)),
                            ));
                        }
                    }
                    proof {
                        assert(origin == origin_for(*vars, i as int, off));
                        assert(Seq::new(t as nat, |t2: int| pos(vars.pvar(j as int, targets@[t2] as int)))
                            =~= bind_of(*vars, *dag, i as int, q as int));
                    }
                } else {
                    proof {
                        assert(origin == origin_for(*vars, i as int, off));
                        assert(cl@ =~= before + bind_of(*vars, *dag, i as int, q as int));
                    }
                }
            },
            EncodingNode::Platform(_) => {
                proof {
                    assert(false);
                }
            },
        }
        proof {
            lemma_flatten_new(u as nat, |u2: int| bind_of(*vars, *dag, i as int, dag.spec_n_platforms() + u2));
            assert(cl@ =~= head + bind_prefix(*vars, *dag, i as int, u + 1));
        }
        u = u + 1;
    }
    cl
}

/// Builds the diffusion clause (c) of terrain tile `i` for layer `l`.
fn diffusion_clause_exec(vars: &EncodingVars, i: usize, l: usize) -> (r: Vec<Literal>)
    requires
        vars.valid(),
        i < vars.n_tiles(),
        vars.terrain_cells()[i as int],
        l + 1 < depth(),
    ensures
        r@ == diffusion_clause(*vars, i as int, l as int),
        lits_in_table(*vars, r@),
{
    let wd = vars.world_dims_exec();
    proof {
        lemma_point_at_in(wd, i as int);
        vars.lemma_var_bounds(i as int, vars.fps().len() + l);
    }
    let p = Point::new((i % wd.width) as isize, (i / wd.width) as isize);
    let ghost head = seq![neg(vars.tvar(i as int, l as int))];
    let mut cl: Vec<Literal> = vec![(vars.terrain_var(i, l), true)];
    proof {
        assert(cl@ =~= head);
        assert(wd.width <= area(wd)) by (nonlinear_arith)
            requires
                0 <= p.y < wd.height,
        ;
        assert(wd.height <= area(wd)) by (nonlinear_arith)
            requires
                0 <= p.x < wd.width,
        ;
    }
    let nb = p.neighbors();
    let mut u: usize = 0;
    while u < 5
        invariant
            vars.valid(),
            i < vars.n_tiles(),
            l + 1 < depth(),
            wd == vars.world_dims(),
            p == point_at(wd, i as int),
            nb@ == neighbors_of(p),
            u <= 5,
            cl@ == head + support_prefix(*vars, i as int, l + 1, u as int),
            lits_in_table(*vars, cl@),
        decreases 5 - u,
    {
        let q = if u < 4 {
            nb[u]
        } else {
            p
        };
        proof {
            assert(q == neighbors_of(p).push(p)[u as int]);
        }
        let ghost before = cl@;
        if wd.contains(q) {
            proof {
                lemma_flat_index_in(wd, q);
            }
            let j = (q.y as usize) * wd.width + (q.x as usize);
            if vars.is_terrain(j) {
                proof {
                    vars.lemma_var_bounds(j as int, vars.fps().len() + l + 1);
                }
                cl.push((vars.terrain_var(j, l + 1), false));
            }
        }
        proof {
            assert(cl@ =~= before + support_of(*vars, i as int, l + 1, u as int));
            lemma_flatten_new(u as nat, |u2: int| support_of(*vars, i as int, l + 1, u2));
            assert(cl@ =~= head + support_prefix(*vars, i as int, l + 1, u + 1));
        }
        u = u + 1;
    }
    cl
}

/// All clauses of tile `i`, in emission order: (a), (b), then for a terrain
/// tile (d) and (c).
pub open spec fn tile_clauses(vars: EncodingVars, dag: EncodingDag, i: int) -> Seq<Seq<Literal>> {
    chain_clauses(vars, dag, i) + sound_clauses(vars, dag, i) + if vars.terrain_cells()[i] {
        seq![bind_clause(vars, dag, i)] + diffusion_clauses(vars, i)
    } else {
        Seq::empty()
    }
}

/// The clauses of the tiles `0..n` in row-major order.
pub open spec fn encoded_upto(vars: EncodingVars, dag: EncodingDag, n: int) -> Seq<Seq<Literal>> {
    Seq::new(n as nat, |i: int| tile_clauses(vars, dag, i)).flatten()
}

/// The whole encoding of a table and its order.
pub open spec fn encoding(vars: EncodingVars, dag: EncodingDag) -> Seq<Seq<Literal>> {
    encoded_upto(vars, dag, vars.n_tiles())
}

/// Appends all clauses of tile `i`.
fn add_tile(inst: &mut SatProblem, vars: &EncodingVars, dag: &EncodingDag, i: usize)
    requires
        ctx(*vars, *dag, *old(inst)),
        i < vars.n_tiles(),
    ensures
        ctx(*vars, *dag, *final(inst)),
        sat_clauses(*final(inst)) == sat_clauses(*old(inst)) + tile_clauses(*vars, *dag, i as int),
{
    let ghost base = sat_clauses(*inst);
    add_chain(inst, vars, dag, i);
    add_soundness(inst, vars, dag, i);
    if vars.is_terrain(i) {
        let cl = bind_clause_exec(vars, dag, i);
        add_clause(inst, &cl);
        let ghost before = sat_clauses(*inst);
        let mut l: usize = 0;
        while l < TERRAIN_SUPPORT_DISTANCE - 1
            invariant
                ctx(*vars, *dag, *inst),
                i < vars.n_tiles(),
                vars.terrain_cells()[i as int],
                l <= depth() - 1,
                sat_clauses(*inst) == before + diffusion_prefix(*vars, i as int, l as int),
            decreases depth() - 1 - l,
        {
            let cl = diffusion_clause_exec(vars, i, l);
            add_clause(inst, &cl);
            l = l + 1;
            proof {
                assert(diffusion_prefix(*vars, i as int, l as int) =~= diffusion_prefix(*vars, i as int, l - 1).push(cl@));
                assert(sat_clauses(*inst) =~= before + diffusion_prefix(*vars, i as int, l as int));
            }
        }
        proof {
            vars.lemma_var_bounds(i as int, vars.fps().len() as int);
        }
        let unit = vec![(vars.terrain_var(i, 0), false)];
        add_clause(inst, &unit);
        proof {
            assert(unit@ =~= seq![pos(vars.tvar(i as int, 0))]);
            assert(sat_clauses(*inst) =~= base + tile_clauses(*vars, *dag, i as int));
        }
    } else {
        proof {
            assert(sat_clauses(*inst) =~= base + tile_clauses(*vars, *dag, i as int));
        }
    }
}

/// Encodes the placement problem of a catalog over a world into `instance`:
/// allocates the variable table, then appends, tile by tile in row-major
/// order, the clauses of every tile.
///
/// Fails, leaving the instance untouched, with `DimensionOverflow` when the
/// rectangle enclosing the footprints has more than `isize::MAX` cells, and
/// otherwise with `AllocatorExhausted` when the variables would exceed the
/// indices the solver accepts.
pub fn encode(platform_defs: &Vec<PlatformDef>, terrain: &WorldGrid, instance: &mut SatProblem) -> (r:
    Result<EncodingVars, EncodeError>)
    requires
        terrain.0.wf(),
    ensures
        (r == Err::<EncodingVars, EncodeError>(EncodeError::DimensionOverflow)) <==> area(
            enclosing_upto(footprints(platform_defs@), footprints(platform_defs@).len() as int),
        ) > isize::MAX,
        (r == Err::<EncodingVars, EncodeError>(EncodeError::AllocatorExhausted)) <==> (area(
            enclosing_upto(footprints(platform_defs@), footprints(platform_defs@).len() as int),
        ) <= isize::MAX && sat_var_count(*old(instance)) + tile_base(
            terrain.0.cells(),
            footprints(platform_defs@).len(),
            terrain.0.cells().len() as int,
        ) > MAX_VAR_INDEX),
        r is Err ==> *final(instance) == *old(instance),
        r matches Ok(vars) ==> {
            &&& vars.valid()
            &&& vars.fps() == footprints(platform_defs@)
            &&& vars.catalog() == platform_defs@
            &&& vars.terrain_cells() == terrain.0.cells()
            &&& vars.world_dims() == terrain.0.spec_dims()
            &&& vars.first() == sat_var_count(*old(instance))
            &&& sat_var_count(*final(instance)) == sat_var_count(*old(instance)) + vars.n_vars()
            &&& exists|dag: EncodingDag|
                #[trigger] dag.built_from(vars.fps()) && sat_clauses(*final(instance)) == sat_clauses(
                    *old(instance),
                ) + encoding(vars, dag)
        },
{
    let fps = effective_footprints(platform_defs);
    let dag = match EncodingDag::new(&fps) {
        Ok(dag) => dag,
        Err(e) => {
            return Err(e);
        },
    };
    let vars = match EncodingVars::new(platform_defs, terrain, instance) {
        Ok(vars) => vars,
        Err(e) => {
            return Err(e);
        },
    };
    let ghost base = sat_clauses(*instance);
    let n = vars.n_tiles_exec();
    let mut i: usize = 0;
    while i < n
        invariant
            ctx(vars, dag, *instance),
            n == vars.n_tiles(),
            i <= n,
            sat_clauses(*instance) == base + encoded_upto(vars, dag, i as int),
        decreases n - i,
    {
        add_tile(instance, &vars, &dag, i);
        proof {
            lemma_flatten_new(i as nat, |i2: int| tile_clauses(vars, dag, i2));
            assert(sat_clauses(*instance) =~= base + encoded_upto(vars, dag, i + 1));
        }
        i = i + 1;
    }
    proof {
        assert(dag.built_from(vars.fps()));
    }
    Ok(vars)
}

/// The assignment `a` (indexed by variable) satisfies the clause.
pub open spec fn clause_sat(a: Seq<bool>, cl: Seq<Literal>) -> bool {
    exists|j: int| 0 <= j < cl.len() && (#[trigger] cl[j]).0 < a.len() && a[cl[j].0 as int] != cl[j].1
}

/// The assignment `a` satisfies every clause.
pub open spec fn satisfies(a: Seq<bool>, cls: Seq<Seq<Literal>>) -> bool {
    forall|k: int| 0 <= k < cls.len() ==> clause_sat(a, #[trigger] cls[k])
}

/// Every variable of the table set to false.
pub open spec fn all_false(vars: EncodingVars) -> Seq<bool> {
    Seq::new(vars.first() + vars.n_vars(), |v: int| false)
}

/// A property of every block carries over to the flattened sequence.
pub proof fn lemma_flatten_all<A>(ss: Seq<Seq<A>>, p: spec_fn(A) -> bool)
    requires
        forall|i: int, j: int| 0 <= i < ss.len() && 0 <= j < ss[i].len() ==> p(#[trigger] ss[i][j]),
    ensures
        forall|k: int| 0 <= k < ss.flatten().len() ==> p(#[trigger] ss.flatten()[k]),
    decreases ss.len(),
{
    if ss.len() > 0 {
        let rest = ss.drop_first();
        assert forall|i: int, j: int| 0 <= i < rest.len() && 0 <= j < rest[i].len() implies p(#[trigger] rest[i][j]) by {
            assert(rest[i] == ss[i + 1]);
        }
        lemma_flatten_all(rest, p);
        assert(ss.flatten() == ss[0] + rest.flatten());
        assert forall|k: int| 0 <= k < ss.flatten().len() implies p(#[trigger] ss.flatten()[k]) by {
            if k < ss[0].len() {
                assert(ss.flatten()[k] == ss[0][k]);
            } else {
                assert(ss.flatten()[k] == rest.flatten()[k - ss[0].len()]);
            }
        }
    }
}

/// The clauses of a tile of a terrain-free world each start with a negative
/// literal of a table variable.
proof fn lemma_tile_negative(vars: EncodingVars, dag: EncodingDag, i: int)
    requires
        vars.valid(),
        dag.built_from(vars.fps()),
        0 <= i < vars.n_tiles(),
        !vars.terrain_cells()[i],
    ensures
        forall|k: int|
            0 <= k < tile_clauses(vars, dag, i).len() ==> clause_sat(all_false(vars), #[trigger] tile_clauses(vars, dag, i)[k]),
{
    let a = all_false(vars);
    let p = |cl: Seq<Literal>| clause_sat(a, cl);
    let np = dag.spec_n_platforms() as int;
    let chains = Seq::new(np as nat, |s2: int| chain_of(vars, dag, i, s2));
    assert forall|s: int, t: int| 0 <= s < chains.len() && 0 <= t < chains[s].len() implies p(#[trigger] chains[s][t]) by {
        lemma_platform_succ(vars, dag, s, t);
        let l = dag.reduced_out(s)[t] as int;
        vars.lemma_var_bounds(i, l);
        let cl = chains[s][t];
        assert(cl[0] == neg(vars.pvar(i, l)));
        assert(a[cl[0].0 as int] != cl[0].1);
    }
    lemma_flatten_all(chains, p);
    let pairs = Seq::new(dag.n() as nat, |s2: int| pairs_of(vars, dag, i, s2));
    assert forall|s: int, t: int| 0 <= s < pairs.len() && 0 <= t < pairs[s].len() implies p(#[trigger] pairs[s][t]) by {
        let out = dag.reduced_out(s);
        let blocks = Seq::new(out.len(), |x2: int| pairs_at(vars, dag, i, s, x2));
        assert forall|x: int, y: int| 0 <= x < blocks.len() && 0 <= y < blocks[x].len() implies p(#[trigger] blocks[x][y]) by {
            lemma_platform_succ(vars, dag, s, x);
            let aa = out[x] as int;
            vars.lemma_var_bounds(i, aa);
            let cl = blocks[x][y];
            assert(cl[0] == neg(vars.pvar(i, aa)));
            assert(a[cl[0].0 as int] != cl[0].1);
        }
        lemma_flatten_all(blocks, p);
        assert(pairs[s] == blocks.flatten());
    }
    lemma_flatten_all(pairs, p);
    let tc = tile_clauses(vars, dag, i);
    assert(tc =~= chains.flatten() + pairs.flatten());
    assert forall|k: int| 0 <= k < tc.len() implies clause_sat(a, #[trigger] tc[k]) by {
        if k < chains.flatten().len() {
            assert(tc[k] == chains.flatten()[k]);
        } else {
            assert(tc[k] == pairs.flatten()[k - chains.flatten().len()]);
        }
    }
}

/// A world without terrain is satisfied by setting every variable false,
/// and that assignment decodes to the empty layout.
pub proof fn lemma_no_terrain(vars: EncodingVars, dag: EncodingDag, ps: Seq<Platform>)
    requires
        vars.valid(),
        dag.built_from(vars.fps()),
        forall|i: int| 0 <= i < vars.n_tiles() ==> !#[trigger] vars.terrain_cells()[i],
        decodes(
            vars,
            Seq::new(vars.first() + vars.n_vars(), |v: int| Some(false)),
            u32::MAX as int + 1,
            ps,
        ),
    ensures
        satisfies(all_false(vars), encoding(vars, dag)),
        ps.len() == 0,
{
    let a = all_false(vars);
    let p = |cl: Seq<Literal>| clause_sat(a, cl);
    let tiles = Seq::new(vars.n_tiles() as nat, |i2: int| tile_clauses(vars, dag, i2));
    assert forall|i: int, k: int| 0 <= i < tiles.len() && 0 <= k < tiles[i].len() implies p(#[trigger] tiles[i][k]) by {
        lemma_tile_negative(vars, dag, i);
    }
    lemma_flatten_all(tiles, p);
    if ps.len() > 0 {
        assert(has_source(vars, Seq::new(vars.first() + vars.n_vars(), |v: int| Some(false)), u32::MAX as int + 1, ps[0]));
    }
}

/// An empty world has no variables and no clauses, and every assignment
/// decodes to the empty layout.
pub proof fn lemma_empty_world(vars: EncodingVars, dag: EncodingDag, vals: Seq<Option<bool>>, ps: Seq<Platform>)
    requires
        vars.valid(),
        vars.n_tiles() == 0,
        decodes(vars, vals, u32::MAX as int + 1, ps),
    ensures
        vars.n_vars() == 0,
        encoding(vars, dag).len() == 0,
        ps.len() == 0,
{
    assert(Seq::new(0, |i2: int| tile_clauses(vars, dag, i2)) =~= Seq::<Seq<Seq<Literal>>>::empty());
    if ps.len() > 0 {
        assert(has_source(vars, vals, u32::MAX as int + 1, ps[0]));
    }
}

/// Each block's elements occur in the flattened sequence.
proof fn lemma_flatten_member<A>(ss: Seq<Seq<A>>, i: int, k: int)
    requires
        0 <= i < ss.len(),
        0 <= k < ss[i].len(),
    ensures
        exists|j: int| 0 <= j < ss.flatten().len() && ss.flatten()[j] == ss[i][k],
    decreases ss.len(),
{
    let rest = ss.drop_first();
    assert(ss.flatten() == ss[0] + rest.flatten());
    if i == 0 {
        assert(ss.flatten()[k] == ss[0][k]);
    } else {
        assert(rest[i - 1] == ss[i]);
        lemma_flatten_member(rest, i - 1, k);
        let j = choose|j: int| 0 <= j < rest.flatten().len() && rest.flatten()[j] == rest[i - 1][k];
        assert(ss.flatten()[ss[0].len() + j] == rest.flatten()[j]);
    }
}

/// An assignment satisfying the encoding satisfies each clause of each tile.
proof fn lemma_tile_clause_sat(vars: EncodingVars, dag: EncodingDag, a: Seq<bool>, i: int, k: int)
    requires
        satisfies(a, encoding(vars, dag)),
        0 <= i < vars.n_tiles(),
        0 <= k < tile_clauses(vars, dag, i).len(),
    ensures
        clause_sat(a, tile_clauses(vars, dag, i)[k]),
{
    let tiles = Seq::new(vars.n_tiles() as nat, |i2: int| tile_clauses(vars, dag, i2));
    lemma_flatten_member(tiles, i, k);
    let j = choose|j: int| 0 <= j < tiles.flatten().len() && tiles.flatten()[j] == tiles[i][k];
    assert(clause_sat(a, encoding(vars, dag)[j]));
}

/// A two-literal clause `~x | y` under an assignment where `x` holds.
proof fn lemma_implication(a: Seq<bool>, cl: Seq<Literal>, x: int, y: int)
    requires
        clause_sat(a, cl),
        cl == seq![neg(x), pos(y)],
        0 <= x <= u32::MAX,
        0 <= y <= u32::MAX,
        x < a.len(),
        a[x],
    ensures
        y < a.len() && a[y],
{
    let j = choose|j: int| 0 <= j < cl.len() && (#[trigger] cl[j]).0 < a.len() && a[cl[j].0 as int] != cl[j].1;
    assert(j == 1);
}

/// With the catalog `{1x1}`, an isolated terrain cell (no terrain among its
/// four neighbours) is supported only by a platform at the cell itself: every
/// assignment satisfying the encoding sets that placement variable.
pub proof fn lemma_isolated_cell(vars: EncodingVars, dag: EncodingDag, a: Seq<bool>, c: Point)
    requires
        vars.valid(),
        dag.built_from(vars.fps()),
        vars.fps() == seq![Dimensions { width: 1, height: 1 }],
        in_dims(vars.world_dims(), c),
        vars.terrain_cells()[flat_index(vars.world_dims(), c)],
        forall|u: int|
            0 <= u < 4 && in_dims(vars.world_dims(), #[trigger] neighbors_of(c)[u]) ==> !vars.terrain_cells()[flat_index(
                vars.world_dims(),
                neighbors_of(c)[u],
            )],
        satisfies(a, encoding(vars, dag)),
    ensures
        vars.pvar(flat_index(vars.world_dims(), c), 0) < a.len(),
        a[vars.pvar(flat_index(vars.world_dims(), c), 0)],
{
    let wd = vars.world_dims();
    let i = flat_index(wd, c);
    lemma_flat_index_in(wd, c);
    let tc = tile_clauses(vars, dag, i);
    let head = chain_clauses(vars, dag, i) + sound_clauses(vars, dag, i);
    let rest = seq![bind_clause(vars, dag, i)] + diffusion_clauses(vars, i);
    assert(tc == head + rest);
    let base = head.len() as int;
    // The order: its nodes are the footprint and the single offset (0, 0).
    let fps = vars.fps();
    let o = Point { x: 0, y: 0 };
    let rm = row_major(enclosing_upto(fps, 1));
    assert(enclosing_upto(fps, 0) == Dimensions { width: 1, height: 1 });
    assert(fps[0] == Dimensions { width: 1, height: 1 });
    assert(enclosing_upto(fps, 1) == Dimensions { width: 1, height: 1 });
    let d1 = Dimensions { width: 1, height: 1 };
    assert(area(d1) == 1) by {
        let (w, h) = (d1.width as int, d1.height as int);
        assert(w * h == 1) by (nonlinear_arith)
            requires
                w == 1,
                h == 1,
        ;
    }
    assert(rm.len() == 1);
    assert(rm[0] == o);
    assert(rm =~= seq![o]);
    assert(covered(fps, o)) by {
        assert(in_dims(fps[0], o));
    }
    let pred = |p: Point| covered(fps, p);
    assert(seq![o].filter(pred) == seq![o]) by {
        reveal(Seq::filter);
        assert(seq![o].drop_last() =~= Seq::<Point>::empty());
        assert(Seq::<Point>::empty().filter(pred) =~= Seq::<Point>::empty());
    }
    assert(point_nodes(fps) == seq![o]);
    assert(dag.n() == 2);
    assert(dag.spec_nodes()[0] == EncodingNode::Platform(fps[0]));
    assert(dag.spec_nodes()[1] == EncodingNode::Point(o));
    dag.lemma_reduced(1);
    let out = dag.reduced_out(1);
    assert(dag.covers_ix(1, 0));
    assert(out.contains(0usize));
    assert forall|t: int| 0 <= t < out.len() implies out[t] == 0 by {
        assert(dag.covers_ix(1, out[t] as int));
        if out[t] == 1 {
            assert(!dag.lt_ix(1, 1));
        }
    }
    assert(out.len() == 1) by {
        if out.len() > 1 {
            assert(out[0] < out[1]);
        }
    }
    // The binding clause: the deepest layer needs the platform at the cell.
    assert(origin_for(vars, i, o) == c);
    assert(bind_of(vars, dag, i, 1) =~= seq![pos(vars.pvar(i, 0))]);
    assert(Seq::new(1, |u2: int| bind_of(vars, dag, i, dag.spec_n_platforms() + u2)) =~= seq![seq![pos(vars.pvar(i, 0))]]);
    assert(seq![seq![pos(vars.pvar(i, 0))]].flatten() =~= seq![pos(vars.pvar(i, 0))]) by {
        seq![seq![pos(vars.pvar(i, 0))]].lemma_flatten_one_element();
    }
    assert(bind_clause(vars, dag, i) =~= seq![neg(vars.tvar(i, 3)), pos(vars.pvar(i, 0))]);
    // The diffusion clauses: each layer needs the next one at the cell itself.
    assert forall|l: int| 0 <= l < 3 implies #[trigger] diffusion_clause(vars, i, l) == seq![neg(vars.tvar(i, l)), pos(vars.tvar(i, l + 1))] by {
        let cand = neighbors_of(c).push(c);
        assert(point_at(wd, i) == c);
        assert forall|u: int| 0 <= u < 4 implies #[trigger] support_of(vars, i, l + 1, u) == Seq::<Literal>::empty() by {
            assert(cand[u] == neighbors_of(c)[u]);
        }
        assert(support_of(vars, i, l + 1, 4) == seq![pos(vars.tvar(i, l + 1))]);
        let f = |u2: int| support_of(vars, i, l + 1, u2);
        lemma_flatten_new(0, f);
        lemma_flatten_new(1, f);
        lemma_flatten_new(2, f);
        lemma_flatten_new(3, f);
        lemma_flatten_new(4, f);
        assert(Seq::new(0, f).flatten() =~= Seq::<Literal>::empty());
        assert(support_prefix(vars, i, l + 1, 5) =~= seq![pos(vars.tvar(i, l + 1))]);
    }
    // Walk the layers down to the platform.
    vars.lemma_var_bounds(i, 0);
    vars.lemma_var_bounds(i, 1);
    vars.lemma_var_bounds(i, 2);
    vars.lemma_var_bounds(i, 3);
    vars.lemma_var_bounds(i, 4);
    let unit = base + 1 + 3;
    assert(tc[unit] == seq![pos(vars.tvar(i, 0))]);
    lemma_tile_clause_sat(vars, dag, a, i, unit);
    let j = choose|j: int| 0 <= j < tc[unit].len() && (#[trigger] tc[unit][j]).0 < a.len() && a[tc[unit][j].0 as int] != tc[unit][j].1;
    assert(a[vars.tvar(i, 0)]);
    assert(tc[base + 1] == diffusion_clause(vars, i, 0));
    lemma_tile_clause_sat(vars, dag, a, i, base + 1);
    lemma_implication(a, tc[base + 1], vars.tvar(i, 0), vars.tvar(i, 1));
    assert(tc[base + 2] == diffusion_clause(vars, i, 1));
    lemma_tile_clause_sat(vars, dag, a, i, base + 2);
    lemma_implication(a, tc[base + 2], vars.tvar(i, 1), vars.tvar(i, 2));
    assert(tc[base + 3] == diffusion_clause(vars, i, 2));
    lemma_tile_clause_sat(vars, dag, a, i, base + 3);
    lemma_implication(a, tc[base + 3], vars.tvar(i, 2), vars.tvar(i, 3));
    assert(tc[base] == bind_clause(vars, dag, i));
    lemma_tile_clause_sat(vars, dag, a, i, base);
    lemma_implication(a, tc[base], vars.tvar(i, 3), vars.pvar(i, 0));
}

/// Each element of a flattened sequence comes from some block.
proof fn lemma_flatten_origin<A>(ss: Seq<Seq<A>>, j: int)
    requires
        0 <= j < ss.flatten().len(),
    ensures
        exists|i: int, k: int| 0 <= i < ss.len() && 0 <= k < ss[i].len() && ss.flatten()[j] == #[trigger] ss[i][k],
    decreases ss.len(),
{
    let rest = ss.drop_first();
    assert(ss.flatten() == ss[0] + rest.flatten());
    if j < ss[0].len() {
        assert(ss.flatten()[j] == ss[0][j]);
    } else {
        lemma_flatten_origin(rest, j - ss[0].len());
        let (i, k) = choose|i: int, k: int| 0 <= i < rest.len() && 0 <= k < rest[i].len() && rest.flatten()[j - ss[0].len()] == #[trigger] rest[i][k];
        assert(rest[i] == ss[i + 1]);
        assert(ss.flatten()[j] == ss[i + 1][k]);
    }
}

/// Some table footprint placed at an in-world origin covers cell `q`.
pub open spec fn coverable(vars: EncodingVars, q: Point) -> bool {
    exists|o: Point, k: int|
        #[trigger] in_dims(vars.world_dims(), o) && 0 <= k < vars.fps().len() && 0 <= q.x - o.x < (
        #[trigger] vars.fps()[k]).width && 0 <= q.y - o.y < vars.fps()[k].height
}

/// The binding clause of a terrain tile that no placement can cover has only
/// its layer literal.
proof fn lemma_bind_empty(vars: EncodingVars, dag: EncodingDag, i: int)
    requires
        vars.valid(),
        dag.built_from(vars.fps()),
        0 <= i < vars.n_tiles(),
        !coverable(vars, point_at(vars.world_dims(), i)),
    ensures
        bind_prefix(vars, dag, i, dag.n() - dag.spec_n_platforms()).len() == 0,
{
    let wd = vars.world_dims();
    let p = point_at(wd, i);
    lemma_point_at_in(wd, i);
    let np = dag.spec_n_platforms() as int;
    let blocks = Seq::new((dag.n() - np) as nat, |u2: int| bind_of(vars, dag, i, np + u2));
    assert forall|u: int| 0 <= u < blocks.len() implies blocks[u].len() == 0 by {
        let q = np + u;
        lemma_point_node(vars, dag, q);
        let off = dag.spec_nodes()[q]->Point_0;
        let out = dag.reduced_out(q);
        let origin = origin_for(vars, i, off);
        if in_dims(wd, origin) && out.len() > 0 {
            let t0 = out[0] as int;
            dag.lemma_reduced(q);
            assert(dag.covers_ix(q, t0));
            assert(dag.spec_nodes()[t0] == EncodingNode::Platform(vars.fps()[t0]));
            assert(in_dims(vars.fps()[t0], off));
            assert(coverable(vars, p)) by {
                assert(0 <= p.x - origin.x < vars.fps()[t0].width);
            }
        }
    }
    let f = |e: Literal| false;
    assert forall|u: int, k: int| 0 <= u < blocks.len() && 0 <= k < blocks[u].len() implies f(#[trigger] blocks[u][k]) by {}
    lemma_flatten_all(blocks, f);
}

/// A true layer `l < K - 1` at a reached terrain cell leaves a true layer
/// `l + 1` at a reached terrain cell one step further.
proof fn lemma_diffuse_step(vars: EncodingVars, dag: EncodingDag, w: Grid<bool>, a: Seq<bool>, c: Point, q: Point, l: int)
    requires
        vars.valid(),
        dag.built_from(vars.fps()),
        w.wf(),
        w.cells() == vars.terrain_cells(),
        w.spec_dims() == vars.world_dims(),
        satisfies(a, encoding(vars, dag)),
        in_dims(vars.world_dims(), q),
        w.at(q),
        0 <= l < depth() - 1,
        reach(w, c, q, l as nat),
        vars.tvar(flat_index(vars.world_dims(), q), l) < a.len(),
        a[vars.tvar(flat_index(vars.world_dims(), q), l)],
    ensures
        exists|q2: Point|
            in_dims(vars.world_dims(), q2) && w.at(q2) && reach(w, c, q2, (l + 1) as nat)
                && vars.tvar(flat_index(vars.world_dims(), q2), l + 1) < a.len() && #[trigger] a[vars.tvar(
                flat_index(vars.world_dims(), q2),
                l + 1,
            )],
{
    let wd = vars.world_dims();
    let i = flat_index(wd, q);
    lemma_flat_index_in(wd, q);
    assert(vars.terrain_cells()[i]);
    let tc = tile_clauses(vars, dag, i);
    let head = chain_clauses(vars, dag, i) + sound_clauses(vars, dag, i);
    assert(tc == head + (seq![bind_clause(vars, dag, i)] + diffusion_clauses(vars, i)));
    let k = head.len() as int + 1 + l;
    assert(tc[k] == diffusion_clause(vars, i, l));
    lemma_tile_clause_sat(vars, dag, a, i, k);
    let cl = diffusion_clause(vars, i, l);
    let j = choose|j: int| 0 <= j < cl.len() && (#[trigger] cl[j]).0 < a.len() && a[cl[j].0 as int] != cl[j].1;
    vars.lemma_var_bounds(i, vars.fps().len() + l);
    assert(j != 0);
    let f = |u2: int| support_of(vars, i, l + 1, u2);
    let sp = Seq::new(5, f);
    assert(cl[j] == sp.flatten()[j - 1]);
    lemma_flatten_origin(sp, j - 1);
    let (u, m) = choose|u: int, m: int| 0 <= u < sp.len() && 0 <= m < sp[u].len() && sp.flatten()[j - 1] == #[trigger] sp[u][m];
    let cand = neighbors_of(q).push(q);
    let q2 = cand[u];
    assert(point_at(wd, i) == q);
    assert(in_dims(wd, q2) && vars.terrain_cells()[flat_index(wd, q2)]);
    let i2 = flat_index(wd, q2);
    lemma_flat_index_in(wd, q2);
    vars.lemma_var_bounds(i2, vars.fps().len() + l + 1);
    assert(cl[j] == pos(vars.tvar(i2, l + 1)));
    assert(w.at(q2));
    let lp1 = (l + 1) as nat;
    assert((lp1 - 1) as nat == l as nat);
    if u == 4 {
        assert(q2 == q);
    } else {
        let back = if u == 0 { 2int } else if u == 1 { 3int } else if u == 2 { 0int } else { 1int };
        assert(neighbors_of(q2)[back] == q);
        assert(reach(w, c, neighbors_of(q2)[back], l as nat));
    }
    assert(reach(w, c, q2, lp1));
    assert(a[vars.tvar(i2, l + 1)]);
}

/// A terrain cell from which no terrain cell within `K - 1` steps can be
/// covered by any placement of the table makes the encoding unsatisfiable.
pub proof fn lemma_unreachable_unsat(vars: EncodingVars, dag: EncodingDag, w: Grid<bool>, a: Seq<bool>, c: Point)
    requires
        vars.valid(),
        dag.built_from(vars.fps()),
        w.wf(),
        w.cells() == vars.terrain_cells(),
        w.spec_dims() == vars.world_dims(),
        in_dims(vars.world_dims(), c),
        w.at(c),
        forall|q: Point| #[trigger] reach(w, c, q, (depth() - 1) as nat) ==> !coverable(vars, q),
    ensures
        !satisfies(a, encoding(vars, dag)),
{
    if satisfies(a, encoding(vars, dag)) {
        let wd = vars.world_dims();
        let ic = flat_index(wd, c);
        lemma_flat_index_in(wd, c);
        assert(vars.terrain_cells()[ic]);
        let tc = tile_clauses(vars, dag, ic);
        let head = chain_clauses(vars, dag, ic) + sound_clauses(vars, dag, ic);
        assert(tc == head + (seq![bind_clause(vars, dag, ic)] + diffusion_clauses(vars, ic)));
        let unit = head.len() as int + 1 + 3;
        assert(tc[unit] == seq![pos(vars.tvar(ic, 0))]);
        lemma_tile_clause_sat(vars, dag, a, ic, unit);
        vars.lemma_var_bounds(ic, vars.fps().len() as int);
        let j0 = choose|j: int| 0 <= j < tc[unit].len() && (#[trigger] tc[unit][j]).0 < a.len() && a[tc[unit][j].0 as int] != tc[unit][j].1;
        assert(a[vars.tvar(ic, 0)]);
        assert(reach(w, c, c, 0));
        lemma_diffuse_step(vars, dag, w, a, c, c, 0);
        let q1 = choose|q2: Point| in_dims(wd, q2) && w.at(q2) && reach(w, c, q2, 1) && vars.tvar(flat_index(wd, q2), 1) < a.len() && #[trigger] a[vars.tvar(flat_index(wd, q2), 1)];
        lemma_diffuse_step(vars, dag, w, a, c, q1, 1);
        let q2 = choose|q2: Point| in_dims(wd, q2) && w.at(q2) && reach(w, c, q2, 2) && vars.tvar(flat_index(wd, q2), 2) < a.len() && #[trigger] a[vars.tvar(flat_index(wd, q2), 2)];
        lemma_diffuse_step(vars, dag, w, a, c, q2, 2);
        let q3 = choose|q3: Point| in_dims(wd, q3) && w.at(q3) && reach(w, c, q3, 3) && vars.tvar(flat_index(wd, q3), 3) < a.len() && #[trigger] a[vars.tvar(flat_index(wd, q3), 3)];
        let i3 = flat_index(wd, q3);
        lemma_flat_index_in(wd, q3);
        assert(point_at(wd, i3) == q3);
        assert(!coverable(vars, q3));
        lemma_bind_empty(vars, dag, i3);
        let tc3 = tile_clauses(vars, dag, i3);
        let head3 = chain_clauses(vars, dag, i3) + sound_clauses(vars, dag, i3);
        assert(vars.terrain_cells()[i3]);
        assert(tc3 == head3 + (seq![bind_clause(vars, dag, i3)] + diffusion_clauses(vars, i3)));
        assert(tc3[head3.len() as int] == bind_clause(vars, dag, i3));
        lemma_tile_clause_sat(vars, dag, a, i3, head3.len() as int);
        let bc = bind_clause(vars, dag, i3);
        assert(bc.len() == 1);
        vars.lemma_var_bounds(i3, vars.fps().len() as int + 3);
        let jb = choose|j: int| 0 <= j < bc.len() && (#[trigger] bc[j]).0 < a.len() && a[bc[j].0 as int] != bc[j].1;
        assert(jb == 0);
    }
}

/// With the catalog `{1x1}` and no two terrain cells adjacent, every
/// assignment satisfying the encoding places a `1x1` at every terrain cell.
pub proof fn lemma_unit_catalog(vars: EncodingVars, dag: EncodingDag, a: Seq<bool>)
    requires
        vars.valid(),
        dag.built_from(vars.fps()),
        vars.fps() == seq![Dimensions { width: 1, height: 1 }],
        forall|c: Point, u: int|
            in_dims(vars.world_dims(), c) && vars.terrain_cells()[flat_index(vars.world_dims(), c)] && 0 <= u < 4
                && in_dims(vars.world_dims(), #[trigger] neighbors_of(c)[u]) ==> !vars.terrain_cells()[flat_index(
                vars.world_dims(),
                neighbors_of(c)[u],
            )],
        satisfies(a, encoding(vars, dag)),
    ensures
        forall|c: Point|
            #[trigger] in_dims(vars.world_dims(), c) && vars.terrain_cells()[flat_index(vars.world_dims(), c)]
                ==> vars.pvar(flat_index(vars.world_dims(), c), 0) < a.len() && a[vars.pvar(
                flat_index(vars.world_dims(), c),
                0,
            )],
{
    assert forall|c: Point|
        #[trigger] in_dims(vars.world_dims(), c) && vars.terrain_cells()[flat_index(vars.world_dims(), c)]
            implies vars.pvar(flat_index(vars.world_dims(), c), 0) < a.len() && a[vars.pvar(
            flat_index(vars.world_dims(), c),
            0,
        )] by {
        lemma_isolated_cell(vars, dag, a, c);
    }
}

} // verus!

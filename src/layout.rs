//! Decoding a satisfying assignment into a platform layout, and checking a
//! layout against the world.
use vstd::prelude::*;

use rustsat::types::Assignment;

use crate::dimensions::{area, dims_eq, dims_le, dims_lt, in_dims, lemma_point_at_in, point_at, row_major, Dimensions};
use crate::grid::{lemma_flat_index_in, Grid};
use crate::platform::{covers, eff_dims, placeable, rects_overlap, Platform, PlatformDef};
use crate::point::{neighbors_of, pt, Point};
use crate::sat::{assignment_values, var_value, MAX_VAR_INDEX};
use crate::vars::{depth, EncodingVars};
use crate::world::World;
use crate::TERRAIN_SUPPORT_DISTANCE;

verus! {

/// Platforms by origin: at most one platform per point.
#[derive(Clone, Debug, Default)]
pub struct PlatformLayout {
    platforms: Vec<Platform>,
}

/// Variable `v` is true under `vals` (indexed by variable).
pub open spec fn is_true(vals: Seq<Option<bool>>, v: int) -> bool {
    0 <= v < vals.len() && vals[v] == Some(true)
}

/// Variable `v` is a true placement variable of `vars`.
pub open spec fn candidate(vars: EncodingVars, vals: Seq<Option<bool>>, v: int) -> bool {
    &&& is_true(vals, v)
    &&& 0 <= v <= u32::MAX
    &&& vars.is_placement(v as u32)
}

/// No two platforms share an origin.
pub open spec fn distinct_origins(ps: Seq<Platform>) -> bool {
    forall|a: int, b: int|
        0 <= a < ps.len() && 0 <= b < ps.len() && a != b ==> (#[trigger] ps[a]).spec_point()
            != (#[trigger] ps[b]).spec_point()
}

/// `ps` is the decoding of the true placement variables below `limit`: one
/// platform per origin that has one, each decoded from such a variable, and
/// none of them with another such platform at its origin whose footprint
/// lies strictly above its own.
pub open spec fn decodes(vars: EncodingVars, vals: Seq<Option<bool>>, limit: int, ps: Seq<Platform>) -> bool {
    &&& distinct_origins(ps)
    &&& forall|e: int| 0 <= e < ps.len() ==> has_source(vars, vals, limit, #[trigger] ps[e])
    &&& forall|v: int|
        0 <= v < limit && #[trigger] candidate(vars, vals, v) ==> has_entry(
            ps,
            vars.items()[v - vars.first()]->Platform_point,
        )
    &&& forall|e: int, v: int, x: Platform|
        0 <= e < ps.len() && 0 <= v < limit && candidate(vars, vals, v) && #[trigger] vars.decodes_to(
            v as u32,
            x,
        ) && x.spec_point() == (#[trigger] ps[e]).spec_point() ==> !dims_lt(
            eff_dims(ps[e]),
            eff_dims(x),
        )
}

/// Some true placement variable below `limit` decodes to `pl`.
pub open spec fn has_source(vars: EncodingVars, vals: Seq<Option<bool>>, limit: int, pl: Platform) -> bool {
    exists|v: int| 0 <= v < limit && candidate(vars, vals, v) && #[trigger] vars.decodes_to(v as u32, pl)
}

/// Some platform of `ps` has origin `p`.
pub open spec fn has_entry(ps: Seq<Platform>, p: Point) -> bool {
    exists|e: int| 0 <= e < ps.len() && (#[trigger] ps[e]).spec_point() == p
}

/// `a`'s footprint fits strictly inside `b`'s.
fn strictly_inside(a: Dimensions, b: Dimensions) -> (r: bool)
    ensures
        r == dims_lt(a, b),
{
    b.contains_dims(a) && !(a == b)
}

impl PlatformLayout {
    pub closed spec fn spec_platforms(&self) -> Seq<Platform> {
        self.platforms@
    }

    /// Decodes variable values (indexed by variable, `None` for "don't
    /// care"): every true placement variable proposes its platform, and at
    /// each origin the proposal whose footprint lies strictly above the
    /// current choice replaces it, scanning variables in increasing order.
    pub fn from_values(values: &Vec<Option<bool>>, vars: &EncodingVars) -> (r: PlatformLayout)
        requires
            vars.valid(),
        ensures
            decodes(*vars, values@, u32::MAX as int + 1, r.spec_platforms()),
    {
        let mut platforms: Vec<Platform> = Vec::new();
        let end = vars.first_var() + vars.n_vars_exec();
        let mut v: u32 = vars.first_var();
        while v < end
            invariant
                vars.valid(),
                end == vars.first() + vars.n_vars(),
                end <= MAX_VAR_INDEX,
                vars.first() <= v <= end,
                decodes(*vars, values@, v as int, platforms@),
            decreases end - v,
        {
            let val = if (v as usize) < values.len() {
                values[v as usize]
            } else {
                None
            };
            let is_one = match val {
                Some(b) => b,
                None => false,
            };
            let ghost old_ps = platforms@;
            if is_one {
                match vars.var_to_platform(v) {
                    Some(pl) => {
                        match find_origin(&platforms, pl.point()) {
                            Some(e) => {
                                proof {
                                    lemma_decode_at(*vars, values@, v as int, old_ps, pl, e as int);
                                }
                                if strictly_inside(platforms[e].dims(), pl.dims()) {
                                    platforms[e] = pl;
                                    proof {
                                        assert(platforms@ == old_ps.update(e as int, pl));
                                    }
                                }
                            },
                            None => {
                                proof {
                                    lemma_decode_push(*vars, values@, v as int, old_ps, pl);
                                }
                                platforms.push(pl);
                            },
                        }
                    },
                    None => {
                        proof {
                            lemma_decode_skip(*vars, values@, v as int, v + 1, platforms@);
                        }
                    },
                }
            } else {
                proof {
                    lemma_decode_skip(*vars, values@, v as int, v + 1, platforms@);
                }
            }
            v = v + 1;
        }
        proof {
            lemma_decode_skip(*vars, values@, end as int, u32::MAX as int + 1, platforms@);
        }
        PlatformLayout { platforms }
    }
}

/// The position of the platform with origin `p`, if any.
fn find_origin(ps: &Vec<Platform>, p: Point) -> (r: Option<usize>)
    ensures
        r matches Some(e) ==> e < ps@.len() && ps@[e as int].spec_point() == p,
        r is None ==> forall|f: int| 0 <= f < ps@.len() ==> (#[trigger] ps@[f]).spec_point() != p,
{
    let mut e: usize = 0;
    while e < ps.len()
        invariant
            e <= ps@.len(),
            forall|f: int| 0 <= f < e ==> (#[trigger] ps@[f]).spec_point() != p,
        decreases ps@.len() - e,
    {
        if ps[e].point() == p {
            return Some(e);
        }
        e = e + 1;
    }
    None
}

/// Variables that are not true placement variables change nothing.
proof fn lemma_decode_skip(vars: EncodingVars, vals: Seq<Option<bool>>, v: int, v2: int, ps: Seq<Platform>)
    requires
        decodes(vars, vals, v, ps),
        v <= v2,
        forall|w: int| v <= w < v2 ==> !#[trigger] candidate(vars, vals, w),
    ensures
        decodes(vars, vals, v2, ps),
{
    assert forall|e: int| 0 <= e < ps.len() implies has_source(vars, vals, v2, #[trigger] ps[e]) by {
        assert(has_source(vars, vals, v, ps[e]));
        let w = choose|w: int| 0 <= w < v && candidate(vars, vals, w) && #[trigger] vars.decodes_to(w as u32, ps[e]);
        assert(vars.decodes_to(w as u32, ps[e]));
    }
    assert forall|w: int| 0 <= w < v2 && #[trigger] candidate(vars, vals, w) implies has_entry(
        ps,
        vars.items()[w - vars.first()]->Platform_point,
    ) by {
        assert(w < v);
    }
    assert forall|e: int, w: int, x: Platform|
        0 <= e < ps.len() && 0 <= w < v2 && candidate(vars, vals, w) && #[trigger] vars.decodes_to(w as u32, x)
            && x.spec_point() == (#[trigger] ps[e]).spec_point() implies !dims_lt(
        eff_dims(ps[e]),
        eff_dims(x),
    ) by {
        assert(w < v);
    }
}

/// Two decodings of one variable agree on origin and entry.
proof fn lemma_decodes_same(vars: EncodingVars, v: u32, x: Platform, y: Platform)
    requires
        vars.decodes_to(v, x),
        vars.decodes_to(v, y),
    ensures
        x.spec_point() == y.spec_point(),
        x.spec_def() == y.spec_def(),
{
}

/// A true placement variable at a new origin adds its platform.
proof fn lemma_decode_push(vars: EncodingVars, vals: Seq<Option<bool>>, v: int, ps: Seq<Platform>, pl: Platform)
    requires
        decodes(vars, vals, v, ps),
        candidate(vars, vals, v),
        vars.decodes_to(v as u32, pl),
        forall|f: int| 0 <= f < ps.len() ==> (#[trigger] ps[f]).spec_point() != pl.spec_point(),
    ensures
        decodes(vars, vals, v + 1, ps.push(pl)),
{
    let ps2 = ps.push(pl);
    assert forall|e: int| 0 <= e < ps2.len() implies has_source(vars, vals, v + 1, #[trigger] ps2[e]) by {
        if e < ps.len() {
            assert(has_source(vars, vals, v, ps[e]));
            let w = choose|w: int| 0 <= w < v && candidate(vars, vals, w) && #[trigger] vars.decodes_to(w as u32, ps[e]);
            assert(ps2[e] == ps[e]);
            assert(vars.decodes_to(w as u32, ps2[e]));
        } else {
            assert(ps2[e] == pl);
            assert(vars.decodes_to(v as u32, ps2[e]));
        }
    }
    assert forall|w: int| 0 <= w < v + 1 && #[trigger] candidate(vars, vals, w) implies has_entry(
        ps2,
        vars.items()[w - vars.first()]->Platform_point,
    ) by {
        if w < v {
            assert(has_entry(ps, vars.items()[w - vars.first()]->Platform_point));
            let e = choose|e: int| 0 <= e < ps.len() && (#[trigger] ps[e]).spec_point() == vars.items()[w - vars.first()]->Platform_point;
            assert(ps2[e] == ps[e]);
        } else {
            assert(ps2[ps.len() as int] == pl);
        }
    }
    assert forall|e: int, w: int, x: Platform|
        0 <= e < ps2.len() && 0 <= w < v + 1 && candidate(vars, vals, w) && #[trigger] vars.decodes_to(w as u32, x)
            && x.spec_point() == (#[trigger] ps2[e]).spec_point() implies !dims_lt(
        eff_dims(ps2[e]),
        eff_dims(x),
    ) by {
        if w == v {
            lemma_decodes_same(vars, v as u32, x, pl);
            if e < ps.len() {
                assert(ps2[e] == ps[e]);
            }
        } else if e < ps.len() {
            assert(ps2[e] == ps[e]);
        } else {
            assert(has_entry(ps, vars.items()[w - vars.first()]->Platform_point));
            let f = choose|f: int| 0 <= f < ps.len() && (#[trigger] ps[f]).spec_point() == vars.items()[w - vars.first()]->Platform_point;
            assert(ps[f].spec_point() != pl.spec_point());
        }
    }
}

/// A true placement variable at a taken origin replaces the choice there
/// when its footprint lies strictly above, and otherwise leaves it.
proof fn lemma_decode_at(vars: EncodingVars, vals: Seq<Option<bool>>, v: int, ps: Seq<Platform>, pl: Platform, e0: int)
    requires
        decodes(vars, vals, v, ps),
        candidate(vars, vals, v),
        vars.decodes_to(v as u32, pl),
        0 <= e0 < ps.len(),
        ps[e0].spec_point() == pl.spec_point(),
    ensures
        dims_lt(eff_dims(ps[e0]), eff_dims(pl)) ==> decodes(vars, vals, v + 1, ps.update(e0, pl)),
        !dims_lt(eff_dims(ps[e0]), eff_dims(pl)) ==> decodes(vars, vals, v + 1, ps),
{
    let up = dims_lt(eff_dims(ps[e0]), eff_dims(pl));
    let ps2 = if up { ps.update(e0, pl) } else { ps };
    assert forall|a: int, b: int|
        0 <= a < ps2.len() && 0 <= b < ps2.len() && a != b implies (#[trigger] ps2[a]).spec_point()
            != (#[trigger] ps2[b]).spec_point() by {
        assert(ps2[a].spec_point() == ps[a].spec_point());
        assert(ps2[b].spec_point() == ps[b].spec_point());
    }
    assert forall|e: int| 0 <= e < ps2.len() implies has_source(vars, vals, v + 1, #[trigger] ps2[e]) by {
        if up && e == e0 {
            assert(ps2[e] == pl);
            assert(vars.decodes_to(v as u32, ps2[e]));
        } else {
            assert(has_source(vars, vals, v, ps[e]));
            let w = choose|w: int| 0 <= w < v && candidate(vars, vals, w) && #[trigger] vars.decodes_to(w as u32, ps[e]);
            assert(ps2[e] == ps[e]);
            assert(vars.decodes_to(w as u32, ps2[e]));
        }
    }
    assert forall|w: int| 0 <= w < v + 1 && #[trigger] candidate(vars, vals, w) implies has_entry(
        ps2,
        vars.items()[w - vars.first()]->Platform_point,
    ) by {
        if w < v {
            assert(has_entry(ps, vars.items()[w - vars.first()]->Platform_point));
            let e = choose|e: int| 0 <= e < ps.len() && (#[trigger] ps[e]).spec_point() == vars.items()[w - vars.first()]->Platform_point;
            assert(ps2[e].spec_point() == ps[e].spec_point());
        } else {
            assert(ps2[e0].spec_point() == pl.spec_point());
        }
    }
    assert forall|e: int, w: int, x: Platform|
        0 <= e < ps2.len() && 0 <= w < v + 1 && candidate(vars, vals, w) && #[trigger] vars.decodes_to(w as u32, x)
            && x.spec_point() == (#[trigger] ps2[e]).spec_point() implies !dims_lt(
        eff_dims(ps2[e]),
        eff_dims(x),
    ) by {
        assert(ps2[e].spec_point() == ps[e].spec_point());
        if w == v {
            lemma_decodes_same(vars, v as u32, x, pl);
            if e != e0 {
                assert(ps[e].spec_point() != ps[e0].spec_point());
            }
        } else if up && e == e0 {
            assert(!dims_lt(eff_dims(ps[e0]), eff_dims(x)));
        } else {
            assert(ps2[e] == ps[e]);
        }
    }
}

/// The values an assignment gives to variables `0..n`, "don't care" past its
/// end.
pub open spec fn assigned(a: Assignment, n: nat) -> Seq<Option<bool>> {
    Seq::new(
        n,
        |v: int|
            if v < assignment_values(a).len() {
                assignment_values(a)[v]
            } else {
                None
            },
    )
}

impl PlatformLayout {
    /// The platforms, one per origin.
    pub fn platforms(&self) -> (r: &Vec<Platform>)
        ensures
            r@ == self.spec_platforms(),
    {
        &self.platforms
    }

    pub fn platform_count(&self) -> (r: usize)
        ensures
            r == self.spec_platforms().len(),
    {
        self.platforms.len()
    }

    /// The platform with origin `p`, if any.
    pub fn get_platform(&self, p: Point) -> (r: Option<Platform>)
        ensures
            r is Some <==> has_entry(self.spec_platforms(), p),
            r matches Some(pl) ==> pl.spec_point() == p && self.spec_platforms().contains(pl),
    {
        match find_origin(&self.platforms, p) {
            Some(e) => Some(self.platforms[e]),
            None => None,
        }
    }

    /// A layout of the given platforms, `None` when two share an origin.
    pub fn from_platforms(platforms: Vec<Platform>) -> (r: Option<PlatformLayout>)
        ensures
            r is Some <==> distinct_origins(platforms@),
            r matches Some(l) ==> l.spec_platforms() == platforms@,
    {
        let mut a: usize = 0;
        while a < platforms.len()
            invariant
                a <= platforms@.len(),
                forall|x: int, y: int|
                    0 <= x < a && 0 <= y < platforms@.len() && x != y ==> (#[trigger] platforms@[x]).spec_point()
                        != (#[trigger] platforms@[y]).spec_point(),
            decreases platforms@.len() - a,
        {
            let mut b: usize = 0;
            while b < platforms.len()
                invariant
                    a < platforms@.len(),
                    b <= platforms@.len(),
                    forall|x: int, y: int|
                        0 <= x < a && 0 <= y < platforms@.len() && x != y ==> (#[trigger] platforms@[x]).spec_point()
                            != (#[trigger] platforms@[y]).spec_point(),
                    forall|y: int|
                        0 <= y < b && a != y ==> platforms@[a as int].spec_point() != (#[trigger] platforms@[y]).spec_point(),
                decreases platforms@.len() - b,
            {
                if a != b && platforms[a].point() == platforms[b].point() {
                    return None;
                }
                b = b + 1;
            }
            a = a + 1;
        }
        Some(PlatformLayout { platforms })
    }
}

/// The decoder selects, at each origin of its output, a platform that no
/// other true placement variable there lies strictly above; so whenever the
/// true placement variables at that origin have a largest footprint, the
/// selection is at least as large as every one of them.
pub proof fn lemma_max_selection(vars: EncodingVars, vals: Seq<Option<bool>>, limit: int, ps: Seq<Platform>, e: int)
    requires
        decodes(vars, vals, limit, ps),
        0 <= e < ps.len(),
    ensures
        forall|v: int, x: Platform|
            0 <= v < limit && candidate(vars, vals, v) && #[trigger] vars.decodes_to(v as u32, x)
                && x.spec_point() == ps[e].spec_point() ==> !dims_lt(
                eff_dims(ps[e]),
                eff_dims(x),
            ),
        (exists|m: Platform|
            #[trigger] has_source(vars, vals, limit, m) && m.spec_point() == ps[e].spec_point() && forall|
                v: int,
                x: Platform,
            |
                0 <= v < limit && candidate(vars, vals, v) && #[trigger] vars.decodes_to(v as u32, x)
                    && x.spec_point() == ps[e].spec_point() ==> dims_le(
                    eff_dims(x),
                    eff_dims(m),
                )) ==> forall|v: int, x: Platform|
            0 <= v < limit && candidate(vars, vals, v) && #[trigger] vars.decodes_to(v as u32, x)
                && x.spec_point() == ps[e].spec_point() ==> dims_le(
                eff_dims(x),
                eff_dims(ps[e]),
            ),
{
    assert(has_source(vars, vals, limit, ps[e]));
    let w = choose|w: int| 0 <= w < limit && candidate(vars, vals, w) && #[trigger] vars.decodes_to(w as u32, ps[e]);
    assert(vars.decodes_to(w as u32, ps[e]));
}

/// The world cell `q` holds terrain.
pub open spec fn terrain_at(w: Grid<bool>, q: Point) -> bool {
    in_dims(w.spec_dims(), q) && w.at(q)
}

/// Some platform of `ps` covers cell `q`.
pub open spec fn painted(ps: Seq<Platform>, q: Point) -> bool {
    exists|e: int| 0 <= e < ps.len() && covers(#[trigger] ps[e], q)
}

/// Terrain cell `q` is supported within `n` diffusion rounds: covered by a
/// platform, or next to a terrain cell supported within `n - 1` rounds.
pub open spec fn supported(w: Grid<bool>, ps: Seq<Platform>, q: Point, n: nat) -> bool
    decreases n,
{
    if n == 0 {
        terrain_at(w, q) && painted(ps, q)
    } else {
        let k = (n - 1) as nat;
        let nb = neighbors_of(q);
        supported(w, ps, q, k) || (terrain_at(w, q) && (supported(w, ps, nb[0], k) || supported(
            w,
            ps,
            nb[1],
            k,
        ) || supported(w, ps, nb[2], k) || supported(w, ps, nb[3], k)))
    }
}

/// Some cell of the platform lies outside the world.
pub open spec fn out_of_world(pl: Platform, wd: Dimensions) -> bool {
    exists|q: Point| #[trigger] covers(pl, q) && !in_dims(wd, q)
}

/// The platform's area meets that of another platform of `ps`.
pub open spec fn overlaps_other(ps: Seq<Platform>, pl: Platform) -> bool {
    exists|f: int|
        0 <= f < ps.len() && (#[trigger] ps[f]).spec_point() != pl.spec_point() && rects_overlap(pl, ps[f])
}

/// The platforms of `ps` whose area meets another's, in order.
pub open spec fn overlapping_of(ps: Seq<Platform>) -> Seq<Platform> {
    ps.filter(|pl: Platform| overlaps_other(ps, pl))
}

/// The platforms of `ps` that reach outside the world, in order.
pub open spec fn out_of_bounds_of(ps: Seq<Platform>, wd: Dimensions) -> Seq<Platform> {
    ps.filter(|pl: Platform| out_of_world(pl, wd))
}

/// The terrain cells not supported within `K - 1` rounds, row-major.
pub open spec fn unsupported_of(w: Grid<bool>, ps: Seq<Platform>) -> Seq<Point> {
    row_major(w.spec_dims()).filter(
        |q: Point| terrain_at(w, q) && !supported(w, ps, q, (depth() - 1) as nat),
    )
}

/// What the validator finds wrong with a layout.
#[derive(Clone, Debug, Default)]
pub struct ValidationResult {
    pub unsupported_terrain: Vec<Point>,
    pub overlapping_platforms: Vec<Platform>,
    pub out_of_bounds_platforms: Vec<Platform>,
}

/// One group of findings, as printable lines.
#[derive(Clone, Debug)]
pub struct ValidationErrorPrintout {
    pub header: String,
    pub items: Vec<String>,
}

impl ValidationResult {
    /// Nothing was found wrong.
    pub fn is_valid(&self) -> (r: bool)
        ensures
            r == (self.unsupported_terrain@.len() == 0 && self.overlapping_platforms@.len() == 0
                && self.out_of_bounds_platforms@.len() == 0),
    {
        self.unsupported_terrain.len() == 0 && self.overlapping_platforms.len() == 0
            && self.out_of_bounds_platforms.len() == 0
    }
}

/// The platform covers a cell outside the world.
fn exceeds_world(pl: &Platform, wd: Dimensions) -> (r: bool)
    requires
        placeable(*pl),
    ensures
        r == out_of_world(*pl, wd),
{
    let d = pl.dims();
    let p = pl.point();
    if d.width == 0 || d.height == 0 {
        proof {
            assert forall|q: Point| !#[trigger] covers(*pl, q) by {}
        }
        return false;
    }
    let far_x = p.x + (d.width - 1) as isize;
    let far_y = p.y + (d.height - 1) as isize;
    let inside = p.x >= 0 && p.y >= 0 && (far_x as i128) < (wd.width as i128) && (far_y as i128) < (wd.height as i128);
    proof {
        if inside {
            assert forall|q: Point| #[trigger] covers(*pl, q) implies in_dims(wd, q) by {}
        } else {
            if p.x < 0 || p.y < 0 {
                assert(covers(*pl, p));
            } else {
                let far = pt(far_x as int, far_y as int);
                assert(covers(*pl, far));
            }
        }
    }
    !inside
}

/// The platform covers cell `q`.
fn covers_exec(pl: &Platform, q: Point) -> (r: bool)
    requires
        placeable(*pl),
    ensures
        r == covers(*pl, q),
{
    let d = pl.dims();
    let p = pl.point();
    let dx = q.x as i128 - p.x as i128;
    let dy = q.y as i128 - p.y as i128;
    dx >= 0 && dy >= 0 && dx < d.width as i128 && dy < d.height as i128
}

/// A cell outside the world is never supported.
proof fn lemma_outside_unsupported(w: Grid<bool>, ps: Seq<Platform>, q: Point, n: nat)
    requires
        !in_dims(w.spec_dims(), q),
    ensures
        !supported(w, ps, q, n),
    decreases n,
{
    if n > 0 {
        lemma_outside_unsupported(w, ps, q, (n - 1) as nat);
    }
}

/// The support of every cell after one more diffusion round, from its
/// support after `n` rounds.
fn next_round(
    w: &Grid<bool>,
    ps: Ghost<Seq<Platform>>,
    prev: &Vec<bool>,
    n: Ghost<nat>,
) -> (r: Vec<bool>)
    requires
        w.wf(),
        prev@.len() == w.cells().len(),
        forall|i: int|
            0 <= i < prev@.len() ==> #[trigger] prev@[i] == supported(
                *w,
                ps@,
                point_at(w.spec_dims(), i),
                n@,
            ),
    ensures
        r@.len() == w.cells().len(),
        forall|i: int|
            0 <= i < r@.len() ==> #[trigger] r@[i] == supported(
                *w,
                ps@,
                point_at(w.spec_dims(), i),
                n@ + 1,
            ),
{
    let wd = w.dims();
    let cells = w.cells_ref();
    let mut out: Vec<bool> = Vec::new();
    let mut i: usize = 0;
    while i < cells.len()
        invariant
            w.wf(),
            wd == w.spec_dims(),
            cells@ == w.cells(),
            prev@.len() == cells@.len(),
            forall|k: int|
                0 <= k < prev@.len() ==> #[trigger] prev@[k] == supported(
                    *w,
                    ps@,
                    point_at(wd, k),
                    n@,
                ),
            i <= cells@.len(),
            out@.len() == i,
            forall|k: int|
                0 <= k < i ==> #[trigger] out@[k] == supported(*w, ps@, point_at(wd, k), n@ + 1),
        decreases cells@.len() - i,
    {
        proof {
            lemma_point_at_in(wd, i as int);
            assert(wd.width <= area(wd) && wd.height <= area(wd)) by (nonlinear_arith)
                requires
                    0 <= i < area(wd),
                    0 <= point_at(wd, i as int).x < wd.width,
                    0 <= point_at(wd, i as int).y < wd.height,
            ;
        }
        let q = Point::new((i % wd.width) as isize, (i / wd.width) as isize);
        let mut val = prev[i];
        if !val && cells[i] {
            let nb = q.neighbors();
            let mut u: usize = 0;
            while u < 4
                invariant
                    w.wf(),
                    wd == w.spec_dims(),
                    cells@ == w.cells(),
                    prev@.len() == cells@.len(),
                    forall|k: int|
                        0 <= k < prev@.len() ==> #[trigger] prev@[k] == supported(
                            *w,
                            ps@,
                            point_at(wd, k),
                            n@,
                        ),
                    nb@ == neighbors_of(q),
                    u <= 4,
                    val == exists|u2: int| 0 <= u2 < u && #[trigger] supported(*w, ps@, neighbors_of(q)[u2], n@),
                decreases 4 - u,
            {
                let r = nb[u];
                if wd.contains(r) {
                    proof {
                        lemma_flat_index_in(wd, r);
                    }
                    let j = (r.y as usize) * wd.width + (r.x as usize);
                    if prev[j] {
                        val = true;
                    }
                } else {
                    proof {
                        lemma_outside_unsupported(*w, ps@, r, n@);
                    }
                }
                u = u + 1;
            }
        }
        proof {
            assert(q == point_at(wd, i as int));
            assert(w.at(q) == cells@[i as int]) by {
                lemma_flat_index_in(wd, q);
            }
            let m = (n@ + 1) as nat;
            assert((m - 1) as nat == n@);
            if val {
                if !prev@[i as int] {
                    let u2 = choose|u2: int| 0 <= u2 < 4 && #[trigger] supported(*w, ps@, neighbors_of(q)[u2], n@);
                    assert(supported(*w, ps@, neighbors_of(q)[u2], (m - 1) as nat));
                    assert(u2 == 0 || u2 == 1 || u2 == 2 || u2 == 3);
                }
            } else {
                assert forall|u: int| 0 <= u < 4 && terrain_at(*w, q) implies !#[trigger] supported(
                    *w,
                    ps@,
                    neighbors_of(q)[u],
                    (m - 1) as nat,
                ) by {
                    assert(!supported(*w, ps@, neighbors_of(q)[u], n@));
                }
                if terrain_at(*w, q) {
                    assert(!supported(*w, ps@, neighbors_of(q)[0], (m - 1) as nat));
                    assert(!supported(*w, ps@, neighbors_of(q)[1], (m - 1) as nat));
                    assert(!supported(*w, ps@, neighbors_of(q)[2], (m - 1) as nat));
                    assert(!supported(*w, ps@, neighbors_of(q)[3], (m - 1) as nat));
                }
            }
            assert(prev@[i as int] == supported(*w, ps@, q, (m - 1) as nat));
            assert(cells@[i as int] == terrain_at(*w, q));
            assert(val == supported(*w, ps@, q, m));
        }
        out.push(val);
        i = i + 1;
    }
    out
}

impl PlatformLayout {
    /// Checks the layout against the world: which platforms meet another
    /// platform's area, which reach outside the world, and which terrain
    /// cells are not supported within `K - 1` diffusion rounds of a covered
    /// terrain cell.
    pub fn validate(&self, world: &World) -> (r: ValidationResult)
        requires
            world.spec_grid().0.wf(),
            forall|e: int| 0 <= e < self.spec_platforms().len() ==> placeable(#[trigger] self.spec_platforms()[e]),
        ensures
            r.overlapping_platforms@ == overlapping_of(self.spec_platforms()),
            r.out_of_bounds_platforms@ == out_of_bounds_of(
                self.spec_platforms(),
                world.spec_grid().0.spec_dims(),
            ),
            r.unsupported_terrain@ == unsupported_of(world.spec_grid().0, self.spec_platforms()),
    {
        let ps = &self.platforms;
        let w = &world.grid().0;
        let wd = w.dims();
        let ghost ov_pred = |pl: Platform| overlaps_other(ps@, pl);
        let ghost oob_pred = |pl: Platform| out_of_world(pl, wd);
        let mut overlapping: Vec<Platform> = Vec::new();
        let mut out_of_bounds: Vec<Platform> = Vec::new();
        proof {
            assert(ps@ == self.spec_platforms());
            assert forall|f: int| 0 <= f < ps@.len() implies placeable(#[trigger] ps@[f]) by {
                assert(placeable(self.spec_platforms()[f]));
            }
        }
        let mut e: usize = 0;
        while e < ps.len()
            invariant
                forall|f: int| 0 <= f < ps@.len() ==> placeable(#[trigger] ps@[f]),
                e <= ps@.len(),
                ov_pred == (|pl: Platform| overlaps_other(ps@, pl)),
                oob_pred == (|pl: Platform| out_of_world(pl, wd)),
                overlapping@ == ps@.subrange(0, e as int).filter(ov_pred),
                out_of_bounds@ == ps@.subrange(0, e as int).filter(oob_pred),
            decreases ps@.len() - e,
        {
            proof {
                assert(ps@.subrange(0, e + 1).drop_last() =~= ps@.subrange(0, e as int));
                assert(ps@.subrange(0, e + 1).last() == ps@[e as int]);
                reveal(Seq::filter);
            }
            let pl = ps[e];
            let mut hit = false;
            let mut f: usize = 0;
            while f < ps.len()
                invariant
                    forall|g: int| 0 <= g < ps@.len() ==> placeable(#[trigger] ps@[g]),
                    e < ps@.len(),
                    pl == ps@[e as int],
                    f <= ps@.len(),
                    hit == exists|g: int|
                        0 <= g < f && (#[trigger] ps@[g]).spec_point() != pl.spec_point() && rects_overlap(pl, ps@[g]),
                decreases ps@.len() - f,
            {
                if !(ps[f].point() == pl.point()) && pl.overlaps(&ps[f]) {
                    hit = true;
                }
                f = f + 1;
            }
            if hit {
                overlapping.push(pl);
            }
            if exceeds_world(&pl, wd) {
                out_of_bounds.push(pl);
            }
            e = e + 1;
        }
        proof {
            assert(ps@.subrange(0, ps@.len() as int) =~= ps@);
        }
        // Cells covered directly.
        let cells = w.cells_ref();
        let ghost gps = ps@;
        let mut sup: Vec<bool> = Vec::new();
        let mut i: usize = 0;
        while i < cells.len()
            invariant
                w.wf(),
                wd == w.spec_dims(),
                cells@ == w.cells(),
                gps == ps@,
                forall|f: int| 0 <= f < ps@.len() ==> placeable(#[trigger] ps@[f]),
                i <= cells@.len(),
                sup@.len() == i,
                forall|k: int| 0 <= k < i ==> #[trigger] sup@[k] == supported(*w, gps, point_at(wd, k), 0),
            decreases cells@.len() - i,
        {
            proof {
                lemma_point_at_in(wd, i as int);
            }
            let q = Point::new((i % wd.width) as isize, (i / wd.width) as isize);
            let mut hit = false;
            if cells[i] {
                let mut f: usize = 0;
                while f < ps.len()
                    invariant
                        forall|g: int| 0 <= g < ps@.len() ==> placeable(#[trigger] ps@[g]),
                        f <= ps@.len(),
                        hit == exists|g: int| 0 <= g < f && covers(#[trigger] ps@[g], q),
                    decreases ps@.len() - f,
                {
                    if covers_exec(&ps[f], q) {
                        hit = true;
                    }
                    f = f + 1;
                }
            }
            proof {
                assert(q == point_at(wd, i as int));
                lemma_flat_index_in(wd, q);
                assert(w.at(q) == cells@[i as int]);
            }
            sup.push(hit);
            i = i + 1;
        }
        let mut round: usize = 0;
        while round < TERRAIN_SUPPORT_DISTANCE - 1
            invariant
                w.wf(),
                wd == w.spec_dims(),
                cells@ == w.cells(),
                gps == ps@,
                round <= depth() - 1,
                sup@.len() == cells@.len(),
                forall|k: int|
                    0 <= k < sup@.len() ==> #[trigger] sup@[k] == supported(*w, gps, point_at(wd, k), round as nat),
            decreases depth() - 1 - round,
        {
            sup = next_round(w, Ghost(gps), &sup, Ghost(round as nat));
            round = round + 1;
        }
        let ghost un_pred = |q: Point| terrain_at(*w, q) && !supported(*w, gps, q, (depth() - 1) as nat);
        let ghost all = row_major(wd);
        let mut unsupported: Vec<Point> = Vec::new();
        let mut i: usize = 0;
        while i < cells.len()
            invariant
                w.wf(),
                wd == w.spec_dims(),
                cells@ == w.cells(),
                all == row_major(wd),
                sup@.len() == cells@.len(),
                forall|k: int|
                    0 <= k < sup@.len() ==> #[trigger] sup@[k] == supported(*w, gps, point_at(wd, k), (depth() - 1) as nat),
                un_pred == (|q: Point| terrain_at(*w, q) && !supported(*w, gps, q, (depth() - 1) as nat)),
                i <= cells@.len(),
                unsupported@ == all.subrange(0, i as int).filter(un_pred),
            decreases cells@.len() - i,
        {
            proof {
                lemma_point_at_in(wd, i as int);
                assert(all.subrange(0, i + 1).drop_last() =~= all.subrange(0, i as int));
                assert(all.subrange(0, i + 1).last() == point_at(wd, i as int));
                reveal(Seq::filter);
            }
            let q = Point::new((i % wd.width) as isize, (i / wd.width) as isize);
            proof {
                assert(q == point_at(wd, i as int));
                lemma_flat_index_in(wd, q);
                assert(w.at(q) == cells@[i as int]);
            }
            if cells[i] && !sup[i] {
                unsupported.push(q);
            }
            i = i + 1;
        }
        proof {
            assert(all.subrange(0, cells@.len() as int) =~= all);
        }
        ValidationResult {
            unsupported_terrain: unsupported,
            overlapping_platforms: overlapping,
            out_of_bounds_platforms: out_of_bounds,
        }
    }
}

/// A filter keeps nothing when no element qualifies.
proof fn lemma_filter_none<A>(s: Seq<A>, pred: spec_fn(A) -> bool)
    requires
        forall|i: int| 0 <= i < s.len() ==> !pred(#[trigger] s[i]),
    ensures
        s.filter(pred).len() == 0,
{
    if s.filter(pred).len() > 0 {
        s.lemma_filter_pred(pred, 0);
        let x = s.filter(pred)[0];
        assert(s.filter(pred).contains(x));
        s.lemma_filter_contains_rev(pred, x);
        let i = choose|i: int| 0 <= i < s.len() && s[i] == x;
    }
}

/// A layout whose platforms meet no other platform's area and stay inside
/// the world, and under which every terrain cell is supported, validates
/// with no findings. And whenever two platforms at different origins have
/// meeting areas, both are reported as overlapping.
pub proof fn lemma_validation_law(ps: Seq<Platform>, w: Grid<bool>)
    ensures
        (forall|e: int| 0 <= e < ps.len() ==> !overlaps_other(ps, #[trigger] ps[e]))
            ==> overlapping_of(ps).len() == 0,
        (forall|e: int| 0 <= e < ps.len() ==> !out_of_world(#[trigger] ps[e], w.spec_dims()))
            ==> out_of_bounds_of(ps, w.spec_dims()).len() == 0,
        (forall|q: Point| #[trigger] terrain_at(w, q) ==> supported(w, ps, q, (depth() - 1) as nat))
            ==> unsupported_of(w, ps).len() == 0,
        forall|a: int, b: int|
            0 <= a < ps.len() && 0 <= b < ps.len() && (#[trigger] ps[a]).spec_point()
                != (#[trigger] ps[b]).spec_point() && rects_overlap(ps[a], ps[b]) ==> overlapping_of(
                ps,
            ).contains(ps[a]) && overlapping_of(ps).contains(ps[b]),
{
    let ov = |pl: Platform| overlaps_other(ps, pl);
    if forall|e: int| 0 <= e < ps.len() ==> !overlaps_other(ps, #[trigger] ps[e]) {
        lemma_filter_none(ps, ov);
    }
    let oob = |pl: Platform| out_of_world(pl, w.spec_dims());
    if forall|e: int| 0 <= e < ps.len() ==> !out_of_world(#[trigger] ps[e], w.spec_dims()) {
        lemma_filter_none(ps, oob);
    }
    let un = |q: Point| terrain_at(w, q) && !supported(w, ps, q, (depth() - 1) as nat);
    if forall|q: Point| #[trigger] terrain_at(w, q) ==> supported(w, ps, q, (depth() - 1) as nat) {
        let rm = row_major(w.spec_dims());
        assert forall|i: int| 0 <= i < rm.len() implies !un(#[trigger] rm[i]) by {
            if terrain_at(w, rm[i]) {
            }
        }
        lemma_filter_none(rm, un);
    }
    assert forall|a: int, b: int|
        0 <= a < ps.len() && 0 <= b < ps.len() && (#[trigger] ps[a]).spec_point()
            != (#[trigger] ps[b]).spec_point() && rects_overlap(ps[a], ps[b]) implies overlapping_of(
            ps,
        ).contains(ps[a]) && overlapping_of(ps).contains(ps[b]) by {
        assert(ov(ps[a]));
        ps.lemma_filter_contains(ov, a);
        assert(rects_overlap(ps[b], ps[a]));
        assert(ov(ps[b]));
        ps.lemma_filter_contains(ov, b);
    }
}

/// The label of a point, `(  x;  y)` with each coordinate right-aligned in
/// three columns.
pub uninterp spec fn point_label(x: int, y: int) -> Seq<char>;

/// The label of a placed footprint, `WxH at (  x;  y)`.
pub uninterp spec fn platform_label(w: int, h: int, x: int, y: int) -> Seq<char>;

/// Relies on `format!` with `({:>3};{:>3})`: the text depends on the
/// coordinates alone.
#[verifier::external_body]
fn format_point(p: Point) -> (r: String)
    ensures
        r@ == point_label(p.x as int, p.y as int),
{
    format!("({:>3};{:>3})", p.x, p.y)
}

/// Relies on `format!` with `{}x{} at ({:>3};{:>3})`: the text depends on
/// the dimensions and coordinates alone.
#[verifier::external_body]
fn format_platform(d: Dimensions, p: Point) -> (r: String)
    ensures
        r@ == platform_label(d.width as int, d.height as int, p.x as int, p.y as int),
{
    format!("{}x{} at ({:>3};{:>3})", d.width, d.height, p.x, p.y)
}

/// `items` are the labels of the platforms `ps`, in order.
pub open spec fn labels_of(items: Seq<String>, ps: Seq<Platform>) -> bool {
    &&& items.len() == ps.len()
    &&& forall|i: int|
        0 <= i < ps.len() ==> (#[trigger] items[i])@ == platform_label(
            eff_dims(ps[i]).width as int,
            eff_dims(ps[i]).height as int,
            ps[i].spec_point().x as int,
            ps[i].spec_point().y as int,
        )
}

/// The labels of platforms, in order.
fn platform_labels(ps: &Vec<Platform>) -> (r: Vec<String>)
    ensures
        labels_of(r@, ps@),
{
    let mut out: Vec<String> = Vec::new();
    let mut i: usize = 0;
    while i < ps.len()
        invariant
            i <= ps@.len(),
            out@.len() == i,
            forall|k: int|
                0 <= k < i ==> (#[trigger] out@[k])@ == platform_label(
                    eff_dims(ps@[k]).width as int,
                    eff_dims(ps@[k]).height as int,
                    ps@[k].spec_point().x as int,
                    ps@[k].spec_point().y as int,
                ),
        decreases ps@.len() - i,
    {
        out.push(format_platform(ps[i].dims(), ps[i].point()));
        i = i + 1;
    }
    out
}

impl ValidationResult {
    /// The groups with findings, in the order unsupported terrain (0),
    /// overlapping platforms (1), out-of-bounds platforms (2).
    pub open spec fn groups(&self) -> Seq<int> {
        (if self.unsupported_terrain@.len() > 0 { seq![0int] } else { Seq::empty() }) + (if self.overlapping_platforms@.len()
            > 0 { seq![1int] } else { Seq::empty() }) + (if self.out_of_bounds_platforms@.len() > 0 { seq![2int] } else { Seq::empty() })
    }

    /// `g` is the printout of group `k`: its header names the group and it has
    /// one line per finding, the finding's label.
    pub open spec fn printout_ok(&self, g: ValidationErrorPrintout, k: int) -> bool {
        if k == 0 {
            &&& g.header@ == "unsupported terrain"@
            &&& g.items@.len() == self.unsupported_terrain@.len()
            &&& forall|i: int|
                0 <= i < g.items@.len() ==> (#[trigger] g.items@[i])@ == point_label(
                    self.unsupported_terrain@[i].x as int,
                    self.unsupported_terrain@[i].y as int,
                )
        } else if k == 1 {
            &&& g.header@ == "overlapping platforms"@
            &&& labels_of(g.items@, self.overlapping_platforms@)
        } else {
            &&& g.header@ == "out-of-bounds platforms"@
            &&& labels_of(g.items@, self.out_of_bounds_platforms@)
        }
    }

    /// One printout per non-empty group of findings, in the order unsupported
    /// terrain, overlapping platforms, out-of-bounds platforms; one line per
    /// finding.
    pub fn iter_error_printouts(&self) -> (r: Vec<ValidationErrorPrintout>)
        ensures
            r@.len() == self.groups().len(),
            forall|k: int| 0 <= k < r@.len() ==> self.printout_ok(#[trigger] r@[k], self.groups()[k]),
    {
        let mut out: Vec<ValidationErrorPrintout> = Vec::new();
        let ghost mut gs: Seq<int> = Seq::empty();
        if self.unsupported_terrain.len() > 0 {
            let mut items: Vec<String> = Vec::new();
            let mut i: usize = 0;
            while i < self.unsupported_terrain.len()
                invariant
                    i <= self.unsupported_terrain@.len(),
                    items@.len() == i,
                    forall|k: int|
                        0 <= k < i ==> (#[trigger] items@[k])@ == point_label(
                            self.unsupported_terrain@[k].x as int,
                            self.unsupported_terrain@[k].y as int,
                        ),
                decreases self.unsupported_terrain@.len() - i,
            {
                items.push(format_point(self.unsupported_terrain[i]));
                i = i + 1;
            }
            out.push(ValidationErrorPrintout { header: "unsupported terrain".to_owned(), items });
            proof {
                gs = gs.push(0);
            }
        }
        proof {
            assert(gs =~= (if self.unsupported_terrain@.len() > 0 { seq![0int] } else { Seq::empty() }));
            assert(out@.len() == gs.len());
            assert(forall|k: int| 0 <= k < out@.len() ==> self.printout_ok(#[trigger] out@[k], gs[k]));
        }
        let ghost g1 = gs;
        if self.overlapping_platforms.len() > 0 {
            let items = platform_labels(&self.overlapping_platforms);
            let ghost before = out@;
            out.push(ValidationErrorPrintout { header: "overlapping platforms".to_owned(), items });
            proof {
                gs = gs.push(1);
                assert forall|k: int| 0 <= k < out@.len() implies self.printout_ok(#[trigger] out@[k], gs[k]) by {
                    if k < before.len() {
                        assert(out@[k] == before[k]);
                    }
                }
            }
        }
        proof {
            assert(gs =~= g1 + (if self.overlapping_platforms@.len() > 0 { seq![1int] } else { Seq::empty() }));
        }
        let ghost g2 = gs;
        if self.out_of_bounds_platforms.len() > 0 {
            let items = platform_labels(&self.out_of_bounds_platforms);
            let ghost before = out@;
            out.push(ValidationErrorPrintout { header: "out-of-bounds platforms".to_owned(), items });
            proof {
                gs = gs.push(2);
                assert forall|k: int| 0 <= k < out@.len() implies self.printout_ok(#[trigger] out@[k], gs[k]) by {
                    if k < before.len() {
                        assert(out@[k] == before[k]);
                    }
                }
            }
        }
        proof {
            assert(gs =~= g2 + (if self.out_of_bounds_platforms@.len() > 0 { seq![2int] } else { Seq::empty() }));
            assert(gs =~= self.groups());
        }
        out
    }
}

/// The number of platforms among the first `n` whose entry equals `def`.
pub open spec fn count_def(ps: Seq<Platform>, def: PlatformDef, n: int) -> nat
    decreases n,
{
    if n <= 0 {
        0
    } else {
        count_def(ps, def, n - 1) + if dims_eq(ps[n - 1].spec_def().spec_dims(), def.spec_dims()) {
            1nat
        } else {
            0
        }
    }
}

/// Some entry of `stats` equals `def`.
pub open spec fn has_stat(stats: Seq<(PlatformDef, usize)>, def: PlatformDef) -> bool {
    exists|a: int| 0 <= a < stats.len() && dims_eq((#[trigger] stats[a]).0.spec_dims(), def.spec_dims())
}

/// The weight of an entry: the first listed weight of an equal entry, 0 if
/// none is listed.
pub open spec fn weight_of(weights: Seq<(PlatformDef, isize)>, def: PlatformDef, n: int) -> int
    decreases n,
{
    if n <= 0 {
        0
    } else if dims_eq(weights[weights.len() - n].0.spec_dims(), def.spec_dims()) {
        weights[weights.len() - n].1 as int
    } else {
        weight_of(weights, def, n - 1)
    }
}

/// The total weight of the first `n` platforms.
pub open spec fn weight_total(ps: Seq<Platform>, weights: Seq<(PlatformDef, isize)>, n: int) -> int
    decreases n,
{
    if n <= 0 {
        0
    } else {
        weight_total(ps, weights, n - 1) + weight_of(weights, ps[n - 1].spec_def(), weights.len() as int)
    }
}

/// The weight of `def` under `weights`.
pub(crate) fn lookup_weight(weights: &Vec<(PlatformDef, isize)>, def: PlatformDef) -> (r: isize)
    ensures
        r == weight_of(weights@, def, weights@.len() as int),
{
    let n = weights.len();
    let mut k: usize = 0;
    while k < n
        invariant
            n == weights@.len(),
            k <= n,
            weight_of(weights@, def, n as int) == weight_of(weights@, def, (n - k) as int),
        decreases n - k,
    {
        if weights[k].0 == def {
            return weights[k].1;
        }
        k = k + 1;
    }
    0
}

impl PlatformLayout {
    /// Each entry occurring in the layout with how many platforms use it;
    /// entries are listed once, in order of first use.
    pub fn platform_stats(&self) -> (r: Vec<(PlatformDef, usize)>)
        ensures
            forall|a: int, b: int|
                0 <= a < r@.len() && 0 <= b < r@.len() && a != b ==> !dims_eq(
                    (#[trigger] r@[a]).0.spec_dims(),
                    (#[trigger] r@[b]).0.spec_dims(),
                ),
            forall|a: int|
                0 <= a < r@.len() ==> (#[trigger] r@[a]).1 == count_def(
                    self.spec_platforms(),
                    r@[a].0,
                    self.spec_platforms().len() as int,
                ) && r@[a].1 > 0,
            forall|e: int|
                0 <= e < self.spec_platforms().len() ==> has_stat(r@, (#[trigger] self.spec_platforms()[e]).spec_def()),
    {
        let ps = &self.platforms;
        let mut out: Vec<(PlatformDef, usize)> = Vec::new();
        let mut e: usize = 0;
        while e < ps.len()
            invariant
                e <= ps@.len(),
                forall|a: int, b: int|
                    0 <= a < out@.len() && 0 <= b < out@.len() && a != b ==> !dims_eq(
                        (#[trigger] out@[a]).0.spec_dims(),
                        (#[trigger] out@[b]).0.spec_dims(),
                    ),
                forall|a: int|
                    0 <= a < out@.len() ==> (#[trigger] out@[a]).1 == count_def(ps@, out@[a].0, e as int)
                        && out@[a].1 > 0 && out@[a].1 <= e,
                forall|f: int| 0 <= f < e ==> has_stat(out@, (#[trigger] ps@[f]).spec_def()),
                forall|d: PlatformDef|
                    (forall|a: int| 0 <= a < out@.len() ==> !dims_eq((#[trigger] out@[a]).0.spec_dims(), d.spec_dims()))
                        ==> #[trigger] count_def(ps@, d, e as int) == 0,
            decreases ps@.len() - e,
        {
            let def = ps[e].def();
            let ghost old_out = out@;
            match find_def(&out, def) {
                Some(a) => {
                    let c = out[a].1;
                    let d = out[a].0;
                    out.set(a, (d, c + 1));
                    proof {
                        assert forall|b: int| 0 <= b < out@.len() implies (#[trigger] out@[b]).1 == count_def(ps@, out@[b].0, e + 1)
                            && out@[b].1 > 0 && out@[b].1 <= e + 1 by {
                            if b != a {
                                assert(!dims_eq(old_out[b].0.spec_dims(), old_out[a as int].0.spec_dims()));
                            }
                        }
                        assert forall|f: int| 0 <= f < e + 1 implies has_stat(out@, (#[trigger] ps@[f]).spec_def()) by {
                            if f < e {
                                assert(has_stat(old_out, ps@[f].spec_def()));
                                let b = choose|b: int| 0 <= b < old_out.len() && dims_eq((#[trigger] old_out[b]).0.spec_dims(), ps@[f].spec_def().spec_dims());
                                assert(out@[b].0 == old_out[b].0);
                                assert(dims_eq(out@[b].0.spec_dims(), ps@[f].spec_def().spec_dims()));
                            } else {
                                assert(out@[a as int].0 == d);
                                assert(dims_eq(out@[a as int].0.spec_dims(), ps@[f].spec_def().spec_dims()));
                            }
                        }
                        assert forall|dd: PlatformDef|
                            (forall|b: int| 0 <= b < out@.len() ==> !dims_eq((#[trigger] out@[b]).0.spec_dims(), dd.spec_dims()))
                                implies #[trigger] count_def(ps@, dd, e + 1) == 0 by {
                            assert forall|b: int| 0 <= b < old_out.len() implies !dims_eq((#[trigger] old_out[b]).0.spec_dims(), dd.spec_dims()) by {
                                assert(out@[b].0 == old_out[b].0);
                            }
                            assert(!dims_eq(out@[a as int].0.spec_dims(), dd.spec_dims()));
                            assert(count_def(ps@, dd, e as int) == 0);
                            assert(!dims_eq(ps@[e as int].spec_def().spec_dims(), dd.spec_dims()));
                        }
                    }
                },
                None => {
                    proof {
                        assert(count_def(ps@, def, e as int) == 0);
                    }
                    out.push((def, 1));
                    proof {
                        assert forall|b: int| 0 <= b < out@.len() implies (#[trigger] out@[b]).1 == count_def(ps@, out@[b].0, e + 1)
                            && out@[b].1 > 0 && out@[b].1 <= e + 1 by {
                            if b < old_out.len() {
                                assert(out@[b] == old_out[b]);
                                assert(!dims_eq(old_out[b].0.spec_dims(), def.spec_dims()));
                            }
                        }
                        assert forall|f: int| 0 <= f < e + 1 implies has_stat(out@, (#[trigger] ps@[f]).spec_def()) by {
                            if f < e {
                                assert(has_stat(old_out, ps@[f].spec_def()));
                                let b = choose|b: int| 0 <= b < old_out.len() && dims_eq((#[trigger] old_out[b]).0.spec_dims(), ps@[f].spec_def().spec_dims());
                                assert(out@[b] == old_out[b]);
                                assert(dims_eq(out@[b].0.spec_dims(), ps@[f].spec_def().spec_dims()));
                            } else {
                                assert(out@[old_out.len() as int].0 == def);
                                assert(dims_eq(out@[old_out.len() as int].0.spec_dims(), ps@[f].spec_def().spec_dims()));
                            }
                        }
                        assert forall|dd: PlatformDef|
                            (forall|b: int| 0 <= b < out@.len() ==> !dims_eq((#[trigger] out@[b]).0.spec_dims(), dd.spec_dims()))
                                implies #[trigger] count_def(ps@, dd, e + 1) == 0 by {
                            assert forall|b: int| 0 <= b < old_out.len() implies !dims_eq((#[trigger] old_out[b]).0.spec_dims(), dd.spec_dims()) by {
                                assert(out@[b] == old_out[b]);
                            }
                            assert(!dims_eq(out@[old_out.len() as int].0.spec_dims(), dd.spec_dims()));
                            assert(count_def(ps@, dd, e as int) == 0);
                            assert(!dims_eq(ps@[e as int].spec_def().spec_dims(), dd.spec_dims()));
                        }
                    }
                },
            }
            e = e + 1;
        }
        out
    }

    /// The total weight of the platforms: each counts the weight listed for
    /// its entry (0 if none), summed exactly; `None` if the total does not
    /// fit in `isize`.
    pub fn platform_weight_sum(&self, weights: &Vec<(PlatformDef, isize)>) -> (r: Option<isize>)
        ensures
            r == (if isize::MIN <= weight_total(self.spec_platforms(), weights@, self.spec_platforms().len() as int) <= isize::MAX {
                Some(weight_total(self.spec_platforms(), weights@, self.spec_platforms().len() as int) as isize)
            } else {
                None
            }),
    {
        let ps = &self.platforms;
        let n = ps.len();
        let mut total: i128 = 0;
        let mut e: usize = 0;
        while e < n
            invariant
                n == ps@.len(),
                e <= ps@.len(),
                total == weight_total(ps@, weights@, e as int),
                -(e as int) * 0x8000_0000_0000_0000 <= total <= (e as int) * 0x8000_0000_0000_0000,
            decreases ps@.len() - e,
        {
            let w = lookup_weight(weights, ps[e].def());
            proof {
                assert((e as int + 1) * 0x8000_0000_0000_0000 == (e as int) * 0x8000_0000_0000_0000 + 0x8000_0000_0000_0000) by (nonlinear_arith);
                assert((e as int + 1) * 0x8000_0000_0000_0000 <= 0x1_0000_0000_0000_0000 * 0x8000_0000_0000_0000) by (nonlinear_arith)
                    requires
                        e < 0x1_0000_0000_0000_0000int,
                ;
            }
            total = total + w as i128;
            e = e + 1;
        }
        if total < isize::MIN as i128 || total > isize::MAX as i128 {
            None
        } else {
            Some(total as isize)
        }
    }
}

/// The position of an entry equal to `def`, if any.
fn find_def(out: &Vec<(PlatformDef, usize)>, def: PlatformDef) -> (r: Option<usize>)
    ensures
        r matches Some(a) ==> a < out@.len() && dims_eq(out@[a as int].0.spec_dims(), def.spec_dims()),
        r is None ==> forall|b: int| 0 <= b < out@.len() ==> !dims_eq((#[trigger] out@[b]).0.spec_dims(), def.spec_dims()),
{
    let mut a: usize = 0;
    while a < out.len()
        invariant
            a <= out@.len(),
            forall|b: int| 0 <= b < a ==> !dims_eq((#[trigger] out@[b]).0.spec_dims(), def.spec_dims()),
        decreases out@.len() - a,
    {
        if out[a].0 == def {
            return Some(a);
        }
        a = a + 1;
    }
    None
}

/// Decoding recovers a constructed platform: if a true placement variable
/// `v` decodes to `pl`, and every other true placement variable at the same
/// origin decodes to a platform whose footprint lies strictly below `pl`'s (one
/// chain of footprints activated per origin), then the decoded layout holds
/// `pl` itself at that origin: same origin, entry and rotation.
pub proof fn lemma_decode_recovers(
    vars: EncodingVars,
    vals: Seq<Option<bool>>,
    limit: int,
    ps: Seq<Platform>,
    v: int,
    pl: Platform,
)
    requires
        decodes(vars, vals, limit, ps),
        0 <= v < limit,
        candidate(vars, vals, v),
        vars.decodes_to(v as u32, pl),
        forall|w: int, x: Platform|
            0 <= w < limit && w != v && candidate(vars, vals, w) && #[trigger] vars.decodes_to(w as u32, x)
                && x.spec_point() == pl.spec_point() ==> dims_lt(
                eff_dims(x),
                eff_dims(pl),
            ),
    ensures
        exists|e: int|
            0 <= e < ps.len() && (#[trigger] ps[e]).spec_point() == pl.spec_point() && ps[e].spec_def()
                == pl.spec_def() && ps[e].spec_rotated() == pl.spec_rotated(),
{
    assert(has_entry(ps, vars.items()[v - vars.first()]->Platform_point));
    let e = choose|e: int| 0 <= e < ps.len() && (#[trigger] ps[e]).spec_point() == vars.items()[v - vars.first()]->Platform_point;
    assert(has_source(vars, vals, limit, ps[e]));
    let w = choose|w: int| 0 <= w < limit && candidate(vars, vals, w) && #[trigger] vars.decodes_to(w as u32, ps[e]);
    assert(vars.decodes_to(w as u32, ps[e]));
    if w != v {
        assert(dims_lt(eff_dims(ps[e]), eff_dims(pl)));
        assert(!dims_lt(eff_dims(ps[e]), eff_dims(pl)));
    }
    assert(ps[e].spec_point() == pl.spec_point());
}

/// The true placement variables at origin `p` have a largest footprint: one
/// of them decodes to a platform whose footprint contains that of every
/// other one there.
pub open spec fn has_max_at(vars: EncodingVars, vals: Seq<Option<bool>>, limit: int, p: Point) -> bool {
    exists|m: Platform|
        #[trigger] has_source(vars, vals, limit, m) && m.spec_point() == p && forall|v: int, x: Platform|
            0 <= v < limit && candidate(vars, vals, v) && #[trigger] vars.decodes_to(v as u32, x)
                && x.spec_point() == p ==> dims_le(eff_dims(x), eff_dims(m))
}

/// Why an assignment does not decode soundly.
#[derive(Copy, Clone, Debug, PartialEq, Eq, Structural)]
pub enum DecodeError {
    /// The true placement variables at this origin have no largest footprint.
    DecodeInvariantViolation(Point),
}

impl PlatformLayout {
    /// Decodes as `from_values`, and checks that at every origin the true
    /// placement variables have a largest footprint, which is then the one
    /// selected; otherwise reports an origin where they do not.
    pub fn try_from_values(values: &Vec<Option<bool>>, vars: &EncodingVars) -> (r: Result<PlatformLayout, DecodeError>)
        requires
            vars.valid(),
        ensures
            r is Ok <==> forall|v: int, x: Platform|
                0 <= v <= u32::MAX && candidate(*vars, values@, v) && #[trigger] vars.decodes_to(v as u32, x)
                    ==> has_max_at(*vars, values@, u32::MAX as int + 1, x.spec_point()),
            r matches Ok(l) ==> decodes(*vars, values@, u32::MAX as int + 1, l.spec_platforms()),
            r matches Ok(l) ==> forall|e: int, v: int, x: Platform|
                0 <= e < l.spec_platforms().len() && 0 <= v <= u32::MAX && candidate(*vars, values@, v)
                    && #[trigger] vars.decodes_to(v as u32, x) && x.spec_point() == (
                #[trigger] l.spec_platforms()[e]).spec_point() ==> dims_le(
                    eff_dims(x),
                    eff_dims(l.spec_platforms()[e]),
                ),
            r matches Err(DecodeError::DecodeInvariantViolation(p)) ==> !has_max_at(
                *vars,
                values@,
                u32::MAX as int + 1,
                p,
            ),
    {
        let layout = PlatformLayout::from_values(values, vars);
        let ghost lim = u32::MAX as int + 1;
        let ghost ps = layout.platforms@;
        let end = vars.first_var() + vars.n_vars_exec();
        let mut v: u32 = vars.first_var();
        while v < end
            invariant
                vars.valid(),
                ps == layout.platforms@,
                decodes(*vars, values@, lim, ps),
                lim == u32::MAX as int + 1,
                end == vars.first() + vars.n_vars(),
                end <= MAX_VAR_INDEX,
                vars.first() <= v <= end,
                forall|w: int, x: Platform, e: int|
                    0 <= w < v && candidate(*vars, values@, w) && #[trigger] vars.decodes_to(w as u32, x)
                        && 0 <= e < ps.len() && x.spec_point() == (#[trigger] ps[e]).spec_point() ==> dims_le(
                        eff_dims(x),
                        eff_dims(ps[e]),
                    ),
            decreases end - v,
        {
            let val = if (v as usize) < values.len() {
                values[v as usize]
            } else {
                None
            };
            let is_one = match val {
                Some(b) => b,
                None => false,
            };
            if is_one {
                match vars.var_to_platform(v) {
                    Some(x) => {
                        proof {
                            assert(candidate(*vars, values@, v as int));
                            assert(has_entry(ps, vars.items()[v - vars.first()]->Platform_point));
                        }
                        match find_origin(&layout.platforms, x.point()) {
                            Some(e) => {
                                let sel = layout.platforms[e];
                                if !sel.dims().contains_dims(x.dims()) {
                                    proof {
                                        lemma_max_selection(*vars, values@, lim, ps, e as int);
                                        if has_max_at(*vars, values@, lim, x.spec_point()) {
                                            let m = choose|m: Platform|
                                                #[trigger] has_source(*vars, values@, lim, m) && m.spec_point() == x.spec_point() && forall|w: int, y: Platform|
                                                    0 <= w < lim && candidate(*vars, values@, w) && #[trigger] vars.decodes_to(w as u32, y)
                                                        && y.spec_point() == x.spec_point() ==> dims_le(eff_dims(y), eff_dims(m));
                                            assert(vars.decodes_to(v as u32, x));
                                        }
                                    }
                                    return Err(DecodeError::DecodeInvariantViolation(x.point()));
                                }
                                proof {
                                    assert forall|w: int, y: Platform, f: int|
                                        0 <= w < v + 1 && candidate(*vars, values@, w) && #[trigger] vars.decodes_to(w as u32, y)
                                            && 0 <= f < ps.len() && y.spec_point() == (#[trigger] ps[f]).spec_point() implies dims_le(
                                            eff_dims(y),
                                            eff_dims(ps[f]),
                                        ) by {
                                        if w == v {
                                            lemma_decodes_same(*vars, v, x, y);
                                            if f != e {
                                                assert(ps[f].spec_point() != ps[e as int].spec_point());
                                            }
                                        }
                                    }
                                }
                            },
                            None => {
                                proof {
                                    let f = choose|f: int| 0 <= f < ps.len() && (#[trigger] ps[f]).spec_point() == vars.items()[v - vars.first()]->Platform_point;
                                }
                                return Err(DecodeError::DecodeInvariantViolation(x.point()));
                            },
                        }
                    },
                    None => {},
                }
            }
            v = v + 1;
        }
        proof {
            assert forall|w: int, x: Platform|
                0 <= w <= u32::MAX && candidate(*vars, values@, w) && #[trigger] vars.decodes_to(w as u32, x)
                    implies has_max_at(*vars, values@, lim, x.spec_point()) by {
                assert(has_entry(ps, vars.items()[w - vars.first()]->Platform_point));
                let e = choose|e: int| 0 <= e < ps.len() && (#[trigger] ps[e]).spec_point() == vars.items()[w - vars.first()]->Platform_point;
                assert(has_source(*vars, values@, lim, ps[e]));
                assert forall|w2: int, y: Platform|
                    0 <= w2 < lim && candidate(*vars, values@, w2) && #[trigger] vars.decodes_to(w2 as u32, y)
                        && y.spec_point() == x.spec_point() implies dims_le(eff_dims(y), eff_dims(ps[e])) by {
                    assert(w2 < v);
                }
            }
        }
        Ok(layout)
    }

    /// Decodes a solver's assignment over the variables of `vars` as
    /// `try_from_values` does: the largest footprint at each origin, or
    /// `DecodeInvariantViolation` at an origin whose true placement variables
    /// have no largest footprint.
    pub fn from_assignment(assignment: &Assignment, vars: &EncodingVars) -> (r: Result<PlatformLayout, DecodeError>)
        requires
            vars.valid(),
        ensures
            ({
                let vals = assigned(*assignment, vars.first() + vars.n_vars());
                &&& r is Ok <==> forall|v: int, x: Platform|
                    0 <= v <= u32::MAX && candidate(*vars, vals, v) && #[trigger] vars.decodes_to(v as u32, x)
                        ==> has_max_at(*vars, vals, u32::MAX as int + 1, x.spec_point())
                &&& r matches Ok(l) ==> decodes(*vars, vals, u32::MAX as int + 1, l.spec_platforms())
                &&& r matches Err(DecodeError::DecodeInvariantViolation(p)) ==> !has_max_at(
                    *vars,
                    vals,
                    u32::MAX as int + 1,
                    p,
                )
            }),
    {
        let end = vars.first_var() + vars.n_vars_exec();
        let ghost vals = assigned(*assignment, vars.first() + vars.n_vars());
        let mut values: Vec<Option<bool>> = Vec::new();
        let mut v: u32 = 0;
        while v < end
            invariant
                vars.valid(),
                end == vars.first() + vars.n_vars(),
                end <= MAX_VAR_INDEX,
                v <= end,
                vals == assigned(*assignment, vars.first() + vars.n_vars()),
                values@ == vals.subrange(0, v as int),
            decreases end - v,
        {
            let x = var_value(assignment, v);
            values.push(x);
            v = v + 1;
            proof {
                assert(values@ =~= vals.subrange(0, v as int));
            }
        }
        proof {
            assert(values@ =~= vals);
        }
        PlatformLayout::try_from_values(&values, vars)
    }
}

} // verus!

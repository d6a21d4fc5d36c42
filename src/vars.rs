//! The variable index: one placement variable per tile and footprint, and a
//! stack of terrain-layer variables per terrain tile.
use vstd::prelude::*;

use crate::dimensions::{area, dims_eq, flip, in_dims, lemma_point_at_in, point_at, Dimensions};
use crate::grid::{flat_index, lemma_flat_index_in, Grid};
use crate::platform::{eff_dims, Platform, PlatformDef};
use crate::point::Point;
use crate::sat::{new_var, next_free_var, sat_clauses, sat_var_count, SatProblem, MAX_VAR_INDEX};
use crate::world::WorldGrid;
use crate::TERRAIN_SUPPORT_DISTANCE;

verus! {

/// The terrain-support depth as a spec integer.
pub open spec fn depth() -> nat {
    TERRAIN_SUPPORT_DISTANCE as nat
}

/// `s` holds a dimension equal to `d`.
pub open spec fn has_dims(s: Seq<Dimensions>, d: Dimensions) -> bool {
    exists|k: int| 0 <= k < s.len() && dims_eq(#[trigger] s[k], d)
}

/// No two entries of `s` are equal.
pub open spec fn distinct_dims(s: Seq<Dimensions>) -> bool {
    forall|a: int, b: int|
        0 <= a < s.len() && 0 <= b < s.len() && a != b ==> !dims_eq(#[trigger] s[a], #[trigger] s[b])
}

/// The position of `d` in `s`.
pub open spec fn fp_index(s: Seq<Dimensions>, d: Dimensions) -> int {
    choose|k: int| 0 <= k < s.len() && dims_eq(#[trigger] s[k], d)
}

/// `s` with `d` appended unless an equal dimension is already there.
pub open spec fn add_footprint(s: Seq<Dimensions>, d: Dimensions) -> Seq<Dimensions> {
    if has_dims(s, d) {
        s
    } else {
        s.push(d)
    }
}

/// The effective footprints of the first `n` catalog entries: each entry's
/// dimensions and their swap, in order of first appearance.
pub open spec fn footprints_upto(c: Seq<PlatformDef>, n: int) -> Seq<Dimensions>
    decreases n,
{
    if n <= 0 {
        Seq::empty()
    } else {
        add_footprint(
            add_footprint(footprints_upto(c, n - 1), c[n - 1].spec_dims()),
            flip(c[n - 1].spec_dims()),
        )
    }
}

/// The effective footprint dimensions of a catalog.
pub open spec fn footprints(c: Seq<PlatformDef>) -> Seq<Dimensions> {
    footprints_upto(c, c.len() as int)
}

/// The catalog entry `def` yields the footprint `d`, directly or rotated.
pub open spec fn def_matches(def: PlatformDef, d: Dimensions) -> bool {
    dims_eq(def.spec_dims(), d) || dims_eq(flip(def.spec_dims()), d)
}

/// The catalog entries that yield footprint `d`, in catalog order.
pub open spec fn defs_for(c: Seq<PlatformDef>, d: Dimensions) -> Seq<PlatformDef> {
    c.filter(|def: PlatformDef| def_matches(def, d))
}

/// Number of variables of one tile.
pub open spec fn span(n_fp: nat, terrain: bool) -> nat {
    n_fp + if terrain {
        depth()
    } else {
        0
    }
}

/// Number of variables of the tiles before row-major position `i`.
pub open spec fn tile_base(t: Seq<bool>, n_fp: nat, i: int) -> nat
    decreases i,
{
    if i <= 0 {
        0
    } else {
        tile_base(t, n_fp, i - 1) + span(n_fp, t[i - 1])
    }
}

/// Number of terrain cells before row-major position `i`.
pub open spec fn terrain_count(t: Seq<bool>, i: int) -> nat
    decreases i,
{
    if i <= 0 {
        0
    } else {
        terrain_count(t, i - 1) + if t[i - 1] {
            1nat
        } else {
            0
        }
    }
}

/// What a variable stands for.
#[derive(Copy, Clone, Debug)]
pub enum EncodedItem {
    /// A platform of footprint `dims` has its origin at `point`.
    Platform { point: Point, dims: Dimensions },
    /// Terrain support at `point` on layer `layer`.
    Terrain { point: Point, layer: usize },
}

/// The records of one tile's variables, in allocation order.
pub open spec fn tile_items(p: Point, terrain: bool, fps: Seq<Dimensions>) -> Seq<EncodedItem> {
    Seq::new(fps.len(), |k: int| EncodedItem::Platform { point: p, dims: fps[k] }) + if terrain {
        Seq::new(depth(), |l: int| EncodedItem::Terrain { point: p, layer: l as usize })
    } else {
        Seq::empty()
    }
}

/// The records of the variables of the tiles before row-major position `i`.
pub open spec fn items_upto(d: Dimensions, t: Seq<bool>, fps: Seq<Dimensions>, i: int) -> Seq<
    EncodedItem,
>
    decreases i,
{
    if i <= 0 {
        Seq::empty()
    } else {
        items_upto(d, t, fps, i - 1) + tile_items(point_at(d, i - 1), t[i - 1], fps)
    }
}

/// The variables of one tile.
#[derive(Clone, Debug)]
pub struct EncodingTileVars {
    dims_vars: Vec<(Dimensions, u32)>,
    terrain: Option<Vec<u32>>,
}

impl EncodingTileVars {
    pub closed spec fn spec_dims_vars(&self) -> Seq<(Dimensions, u32)> {
        self.dims_vars@
    }

    pub closed spec fn spec_terrain(&self) -> Option<Seq<u32>> {
        match self.terrain {
            Some(v) => Some(v@),
            None => None,
        }
    }

    /// The placement variable for footprint `dims`, `None` if it has none.
    pub fn for_dims(&self, dims: Dimensions) -> (r: Option<u32>)
        ensures
            r is Some <==> exists|k: int|
                0 <= k < self.spec_dims_vars().len() && dims_eq(
                    (#[trigger] self.spec_dims_vars()[k]).0,
                    dims,
                ),
            r matches Some(v) ==> exists|k: int|
                0 <= k < self.spec_dims_vars().len() && dims_eq(
                    (#[trigger] self.spec_dims_vars()[k]).0,
                    dims,
                ) && self.spec_dims_vars()[k].1 == v,
    {
        let mut k: usize = 0;
        while k < self.dims_vars.len()
            invariant
                k <= self.dims_vars@.len(),
                forall|j: int| 0 <= j < k ==> !dims_eq((#[trigger] self.spec_dims_vars()[j]).0, dims),
            decreases self.dims_vars@.len() - k,
        {
            let (d, v) = self.dims_vars[k];
            if d == dims {
                assert(dims_eq(self.spec_dims_vars()[k as int].0, dims));
                return Some(v);
            }
            k = k + 1;
        }
        None
    }

    /// The terrain-layer variables, `None` for a tile without terrain.
    pub fn terrain(&self) -> (r: Option<&Vec<u32>>)
        ensures
            r matches Some(v) ==> self.spec_terrain() == Some(v@),
            r is None ==> self.spec_terrain() is None,
    {
        match &self.terrain {
            Some(v) => Some(v),
            None => None,
        }
    }
}

/// Failures of building an encoding.
#[derive(Copy, Clone, Debug, PartialEq, Eq, Structural)]
pub enum EncodeError {
    /// The variables needed exceed the indices the solver accepts.
    AllocatorExhausted,
    /// The footprints span a rectangle too large to enumerate.
    DimensionOverflow,
    /// The weights of a weight limit do not fit the solver's integers.
    WeightOverflow,
}

/// The variable table of one encoding.
#[derive(Clone, Debug)]
pub struct EncodingVars {
    defs: Vec<PlatformDef>,
    dim_map: Vec<(Dimensions, Vec<PlatformDef>)>,
    footprints: Vec<Dimensions>,
    reps: Vec<PlatformDef>,
    terrain: Grid<bool>,
    grid: Grid<EncodingTileVars>,
    first: u32,
    items: Vec<EncodedItem>,
}

impl EncodingVars {
    /// The effective footprint dimensions, in allocation order.
    pub closed spec fn fps(&self) -> Seq<Dimensions> {
        self.footprints@
    }

    /// The terrain flags of the world, row-major.
    pub closed spec fn terrain_cells(&self) -> Seq<bool> {
        self.terrain.cells()
    }

    /// The world's dimensions.
    pub closed spec fn world_dims(&self) -> Dimensions {
        self.terrain.spec_dims()
    }

    /// The first variable of the table.
    pub closed spec fn first(&self) -> nat {
        self.first as nat
    }

    /// The record of each variable, indexed from `first()`.
    pub closed spec fn items(&self) -> Seq<EncodedItem> {
        self.items@
    }

    /// The catalog the table was built from.
    pub closed spec fn catalog(&self) -> Seq<PlatformDef> {
        self.defs@
    }

    /// The catalog entries that yield footprint `k`, in catalog order.
    pub closed spec fn entries(&self, k: int) -> Seq<PlatformDef> {
        self.dim_map@[k].1@
    }

    /// The catalog entry that stands for footprint `k`.
    pub closed spec fn rep(&self, k: int) -> PlatformDef {
        self.reps@[k]
    }

    pub closed spec fn tile(&self, i: int) -> EncodingTileVars {
        self.grid.cells()[i]
    }

    /// Number of tiles.
    pub open spec fn n_tiles(&self) -> int {
        self.terrain_cells().len() as int
    }

    /// Placement variable of tile `i` and footprint `k`.
    pub open spec fn pvar(&self, i: int, k: int) -> int {
        self.first() + tile_base(self.terrain_cells(), self.fps().len(), i) + k
    }

    /// Terrain variable of tile `i` on layer `l`.
    pub open spec fn tvar(&self, i: int, l: int) -> int {
        self.first() + tile_base(self.terrain_cells(), self.fps().len(), i) + self.fps().len()
            + l
    }

    /// Total number of variables.
    pub open spec fn n_vars(&self) -> nat {
        tile_base(self.terrain_cells(), self.fps().len(), self.n_tiles())
    }

    pub closed spec fn wf(&self) -> bool {
        &&& self.terrain.wf()
        &&& self.grid.wf()
        &&& self.grid.spec_dims() == self.terrain.spec_dims()
        &&& distinct_dims(self.fps())
        &&& self.reps@.len() == self.fps().len()
        &&& self.dim_map@.len() == self.fps().len()
        &&& forall|k: int| 0 <= k < self.fps().len() ==> def_matches(#[trigger] self.reps@[k], self.fps()[k])
        &&& forall|k: int| 0 <= k < self.fps().len() ==> (#[trigger] self.dim_map@[k]).0 == self.fps()[k]
        &&& forall|k: int| 0 <= k < self.fps().len() ==> self.defs@.contains(#[trigger] self.reps@[k])
        &&& forall|k: int|
            0 <= k < self.fps().len() ==> (#[trigger] self.dim_map@[k]).1@ == defs_for(self.defs@, self.fps()[k])
        &&& self.items@ == items_upto(
            self.world_dims(),
            self.terrain_cells(),
            self.fps(),
            self.n_tiles(),
        )
        &&& self.first + self.items@.len() <= MAX_VAR_INDEX
        &&& forall|i: int|
            0 <= i < self.n_tiles() ==> (#[trigger] self.tile(i)).spec_dims_vars() == Seq::new(
                self.fps().len(),
                |k: int| (self.fps()[k], self.pvar(i, k) as u32),
            )
        &&& forall|i: int|
            0 <= i < self.n_tiles() ==> (#[trigger] self.tile(i)).spec_terrain() == if self.terrain_cells()[i] {
                Some(Seq::new(depth(), |l: int| self.tvar(i, l) as u32))
            } else {
                None
            }
    }

    /// Public well-formedness: what every table built by `new` satisfies.
    pub open spec fn valid(&self) -> bool {
        &&& self.wf()
        &&& distinct_dims(self.fps())
        &&& self.terrain_cells().len() == area(self.world_dims())
        &&& self.terrain_cells().len() <= isize::MAX
        &&& self.items().len() == self.n_vars()
        &&& self.first() + self.n_vars() <= MAX_VAR_INDEX
        &&& forall|k: int| 0 <= k < self.fps().len() ==> def_matches(#[trigger] self.rep(k), self.fps()[k])
        &&& forall|k: int| 0 <= k < self.fps().len() ==> self.catalog().contains(#[trigger] self.rep(k))
        &&& forall|k: int|
            0 <= k < self.fps().len() ==> #[trigger] self.entries(k) == defs_for(self.catalog(), self.fps()[k])
    }
}

/// Adding a footprint keeps the entries distinct.
proof fn lemma_add_footprint_distinct(s: Seq<Dimensions>, d: Dimensions)
    requires
        distinct_dims(s),
    ensures
        distinct_dims(add_footprint(s, d)),
        has_dims(add_footprint(s, d), d),
        forall|x: Dimensions| has_dims(s, x) ==> has_dims(add_footprint(s, d), x),
{
    if !has_dims(s, d) {
        let t = s.push(d);
        assert(dims_eq(t[s.len() as int], d));
        assert forall|x: Dimensions| has_dims(s, x) implies has_dims(t, x) by {
            let k = choose|k: int| 0 <= k < s.len() && dims_eq(#[trigger] s[k], x);
            assert(dims_eq(t[k], x));
        }
    }
}

/// The effective footprints of a catalog are pairwise distinct.
pub proof fn lemma_footprints_distinct(c: Seq<PlatformDef>, n: int)
    requires
        n <= c.len(),
    ensures
        distinct_dims(footprints_upto(c, n)),
    decreases n,
{
    if n > 0 {
        lemma_footprints_distinct(c, n - 1);
        let s1 = add_footprint(footprints_upto(c, n - 1), c[n - 1].spec_dims());
        lemma_add_footprint_distinct(footprints_upto(c, n - 1), c[n - 1].spec_dims());
        lemma_add_footprint_distinct(s1, flip(c[n - 1].spec_dims()));
    }
}

/// One more tile adds its span of variables.
pub proof fn lemma_tile_base_mono(t: Seq<bool>, n_fp: nat, i: int, j: int)
    requires
        0 <= i <= j,
    ensures
        tile_base(t, n_fp, i) <= tile_base(t, n_fp, j),
        i < j ==> tile_base(t, n_fp, i) + span(n_fp, t[i]) <= tile_base(t, n_fp, j),
    decreases j - i,
{
    if i < j {
        lemma_tile_base_mono(t, n_fp, i, j - 1);
    }
}

/// The variable count: `n_fp` per tile plus the depth per terrain tile.
pub proof fn lemma_tile_base_count(t: Seq<bool>, n_fp: nat, i: int)
    requires
        0 <= i,
    ensures
        tile_base(t, n_fp, i) == i * n_fp + terrain_count(t, i) * depth(),
    decreases i,
{
    if i > 0 {
        lemma_tile_base_count(t, n_fp, i - 1);
        let tc = terrain_count(t, i - 1) as int;
        let dp = depth() as int;
        assert(i * n_fp == (i - 1) * n_fp + n_fp) by (nonlinear_arith);
        assert((tc + 1) * dp == tc * dp + dp) by (nonlinear_arith);
        if t[i - 1] {
            assert(terrain_count(t, i) == tc + 1);
            assert(span(n_fp, t[i - 1]) == n_fp + dp);
        } else {
            assert(terrain_count(t, i) == tc);
            assert(span(n_fp, t[i - 1]) == n_fp);
        }
    } else {
        assert(i == 0);
        assert(i * n_fp == 0) by (nonlinear_arith)
            requires
                i == 0,
        ;
        assert(terrain_count(t, i) == 0);
    }
}

/// The records cover exactly the allocated variables.
pub proof fn lemma_items_len(d: Dimensions, t: Seq<bool>, fps: Seq<Dimensions>, i: int)
    requires
        0 <= i,
    ensures
        items_upto(d, t, fps, i).len() == tile_base(t, fps.len(), i),
    decreases i,
{
    if i > 0 {
        lemma_items_len(d, t, fps, i - 1);
    }
}

/// The record of each placement and terrain variable.
pub proof fn lemma_items_index(d: Dimensions, t: Seq<bool>, fps: Seq<Dimensions>, n: int, i: int)
    requires
        0 <= i < n,
    ensures
        forall|k: int|
            0 <= k < fps.len() ==> #[trigger] items_upto(d, t, fps, n)[tile_base(t, fps.len(), i)
                + k] == (EncodedItem::Platform { point: point_at(d, i), dims: fps[k] }),
        t[i] ==> forall|l: int|
            0 <= l < depth() ==> #[trigger] items_upto(d, t, fps, n)[tile_base(t, fps.len(), i)
                + fps.len() + l] == (EncodedItem::Terrain { point: point_at(d, i), layer: l as usize }),
    decreases n,
{
    lemma_items_len(d, t, fps, n - 1);
    if i < n - 1 {
        lemma_items_index(d, t, fps, n - 1, i);
        lemma_tile_base_mono(t, fps.len(), i, n - 1);
        assert forall|k: int| 0 <= k < fps.len() implies #[trigger] items_upto(d, t, fps, n)[tile_base(t, fps.len(), i) + k]
            == items_upto(d, t, fps, n - 1)[tile_base(t, fps.len(), i) + k] by {}
        if t[i] {
            assert forall|l: int| 0 <= l < depth() implies #[trigger] items_upto(d, t, fps, n)[tile_base(t, fps.len(), i) + fps.len() + l]
                == items_upto(d, t, fps, n - 1)[tile_base(t, fps.len(), i) + fps.len() + l] by {}
        }
    }
}

/// Appends `d` with representative `def` unless an equal footprint is there.
fn push_footprint(fps: &mut Vec<Dimensions>, reps: &mut Vec<PlatformDef>, d: Dimensions, def: PlatformDef)
    requires
        old(fps)@.len() == old(reps)@.len(),
    ensures
        final(fps)@ == add_footprint(old(fps)@, d),
        final(reps)@.len() == final(fps)@.len(),
        forall|k: int| 0 <= k < old(reps)@.len() ==> final(reps)@[k] == old(reps)@[k],
        final(reps)@.len() > old(reps)@.len() ==> final(reps)@.last() == def,
{
    let mut k: usize = 0;
    while k < fps.len()
        invariant
            k <= fps@.len(),
            fps@ == old(fps)@,
            reps@ == old(reps)@,
            old(fps)@.len() == old(reps)@.len(),
            forall|j: int| 0 <= j < k ==> !dims_eq(#[trigger] fps@[j], d),
        decreases fps@.len() - k,
    {
        if fps[k] == d {
            assert(dims_eq(fps@[k as int], d));
            return;
        }
        k = k + 1;
    }
    fps.push(d);
    reps.push(def);
}

/// A copy of the catalog.
fn copy_defs(c: &Vec<PlatformDef>) -> (r: Vec<PlatformDef>)
    ensures
        r@ == c@,
{
    let mut out: Vec<PlatformDef> = Vec::new();
    let mut j: usize = 0;
    while j < c.len()
        invariant
            j <= c@.len(),
            out@ == c@.subrange(0, j as int),
        decreases c@.len() - j,
    {
        out.push(c[j]);
        j = j + 1;
        proof {
            assert(out@ =~= c@.subrange(0, j as int));
        }
    }
    proof {
        assert(c@.subrange(0, c@.len() as int) =~= c@);
    }
    out
}

/// The effective footprints of a catalog with a representative entry each.
fn collect_footprints(c: &Vec<PlatformDef>) -> (r: (Vec<Dimensions>, Vec<PlatformDef>))
    ensures
        r.0@ == footprints(c@),
        r.1@.len() == r.0@.len(),
        forall|k: int| 0 <= k < r.0@.len() ==> def_matches(#[trigger] r.1@[k], r.0@[k]),
        forall|k: int| 0 <= k < r.0@.len() ==> c@.contains(#[trigger] r.1@[k]),
{
    let mut fps: Vec<Dimensions> = Vec::new();
    let mut reps: Vec<PlatformDef> = Vec::new();
    let mut j: usize = 0;
    while j < c.len()
        invariant
            j <= c@.len(),
            fps@ == footprints_upto(c@, j as int),
            reps@.len() == fps@.len(),
            forall|k: int| 0 <= k < fps@.len() ==> def_matches(#[trigger] reps@[k], fps@[k]),
            forall|k: int| 0 <= k < fps@.len() ==> c@.contains(#[trigger] reps@[k]),
        decreases c@.len() - j,
    {
        let def = c[j];
        let d = def.dims();
        let n0 = fps.len();
        proof {
            assert(c@[j as int] == def);
        }
        push_footprint(&mut fps, &mut reps, d, def);
        assert(fps@.len() > n0 ==> fps@[n0 as int] == d);
        push_footprint(&mut fps, &mut reps, d.flipped(), def);
        j = j + 1;
    }
    (fps, reps)
}

/// Maps each effective footprint to the catalog entries that yield it,
/// directly or rotated.
pub fn dims_platform_map(platform_defs: &Vec<PlatformDef>) -> (r: Vec<(Dimensions, Vec<PlatformDef>)>)
    ensures
        r@.len() == footprints(platform_defs@).len(),
        forall|k: int|
            0 <= k < r@.len() ==> (#[trigger] r@[k]).0 == footprints(platform_defs@)[k] && r@[k].1@
                == defs_for(platform_defs@, r@[k].0),
{
    let (fps, _reps) = collect_footprints(platform_defs);
    let mut out: Vec<(Dimensions, Vec<PlatformDef>)> = Vec::new();
    let mut k: usize = 0;
    while k < fps.len()
        invariant
            k <= fps@.len(),
            fps@ == footprints(platform_defs@),
            out@.len() == k,
            forall|m: int|
                0 <= m < k ==> (#[trigger] out@[m]).0 == fps@[m] && out@[m].1@
                    == defs_for(platform_defs@, out@[m].0),
        decreases fps@.len() - k,
    {
        let d = fps[k];
        let mut defs: Vec<PlatformDef> = Vec::new();
        let mut j: usize = 0;
        while j < platform_defs.len()
            invariant
                j <= platform_defs@.len(),
                defs@ == platform_defs@.subrange(0, j as int).filter(
                    |def: PlatformDef| def_matches(def, d),
                ),
            decreases platform_defs@.len() - j,
        {
            let def = platform_defs[j];
            proof {
                let pred = |def: PlatformDef| def_matches(def, d);
                assert(platform_defs@.subrange(0, j + 1).drop_last() =~= platform_defs@.subrange(0, j as int));
                reveal(Seq::filter);
            }
            let dd = def.dims();
            if dd == d || dd.flipped() == d {
                defs.push(def);
            }
            j = j + 1;
        }
        proof {
            assert(platform_defs@.subrange(0, platform_defs@.len() as int) =~= platform_defs@);
        }
        out.push((d, defs));
        k = k + 1;
    }
    out
}

impl EncodingVars {
    /// Allocates the variables of a catalog over a world: for every tile in
    /// row-major order, one placement variable per effective footprint, then
    /// one variable per support layer if the tile holds terrain.
    ///
    /// Fails, with the instance untouched, when the variables would exceed
    /// the indices the solver accepts.
    pub fn new(platform_defs: &Vec<PlatformDef>, terrain: &WorldGrid, var_man: &mut SatProblem) -> (r:
        Result<EncodingVars, EncodeError>)
        requires
            terrain.0.wf(),
        ensures
            r is Err <==> sat_var_count(*old(var_man)) + tile_base(
                terrain.0.cells(),
                footprints(platform_defs@).len(),
                terrain.0.cells().len() as int,
            ) > MAX_VAR_INDEX,
            r is Err ==> r == Err::<EncodingVars, EncodeError>(EncodeError::AllocatorExhausted)
                && *final(var_man) == *old(var_man),
            r matches Ok(v) ==> {
                &&& v.valid()
                &&& v.fps() == footprints(platform_defs@)
                &&& v.catalog() == platform_defs@
                &&& v.terrain_cells() == terrain.0.cells()
                &&& v.world_dims() == terrain.0.spec_dims()
                &&& v.first() == sat_var_count(*old(var_man))
                &&& sat_var_count(*final(var_man)) == sat_var_count(*old(var_man)) + v.n_vars()
                &&& sat_clauses(*final(var_man)) == sat_clauses(*old(var_man))
            },
    {
        let (fps, reps) = collect_footprints(platform_defs);
        let dim_map = dims_platform_map(platform_defs);
        proof {
            lemma_footprints_distinct(platform_defs@, platform_defs@.len() as int);
        }
        let defs = copy_defs(platform_defs);
        let dims = terrain.0.dims();
        let cells = terrain.0.iter();
        let n = cells.len();
        let nfp = fps.len();
        let ghost t = cells@;
        let first = var_man_count(var_man);
        // Count first, so that a failure leaves the instance untouched.
        let mut total: u64 = 0;
        let mut i: usize = 0;
        while i < n
            invariant
                i <= n,
                n == t.len(),
                nfp == fps@.len(),
                first == sat_var_count(*var_man),
                *var_man == *old(var_man),
                cells@ == t,
                t == terrain.0.cells(),
                fps@ == footprints(platform_defs@),
                distinct_dims(fps@),
                reps@.len() == fps@.len(),
                forall|k: int| 0 <= k < fps@.len() ==> def_matches(#[trigger] reps@[k], fps@[k]),
                dim_map@.len() == fps@.len(),
                forall|k: int| 0 <= k < dim_map@.len() ==> (#[trigger] dim_map@[k]).0 == fps@[k],
                forall|k: int| 0 <= k < fps@.len() ==> platform_defs@.contains(#[trigger] reps@[k]),
                forall|k: int| 0 <= k < dim_map@.len() ==> (#[trigger] dim_map@[k]).1@ == defs_for(platform_defs@, fps@[k]),
                defs@ == platform_defs@,
                terrain.0.wf(),

                first <= MAX_VAR_INDEX,
                total == tile_base(t, nfp as nat, i as int),
                first + total <= MAX_VAR_INDEX,
            decreases n - i,
        {
            if nfp > MAX_VAR_INDEX as usize {
                proof {
                    lemma_tile_base_mono(t, nfp as nat, i as int, n as int);
                }
                return Err(EncodeError::AllocatorExhausted);
            }
            let step: u64 = if cells[i] {
                nfp as u64 + TERRAIN_SUPPORT_DISTANCE as u64
            } else {
                nfp as u64
            };
            if step > MAX_VAR_INDEX as u64 - first as u64 - total {
                proof {
                    lemma_tile_base_mono(t, nfp as nat, i + 1, n as int);
                    assert(tile_base(t, nfp as nat, i + 1) == total + step);
                }
                return Err(EncodeError::AllocatorExhausted);
            }
            total = total + step;
            i = i + 1;
        }
        let mut items: Vec<EncodedItem> = Vec::new();
        let mut tiles: Vec<EncodingTileVars> = Vec::new();
        let mut i: usize = 0;
        while i < n
            invariant
                i <= n,
                n == t.len(),
                t == terrain.0.cells(),
                cells@ == t,
                fps@ == footprints(platform_defs@),
                distinct_dims(fps@),
                reps@.len() == fps@.len(),
                forall|k: int| 0 <= k < fps@.len() ==> def_matches(#[trigger] reps@[k], fps@[k]),
                dim_map@.len() == fps@.len(),
                forall|k: int| 0 <= k < dim_map@.len() ==> (#[trigger] dim_map@[k]).0 == fps@[k],
                forall|k: int| 0 <= k < fps@.len() ==> platform_defs@.contains(#[trigger] reps@[k]),
                forall|k: int| 0 <= k < dim_map@.len() ==> (#[trigger] dim_map@[k]).1@ == defs_for(platform_defs@, fps@[k]),
                defs@ == platform_defs@,
                terrain.0.wf(),
                t.len() == area(dims),
                t.len() <= isize::MAX,
                dims == terrain.0.spec_dims(),
                nfp == fps@.len(),
                first + tile_base(t, nfp as nat, n as int) <= MAX_VAR_INDEX,
                items@ == items_upto(dims, t, fps@, i as int),
                sat_var_count(*var_man) == first + tile_base(t, nfp as nat, i as int),
                sat_clauses(*var_man) == sat_clauses(*old(var_man)),
                tiles@.len() == i,
                forall|j: int|
                    0 <= j < i ==> (#[trigger] tiles@[j]).spec_dims_vars() == Seq::new(
                        nfp as nat,
                        |k: int| (fps@[k], (first + tile_base(t, nfp as nat, j) + k) as u32),
                    ),
                forall|j: int|
                    0 <= j < i ==> (#[trigger] tiles@[j]).spec_terrain() == if t[j] {
                        Some(
                            Seq::new(
                                depth(),
                                |l: int| (first + tile_base(t, nfp as nat, j) + nfp + l) as u32,
                            ),
                        )
                    } else {
                        None
                    },
            decreases n - i,
        {
            proof {
                lemma_point_at_in(dims, i as int);
                lemma_tile_base_mono(t, nfp as nat, i as int, n as int);
                lemma_items_len(dims, t, fps@, i as int);
            }
            let p = Point::new((i % dims.width) as isize, (i / dims.width) as isize);
            let ghost base = tile_base(t, nfp as nat, i as int);
            let ghost items0 = items@;
            let mut dims_vars: Vec<(Dimensions, u32)> = Vec::new();
            let mut k: usize = 0;
            while k < nfp
                invariant
                    k <= nfp,
                    nfp == fps@.len(),
                    first + base + span(nfp as nat, t[i as int]) <= MAX_VAR_INDEX,
                    sat_var_count(*var_man) == first + base + k,
                    sat_clauses(*var_man) == sat_clauses(*old(var_man)),
                    items@ == items0 + Seq::new(
                        k as nat,
                        |m: int| EncodedItem::Platform { point: p, dims: fps@[m] },
                    ),
                    dims_vars@ == Seq::new(k as nat, |m: int| (fps@[m], (first + base + m) as u32)),
                decreases nfp - k,
            {
                let v = new_var(var_man);
                dims_vars.push((fps[k], v));
                items.push(EncodedItem::Platform { point: p, dims: fps[k] });
                k = k + 1;
                proof {
                    assert(dims_vars@ =~= Seq::new(k as nat, |m: int| (fps@[m], (first + base + m) as u32)));
                    assert(items@ =~= items0 + Seq::new(
                        k as nat,
                        |m: int| EncodedItem::Platform { point: p, dims: fps@[m] },
                    ));
                }
            }
            let ghost items1 = items@;
            let tile_terrain = if cells[i] {
                let mut layers: Vec<u32> = Vec::new();
                let mut l: usize = 0;
                while l < TERRAIN_SUPPORT_DISTANCE
                    invariant
                        l <= depth(),
                        t[i as int],
                        nfp == fps@.len(),
                        first + base + nfp + depth() <= MAX_VAR_INDEX,
                        sat_var_count(*var_man) == first + base + nfp + l,
                        sat_clauses(*var_man) == sat_clauses(*old(var_man)),
                        items@ == items1 + Seq::new(
                            l as nat,
                            |m: int| EncodedItem::Terrain { point: p, layer: m as usize },
                        ),
                        layers@ == Seq::new(l as nat, |m: int| (first + base + nfp + m) as u32),
                    decreases depth() - l,
                {
                    let v = new_var(var_man);
                    layers.push(v);
                    items.push(EncodedItem::Terrain { point: p, layer: l });
                    l = l + 1;
                    proof {
                        assert(layers@ =~= Seq::new(l as nat, |m: int| (first + base + nfp + m) as u32));
                        assert(items@ =~= items1 + Seq::new(
                            l as nat,
                            |m: int| EncodedItem::Terrain { point: p, layer: m as usize },
                        ));
                    }
                }
                Some(layers)
            } else {
                None
            };
            proof {
                assert(p == point_at(dims, i as int));
                assert(items@ =~= items_upto(dims, t, fps@, i + 1));
            }
            tiles.push(EncodingTileVars { dims_vars, terrain: tile_terrain });
            i = i + 1;
        }
        let terrain_copy = Grid::try_from_vec(dims, cells);
        let grid = Grid::try_from_vec(dims, tiles);
        match (terrain_copy, grid) {
            (Some(terrain_copy), Some(grid)) => {
                let r = EncodingVars {
                    defs,
                    dim_map,
                    footprints: fps,
                    reps,
                    terrain: terrain_copy,
                    grid,
                    first,
                    items,
                };
                proof {
                    lemma_items_len(dims, t, r.fps(), n as int);
                    assert forall|j: int| 0 <= j < r.n_tiles() implies (#[trigger] r.tile(j)).spec_dims_vars()
                        == Seq::new(r.fps().len(), |k: int| (r.fps()[k], r.pvar(j, k) as u32)) by {
                        assert(r.tile(j).spec_dims_vars() =~= Seq::new(
                            r.fps().len(),
                            |k: int| (r.fps()[k], r.pvar(j, k) as u32),
                        ));
                    }
                    assert forall|j: int| 0 <= j < r.n_tiles() implies (#[trigger] r.tile(j)).spec_terrain()
                        == if r.terrain_cells()[j] {
                        Some(Seq::new(depth(), |l: int| r.tvar(j, l) as u32))
                    } else {
                        None
                    } by {
                        if t[j] {
                            assert(r.tile(j).spec_terrain()->0 =~= Seq::new(depth(), |l: int| r.tvar(j, l) as u32));
                        }
                    }
                    assert(r.wf());
                }
                Ok(r)
            },
            _ => {
                proof {
                    assert(false);
                }
                Err(EncodeError::AllocatorExhausted)
            },
        }
    }
}

/// The next free variable of an instance, read without allocating.
fn var_man_count(var_man: &mut SatProblem) -> (r: u32)
    ensures
        r == sat_var_count(*old(var_man)),
        r <= MAX_VAR_INDEX,
        *final(var_man) == *old(var_man),
{
    next_free_var(var_man)
}

/// Two entries of a distinct sequence equal to the same dimension coincide.
pub proof fn lemma_distinct_unique(s: Seq<Dimensions>, d: Dimensions, a: int)
    requires
        distinct_dims(s),
        0 <= a < s.len(),
        dims_eq(s[a], d),
    ensures
        has_dims(s, d),
        fp_index(s, d) == a,
{
    assert(has_dims(s, d));
    let b = fp_index(s, d);
    if a != b {
        assert(!dims_eq(s[a], s[b]));
    }
}

impl EncodingVars {
    /// The placement variable of footprint `d` at `p`, if both exist.
    pub open spec fn var_of(&self, p: Point, d: Dimensions) -> Option<u32> {
        if in_dims(self.world_dims(), p) && has_dims(self.fps(), d) {
            Some(self.pvar(flat_index(self.world_dims(), p), fp_index(self.fps(), d)) as u32)
        } else {
            None
        }
    }

    /// `v` is a placement variable of this table.
    pub open spec fn is_placement(&self, v: u32) -> bool {
        &&& self.first() <= v < self.first() + self.items().len()
        &&& self.items()[v - self.first()] is Platform
        &&& has_dims(self.fps(), self.items()[v - self.first()]->Platform_dims)
    }

    /// `pl` is what the placement variable `v` decodes to: its origin, the
    /// representative entry of its footprint, and rotated exactly when that
    /// entry's dimensions differ from the footprint.
    pub open spec fn decodes_to(&self, v: u32, pl: Platform) -> bool {
        let item = self.items()[v - self.first()];
        &&& pl.spec_point() == item->Platform_point
        &&& pl.spec_def() == self.rep(fp_index(self.fps(), item->Platform_dims))
        &&& pl.spec_rotated() == !dims_eq(pl.spec_def().spec_dims(), item->Platform_dims)
    }

    /// The position of footprint `dims`, `None` if it is not one.
    fn find_fp(&self, dims: Dimensions) -> (r: Option<usize>)
        requires
            self.valid(),
        ensures
            r is Some <==> has_dims(self.fps(), dims),
            r matches Some(k) ==> k < self.fps().len() && k == fp_index(self.fps(), dims)
                && dims_eq(self.fps()[k as int], dims),
    {
        let mut k: usize = 0;
        while k < self.footprints.len()
            invariant
                self.valid(),
                k <= self.fps().len(),
                forall|j: int| 0 <= j < k ==> !dims_eq(#[trigger] self.fps()[j], dims),
            decreases self.fps().len() - k,
        {
            if self.footprints[k] == dims {
                proof {
                    lemma_distinct_unique(self.fps(), dims, k as int);
                }
                return Some(k);
            }
            k = k + 1;
        }
        None
    }

    /// The first variable of the table.
    pub fn first_var(&self) -> (r: u32)
        ensures
            r == self.first(),
    {
        self.first
    }

    /// The record of a variable, `None` outside the table.
    pub fn var_item(&self, v: u32) -> (r: Option<EncodedItem>)
        requires
            self.valid(),
        ensures
            r == (if self.first() <= v < self.first() + self.items().len() {
                Some(self.items()[v - self.first()])
            } else {
                None
            }),
    {
        if v >= self.first && ((v - self.first) as usize) < self.items.len() {
            Some(self.items[(v - self.first) as usize])
        } else {
            None
        }
    }

    /// The records of all variables, indexed from `first_var()`.
    pub fn var_map(&self) -> (r: &Vec<EncodedItem>)
        ensures
            r@ == self.items(),
    {
        &self.items
    }

    /// The effective footprint dimensions, in allocation order.
    pub fn platform_dims(&self) -> (r: &Vec<Dimensions>)
        ensures
            r@ == self.fps(),
    {
        &self.footprints
    }

    /// Each effective footprint with the catalog entries that yield it.
    pub fn dims_platform_map(&self) -> (r: &Vec<(Dimensions, Vec<PlatformDef>)>)
        requires
            self.valid(),
        ensures
            r@.len() == self.fps().len(),
            forall|k: int|
                0 <= k < r@.len() ==> (#[trigger] r@[k]).0 == self.fps()[k] && r@[k].1@ == defs_for(
                    self.catalog(),
                    self.fps()[k],
                ),
    {
        &self.dim_map
    }

    /// The variables of the tile at `point`, `None` outside the world.
    pub fn at(&self, point: Point) -> (r: Option<&EncodingTileVars>)
        requires
            self.valid(),
        ensures
            r is Some <==> in_dims(self.world_dims(), point),
            r matches Some(t) ==> *t == self.tile(flat_index(self.world_dims(), point)),
    {
        self.grid.get(point)
    }

    /// The variable claiming that a platform of footprint `dims` has its
    /// origin at `point`; `None` outside the world or for a footprint
    /// outside the catalog.
    pub fn for_dims_at(&self, point: Point, dims: Dimensions) -> (r: Option<u32>)
        requires
            self.valid(),
        ensures
            r == self.var_of(point, dims),
    {
        match self.grid.get(point) {
            Some(tile) => {
                let r = tile.for_dims(dims);
                proof {
                    let i = flat_index(self.world_dims(), point);
                    lemma_flat_index_in(self.world_dims(), point);
                    assert(*tile == self.tile(i));
                    if r is Some {
                        let k = choose|k: int|
                            0 <= k < tile.spec_dims_vars().len() && dims_eq(
                                (#[trigger] tile.spec_dims_vars()[k]).0,
                                dims,
                            ) && tile.spec_dims_vars()[k].1 == r->0;
                        lemma_distinct_unique(self.fps(), dims, k);
                    } else {
                        if has_dims(self.fps(), dims) {
                            let k = fp_index(self.fps(), dims);
                            assert(dims_eq(tile.spec_dims_vars()[k].0, dims));
                        }
                    }
                }
                r
            },
            None => None,
        }
    }

    /// The placement variables of footprint `dims` over all tiles, in
    /// row-major order; `None` for a footprint outside the catalog.
    pub fn iter_dims_vars(&self, dims: Dimensions) -> (r: Option<Vec<u32>>)
        requires
            self.valid(),
        ensures
            r is Some <==> has_dims(self.fps(), dims),
            r matches Some(vs) ==> vs@ == Seq::new(
                self.n_tiles() as nat,
                |i: int| self.pvar(i, fp_index(self.fps(), dims)) as u32,
            ),
    {
        let k = match self.find_fp(dims) {
            Some(k) => k,
            None => {
                return None;
            },
        };
        let mut out: Vec<u32> = Vec::new();
        let mut i: usize = 0;
        let cells = self.grid.cells_ref();
        while i < cells.len()
            invariant
                self.valid(),
                k < self.fps().len(),
                k == fp_index(self.fps(), dims),
                cells@ == self.grid.cells(),
                i <= cells@.len(),
                cells@.len() == self.n_tiles(),
                out@ == Seq::new(i as nat, |j: int| self.pvar(j, k as int) as u32),
            decreases cells@.len() - i,
        {
            proof {
                assert(self.tile(i as int) == cells@[i as int]);
                assert(self.tile(i as int).spec_dims_vars()[k as int].1 == self.pvar(i as int, k as int) as u32);
            }
            let v = cells[i].dims_vars[k].1;
            out.push(v);
            i = i + 1;
            proof {
                assert(out@ =~= Seq::new(i as nat, |j: int| self.pvar(j, k as int) as u32));
            }
        }
        Some(out)
    }

    /// What a placement variable stands for: a platform at its tile, of the
    /// representative catalog entry of its footprint, rotated when that
    /// entry is the footprint's swap. `None` for terrain-layer variables and
    /// variables outside the table.
    pub fn var_to_platform(&self, var: u32) -> (r: Option<Platform>)
        requires
            self.valid(),
        ensures
            r is Some <==> self.is_placement(var),
            r matches Some(pl) ==> self.decodes_to(var, pl),
    {
        match self.var_item(var) {
            Some(EncodedItem::Platform { point, dims }) => {
                match self.find_fp(dims) {
                    Some(k) => {
                        let def = self.reps[k];
                        let rotated = !(def.dims() == dims);
                        Some(Platform::new(point, def, rotated))
                    },
                    None => None,
                }
            },
            _ => None,
        }
    }
}

impl EncodingVars {
    /// Placement and terrain variables lie inside the table, and placement
    /// variables of different tiles or footprints differ.
    pub proof fn lemma_var_bounds(&self, i: int, k: int)
        requires
            self.valid(),
            0 <= i < self.n_tiles(),
            0 <= k < span(self.fps().len(), self.terrain_cells()[i]),
        ensures
            self.first() <= self.pvar(i, k) < self.first() + self.n_vars(),
            self.pvar(i, k) <= MAX_VAR_INDEX,
    {
        lemma_tile_base_mono(self.terrain_cells(), self.fps().len(), i, self.n_tiles());
    }
}

/// Building a table allocates exactly `|W| * |S| + (terrain cells) * K`
/// variables, and each of them has exactly one record: the placement
/// variable of tile `i` and footprint `k` is recorded as that platform, the
/// layer-`l` variable of a terrain tile as that layer.
pub proof fn lemma_allocation(v: &EncodingVars)
    requires
        v.valid(),
    ensures
        v.n_vars() == v.n_tiles() * v.fps().len() + terrain_count(v.terrain_cells(), v.n_tiles())
            * depth(),
        v.items().len() == v.n_vars(),
        forall|i: int, k: int|
            0 <= i < v.n_tiles() && 0 <= k < v.fps().len() ==> #[trigger] v.items()[v.pvar(i, k)
                - v.first()] == (EncodedItem::Platform {
                point: point_at(v.world_dims(), i),
                dims: v.fps()[k],
            }),
        forall|i: int, l: int|
            0 <= i < v.n_tiles() && 0 <= l < depth() && v.terrain_cells()[i] ==> #[trigger] v.items()[v.tvar(i, l)
                - v.first()] == (EncodedItem::Terrain {
                point: point_at(v.world_dims(), i),
                layer: l as usize,
            }),
{
    lemma_tile_base_count(v.terrain_cells(), v.fps().len(), v.n_tiles());
    assert forall|i: int, k: int|
        0 <= i < v.n_tiles() && 0 <= k < v.fps().len() implies #[trigger] v.items()[v.pvar(i, k)
            - v.first()] == (EncodedItem::Platform {
            point: point_at(v.world_dims(), i),
            dims: v.fps()[k],
        }) by {
        lemma_items_index(v.world_dims(), v.terrain_cells(), v.fps(), v.n_tiles(), i);
        assert(v.pvar(i, k) - v.first() == tile_base(v.terrain_cells(), v.fps().len(), i) + k);
    }
    assert forall|i: int, l: int|
        0 <= i < v.n_tiles() && 0 <= l < depth() && v.terrain_cells()[i] implies #[trigger] v.items()[v.tvar(i, l)
            - v.first()] == (EncodedItem::Terrain {
            point: point_at(v.world_dims(), i),
            layer: l as usize,
        }) by {
        lemma_items_index(v.world_dims(), v.terrain_cells(), v.fps(), v.n_tiles(), i);
        assert(v.tvar(i, l) - v.first() == tile_base(v.terrain_cells(), v.fps().len(), i)
            + v.fps().len() + l);
    }
}

/// For every footprint of the catalog, its placement variables (one per
/// tile, as `iter_dims_vars` lists them) are pairwise distinct.
pub proof fn lemma_dims_vars_distinct(v: &EncodingVars, d: Dimensions)
    requires
        v.valid(),
        has_dims(v.fps(), d),
    ensures
        forall|i: int, j: int|
            0 <= i < v.n_tiles() && 0 <= j < v.n_tiles() && i != j ==> #[trigger] (v.pvar(
                i,
                fp_index(v.fps(), d),
            ) as u32) != #[trigger] (v.pvar(j, fp_index(v.fps(), d)) as u32),
{
    let k = fp_index(v.fps(), d);
    assert forall|i: int, j: int|
        0 <= i < v.n_tiles() && 0 <= j < v.n_tiles() && i != j implies #[trigger] (v.pvar(i, k) as u32)
            != #[trigger] (v.pvar(j, k) as u32) by {
        v.lemma_var_bounds(i, k);
        v.lemma_var_bounds(j, k);
        if i < j {
            lemma_tile_base_mono(v.terrain_cells(), v.fps().len(), i, j);
        } else {
            lemma_tile_base_mono(v.terrain_cells(), v.fps().len(), j, i);
        }
    }
}

/// The placement variable of footprint `d` at origin `p` decodes back to a
/// platform at `p` of an entry of the catalog, whose effective footprint
/// equals `d`, rotated exactly when `d` differs from that entry's dimensions.
pub proof fn lemma_var_platform_round_trip(v: &EncodingVars, p: Point, d: Dimensions, pl: Platform)
    requires
        v.valid(),
        in_dims(v.world_dims(), p),
        has_dims(v.fps(), d),
    ensures
        v.var_of(p, d) is Some,
        v.is_placement(v.var_of(p, d)->0),
        v.decodes_to(v.var_of(p, d)->0, pl) ==> {
            &&& pl.spec_point() == p
            &&& v.catalog().contains(pl.spec_def())
            &&& dims_eq(eff_dims(pl), d)
            &&& pl.spec_rotated() == !dims_eq(d, pl.spec_def().spec_dims())
        },
{
    let i = flat_index(v.world_dims(), p);
    let k = fp_index(v.fps(), d);
    lemma_flat_index_in(v.world_dims(), p);
    lemma_allocation(v);
    v.lemma_var_bounds(i, k);
    let x = v.pvar(i, k) as u32;
    assert(x - v.first() == v.pvar(i, k) - v.first());
    assert(v.items()[x - v.first()] == (EncodedItem::Platform { point: p, dims: v.fps()[k] }));
    lemma_distinct_unique(v.fps(), v.fps()[k], k);
    assert(dims_eq(v.fps()[k], v.fps()[k]));
}

impl EncodingVars {
    /// The placement variable of tile `i` (row-major) and footprint `k`.
    pub fn placement_var(&self, i: usize, k: usize) -> (r: u32)
        requires
            self.valid(),
            i < self.n_tiles(),
            k < self.fps().len(),
        ensures
            r == self.pvar(i as int, k as int),
    {
        proof {
            self.lemma_var_bounds(i as int, k as int);
        }
        let cells = self.grid.cells_ref();
        proof {
            assert(cells@[i as int] == self.tile(i as int));
            assert(self.tile(i as int).spec_dims_vars()[k as int] == (self.fps()[k as int], self.pvar(i as int, k as int) as u32));
        }
        cells[i].dims_vars[k].1
    }

    /// The variable of tile `i` (row-major, a terrain tile) on layer `l`.
    pub fn terrain_var(&self, i: usize, l: usize) -> (r: u32)
        requires
            self.valid(),
            i < self.n_tiles(),
            self.terrain_cells()[i as int],
            l < depth(),
        ensures
            r == self.tvar(i as int, l as int),
    {
        proof {
            self.lemma_var_bounds(i as int, self.fps().len() + l);
        }
        let cells = self.grid.cells_ref();
        proof {
            assert(cells@[i as int] == self.tile(i as int));
        }
        match &cells[i].terrain {
            Some(layers) => layers[l],
            None => {
                proof {
                    assert(false);
                }
                0
            },
        }
    }

    /// Tile `i` (row-major) holds terrain.
    pub fn is_terrain(&self, i: usize) -> (r: bool)
        requires
            self.valid(),
            i < self.n_tiles(),
        ensures
            r == self.terrain_cells()[i as int],
    {
        let cells = self.terrain.cells_ref();
        cells[i]
    }

    /// The world's dimensions.
    pub fn world_dims_exec(&self) -> (r: Dimensions)
        ensures
            r == self.world_dims(),
    {
        self.terrain.dims()
    }

    /// The catalog entry that stands for footprint `k`.
    pub fn representative(&self, k: usize) -> (r: PlatformDef)
        requires
            self.valid(),
            k < self.fps().len(),
        ensures
            r == self.rep(k as int),
    {
        self.reps[k]
    }

    /// The number of variables of the table.
    pub fn n_vars_exec(&self) -> (r: u32)
        requires
            self.valid(),
        ensures
            r == self.n_vars(),
    {
        self.items.len() as u32
    }

    /// The number of footprints.
    pub fn n_footprints(&self) -> (r: usize)
        ensures
            r == self.fps().len(),
    {
        self.footprints.len()
    }

    /// The number of tiles.
    pub fn n_tiles_exec(&self) -> (r: usize)
        requires
            self.valid(),
        ensures
            r == self.n_tiles(),
    {
        self.terrain.cells_ref().len()
    }
}

/// The effective footprint dimensions of a catalog: each entry's dimensions
/// and their swap, in order of first appearance, without repeats.
pub fn effective_footprints(platform_defs: &Vec<PlatformDef>) -> (r: Vec<Dimensions>)
    ensures
        r@ == footprints(platform_defs@),
        distinct_dims(r@),
{
    proof {
        lemma_footprints_distinct(platform_defs@, platform_defs@.len() as int);
    }
    let (fps, _reps) = collect_footprints(platform_defs);
    fps
}

/// The label `{prefix}P{w}x{h}({x};{y})` of a placement literal.
pub uninterp spec fn platform_lit_label(prefix: Seq<char>, w: int, h: int, x: int, y: int) -> Seq<char>;

/// The label `{prefix}T{layer}({x};{y})` of a terrain-layer literal.
pub uninterp spec fn terrain_lit_label(prefix: Seq<char>, layer: int, x: int, y: int) -> Seq<char>;

/// Relies on `format!` with `{}P{}x{}({};{})`: the text depends on the
/// arguments alone.
#[verifier::external_body]
fn format_platform_lit(prefix: &str, d: Dimensions, p: Point) -> (r: String)
    ensures
        r@ == platform_lit_label(prefix@, d.width as int, d.height as int, p.x as int, p.y as int),
{
    format!("{}P{}x{}({};{})", prefix, d.width, d.height, p.x, p.y)
}

/// Relies on `format!` with `{}T{}({};{})`: the text depends on the
/// arguments alone.
#[verifier::external_body]
fn format_terrain_lit(prefix: &str, layer: usize, p: Point) -> (r: String)
    ensures
        r@ == terrain_lit_label(prefix@, layer as int, p.x as int, p.y as int),
{
    format!("{}T{}({};{})", prefix, layer, p.x, p.y)
}

/// The prefix of a literal's label: `~` for a negated one.
pub open spec fn lit_prefix(negated: bool) -> Seq<char> {
    if negated {
        "~"@
    } else {
        ""@
    }
}

impl EncodingVars {
    /// A readable label for a literal of the table, `None` for a variable
    /// outside it.
    pub fn lit_readable_name(&self, lit: (u32, bool)) -> (r: Option<String>)
        requires
            self.valid(),
        ensures
            r is Some <==> self.first() <= lit.0 < self.first() + self.items().len(),
            r matches Some(s) ==> match self.items()[lit.0 - self.first()] {
                EncodedItem::Platform { point, dims } => s@ == platform_lit_label(
                    lit_prefix(lit.1),
                    dims.width as int,
                    dims.height as int,
                    point.x as int,
                    point.y as int,
                ),
                EncodedItem::Terrain { point, layer } => s@ == terrain_lit_label(
                    lit_prefix(lit.1),
                    layer as int,
                    point.x as int,
                    point.y as int,
                ),
            },
    {
        let prefix = if lit.1 {
            "~"
        } else {
            ""
        };
        match self.var_item(lit.0) {
            Some(EncodedItem::Platform { point, dims }) => Some(format_platform_lit(prefix, dims, point)),
            Some(EncodedItem::Terrain { point, layer }) => Some(format_terrain_lit(prefix, layer, point)),
            None => None,
        }
    }
}

} // verus!

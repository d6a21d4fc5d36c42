//! Limits on the platforms of a solution.
use vstd::prelude::*;

use crate::dimensions::{dims_eq, flip, Dimensions};
use crate::encoder::{lemma_flatten_new, neg, pos};
use crate::layout::{lookup_weight, weight_of};
use crate::platform::PlatformDef;
use crate::sat::{
    abs_weight_sum, add_card_ub, add_clause, add_pb_ub, neg_weight_sum, new_var, normalized_lit, sat_card_bounds,
    sat_clauses, sat_pb_bounds, sat_var_count, Literal, SatProblem, MAX_VAR_INDEX,
};
use crate::vars::{fp_index, has_dims, EncodeError, EncodingVars};

verus! {

/// Per-type count limits, per-type weights and a limit on the total weight.
#[derive(Clone, Debug, Default)]
pub struct PlatformLimits {
    /// At most this many platforms of each listed type.
    pub card_limits: Vec<(PlatformDef, usize)>,
    /// The weight of each listed type, for optimisation.
    pub weights: Vec<(PlatformDef, isize)>,
    /// At most this total weight.
    pub weight_limit: Option<isize>,
}

impl PlatformLimits {
    /// Count limits only.
    pub fn new_unweighted(limits: Vec<(PlatformDef, usize)>) -> (r: PlatformLimits)
        ensures
            r.card_limits@ == limits@,
            r.weights@.len() == 0,
            r.weight_limit is None,
    {
        PlatformLimits::new_with_weights(limits, Vec::new(), None)
    }

    pub fn new_with_weights(
        card_limits: Vec<(PlatformDef, usize)>,
        weights: Vec<(PlatformDef, isize)>,
        weight_limit: Option<isize>,
    ) -> (r: PlatformLimits)
        ensures
            r.card_limits@ == card_limits@,
            r.weights@ == weights@,
            r.weight_limit == weight_limit,
    {
        PlatformLimits { card_limits, weights, weight_limit }
    }
}

/// Footprint `d` of the table has a distinct rotated sibling in the table.
pub open spec fn paired(vars: EncodingVars, d: Dimensions) -> bool {
    has_dims(vars.fps(), d) && !dims_eq(flip(d), d) && has_dims(vars.fps(), flip(d))
}

/// The clauses tying tile `i`'s placements of `d` and of its rotation to the
/// auxiliary variable `y`: `P(i, d) -> y`, `P(i, swap d) -> y`.
pub open spec fn aux_clauses(vars: EncodingVars, d: Dimensions, i: int, y: int) -> Seq<Seq<Literal>> {
    seq![
        seq![neg(vars.pvar(i, fp_index(vars.fps(), d))), pos(y)],
        seq![neg(vars.pvar(i, fp_index(vars.fps(), flip(d)))), pos(y)],
    ]
}

/// The auxiliary variables that limiting footprint `d` allocates.
pub open spec fn entry_aux(vars: EncodingVars, d: Dimensions) -> nat {
    if paired(vars, d) {
        vars.n_tiles() as nat
    } else {
        0
    }
}

/// The clauses that limiting footprint `d` adds, its auxiliary variables
/// starting at `c`.
pub open spec fn entry_clauses(vars: EncodingVars, d: Dimensions, c: int) -> Seq<Seq<Literal>> {
    if paired(vars, d) {
        Seq::new(vars.n_tiles() as nat, |i: int| aux_clauses(vars, d, i, c + i)).flatten()
    } else {
        Seq::empty()
    }
}

/// The count bounds that limiting footprint `d` to `k` adds: none for a
/// footprint outside the table; over the auxiliary variables (from `c`) for a
/// footprint with a rotated sibling; over its placement variables otherwise.
pub open spec fn entry_cards(vars: EncodingVars, d: Dimensions, k: nat, c: int) -> Seq<(Seq<Literal>, nat)> {
    if !has_dims(vars.fps(), d) {
        Seq::empty()
    } else if paired(vars, d) {
        seq![(Seq::new(vars.n_tiles() as nat, |i: int| pos(c + i)), k)]
    } else {
        seq![(Seq::new(vars.n_tiles() as nat, |i: int| pos(vars.pvar(i, fp_index(vars.fps(), d)))), k)]
    }
}

/// Auxiliary variables of the first `j` count limits.
pub open spec fn aux_upto(vars: EncodingVars, cl: Seq<(PlatformDef, usize)>, j: int) -> nat
    decreases j,
{
    if j <= 0 {
        0
    } else {
        aux_upto(vars, cl, j - 1) + entry_aux(vars, cl[j - 1].0.spec_dims())
    }
}

/// Clauses of the first `j` count limits, auxiliary variables from `c0`.
pub open spec fn clauses_upto(vars: EncodingVars, cl: Seq<(PlatformDef, usize)>, c0: int, j: int) -> Seq<Seq<Literal>>
    decreases j,
{
    if j <= 0 {
        Seq::empty()
    } else {
        clauses_upto(vars, cl, c0, j - 1) + entry_clauses(vars, cl[j - 1].0.spec_dims(), c0 + aux_upto(vars, cl, j - 1))
    }
}

/// Count bounds of the first `j` count limits, auxiliary variables from `c0`.
pub open spec fn cards_upto(vars: EncodingVars, cl: Seq<(PlatformDef, usize)>, c0: int, j: int) -> Seq<(Seq<Literal>, nat)>
    decreases j,
{
    if j <= 0 {
        Seq::empty()
    } else {
        cards_upto(vars, cl, c0, j - 1) + entry_cards(
            vars,
            cl[j - 1].0.spec_dims(),
            cl[j - 1].1 as nat,
            c0 + aux_upto(vars, cl, j - 1),
        )
    }
}

/// The weighted placement literals of tile `i`: each footprint weighted by
/// the weight of its representative entry.
pub open spec fn tile_weights(vars: EncodingVars, weights: Seq<(PlatformDef, isize)>, i: int) -> Seq<(Literal, isize)> {
    Seq::new(
        vars.fps().len(),
        |k: int| (pos(vars.pvar(i, k)), weight_of(weights, vars.rep(k), weights.len() as int) as isize),
    )
}

/// The weighted placement literals of the tiles before row-major position
/// `m`.
pub open spec fn weights_prefix(vars: EncodingVars, weights: Seq<(PlatformDef, isize)>, m: int) -> Seq<(Literal, isize)> {
    Seq::new(m as nat, |i: int| tile_weights(vars, weights, i)).flatten()
}

/// The weighted placement literals of all tiles, row-major.
pub open spec fn weighted_lits(vars: EncodingVars, weights: Seq<(PlatformDef, isize)>) -> Seq<(Literal, isize)> {
    weights_prefix(vars, weights, vars.n_tiles())
}

/// The state an encoding leaves: its table's variables are handed out.
pub open spec fn after_encoding(vars: EncodingVars, p: SatProblem) -> bool {
    &&& vars.valid()
    &&& vars.first() + vars.n_vars() <= sat_var_count(p)
    &&& sat_var_count(p) <= MAX_VAR_INDEX
}

/// Whether footprint `d` has a distinct rotated sibling in the table.
fn is_paired(vars: &EncodingVars, d: Dimensions) -> (r: bool)
    requires
        vars.valid(),
    ensures
        r == paired(*vars, d),
{
    let fps = vars.platform_dims();
    let mut has_d = false;
    let mut has_s = false;
    let s = d.flipped();
    let mut k: usize = 0;
    while k < fps.len()
        invariant
            fps@ == vars.fps(),
            s == flip(d),
            k <= fps@.len(),
            has_d == exists|j: int| 0 <= j < k && dims_eq(#[trigger] fps@[j], d),
            has_s == exists|j: int| 0 <= j < k && dims_eq(#[trigger] fps@[j], s),
        decreases fps@.len() - k,
    {
        if fps[k] == d {
            has_d = true;
        }
        if fps[k] == s {
            has_s = true;
        }
        k = k + 1;
    }
    has_d && !(s == d) && has_s
}

/// The position of footprint `d` in the table.
fn footprint_index(vars: &EncodingVars, d: Dimensions) -> (r: usize)
    requires
        vars.valid(),
        has_dims(vars.fps(), d),
    ensures
        r == fp_index(vars.fps(), d),
        r < vars.fps().len(),
{
    let fps = vars.platform_dims();
    let mut k: usize = 0;
    while k < fps.len()
        invariant
            vars.valid(),
            fps@ == vars.fps(),
            k <= fps@.len(),
            forall|j: int| 0 <= j < k ==> !dims_eq(#[trigger] fps@[j], d),
        decreases fps@.len() - k,
    {
        if fps[k] == d {
            proof {
                crate::vars::lemma_distinct_unique(vars.fps(), d, k as int);
            }
            return k;
        }
        k = k + 1;
    }
    proof {
        let j = choose|j: int| 0 <= j < fps@.len() && dims_eq(#[trigger] fps@[j], d);
    }
    0
}

/// Limits the platforms of footprint `d` to `k` (auxiliary variables first
/// when `d` has a rotated sibling, so a platform and its rotation count
/// once per tile).
fn add_count_limit(problem: &mut SatProblem, vars: &EncodingVars, d: Dimensions, k: usize)
    requires
        after_encoding(*vars, *old(problem)),
        sat_var_count(*old(problem)) + entry_aux(*vars, d) <= MAX_VAR_INDEX,
    ensures
        after_encoding(*vars, *final(problem)),
        sat_var_count(*final(problem)) == sat_var_count(*old(problem)) + entry_aux(*vars, d),
        sat_clauses(*final(problem)) == sat_clauses(*old(problem)) + entry_clauses(
            *vars,
            d,
            sat_var_count(*old(problem)) as int,
        ),
        sat_card_bounds(*final(problem)) == sat_card_bounds(*old(problem)) + entry_cards(
            *vars,
            d,
            k as nat,
            sat_var_count(*old(problem)) as int,
        ),
        sat_pb_bounds(*final(problem)) == sat_pb_bounds(*old(problem)),
{
    let ghost c0 = sat_var_count(*problem) as int;
    let ghost cards0 = sat_card_bounds(*problem);
    let ghost clauses0 = sat_clauses(*problem);
    let pairs = is_paired(vars, d);
    let n = vars.n_tiles_exec();
    let mut lits: Vec<Literal> = Vec::new();
    if pairs {
        let kd = footprint_index(vars, d);
        let ks = footprint_index(vars, d.flipped());
        let mut i: usize = 0;
        while i < n
            invariant
                after_encoding(*vars, *problem),
                paired(*vars, d),
                n == vars.n_tiles(),
                kd == fp_index(vars.fps(), d),
                ks == fp_index(vars.fps(), flip(d)),
                kd < vars.fps().len(),
                ks < vars.fps().len(),
                c0 + n <= MAX_VAR_INDEX,
                i <= n,
                sat_var_count(*problem) == c0 + i,
                sat_clauses(*problem) == clauses0 + Seq::new(i as nat, |t: int| aux_clauses(*vars, d, t, c0 + t)).flatten(),
                sat_card_bounds(*problem) == cards0,
                sat_pb_bounds(*problem) == sat_pb_bounds(*old(problem)),
                lits@ == Seq::new(i as nat, |t: int| pos(c0 + t)),
            decreases n - i,
        {
            proof {
                vars.lemma_var_bounds(i as int, kd as int);
                vars.lemma_var_bounds(i as int, ks as int);
            }
            let y = new_var(problem);
            let c1 = vec![(vars.placement_var(i, kd), true), (y, false)];
            add_clause(problem, &c1);
            let c2 = vec![(vars.placement_var(i, ks), true), (y, false)];
            add_clause(problem, &c2);
            lits.push((y, false));
            proof {
                assert(seq![c1@, c2@] =~= aux_clauses(*vars, d, i as int, c0 + i));
                lemma_flatten_new(i as nat, |t: int| aux_clauses(*vars, d, t, c0 + t));
                assert(sat_clauses(*problem) =~= clauses0 + Seq::new((i + 1) as nat, |t: int| aux_clauses(*vars, d, t, c0 + t)).flatten());
                assert(lits@ =~= Seq::new((i + 1) as nat, |t: int| pos(c0 + t)));
            }
            i = i + 1;
        }
        add_card_ub(problem, &lits, k);
        proof {
            assert(sat_card_bounds(*problem) =~= cards0 + entry_cards(*vars, d, k as nat, c0));
        }
    } else if is_in_table(vars, d) {
        let kd = footprint_index(vars, d);
        let mut i: usize = 0;
        while i < n
            invariant
                after_encoding(*vars, *problem),
                n == vars.n_tiles(),
                kd == fp_index(vars.fps(), d),
                kd < vars.fps().len(),
                i <= n,
                lits@ == Seq::new(i as nat, |t: int| pos(vars.pvar(t, kd as int))),
                forall|t: int| 0 <= t < lits@.len() ==> (#[trigger] lits@[t]).0 < vars.first() + vars.n_vars(),
            decreases n - i,
        {
            proof {
                vars.lemma_var_bounds(i as int, kd as int);
            }
            lits.push((vars.placement_var(i, kd), false));
            i = i + 1;
            proof {
                assert(lits@ =~= Seq::new(i as nat, |t: int| pos(vars.pvar(t, kd as int))));
            }
        }
        add_card_ub(problem, &lits, k);
        proof {
            assert(sat_card_bounds(*problem) =~= cards0 + entry_cards(*vars, d, k as nat, c0));
            assert(sat_clauses(*problem) =~= clauses0 + entry_clauses(*vars, d, c0));
        }
    } else {
        proof {
            assert(sat_card_bounds(*problem) =~= cards0 + entry_cards(*vars, d, k as nat, c0));
            assert(sat_clauses(*problem) =~= clauses0 + entry_clauses(*vars, d, c0));
        }
    }
}

/// Footprint `d` is in the table.
fn is_in_table(vars: &EncodingVars, d: Dimensions) -> (r: bool)
    requires
        vars.valid(),
    ensures
        r == has_dims(vars.fps(), d),
{
    let fps = vars.platform_dims();
    let mut k: usize = 0;
    while k < fps.len()
        invariant
            fps@ == vars.fps(),
            k <= fps@.len(),
            forall|j: int| 0 <= j < k ==> !dims_eq(#[trigger] fps@[j], d),
        decreases fps@.len() - k,
    {
        if fps[k] == d {
            return true;
        }
        k = k + 1;
    }
    false
}

/// Weight sums over a prefix ignore what follows it.
proof fn lemma_weight_sums_prefix(s: Seq<(Literal, isize)>, x: (Literal, isize), n: int)
    requires
        0 <= n <= s.len(),
    ensures
        abs_weight_sum(s.push(x), n) == abs_weight_sum(s, n),
        neg_weight_sum(s.push(x), n) == neg_weight_sum(s, n),
    decreases n,
{
    if n > 0 {
        lemma_weight_sums_prefix(s, x, n - 1);
    }
}

/// Weight sums grow with the prefix, the negative part no faster.
proof fn lemma_weight_sums_mono(s: Seq<(Literal, isize)>, m: int, n: int)
    requires
        0 <= m <= n <= s.len(),
    ensures
        abs_weight_sum(s, m) <= abs_weight_sum(s, n),
        0 <= neg_weight_sum(s, n) <= abs_weight_sum(s, n),
    decreases n - m,
{
    if m < n {
        lemma_weight_sums_mono(s, m, n - 1);
    } else {
        lemma_weight_sums_nonneg(s, n);
    }
}

proof fn lemma_weight_sums_nonneg(s: Seq<(Literal, isize)>, n: int)
    requires
        0 <= n <= s.len(),
    ensures
        0 <= neg_weight_sum(s, n) <= abs_weight_sum(s, n),
    decreases n,
{
    if n > 0 {
        lemma_weight_sums_nonneg(s, n - 1);
    }
}

/// The weighted placement literals, `None` once the magnitudes of the
/// weights sum past `isize::MAX`.
fn build_weighted(vars: &EncodingVars, weights: &Vec<(PlatformDef, isize)>) -> (r: Option<Vec<(Literal, isize)>>)
    requires
        vars.valid(),
    ensures
        r is Some <==> abs_weight_sum(weighted_lits(*vars, weights@), weighted_lits(*vars, weights@).len() as int) <= isize::MAX,
        r matches Some(l) ==> l@ == weighted_lits(*vars, weights@),
{
    let n = vars.n_tiles_exec();
    let nfp = vars.n_footprints();
    let ghost ws = weights@;
    let mut out: Vec<(Literal, isize)> = Vec::new();
    let mut total: i128 = 0;
    let mut i: usize = 0;
    while i < n
        invariant
            vars.valid(),
            ws == weights@,
            n == vars.n_tiles(),
            nfp == vars.fps().len(),
            i <= n,
            out@ == weights_prefix(*vars, ws, i as int),
            total == abs_weight_sum(out@, out@.len() as int),
            total <= isize::MAX,
        decreases n - i,
    {
        let ghost before = out@;
        let mut k: usize = 0;
        while k < nfp
            invariant
                vars.valid(),
                ws == weights@,
                n == vars.n_tiles(),
                nfp == vars.fps().len(),
                i < n,
                k <= nfp,
                before == weights_prefix(*vars, ws, i as int),
                out@ == before + tile_weights(*vars, ws, i as int).subrange(0, k as int),
                total == abs_weight_sum(out@, out@.len() as int),
                total <= isize::MAX,
            decreases nfp - k,
        {
            proof {
                vars.lemma_var_bounds(i as int, k as int);
            }
            let w = lookup_weight(weights, vars.representative(k));
            let lit = ((vars.placement_var(i, k), false), w);
            let ghost prev = out@;
            out.push(lit);
            proof {
                lemma_weight_sums_prefix(prev, lit, prev.len() as int);
                assert(out@ =~= before + tile_weights(*vars, ws, i as int).subrange(0, k + 1));
            }
            let mag: i128 = if w < 0 { -(w as i128) } else { w as i128 };
            total = total + mag;
            k = k + 1;
            if total > isize::MAX as i128 {
                proof {
                    let full = weighted_lits(*vars, ws);
                    let rest_t = tile_weights(*vars, ws, i as int);
                    lemma_flatten_new(i as nat, |t: int| tile_weights(*vars, ws, t));
                    let upto = weights_prefix(*vars, ws, i + 1);
                    assert(upto == before + rest_t);
                    lemma_prefix_of_flatten(*vars, ws, i as int + 1);
                    assert(out@.len() <= upto.len());
                    assert(out@ =~= upto.subrange(0, out@.len() as int));
                    assert(out@ =~= full.subrange(0, out@.len() as int));
                    lemma_sum_of_prefix(full, out@.len() as int);
                    lemma_weight_sums_mono(full, out@.len() as int, full.len() as int);
                }
                return None;
            }
        }
        proof {
            assert(tile_weights(*vars, ws, i as int).subrange(0, nfp as int) =~= tile_weights(*vars, ws, i as int));
            lemma_flatten_new(i as nat, |t: int| tile_weights(*vars, ws, t));
            assert(out@ =~= weights_prefix(*vars, ws, i + 1));
        }
        i = i + 1;
    }
    Some(out)
}

/// The weights of the first tiles form a prefix of all of them.
proof fn lemma_prefix_of_flatten(vars: EncodingVars, ws: Seq<(PlatformDef, isize)>, m: int)
    requires
        0 <= m <= vars.n_tiles(),
    ensures
        weights_prefix(vars, ws, m).len() <= weighted_lits(vars, ws).len(),
        weights_prefix(vars, ws, m) == weighted_lits(vars, ws).subrange(0, weights_prefix(vars, ws, m).len() as int),
    decreases vars.n_tiles() - m,
{
    let a = weights_prefix(vars, ws, m);
    if m < vars.n_tiles() {
        lemma_prefix_of_flatten(vars, ws, m + 1);
        lemma_flatten_new(m as nat, |i: int| tile_weights(vars, ws, i));
        let b = weights_prefix(vars, ws, m + 1);
        assert(b == a + tile_weights(vars, ws, m));
        assert(a =~= b.subrange(0, a.len() as int));
        assert(a =~= weighted_lits(vars, ws).subrange(0, a.len() as int));
    } else {
        assert(a =~= weighted_lits(vars, ws).subrange(0, a.len() as int));
    }
}

/// The weight sums of a prefix, taken over the prefix alone.
proof fn lemma_sum_of_prefix(s: Seq<(Literal, isize)>, n: int)
    requires
        0 <= n <= s.len(),
    ensures
        abs_weight_sum(s.subrange(0, n), n) == abs_weight_sum(s, n),
    decreases n,
{
    if n > 0 {
        lemma_sum_of_prefix(s.subrange(0, n), n - 1);
        lemma_sum_of_prefix(s, n - 1);
        assert(s.subrange(0, n).subrange(0, n - 1) =~= s.subrange(0, n - 1));
    }
}

/// Adds the count limits and the weight limit of `limits` to the problem:
/// each count limit in order, then the weight limit over every placement
/// variable weighted by its entry's weight.
///
/// Fails, leaving the problem untouched, with `AllocatorExhausted` when the
/// auxiliary variables would exceed the indices the solver accepts, and
/// otherwise with `WeightOverflow` when the weights of the weight limit do
/// not fit the solver's integers.
pub fn encode_limits(problem: &mut SatProblem, vars: &EncodingVars, limits: &PlatformLimits) -> (r: Result<(), EncodeError>)
    requires
        after_encoding(*vars, *old(problem)),
    ensures
        r is Err ==> *final(problem) == *old(problem),
        (r == Err::<(), EncodeError>(EncodeError::AllocatorExhausted)) <==> sat_var_count(*old(problem))
            + aux_upto(*vars, limits.card_limits@, limits.card_limits@.len() as int) > MAX_VAR_INDEX,
        (r == Err::<(), EncodeError>(EncodeError::WeightOverflow)) <==> (sat_var_count(*old(problem))
            + aux_upto(*vars, limits.card_limits@, limits.card_limits@.len() as int) <= MAX_VAR_INDEX
            && limits.weight_limit is Some && (abs_weight_sum(
            weighted_lits(*vars, limits.weights@),
            weighted_lits(*vars, limits.weights@).len() as int,
        ) > isize::MAX || limits.weight_limit->0 + neg_weight_sum(
            weighted_lits(*vars, limits.weights@),
            weighted_lits(*vars, limits.weights@).len() as int,
        ) > isize::MAX)),
        r is Ok ==> {
            let c0 = sat_var_count(*old(problem)) as int;
            let cl = limits.card_limits@;
            &&& sat_var_count(*final(problem)) == c0 + aux_upto(*vars, cl, cl.len() as int)
            &&& sat_clauses(*final(problem)) == sat_clauses(*old(problem)) + clauses_upto(
                *vars,
                cl,
                c0,
                cl.len() as int,
            )
            &&& sat_card_bounds(*final(problem)) == sat_card_bounds(*old(problem)) + cards_upto(
                *vars,
                cl,
                c0,
                cl.len() as int,
            )
            &&& sat_pb_bounds(*final(problem)) == sat_pb_bounds(*old(problem)) + match limits.weight_limit {
                Some(w) => seq![
                    (
                        weighted_lits(*vars, limits.weights@).map_values(
                            |e: (Literal, isize)| normalized_lit(e),
                        ),
                        w + neg_weight_sum(
                            weighted_lits(*vars, limits.weights@),
                            weighted_lits(*vars, limits.weights@).len() as int,
                        ),
                    ),
                ],
                None => Seq::empty(),
            }
        },
{
    let cl = &limits.card_limits;
    let c0 = crate::sat::next_free_var(problem);
    // Check the auxiliary variables first.
    let mut aux: u64 = 0;
    let mut j: usize = 0;
    while j < cl.len()
        invariant
            after_encoding(*vars, *problem),
            c0 == sat_var_count(*problem),
            *problem == *old(problem),
            cl@ == limits.card_limits@,
            j <= cl@.len(),
            aux == aux_upto(*vars, cl@, j as int),
            c0 + aux <= MAX_VAR_INDEX,
        decreases cl@.len() - j,
    {
        let step: u64 = if is_paired(vars, cl[j].0.dims()) {
            vars.n_tiles_exec() as u64
        } else {
            0
        };
        if step > MAX_VAR_INDEX as u64 - c0 as u64 - aux {
            proof {
                assert(aux_upto(*vars, cl@, j + 1) == aux + step);
                lemma_aux_mono(*vars, cl@, j + 1, cl@.len() as int);
            }
            return Err(EncodeError::AllocatorExhausted);
        }
        aux = aux + step;
        j = j + 1;
        proof {
            assert(aux_upto(*vars, cl@, j as int) == aux);
        }
    }
    // Then the weights.
    let weighted = match limits.weight_limit {
        Some(w) => {
            match build_weighted(vars, &limits.weights) {
                Some(lits) => {
                    proof {
                        lemma_weight_sums_nonneg(lits@, lits@.len() as int);
                    }
                    let neg = neg_sum(&lits);
                    if w as i128 + neg > isize::MAX as i128 {
                        return Err(EncodeError::WeightOverflow);
                    }
                    Some(lits)
                },
                None => {
                    return Err(EncodeError::WeightOverflow);
                },
            }
        },
        None => None,
    };
    let mut j: usize = 0;
    while j < cl.len()
        invariant
            after_encoding(*vars, *problem),
            cl@ == limits.card_limits@,
            j <= cl@.len(),
            c0 == sat_var_count(*old(problem)),
            c0 + aux_upto(*vars, cl@, cl@.len() as int) <= MAX_VAR_INDEX,
            sat_var_count(*problem) == c0 + aux_upto(*vars, cl@, j as int),
            sat_clauses(*problem) == sat_clauses(*old(problem)) + clauses_upto(*vars, cl@, c0 as int, j as int),
            sat_card_bounds(*problem) == sat_card_bounds(*old(problem)) + cards_upto(*vars, cl@, c0 as int, j as int),
            sat_pb_bounds(*problem) == sat_pb_bounds(*old(problem)),
        decreases cl@.len() - j,
    {
        proof {
            lemma_aux_mono(*vars, cl@, j + 1, cl@.len() as int);
        }
        add_count_limit(problem, vars, cl[j].0.dims(), cl[j].1);
        proof {
            assert(sat_clauses(*problem) =~= sat_clauses(*old(problem)) + clauses_upto(*vars, cl@, c0 as int, j + 1));
            assert(sat_card_bounds(*problem) =~= sat_card_bounds(*old(problem)) + cards_upto(*vars, cl@, c0 as int, j + 1));
        }
        j = j + 1;
    }
    match (weighted, limits.weight_limit) {
        (Some(lits), Some(w)) => {
            proof {
                assert forall|t: int| 0 <= t < lits@.len() implies (#[trigger] lits@[t]).0.0 < sat_var_count(*problem) by {
                    lemma_weighted_vars(*vars, limits.weights@, t);
                }
            }
            add_pb_ub(problem, &lits, w);
            proof {
                assert(sat_pb_bounds(*problem) =~= sat_pb_bounds(*old(problem)) + seq![
                    (
                        weighted_lits(*vars, limits.weights@).map_values(
                            |e: (Literal, isize)| normalized_lit(e),
                        ),
                        w + neg_weight_sum(
                            weighted_lits(*vars, limits.weights@),
                            weighted_lits(*vars, limits.weights@).len() as int,
                        ),
                    ),
                ]);
            }
        },
        _ => {
            proof {
                assert(sat_pb_bounds(*problem) =~= sat_pb_bounds(*old(problem)) + Seq::<(Seq<(Literal, int)>, int)>::empty());
            }
        },
    }
    Ok(())
}

/// Auxiliary variable counts grow with the number of limits.
proof fn lemma_aux_mono(vars: EncodingVars, cl: Seq<(PlatformDef, usize)>, m: int, n: int)
    requires
        0 <= m <= n,
    ensures
        aux_upto(vars, cl, m) <= aux_upto(vars, cl, n),
    decreases n - m,
{
    if m < n {
        lemma_aux_mono(vars, cl, m, n - 1);
    }
}

/// Every weighted literal names a placement variable of the table.
proof fn lemma_weighted_vars(vars: EncodingVars, ws: Seq<(PlatformDef, isize)>, t: int)
    requires
        vars.valid(),
        0 <= t < weighted_lits(vars, ws).len(),
    ensures
        weighted_lits(vars, ws)[t].0.0 < vars.first() + vars.n_vars(),
{
    let tiles = Seq::new(vars.n_tiles() as nat, |i: int| tile_weights(vars, ws, i));
    let p = |e: (Literal, isize)| e.0.0 < vars.first() + vars.n_vars();
    assert forall|i: int, k: int| 0 <= i < tiles.len() && 0 <= k < tiles[i].len() implies p(#[trigger] tiles[i][k]) by {
        vars.lemma_var_bounds(i, k);
    }
    crate::encoder::lemma_flatten_all(tiles, p);
}

/// The sum of the magnitudes of the negative weights.
fn neg_sum(lits: &Vec<(Literal, isize)>) -> (r: i128)
    requires
        abs_weight_sum(lits@, lits@.len() as int) <= isize::MAX,
    ensures
        r == neg_weight_sum(lits@, lits@.len() as int),
{
    let mut total: i128 = 0;
    let mut i: usize = 0;
    while i < lits.len()
        invariant
            i <= lits@.len(),
            abs_weight_sum(lits@, lits@.len() as int) <= isize::MAX,
            total == neg_weight_sum(lits@, i as int),
        decreases lits@.len() - i,
    {
        proof {
            lemma_weight_sums_mono(lits@, i + 1, lits@.len() as int);
            lemma_weight_sums_nonneg(lits@, i + 1);
        }
        if lits[i].1 < 0 {
            total = total - lits[i].1 as i128;
        }
        i = i + 1;
    }
    total
}

} // verus!

//! The boundary to the SAT instance and assignments of `rustsat`.
//!
//! Variables are plain `u32` indices and a literal is a pair of a variable
//! index and a negation flag. The instance keeps its clauses and the count of
//! variables handed out so far.
use vstd::prelude::*;

use rustsat::instances::{BasicVarManager, SatInstance};
use rustsat::types::constraints::{CardConstraint, PbConstraint};
use rustsat::types::{Assignment, Clause, TernaryVal, Var};

verus! {

/// A literal: a variable index and whether it is negated.
pub type Literal = (u32, bool);

/// The highest variable index `rustsat` accepts (`Var::MAX_IDX`).
pub const MAX_VAR_INDEX: u32 = 2147483647;

#[verifier::external_type_specification]
#[verifier::external_body]
pub struct ExAssignment(Assignment);

/// A SAT instance under construction. Its clauses and variable count are
/// visible to proofs through `sat_clauses` and `sat_var_count`.
#[verifier::external_body]
pub struct SatProblem {
    pub instance: SatInstance<BasicVarManager>,
}

/// The clauses held by an instance, in the order they were added.
pub uninterp spec fn sat_clauses(inst: SatProblem) -> Seq<Seq<Literal>>;

/// The number of variables an instance has handed out (its next free index).
pub uninterp spec fn sat_var_count(inst: SatProblem) -> nat;

/// The cardinality upper bounds an instance holds, in the order they were
/// added: the literals, at most this many of which may be true.
pub uninterp spec fn sat_card_bounds(inst: SatProblem) -> Seq<(Seq<Literal>, nat)>;

/// The pseudo-Boolean upper bounds an instance holds, in the order they were
/// added and in the form it stores them: weighted literals with
/// non-negative weights, whose weighted sum of true ones may be at most the
/// bound.
pub uninterp spec fn sat_pb_bounds(inst: SatProblem) -> Seq<(Seq<(Literal, int)>, int)>;

/// A weighted literal with its weight made non-negative: a negative weight
/// negates the literal.
pub open spec fn normalized_lit(e: (Literal, isize)) -> (Literal, int) {
    if e.1 < 0 {
        ((e.0.0, !e.0.1), -(e.1 as int))
    } else {
        (e.0, e.1 as int)
    }
}

/// Sum of the magnitudes of the weights of the first `n` literals.
pub open spec fn abs_weight_sum(lits: Seq<(Literal, isize)>, n: int) -> int
    decreases n,
{
    if n <= 0 {
        0
    } else {
        abs_weight_sum(lits, n - 1) + if lits[n - 1].1 < 0 {
            -(lits[n - 1].1 as int)
        } else {
            lits[n - 1].1 as int
        }
    }
}

/// Sum of the magnitudes of the negative weights of the first `n` literals.
pub open spec fn neg_weight_sum(lits: Seq<(Literal, isize)>, n: int) -> int
    decreases n,
{
    if n <= 0 {
        0
    } else {
        neg_weight_sum(lits, n - 1) + if lits[n - 1].1 < 0 {
            -(lits[n - 1].1 as int)
        } else {
            0
        }
    }
}

/// The values an assignment gives to variables `0..len`; `None` for
/// "don't care".
pub uninterp spec fn assignment_values(a: Assignment) -> Seq<Option<bool>>;

/// Relies on `SatInstance::new_var`: returns the next free variable and
/// advances it by one; clauses are untouched.
#[verifier::external_body]
pub(crate) fn new_var(inst: &mut SatProblem) -> (r: u32)
    requires
        sat_var_count(*old(inst)) < MAX_VAR_INDEX,
    ensures
        r == sat_var_count(*old(inst)),
        sat_var_count(*final(inst)) == sat_var_count(*old(inst)) + 1,
        sat_clauses(*final(inst)) == sat_clauses(*old(inst)),
        sat_card_bounds(*final(inst)) == sat_card_bounds(*old(inst)),
        sat_pb_bounds(*final(inst)) == sat_pb_bounds(*old(inst)),
{
    inst.instance.new_var().idx32()
}

/// Relies on `SatInstance::add_clause`: the clause is appended as given; its
/// variables are already handed out, so the next free variable stays.
#[verifier::external_body]
pub(crate) fn add_clause(inst: &mut SatProblem, lits: &Vec<Literal>)
    requires
        forall|i: int| 0 <= i < lits@.len() ==> (#[trigger] lits@[i]).0 < sat_var_count(*old(inst)),
        sat_var_count(*old(inst)) <= MAX_VAR_INDEX,
    ensures
        sat_clauses(*final(inst)) == sat_clauses(*old(inst)).push(lits@),
        sat_var_count(*final(inst)) == sat_var_count(*old(inst)),
        sat_card_bounds(*final(inst)) == sat_card_bounds(*old(inst)),
        sat_pb_bounds(*final(inst)) == sat_pb_bounds(*old(inst)),
{
    inst.instance.add_clause(lits.iter().map(|&(v, negated)| Var::new(v).lit(negated)).collect::<Clause>())
}

/// Relies on `Assignment::var_value`: the stored value for an index inside
/// the assignment, "don't care" past its end.
#[verifier::external_body]
pub(crate) fn var_value(a: &Assignment, var: u32) -> (r: Option<bool>)
    requires
        var <= MAX_VAR_INDEX,
    ensures
        r == (if var < assignment_values(*a).len() {
            assignment_values(*a)[var as int]
        } else {
            None
        }),
{
    match a.var_value(Var::new(var)) {
        TernaryVal::True => Some(true),
        TernaryVal::False => Some(false),
        TernaryVal::DontCare => None,
    }
}

/// Relies on `SatInstance::n_vars`: the index of the next free variable,
/// which `rustsat` keeps at or below `Var::MAX_IDX`.
#[verifier::external_body]
pub(crate) fn next_free_var(inst: &SatProblem) -> (r: u32)
    ensures
        r == sat_var_count(*inst),
        r <= MAX_VAR_INDEX,
{
    inst.instance.n_vars()
}

/// Relies on `SatInstance::add_card_constr` with `CardConstraint::new_ub`:
/// the bound is kept as given; its variables are already handed out.
#[verifier::external_body]
pub(crate) fn add_card_ub(inst: &mut SatProblem, lits: &Vec<Literal>, bound: usize)
    requires
        forall|i: int| 0 <= i < lits@.len() ==> (#[trigger] lits@[i]).0 < sat_var_count(*old(inst)),
        sat_var_count(*old(inst)) <= MAX_VAR_INDEX,
    ensures
        sat_card_bounds(*final(inst)) == sat_card_bounds(*old(inst)).push((lits@, bound as nat)),
        sat_clauses(*final(inst)) == sat_clauses(*old(inst)),
        sat_pb_bounds(*final(inst)) == sat_pb_bounds(*old(inst)),
        sat_var_count(*final(inst)) == sat_var_count(*old(inst)),
{
    let lits = lits.iter().map(|&(v, negated)| Var::new(v).lit(negated));
    inst.instance.add_card_constr(CardConstraint::new_ub(lits, bound))
}

/// Relies on `SatInstance::add_pb_constr` with `PbConstraint::new_ub`: the
/// bound is stored with each negative weight made positive by negating its
/// literal, and the bound raised by those weights' magnitudes (the sums must
/// fit); its variables are already handed out.
#[verifier::external_body]
pub(crate) fn add_pb_ub(inst: &mut SatProblem, lits: &Vec<(Literal, isize)>, bound: isize)
    requires
        forall|i: int| 0 <= i < lits@.len() ==> (#[trigger] lits@[i]).0.0 < sat_var_count(*old(inst)),
        sat_var_count(*old(inst)) <= MAX_VAR_INDEX,
        abs_weight_sum(lits@, lits@.len() as int) <= isize::MAX,
        bound + neg_weight_sum(lits@, lits@.len() as int) <= isize::MAX,
    ensures
        sat_pb_bounds(*final(inst)) == sat_pb_bounds(*old(inst)).push(
            (
                lits@.map_values(|e: (Literal, isize)| normalized_lit(e)),
                bound + neg_weight_sum(lits@, lits@.len() as int),
            ),
        ),
        sat_clauses(*final(inst)) == sat_clauses(*old(inst)),
        sat_card_bounds(*final(inst)) == sat_card_bounds(*old(inst)),
        sat_var_count(*final(inst)) == sat_var_count(*old(inst)),
{
    let lits = lits.iter().map(|&((v, negated), w)| (Var::new(v).lit(negated), w));
    inst.instance.add_pb_constr(PbConstraint::new_ub(lits, bound))
}

} // verus!

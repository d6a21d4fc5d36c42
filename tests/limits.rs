use rustsat::instances::{ManageVars, SatInstance};
use timberborn_platform_cruncher::dimensions::Dimensions;
use timberborn_platform_cruncher::encoder::encode;
use timberborn_platform_cruncher::grid::Grid;
use timberborn_platform_cruncher::limits::{encode_limits, PlatformLimits};
use timberborn_platform_cruncher::platform::PlatformDef;
use timberborn_platform_cruncher::point::Point;
use timberborn_platform_cruncher::sat::SatProblem;
use timberborn_platform_cruncher::vars::{EncodeError, EncodingVars};
use timberborn_platform_cruncher::world::WorldGrid;

fn def(w: usize, h: usize) -> PlatformDef {
    PlatformDef::new(Dimensions::new(w, h))
}

fn setup(cat: &[(usize, usize)], w: usize, h: usize) -> (SatProblem, EncodingVars) {
    let mut problem = SatProblem { instance: SatInstance::new() };
    let world = WorldGrid(Grid::try_from_vec(Dimensions::new(w, h), vec![true; w * h]).unwrap());
    let catalog: Vec<PlatformDef> = cat.iter().map(|&(a, b)| def(a, b)).collect();
    let vars = encode(&catalog, &world, &mut problem).unwrap();
    (problem, vars)
}

/// Brute force over the clauses of the converted instance with some variables fixed.
fn satisfiable(problem: SatProblem, fixed: &[(u32, bool)]) -> bool {
    let (cnf, vm) = problem.instance.into_cnf();
    let n = vm.n_used() as usize;
    let cls: Vec<Vec<(usize, bool)>> =
        cnf.iter().map(|cl| cl.iter().map(|l| (l.var().idx32() as usize, l.is_neg())).collect()).collect();
    fn go(cls: &[Vec<(usize, bool)>], a: &mut Vec<Option<bool>>, v: usize) -> bool {
        for cl in cls {
            if cl.iter().all(|&(x, neg)| a[x] == Some(neg)) {
                return false;
            }
        }
        if v == a.len() {
            return true;
        }
        if a[v].is_some() {
            return go(cls, a, v + 1);
        }
        for b in [false, true] {
            a[v] = Some(b);
            if go(cls, a, v + 1) {
                return true;
            }
        }
        a[v] = None;
        false
    }
    let mut a = vec![None; n];
    for &(v, b) in fixed {
        a[v as usize] = Some(b);
    }
    go(&cls, &mut a, 0)
}

#[test]
fn count_limit_over_placement_vars() {
    let (mut problem, vars) = setup(&[(1, 1), (3, 3)], 3, 3);
    let before_vars = problem.instance.n_vars();
    let limits = PlatformLimits::new_unweighted(vec![(def(3, 3), 0)]);
    assert_eq!(encode_limits(&mut problem, &vars, &limits), Ok(()));
    assert_eq!(problem.instance.n_cards(), 1);
    assert_eq!(problem.instance.n_vars(), before_vars);
    let big = vars.for_dims_at(Point::new(0, 0), Dimensions::new(3, 3)).unwrap();
    assert!(!satisfiable(problem, &[(big, true)]));
}

#[test]
fn count_limit_without_bound_allows_platform() {
    let (mut problem, vars) = setup(&[(1, 1), (3, 3)], 3, 3);
    let limits = PlatformLimits::new_unweighted(vec![(def(3, 3), 1)]);
    assert_eq!(encode_limits(&mut problem, &vars, &limits), Ok(()));
    let big = vars.for_dims_at(Point::new(0, 0), Dimensions::new(3, 3)).unwrap();
    assert!(satisfiable(problem, &[(big, true)]));
}

#[test]
fn rotated_siblings_share_auxiliaries() {
    let (mut problem, vars) = setup(&[(1, 2)], 2, 1);
    let clauses_before = problem.instance.n_clauses();
    let vars_before = problem.instance.n_vars();
    let limits = PlatformLimits::new_unweighted(vec![(def(1, 2), 3), (def(4, 4), 1)]);
    assert_eq!(encode_limits(&mut problem, &vars, &limits), Ok(()));
    // One auxiliary per tile, two clauses each; the 4x4 entry is not in the catalog.
    assert_eq!(problem.instance.n_vars(), vars_before + 2);
    assert_eq!(problem.instance.n_clauses(), clauses_before + 4);
    assert_eq!(problem.instance.n_cards(), 1);
}

#[test]
fn weight_limit_is_added() {
    let (mut problem, vars) = setup(&[(1, 1), (3, 3)], 3, 3);
    let limits = PlatformLimits::new_with_weights(Vec::new(), vec![(def(3, 3), 5), (def(1, 1), 1)], Some(4));
    assert_eq!(encode_limits(&mut problem, &vars, &limits), Ok(()));
    assert_eq!(problem.instance.n_pbs(), 1);
    let big = vars.for_dims_at(Point::new(0, 0), Dimensions::new(3, 3)).unwrap();
    assert!(!satisfiable(problem, &[(big, true)]));
}

#[test]
fn weight_overflow_is_refused() {
    let (mut problem, vars) = setup(&[(1, 1)], 2, 1);
    let clauses = problem.instance.n_clauses();
    let limits = PlatformLimits::new_with_weights(Vec::new(), vec![(def(1, 1), isize::MAX)], Some(0));
    assert_eq!(encode_limits(&mut problem, &vars, &limits), Err(EncodeError::WeightOverflow));
    assert_eq!(problem.instance.n_pbs(), 0);
    assert_eq!(problem.instance.n_clauses(), clauses);
}

#[test]
fn negative_weights_keep_their_meaning() {
    // A weight of -1 with limit -1 asks for the platform: -P <= -1.
    let (mut problem, vars) = setup(&[(1, 1)], 1, 1);
    let limits = PlatformLimits::new_with_weights(Vec::new(), vec![(def(1, 1), -1)], Some(-1));
    assert_eq!(encode_limits(&mut problem, &vars, &limits), Ok(()));
    let p = vars.for_dims_at(Point::new(0, 0), Dimensions::new(1, 1)).unwrap();
    let (mut again, vars2) = setup(&[(1, 1)], 1, 1);
    assert_eq!(encode_limits(&mut again, &vars2, &limits), Ok(()));
    assert!(!satisfiable(problem, &[(p, false)]));
    assert!(satisfiable(again, &[(p, true)]));
}

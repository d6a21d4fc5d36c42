use rustsat::instances::SatInstance;
use rustsat::types::{Assignment, TernaryVal};
use timberborn_platform_cruncher::dimensions::Dimensions;
use timberborn_platform_cruncher::encoder::encode;
use timberborn_platform_cruncher::grid::Grid;
use timberborn_platform_cruncher::layout::{DecodeError, PlatformLayout};
use timberborn_platform_cruncher::platform::PlatformDef;
use timberborn_platform_cruncher::point::Point;
use timberborn_platform_cruncher::sat::SatProblem;
use timberborn_platform_cruncher::vars::{EncodeError, EncodingVars};
use timberborn_platform_cruncher::world::{World, WorldGrid};

/// Rows of `X` (terrain) and anything else (empty).
fn world(rows: &[&str]) -> WorldGrid {
    let h = rows.len();
    let w = rows.first().map_or(0, |r| r.len());
    let data: Vec<bool> = rows.iter().flat_map(|r| r.chars().map(|c| c == 'X')).collect();
    WorldGrid(Grid::try_from_vec(Dimensions::new(w, h), data).unwrap())
}

fn catalog(dims: &[(usize, usize)]) -> Vec<PlatformDef> {
    dims.iter().map(|&(w, h)| PlatformDef::new(Dimensions::new(w, h))).collect()
}

fn new_problem() -> SatProblem {
    SatProblem { instance: SatInstance::new() }
}

fn clauses(p: &SatProblem) -> Vec<Vec<(usize, bool)>> {
    p.instance
        .cnf()
        .iter()
        .map(|cl| cl.iter().map(|l| (l.var().idx32() as usize, l.is_neg())).collect())
        .collect()
}

fn satisfied(cls: &[Vec<(usize, bool)>], a: &[bool]) -> bool {
    cls.iter().all(|cl| cl.iter().any(|&(v, neg)| a[v] != neg))
}

/// Finds a satisfying assignment with the fewest true `weighted` variables,
/// after fixing `fixed`.
fn solve_min(
    n: usize,
    cls: &[Vec<(usize, bool)>],
    weighted: &[bool],
    fixed: &[(usize, bool)],
) -> Option<Vec<bool>> {
    fn propagate(cls: &[Vec<(usize, bool)>], a: &mut [Option<bool>]) -> bool {
        loop {
            let mut changed = false;
            for cl in cls {
                let mut open = None;
                let mut n_open = 0;
                let mut sat = false;
                for &(v, neg) in cl {
                    match a[v] {
                        Some(b) if b != neg => {
                            sat = true;
                            break;
                        }
                        Some(_) => {}
                        None => {
                            n_open += 1;
                            open = Some((v, neg));
                        }
                    }
                }
                if sat {
                    continue;
                }
                if n_open == 0 {
                    return false;
                }
                if n_open == 1 {
                    let (v, neg) = open.unwrap();
                    a[v] = Some(!neg);
                    changed = true;
                }
            }
            if !changed {
                return true;
            }
        }
    }
    fn search(
        cls: &[Vec<(usize, bool)>],
        weighted: &[bool],
        mut a: Vec<Option<bool>>,
        best: &mut Option<(usize, Vec<bool>)>,
    ) {
        if !propagate(cls, &mut a) {
            return;
        }
        let count = (0..a.len()).filter(|&v| weighted[v] && a[v] == Some(true)).count();
        if let Some((b, _)) = best {
            if count >= *b {
                return;
            }
        }
        match (0..a.len()).find(|&v| a[v].is_none()) {
            None => {
                *best = Some((count, a.iter().map(|x| x.unwrap()).collect()));
            }
            Some(v) => {
                for val in [false, true] {
                    let mut b = a.clone();
                    b[v] = Some(val);
                    search(cls, weighted, b, best);
                }
            }
        }
    }
    let mut a = vec![None; n];
    for &(v, b) in fixed {
        a[v] = Some(b);
    }
    let mut best = None;
    search(cls, weighted, a, &mut best);
    best.map(|(_, a)| a)
}

struct Encoded {
    problem: SatProblem,
    vars: EncodingVars,
    world: WorldGrid,
}

fn encoded(cat: &[(usize, usize)], rows: &[&str]) -> Encoded {
    let mut problem = new_problem();
    let w = world(rows);
    let vars = encode(&catalog(cat), &w, &mut problem).unwrap();
    Encoded { problem, vars, world: w }
}

impl Encoded {
    fn n_vars(&self) -> usize {
        self.problem.instance.n_vars() as usize
    }

    fn weighted(&self) -> Vec<bool> {
        (0..self.n_vars()).map(|v| self.vars.var_to_platform(v as u32).is_some()).collect()
    }

    fn p(&self, x: isize, y: isize, w: usize, h: usize) -> usize {
        self.vars.for_dims_at(Point::new(x, y), Dimensions::new(w, h)).unwrap() as usize
    }

    fn solve(&self, fixed: &[(usize, bool)]) -> Option<Vec<bool>> {
        solve_min(self.n_vars(), &clauses(&self.problem), &self.weighted(), fixed)
    }

    fn decode(&self, a: &[bool]) -> PlatformLayout {
        let assignment = Assignment::from(
            a.iter().map(|&b| if b { TernaryVal::True } else { TernaryVal::False }).collect::<Vec<_>>(),
        );
        PlatformLayout::from_assignment(&assignment, &self.vars).unwrap()
    }

    fn validates(&self, layout: &PlatformLayout) -> bool {
        layout.validate(&World::new(self.world.clone())).is_valid()
    }
}

fn placed(layout: &PlatformLayout) -> Vec<(Point, Dimensions, Dimensions, bool)> {
    let mut v: Vec<_> = layout
        .platforms()
        .iter()
        .map(|p| (p.point(), p.def().dims(), p.dims(), p.rotated()))
        .collect();
    v.sort_by_key(|e| (e.0.y, e.0.x));
    v
}

#[test]
fn encode_test() {
    let e = encoded(
        &[(1, 1), (1, 2), (1, 3), (1, 4), (1, 5), (1, 6), (3, 3), (5, 5)],
        &["X  X", "X XX", "XXXX", "  XX"],
    );
    for clause in clauses(&e.problem) {
        let line: Vec<String> =
            clause.iter().map(|&(v, neg)| format!("{}{}", if neg { "~" } else { "" }, v)).collect();
        println!("{}", line.join(" | "));
    }
    // 16 tiles, 13 footprints, 11 terrain tiles with 4 layers each.
    assert_eq!(e.vars.platform_dims().len(), 13);
    assert_eq!(e.n_vars(), 16 * 13 + 11 * 4);
}

#[test]
fn variable_count_and_records() {
    let e = encoded(&[(1, 2), (3, 3)], &["XX ", " X "]);
    // Footprints 1x2, 2x1, 3x3; 6 tiles; 3 terrain tiles.
    assert_eq!(e.vars.platform_dims().len(), 3);
    assert_eq!(e.n_vars(), 6 * 3 + 3 * 4);
    let mut seen = std::collections::HashSet::new();
    for d in [(1, 2), (2, 1), (3, 3)] {
        let vs = e.vars.iter_dims_vars(Dimensions::new(d.0, d.1)).unwrap();
        assert_eq!(vs.len(), 6);
        for v in vs {
            assert!(seen.insert(v));
        }
    }
    assert!(e.vars.iter_dims_vars(Dimensions::new(1, 1)).is_none());
    assert_eq!(e.vars.var_map().len(), e.n_vars());
}

#[test]
fn var_platform_round_trip() {
    let e = encoded(&[(1, 2), (3, 3)], &["XX ", " X "]);
    let v = e.vars.for_dims_at(Point::new(2, 1), Dimensions::new(2, 1)).unwrap();
    let pl = e.vars.var_to_platform(v).unwrap();
    assert_eq!(pl.point(), Point::new(2, 1));
    assert_eq!(pl.def().dims(), Dimensions::new(1, 2));
    assert!(pl.rotated());
    assert_eq!(pl.dims(), Dimensions::new(2, 1));
    let v = e.vars.for_dims_at(Point::new(0, 0), Dimensions::new(1, 2)).unwrap();
    assert!(!e.vars.var_to_platform(v).unwrap().rotated());
    assert_eq!(e.vars.for_dims_at(Point::new(3, 0), Dimensions::new(1, 2)), None);
    assert_eq!(e.vars.for_dims_at(Point::new(0, 0), Dimensions::new(1, 1)), None);
}

#[test]
fn terrain_vars_are_not_platforms() {
    let e = encoded(&[(1, 1)], &["X"]);
    // One placement variable, then four layers.
    assert!(e.vars.var_to_platform(0).is_some());
    for v in 1..5 {
        assert!(e.vars.var_to_platform(v).is_none());
    }
    assert!(e.vars.var_to_platform(5).is_none());
}

#[test]
fn empty_world_has_nothing() {
    let mut problem = new_problem();
    let w = WorldGrid(Grid::try_from_vec(Dimensions::new(0, 0), Vec::new()).unwrap());
    let vars = encode(&catalog(&[(1, 1), (3, 3)]), &w, &mut problem).unwrap();
    assert_eq!(problem.instance.n_vars(), 0);
    assert_eq!(problem.instance.n_clauses(), 0);
    let layout = PlatformLayout::from_assignment(&Assignment::from(Vec::new()), &vars).unwrap();
    assert_eq!(layout.platform_count(), 0);
    assert!(layout.validate(&World::new(w)).is_valid());
}

#[test]
fn world_without_terrain_has_empty_minimum() {
    let e = encoded(&[(1, 1), (3, 3)], &["   ", "   "]);
    let a = e.solve(&[]).unwrap();
    let layout = e.decode(&a);
    assert_eq!(layout.platform_count(), 0);
    assert!(e.validates(&layout));
}

#[test]
fn isolated_cell_needs_its_platform() {
    let e = encoded(&[(1, 1)], &["   ", " X ", "   "]);
    let cls = clauses(&e.problem);
    let n = e.n_vars();
    let center = e.p(1, 1, 1, 1);
    let mut any = false;
    for bits in 0u32..(1 << n) {
        let a: Vec<bool> = (0..n).map(|v| bits >> v & 1 == 1).collect();
        if satisfied(&cls, &a) {
            any = true;
            assert!(a[center]);
        }
    }
    assert!(any);
}

#[test]
fn single_platforms_decode() {
    // Two 1x1 platforms on a 2x1 strip of terrain.
    let e = encoded(&[(1, 1)], &["XX"]);
    let a = e.solve(&[(e.p(0, 0, 1, 1), true), (e.p(1, 0, 1, 1), true)]).unwrap();
    let layout = e.decode(&a);
    assert_eq!(layout.platform_count(), 2);
    let d = Dimensions::new(1, 1);
    assert_eq!(placed(&layout), vec![(Point::new(0, 0), d, d, false), (Point::new(1, 0), d, d, false)]);
    assert!(e.validates(&layout));
}

#[test]
fn largest_platform_is_decoded() {
    let e = encoded(&[(1, 1), (3, 3)], &["XXX", "XXX", "XXX"]);
    let a = e.solve(&[(e.p(0, 0, 3, 3), true)]).unwrap();
    // The chain forces the 1x1 at the same origin too.
    assert!(a[e.p(0, 0, 1, 1)]);
    let layout = e.decode(&a);
    assert_eq!(layout.platform_count(), 1);
    let d = Dimensions::new(3, 3);
    assert_eq!(placed(&layout), vec![(Point::new(0, 0), d, d, false)]);
    assert!(e.validates(&layout));
}

#[test]
fn rotation_is_recovered() {
    let e = encoded(&[(1, 2)], &["X", "X"]);
    let a = e.solve(&[(e.p(0, 0, 1, 2), true)]).unwrap();
    let layout = e.decode(&a);
    let d = Dimensions::new(1, 2);
    assert_eq!(placed(&layout), vec![(Point::new(0, 0), d, d, false)]);
    assert!(e.validates(&layout));

    let e = encoded(&[(1, 2)], &["XX"]);
    let a = e.solve(&[(e.p(0, 0, 2, 1), true)]).unwrap();
    let layout = e.decode(&a);
    assert_eq!(
        placed(&layout),
        vec![(Point::new(0, 0), Dimensions::new(1, 2), Dimensions::new(2, 1), true)]
    );
    assert!(e.validates(&layout));
}

#[test]
fn incomparable_pair_forces_common_successor() {
    // 1x3 and 3x1 are both reduced successors of 1x1.
    let e = encoded(&[(1, 1), (1, 3), (3, 1), (3, 3)], &["XXX", "XXX", "XXX"]);
    let (a, b, c) = (e.p(0, 0, 1, 3), e.p(0, 0, 3, 1), e.p(0, 0, 3, 3));
    assert!(e.solve(&[(a, true), (b, true), (c, false)]).is_none());
    let sol = e.solve(&[(a, true), (b, true)]).unwrap();
    assert!(sol[c]);
    let layout = e.decode(&sol);
    let d = Dimensions::new(3, 3);
    assert_eq!(placed(&layout)[0], (Point::new(0, 0), d, d, false));
    assert!(e.validates(&layout));
}

#[test]
fn incomparable_pair_forces_common_successor_through_offset() {
    // No footprint lies below both 1x3 and 3x1; they share the offset (0, 0).
    let e = encoded(&[(1, 3), (3, 1), (3, 3)], &["XXX", "XXX", "XXX"]);
    let (a, b, c) = (e.p(0, 0, 1, 3), e.p(0, 0, 3, 1), e.p(0, 0, 3, 3));
    assert!(e.solve(&[(a, true), (b, true), (c, false)]).is_none());
    let sol = e.solve(&[(a, true), (b, true)]).unwrap();
    assert!(sol[c]);
    let d = Dimensions::new(3, 3);
    assert_eq!(placed(&e.decode(&sol))[0], (Point::new(0, 0), d, d, false));
}

#[test]
fn diffusion_reaches_three_hops() {
    let e = encoded(&[(1, 1)], &["XXXX"]);
    let a = e.solve(&[]).unwrap();
    let layout = e.decode(&a);
    assert_eq!(layout.platform_count(), 1);
    assert!(e.validates(&layout));
    // A single platform at one end still supports the far end.
    let fixed = [(e.p(0, 0, 1, 1), true), (e.p(1, 0, 1, 1), false), (e.p(2, 0, 1, 1), false), (e.p(3, 0, 1, 1), false)];
    assert!(e.solve(&fixed).is_some());
}

#[test]
fn diffusion_stops_after_three_hops() {
    let e = encoded(&[(1, 1)], &["XXXXX"]);
    let mut fixed = vec![(e.p(0, 0, 1, 1), true)];
    for x in 1..5 {
        fixed.push((e.p(x, 0, 1, 1), false));
    }
    assert!(e.solve(&fixed).is_none());
    // The middle cell reaches both ends.
    assert_eq!(e.decode(&e.solve(&[]).unwrap()).platform_count(), 1);
}

#[test]
fn solutions_validate() {
    let e = encoded(&[(1, 1), (1, 2), (3, 3)], &["XX  X", "X  XX", "XXX  "]);
    let a = e.solve(&[]).unwrap();
    assert!(satisfied(&clauses(&e.problem), &a));
    let layout = e.decode(&a);
    assert!(e.validates(&layout));
}

#[test]
fn allocator_exhaustion_leaves_instance() {
    let mut problem = new_problem();
    // Push the next free variable close to the limit.
    let big = rustsat::types::Var::new(rustsat::types::Var::MAX_IDX - 3);
    problem.instance.add_clause([big.pos_lit()].into_iter().collect::<rustsat::types::Clause>());
    let before = problem.instance.n_clauses();
    let w = world(&["XX"]);
    let r = encode(&catalog(&[(1, 1)]), &w, &mut problem);
    assert_eq!(r.err(), Some(EncodeError::AllocatorExhausted));
    assert_eq!(problem.instance.n_clauses(), before);
}

#[test]
fn huge_footprint_overflows() {
    let mut problem = new_problem();
    let w = world(&["X"]);
    let r = encode(&catalog(&[(usize::MAX, 2)]), &w, &mut problem);
    assert_eq!(r.err(), Some(EncodeError::DimensionOverflow));
    assert_eq!(problem.instance.n_vars(), 0);
}

#[test]
fn satisfying_assignment_may_overlap() {
    // Overlap across tiles is left to the validator: two 3x3 platforms one
    // column apart satisfy every clause.
    let e = encoded(&[(3, 3)], &["XXXX", "XXXX", "XXXX"]);
    let a = e.solve(&[(e.p(0, 0, 3, 3), true), (e.p(1, 0, 3, 3), true)]).unwrap();
    assert!(satisfied(&clauses(&e.problem), &a));
    let layout = e.decode(&a);
    let r = layout.validate(&World::new(e.world.clone()));
    assert!(!r.overlapping_platforms.is_empty());
}

fn assignment_of(a: &[bool]) -> Assignment {
    Assignment::from(a.iter().map(|&b| if b { TernaryVal::True } else { TernaryVal::False }).collect::<Vec<_>>())
}

#[test]
fn checked_decode_reports_ambiguous_origin() {
    // An assignment (not a solution) with two incomparable footprints at one
    // origin and nothing above them.
    let e = encoded(&[(1, 3), (2, 2), (3, 3)], &["XXX", "XXX", "XXX"]);
    let mut a = vec![false; e.n_vars()];
    a[e.p(0, 0, 1, 3)] = true;
    a[e.p(0, 0, 2, 2)] = true;
    let r = PlatformLayout::from_assignment(&assignment_of(&a), &e.vars);
    assert_eq!(r.err(), Some(DecodeError::DecodeInvariantViolation(Point::new(0, 0))));
}

#[test]
fn rotations_of_one_entry_are_distinct_footprints() {
    // 1x3 and its rotation are incomparable footprints: both at one origin
    // force the 3x3.
    let e = encoded(&[(1, 3), (3, 3)], &["XXX", "XXX", "XXX"]);
    let (a, b, c) = (e.p(0, 0, 1, 3), e.p(0, 0, 3, 1), e.p(0, 0, 3, 3));
    assert!(e.solve(&[(a, true), (b, true), (c, false)]).is_none());
    let sol = e.solve(&[(a, true), (b, true)]).unwrap();
    let layout = PlatformLayout::from_assignment(&assignment_of(&sol), &e.vars).unwrap();
    assert_eq!(layout.get_platform(Point::new(0, 0)).unwrap().dims(), Dimensions::new(3, 3));
}

#[test]
fn largest_footprint_wins_over_entry_dims() {
    // Catalog {2x1, 1x3}: 1x3 implies 1x2 (entry 2x1, rotated); the decoder
    // keeps the 1x3 footprint.
    let e = encoded(&[(2, 1), (1, 3)], &["X", "X", "X"]);
    let sol = e.solve(&[(e.p(0, 0, 1, 3), true)]).unwrap();
    assert!(sol[e.p(0, 0, 1, 2)]);
    let layout = PlatformLayout::from_assignment(&assignment_of(&sol), &e.vars).unwrap();
    let pl = layout.get_platform(Point::new(0, 0)).unwrap();
    assert_eq!(pl.dims(), Dimensions::new(1, 3));
}

#[test]
fn checked_decode_accepts_unique_maximum() {
    let e = encoded(&[(1, 1), (3, 3)], &["XXX", "XXX", "XXX"]);
    let sol = e.solve(&[(e.p(0, 0, 3, 3), true)]).unwrap();
    let layout = PlatformLayout::from_assignment(&assignment_of(&sol), &e.vars).unwrap();
    assert_eq!(layout.get_platform(Point::new(0, 0)).unwrap().dims(), Dimensions::new(3, 3));
}

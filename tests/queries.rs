use rustsat::instances::SatInstance;
use timberborn_platform_cruncher::box_char::by_adjacency_nswe;
use timberborn_platform_cruncher::dag::{EncodingDag, EncodingNode};
use timberborn_platform_cruncher::dimensions::Dimensions;
use timberborn_platform_cruncher::encoder::encode;
use timberborn_platform_cruncher::layout::PlatformLayout;
use timberborn_platform_cruncher::limits::PlatformLimits;
use timberborn_platform_cruncher::platform::{platforms_default, Platform, PlatformDef};
use timberborn_platform_cruncher::point::Point;
use timberborn_platform_cruncher::sat::SatProblem;
use timberborn_platform_cruncher::vars::{dims_platform_map, effective_footprints};
use timberborn_platform_cruncher::world::{WorldGrid, WorldParseError};

fn def(w: usize, h: usize) -> PlatformDef {
    PlatformDef::new(Dimensions::new(w, h))
}

fn plat(w: usize, h: usize, x: isize, y: isize) -> Platform {
    Platform::new(Point::new(x, y), def(w, h), false)
}

fn rows(lines: &[&str]) -> Vec<Vec<u8>> {
    lines.iter().map(|l| l.as_bytes().to_vec()).collect()
}

#[test]
fn world_rows_round_trip() {
    let g = WorldGrid::from_rows(&rows(&["X  X", "XX"])).unwrap();
    assert_eq!(g.0.dims(), Dimensions::new(4, 2));
    assert_eq!(g.0.iter(), vec![true, false, false, true, true, true, false, false]);
    assert_eq!(g.to_rows(), rows(&["X  X", "XX  "]));
}

#[test]
fn world_rows_errors() {
    assert_eq!(WorldGrid::from_rows(&Vec::new()).err(), Some(WorldParseError::Empty));
    assert_eq!(
        WorldGrid::from_rows(&rows(&["XX", "X?"])).err(),
        Some(WorldParseError::InvalidByte { row: 1, col: 1, byte: b'?' })
    );
}

#[test]
fn default_catalog() {
    let d = platforms_default();
    assert_eq!(d.len(), 8);
    assert_eq!(d[6].dims(), Dimensions::new(3, 3));
    assert_eq!(d[1].dimensions_str(), "1x2");
    assert_eq!(effective_footprints(&d).len(), 13);
}

#[test]
fn footprints_map_to_entries() {
    let m = dims_platform_map(&vec![def(1, 2), def(2, 1), def(3, 3)]);
    assert_eq!(m.len(), 3);
    assert_eq!(m[0].0, Dimensions::new(1, 2));
    assert_eq!(m[0].1, vec![def(1, 2), def(2, 1)]);
    assert_eq!(m[1].0, Dimensions::new(2, 1));
    assert_eq!(m[1].1, vec![def(1, 2), def(2, 1)]);
    assert_eq!(m[2].1, vec![def(3, 3)]);
}

#[test]
fn layout_stats_and_weights() {
    let layout =
        PlatformLayout::from_platforms(vec![plat(1, 1, 0, 0), plat(3, 3, 1, 0), plat(1, 1, 4, 0)])
            .unwrap();
    assert_eq!(layout.platform_stats(), vec![(def(1, 1), 2), (def(3, 3), 1)]);
    assert_eq!(layout.platform_weight_sum(&vec![(def(1, 1), 2), (def(3, 3), -5)]), Some(-1));
    assert_eq!(layout.platform_weight_sum(&Vec::new()), Some(0));
    assert_eq!(layout.platform_weight_sum(&vec![(def(1, 1), isize::MAX)]), None);
}

#[test]
fn limits_constructors() {
    let l = PlatformLimits::new_unweighted(vec![(def(3, 3), 0)]);
    assert_eq!(l.card_limits, vec![(def(3, 3), 0)]);
    assert!(l.weights.is_empty());
    assert_eq!(l.weight_limit, None);
    let l = PlatformLimits::new_with_weights(Vec::new(), vec![(def(1, 1), 1)], Some(7));
    assert_eq!(l.weights, vec![(def(1, 1), 1)]);
    assert_eq!(l.weight_limit, Some(7));
}

#[test]
fn box_characters() {
    assert_eq!(by_adjacency_nswe(false, false, false, false), ' ');
    assert_eq!(by_adjacency_nswe(true, true, true, true), '\u{253c}');
    assert_eq!(by_adjacency_nswe(false, true, false, true), '\u{250c}');
    assert_eq!(by_adjacency_nswe(false, false, true, true), '\u{2500}');
}

#[test]
fn literal_labels() {
    let mut problem = SatProblem { instance: SatInstance::new() };
    let w = WorldGrid::from_rows(&rows(&["X"])).unwrap();
    let vars = encode(&vec![def(1, 1)], &w, &mut problem).unwrap();
    assert_eq!(vars.lit_readable_name((0, false)).unwrap(), "P1x1(0;0)");
    assert_eq!(vars.lit_readable_name((0, true)).unwrap(), "~P1x1(0;0)");
    assert_eq!(vars.lit_readable_name((3, false)).unwrap(), "T2(0;0)");
    assert_eq!(vars.lit_readable_name((5, false)), None);
    let map = vars.dims_platform_map();
    assert_eq!(map[0], (Dimensions::new(1, 1), vec![def(1, 1)]));
}

#[test]
fn node_order() {
    let p = |x, y| EncodingNode::Point(Point::new(x, y));
    let f = |w, h| EncodingNode::Platform(Dimensions::new(w, h));
    assert_eq!(p(0, 0).partial_cmp(&f(1, 1)), Some(std::cmp::Ordering::Less));
    assert_eq!(f(1, 3).partial_cmp(&p(0, 2)), Some(std::cmp::Ordering::Greater));
    assert_eq!(f(1, 3).partial_cmp(&p(1, 0)), None);
    assert_eq!(f(1, 3).partial_cmp(&f(3, 1)), None);
    assert_eq!(f(1, 1).partial_cmp(&f(3, 3)), Some(std::cmp::Ordering::Less));
    assert_eq!(p(0, 0).partial_cmp(&p(1, 0)), None);
    assert_eq!(p(0, 0).partial_cmp(&p(0, 0)), Some(std::cmp::Ordering::Equal));
}

#[test]
fn dag_queries() {
    let fps = effective_footprints(&vec![def(1, 1), def(1, 3), def(3, 3)]);
    assert_eq!(
        fps,
        vec![Dimensions::new(1, 1), Dimensions::new(1, 3), Dimensions::new(3, 1), Dimensions::new(3, 3)]
    );
    let dag = EncodingDag::new(&fps).unwrap();
    // Four footprints and the nine offsets of the 3x3 square.
    assert_eq!(dag.n_nodes(), 13);
    let mut edges = dag.iter_platform_edges_reduced();
    edges.sort_by_key(|(a, b)| (a.width, a.height, b.width, b.height));
    let d = Dimensions::new;
    assert_eq!(edges, vec![(d(1, 1), d(1, 3)), (d(1, 1), d(3, 1)), (d(1, 3), d(3, 3)), (d(3, 1), d(3, 3))]);
    let points = dag.iter_point_platform_edges_reduced();
    assert!(points.contains(&(Point::new(0, 0), d(1, 1))));
    assert!(points.contains(&(Point::new(2, 0), d(3, 1))));
    assert!(points.contains(&(Point::new(1, 1), d(3, 3))));
    assert!(!points.contains(&(Point::new(0, 0), d(3, 3))));
    assert_eq!(points.len(), 9);
    let by_source = dag.iter_platform_targets_by_source();
    assert_eq!(by_source[0], vec![(1, d(1, 3)), (2, d(3, 1))]);
    assert_eq!(by_source[3], vec![]);
    assert_eq!(dag.common_platform_successors(1, 2), vec![(3, d(3, 3))]);
    assert_eq!(dag.greatest_common_successors(1, 2), vec![3]);
    assert_eq!(dag.maximal_from(&vec![0, 1, 3]), vec![3]);
    assert_eq!(dag.maximal_from(&vec![1, 2]), vec![1, 2]);
    assert_eq!(dag.iter_edges_reduced().len(), 4 + 9);
}

use timberborn_platform_cruncher::dimensions::Dimensions;
use timberborn_platform_cruncher::grid::Grid;
use timberborn_platform_cruncher::platform::{Platform, PlatformDef};
use timberborn_platform_cruncher::point::Point;

fn collect_within(dims: Dimensions) -> Vec<Point> {
    let mut it = dims.iter_within();
    let mut out = Vec::new();
    while let Some(p) = it.next() {
        out.push(p);
    }
    out
}

fn collect_manhattan(c: Point, dist: usize) -> Vec<Point> {
    let mut it = c.iter_within_manhattan(dist);
    let mut out = Vec::new();
    while let Some(p) = it.next() {
        out.push(p);
    }
    out
}

fn plat(w: usize, h: usize, x: isize, y: isize) -> Platform {
    Platform::new(Point::new(x, y), PlatformDef::new(Dimensions::new(w, h)), false)
}

#[test]
fn dimensions_iter_dims() {
    let dims = Dimensions::new(7, 9);
    let points = collect_within(dims);

    assert_eq!(points.len(), 7 * 9);
    assert!(points.iter().all(|p: &Point| dims.contains(*p)));
}

#[test]
fn point_iter_manhattan() {
    let c = Point { x: 1, y: 2 };
    let manhattan_points = collect_manhattan(c, 3);

    assert_eq!(manhattan_points.len(), 1 + 3 + 5 + 7 + 5 + 3 + 1);
    let order_predicate = |a: Point, b: Point| a.y < b.y || a.y == b.y && a.x < b.x;
    assert!(manhattan_points.windows(2).all(|pair: &[Point]| order_predicate(pair[0], pair[1])));
}

#[test]
fn adjacent_points() {
    let c = Point { x: 2, y: 2 };
    let grid = b"\
        .--.\
        .-..\
        ....\
        --..\
          "
    .map(|c| match c as char {
        '.' => true,
        _ => false,
    })
    .to_vec();
    let grid = Grid::try_from_vec(Dimensions::new(4, 4), grid).unwrap();

    let mut adjacent_points = c.adjacent_points(3, &grid);
    let mut expected: Vec<Point> =
        [(0, 1), (0, 2), (1, 2), (2, 1), (2, 2), (2, 3), (3, 0), (3, 1), (3, 2), (3, 3)]
            .iter()
            .map(|t| Point::new(t.0, t.1))
            .collect();
    adjacent_points.sort();
    expected.sort();
    assert_eq!(adjacent_points, expected);
}

#[test]
fn iter_within_row_major_order() {
    let points = collect_within(Dimensions::new(2, 2));
    assert_eq!(
        points,
        vec![Point::new(0, 0), Point::new(1, 0), Point::new(0, 1), Point::new(1, 1)]
    );
    assert!(collect_within(Dimensions::new(0, 5)).is_empty());
}

#[test]
fn dimensions_partial_order_table() {
    let d = |w, h| Dimensions::new(w, h);
    assert_eq!(d(2, 3).partial_cmp(&d(2, 3)), Some(std::cmp::Ordering::Equal));
    assert_eq!(d(1, 3).partial_cmp(&d(2, 3)), Some(std::cmp::Ordering::Less));
    assert_eq!(d(3, 3).partial_cmp(&d(2, 3)), Some(std::cmp::Ordering::Greater));
    assert_eq!(d(1, 3).partial_cmp(&d(3, 1)), None);
    assert_eq!(d(0, 7).partial_cmp(&d(1, 1)), Some(std::cmp::Ordering::Less));
    assert_eq!(d(1, 1).partial_cmp(&d(5, 0)), Some(std::cmp::Ordering::Greater));
    assert_eq!(d(0, 7).partial_cmp(&d(4, 0)), Some(std::cmp::Ordering::Equal));
    assert!(d(0, 7) == d(4, 0));
    assert!(d(1, 2) != d(2, 1));
}

#[test]
fn dimensions_helpers() {
    let d = Dimensions::new(3, 5);
    assert_eq!(d.flipped(), Dimensions::new(5, 3));
    assert_eq!(d.corner_point_incl(), Some(Point::new(2, 4)));
    assert_eq!(Dimensions::new(0, 4).corner_point_incl(), None);
    let edge = isize::MAX as usize + 1;
    assert_eq!(Dimensions::new(edge, 1).corner_point_incl(), Some(Point::new(isize::MAX, 0)));
    assert_eq!(Dimensions::new(edge + 1, 1).corner_point_incl(), None);
    assert!(d.contains(Point::new(2, 4)));
    assert!(!d.contains(Point::new(3, 0)));
    assert!(!d.contains(Point::new(-1, 0)));
    assert!(d.contains_dims(Dimensions::new(3, 4)));
    assert!(!d.contains_dims(Dimensions::new(4, 1)));
    assert!(d.contains_dims(Dimensions::new(9, 0)));
    assert!(Dimensions::new(0, 1).empty());
}

#[test]
fn point_arithmetic() {
    let p = Point::new(3, -4);
    assert_eq!(p.manhattan_mag(), 7);
    assert_eq!(p.abs(), Point::new(3, 4));
    assert_eq!(p.manhattan_to(Point::new(-1, 1)), 9);
    assert_eq!(p.flipped(), Point::new(-4, 3));
    assert_eq!(p.flipped_if(false), p);
    assert_eq!(p.add(Point::new(1, 1)), Point::new(4, -3));
    assert_eq!(p.sub(Point::new(1, 1)), Point::new(2, -5));
    assert_eq!(p.neg(), Point::new(-3, 4));
    assert_eq!(p.mul(2), Point::new(6, -8));
    assert_eq!(
        p.neighbors(),
        [Point::new(4, -4), Point::new(3, -3), Point::new(2, -4), Point::new(3, -5)]
    );
}

#[test]
fn grid_access() {
    let mut g = Grid::try_from_vec(Dimensions::new(3, 2), vec![1, 2, 3, 4, 5, 6]).unwrap();
    assert_eq!(g.get(Point::new(1, 1)), Some(&5));
    assert_eq!(g.get(Point::new(3, 0)), None);
    assert_eq!(g.set(Point::new(0, 1), 9), Some(4));
    assert_eq!(g.set(Point::new(-1, 0), 9), None);
    if let Some(c) = g.get_mut(Point::new(2, 0)) {
        *c = 7;
    }
    assert_eq!(g.iter(), vec![1, 2, 7, 9, 5, 6]);
    assert_eq!(g.iter_rows(), vec![vec![1, 2, 7], vec![9, 5, 6]]);
    assert_eq!(g.enumerate()[4], (Point::new(1, 1), 5));
    assert!(Grid::try_from_vec(Dimensions::new(2, 2), vec![0u8; 3]).is_none());
    let f = Grid::from_fn(Dimensions::new(2, 2), |p: Point| p.x + 10 * p.y);
    assert_eq!(f.iter(), vec![0, 1, 10, 11]);
    let z: Grid<u8> = Grid::new(Dimensions::new(2, 1));
    assert_eq!(z.iter(), vec![0, 0]);
    assert_eq!(Grid::new_fill(Dimensions::new(1, 2), true).iter(), vec![true, true]);
}

#[test]
fn platform_overlap_yes() {
    let cases = [
        (plat(1, 1, 2, 3), plat(1, 1, 2, 3)),
        (plat(3, 3, 5, 5), plat(1, 1, 7, 7)),
        (plat(3, 3, 5, 5), plat(3, 3, 3, 3)),
        (plat(5, 5, 5, 5), plat(5, 5, 1, 1)),
        (plat(5, 5, 5, 5), plat(3, 3, 9, 9)),
    ];
    for (a, b) in cases {
        assert!(a.overlaps(&b), "{:?} {:?}", a, b);
        assert!(b.overlaps(&a), "{:?} {:?}", b, a);
    }
}

#[test]
fn platform_overlap_no() {
    let cases = [
        (plat(1, 1, 2, 3), plat(1, 1, 3, 3)),
        (plat(3, 3, 5, 5), plat(1, 1, 8, 5)),
        (plat(3, 3, 5, 5), plat(3, 3, 5, 8)),
        (plat(5, 5, 5, 5), plat(3, 3, 2, 6)),
        (plat(5, 5, 5, 5), plat(5, 5, 0, 7)),
    ];
    for (a, b) in cases {
        assert!(!a.overlaps(&b), "{:?} {:?}", a, b);
        assert!(!b.overlaps(&a), "{:?} {:?}", b, a);
    }
}

#[test]
fn platform_dims_and_corners() {
    let p = Platform::new(Point::new(1, 2), PlatformDef::new(Dimensions::new(1, 3)), true);
    assert_eq!(p.dims(), Dimensions::new(3, 1));
    assert_eq!(p.def().dims(), Dimensions::new(1, 3));
    assert!(p.rotated());
    assert_eq!(p.area_corners(), Some((Point::new(1, 2), Point::new(3, 2))));
    assert!(PlatformDef::new(Dimensions::new(1, 3)).rectangular());
    assert!(!PlatformDef::new(Dimensions::new(3, 3)).rectangular());
}

use timberborn_platform_cruncher::dimensions::Dimensions;
use timberborn_platform_cruncher::grid::Grid;
use timberborn_platform_cruncher::layout::PlatformLayout;
use timberborn_platform_cruncher::platform::{Platform, PlatformDef};
use timberborn_platform_cruncher::point::Point;
use timberborn_platform_cruncher::world::{World, WorldGrid};

fn world(rows: &[&str]) -> World {
    let h = rows.len();
    let w = rows.first().map_or(0, |r| r.len());
    let data: Vec<bool> = rows.iter().flat_map(|r| r.chars().map(|c| c == 'X')).collect();
    World::new(WorldGrid(Grid::try_from_vec(Dimensions::new(w, h), data).unwrap()))
}

fn plat(w: usize, h: usize, x: isize, y: isize) -> Platform {
    Platform::new(Point::new(x, y), PlatformDef::new(Dimensions::new(w, h)), false)
}

#[test]
fn honoring_layout_is_valid() {
    let w = world(&["XXXXXX", "XXXXXX", "XXXXXX"]);
    let layout = PlatformLayout::from_platforms(vec![plat(3, 3, 0, 0), plat(3, 3, 3, 0)]).unwrap();
    let r = layout.validate(&w);
    assert!(r.is_valid());
    assert!(r.iter_error_printouts().is_empty());
}

#[test]
fn moved_platform_overlaps() {
    let w = world(&["XXXXXX", "XXXXXX", "XXXXXX"]);
    let a = plat(3, 3, 0, 0);
    let b = plat(3, 3, 2, 0);
    let layout = PlatformLayout::from_platforms(vec![a, b]).unwrap();
    let r = layout.validate(&w);
    assert!(!r.is_valid());
    assert_eq!(r.overlapping_platforms, vec![a, b]);
    assert!(r.out_of_bounds_platforms.is_empty());
}

#[test]
fn out_of_bounds_is_reported() {
    let w = world(&["XXX", "XXX"]);
    let a = plat(3, 3, 0, 0);
    let r = PlatformLayout::from_platforms(vec![a]).unwrap().validate(&w);
    assert_eq!(r.out_of_bounds_platforms, vec![a]);
    assert!(r.unsupported_terrain.is_empty());
}

#[test]
fn far_terrain_is_unsupported() {
    let w = world(&["XXXXX", "    X"]);
    let r = PlatformLayout::from_platforms(vec![plat(1, 1, 0, 0)]).unwrap().validate(&w);
    // (3,0) is three hops away and supported; (4,0) and (4,1) are not.
    assert_eq!(r.unsupported_terrain, vec![Point::new(4, 0), Point::new(4, 1)]);
    let printouts = r.iter_error_printouts();
    assert_eq!(printouts.len(), 1);
    assert_eq!(printouts[0].header, "unsupported terrain");
    assert_eq!(printouts[0].items.len(), 2);
}

#[test]
fn terrain_does_not_diffuse_through_gaps() {
    let w = world(&["X X"]);
    let r = PlatformLayout::from_platforms(vec![plat(1, 1, 0, 0)]).unwrap().validate(&w);
    assert_eq!(r.unsupported_terrain, vec![Point::new(2, 0)]);
}

#[test]
fn duplicate_origins_are_refused() {
    assert!(PlatformLayout::from_platforms(vec![plat(1, 1, 0, 0), plat(3, 3, 0, 0)]).is_none());
}

#[test]
fn layout_queries() {
    let a = plat(1, 1, 0, 0);
    let b = plat(3, 3, 1, 0);
    let c = plat(1, 1, 4, 0);
    let layout = PlatformLayout::from_platforms(vec![a, b, c]).unwrap();
    assert_eq!(layout.platform_count(), 3);
    assert_eq!(layout.get_platform(Point::new(1, 0)), Some(b));
    assert_eq!(layout.get_platform(Point::new(2, 0)), None);
}

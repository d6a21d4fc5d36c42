//! Platform footprints and placed platforms.
use vstd::prelude::*;

use crate::dimensions::{dims_eq, dims_fit, flip, is_empty, Dimensions};
use crate::point::{pt, Point};

verus! {

/// A platform type, identified by its footprint.
#[derive(Copy, Clone, Debug, Hash)]
pub struct PlatformDef {
    dims: Dimensions,
}

impl PlatformDef {
    pub closed spec fn spec_dims(self) -> Dimensions {
        self.dims
    }

    pub fn new(dims: Dimensions) -> (r: PlatformDef)
        ensures
            r.spec_dims() == dims,
    {
        PlatformDef { dims }
    }

    /// The footprint, from `(0, 0)` to the inclusive corner `(w - 1, h - 1)`.
    pub fn dims(self) -> (r: Dimensions)
        ensures
            r == self.spec_dims(),
    {
        self.dims
    }

    /// The footprint as `WxH`.
    pub fn dimensions_str(self) -> (r: String)
        ensures
            r@ == dims_label(self.spec_dims().width as int, self.spec_dims().height as int),
    {
        format_dims(self.dims)
    }

    /// Width and height differ.
    pub fn rectangular(self) -> (r: bool)
        ensures
            r == (self.spec_dims().width != self.spec_dims().height),
    {
        self.dims.width != self.dims.height
    }
}

/// The label `WxH` of a footprint.
pub uninterp spec fn dims_label(w: int, h: int) -> Seq<char>;

/// Relies on `format!` with `{}x{}`: the text depends on the two numbers
/// alone.
#[verifier::external_body]
fn format_dims(d: Dimensions) -> (r: String)
    ensures
        r@ == dims_label(d.width as int, d.height as int),
{
    format!("{}x{}", d.width, d.height)
}

impl PartialEq for PlatformDef {
    fn eq(&self, other: &PlatformDef) -> (r: bool) {
        self.dims == other.dims
    }
}

impl vstd::std_specs::cmp::PartialEqSpecImpl for PlatformDef {
    open spec fn obeys_eq_spec() -> bool {
        true
    }

    open spec fn eq_spec(&self, other: &PlatformDef) -> bool {
        dims_eq(self.spec_dims(), other.spec_dims())
    }
}

impl Eq for PlatformDef {

}

/// The platform types available by default: `1x1` to `1x6`, `3x3` and `5x5`.
pub fn platforms_default() -> (r: Vec<PlatformDef>)
    ensures
        r@.len() == 8,
        r@.map_values(|d: PlatformDef| d.spec_dims()) == seq![
            Dimensions { width: 1, height: 1 },
            Dimensions { width: 1, height: 2 },
            Dimensions { width: 1, height: 3 },
            Dimensions { width: 1, height: 4 },
            Dimensions { width: 1, height: 5 },
            Dimensions { width: 1, height: 6 },
            Dimensions { width: 3, height: 3 },
            Dimensions { width: 5, height: 5 },
        ],
{
    let r = vec![
        PlatformDef::new(Dimensions::new(1, 1)),
        PlatformDef::new(Dimensions::new(1, 2)),
        PlatformDef::new(Dimensions::new(1, 3)),
        PlatformDef::new(Dimensions::new(1, 4)),
        PlatformDef::new(Dimensions::new(1, 5)),
        PlatformDef::new(Dimensions::new(1, 6)),
        PlatformDef::new(Dimensions::new(3, 3)),
        PlatformDef::new(Dimensions::new(5, 5)),
    ];
    assert(r@.map_values(|d: PlatformDef| d.spec_dims()) =~= seq![
        Dimensions { width: 1, height: 1 },
        Dimensions { width: 1, height: 2 },
        Dimensions { width: 1, height: 3 },
        Dimensions { width: 1, height: 4 },
        Dimensions { width: 1, height: 5 },
        Dimensions { width: 1, height: 6 },
        Dimensions { width: 3, height: 3 },
        Dimensions { width: 5, height: 5 },
    ]);
    r
}

/// A platform of some type placed with its top-left corner at a point,
/// possibly rotated by 90 degrees.
#[derive(Copy, Clone, Debug, Hash)]
pub struct Platform {
    point: Point,
    def: PlatformDef,
    rotated: bool,
}

/// The footprint of a placed platform, rotation applied.
pub open spec fn eff_dims(p: Platform) -> Dimensions {
    if p.spec_rotated() {
        flip(p.spec_def().spec_dims())
    } else {
        p.spec_def().spec_dims()
    }
}

/// The platform covers the cell `q`.
pub open spec fn covers(p: Platform, q: Point) -> bool {
    &&& 0 <= q.x - p.spec_point().x < eff_dims(p).width
    &&& 0 <= q.y - p.spec_point().y < eff_dims(p).height
}

/// The far corner of the platform fits in `isize`.
pub open spec fn placeable(p: Platform) -> bool {
    &&& dims_fit(eff_dims(p))
    &&& p.spec_point().x + eff_dims(p).width <= isize::MAX
    &&& p.spec_point().y + eff_dims(p).height <= isize::MAX
}

/// The two platforms share a cell.
pub open spec fn rects_overlap(a: Platform, b: Platform) -> bool {
    &&& !is_empty(eff_dims(a))
    &&& !is_empty(eff_dims(b))
    &&& b.spec_point().x + eff_dims(b).width - 1 >= a.spec_point().x
    &&& b.spec_point().y + eff_dims(b).height - 1 >= a.spec_point().y
    &&& b.spec_point().x <= a.spec_point().x + eff_dims(a).width - 1
    &&& b.spec_point().y <= a.spec_point().y + eff_dims(a).height - 1
}

impl Platform {
    pub closed spec fn spec_point(self) -> Point {
        self.point
    }

    pub closed spec fn spec_def(self) -> PlatformDef {
        self.def
    }

    pub closed spec fn spec_rotated(self) -> bool {
        self.rotated
    }

    pub fn new(point: Point, def: PlatformDef, rotated: bool) -> (r: Platform)
        ensures
            r.spec_point() == point,
            r.spec_def() == def,
            r.spec_rotated() == rotated,
    {
        Platform { point, def, rotated }
    }

    /// The two inclusive corners of the covered area, `None` for an empty
    /// footprint or one whose corner does not fit in `isize`.
    pub fn area_corners(&self) -> (r: Option<(Point, Point)>)
        requires
            placeable(*self),
        ensures
            r == (if is_empty(eff_dims(*self)) {
                None
            } else {
                Some(
                    (
                        self.spec_point(),
                        pt(
                            self.spec_point().x + eff_dims(*self).width - 1,
                            self.spec_point().y + eff_dims(*self).height - 1,
                        ),
                    ),
                )
            }),
    {
        match self.dims().corner_point_incl() {
            Some(c) => Some((self.point, c.add(self.point))),
            None => None,
        }
    }

    /// The two platforms share at least one cell.
    pub fn overlaps(&self, other: &Platform) -> (r: bool)
        requires
            placeable(*self),
            placeable(*other),
        ensures
            r == rects_overlap(*self, *other),
    {
        let (self_near, self_far) = match self.area_corners() {
            Some(c) => c,
            None => {
                return false;
            },
        };
        let (other_near, other_far) = match other.area_corners() {
            Some(c) => c,
            None => {
                return false;
            },
        };
        other_far.x >= self_near.x && other_far.y >= self_near.y && other_near.x <= self_far.x
            && other_near.y <= self_far.y
    }

    /// The top-left (minimal x and y) point.
    pub fn point(&self) -> (r: Point)
        ensures
            r == self.spec_point(),
    {
        self.point
    }

    pub fn rotated(&self) -> (r: bool)
        ensures
            r == self.spec_rotated(),
    {
        self.rotated
    }

    /// The footprint with rotation applied; `def().dims()` is the raw one.
    pub fn dims(&self) -> (r: Dimensions)
        ensures
            r == eff_dims(*self),
    {
        if self.rotated {
            self.def.dims().flipped()
        } else {
            self.def.dims()
        }
    }

    pub fn def(&self) -> (r: PlatformDef)
        ensures
            r == self.spec_def(),
    {
        self.def
    }
}

impl PartialEq for Platform {
    fn eq(&self, other: &Platform) -> (r: bool) {
        self.point == other.point && self.def == other.def && self.rotated == other.rotated
    }
}

impl vstd::std_specs::cmp::PartialEqSpecImpl for Platform {
    open spec fn obeys_eq_spec() -> bool {
        true
    }

    open spec fn eq_spec(&self, other: &Platform) -> bool {
        &&& self.spec_point() == other.spec_point()
        &&& dims_eq(self.spec_def().spec_dims(), other.spec_def().spec_dims())
        &&& self.spec_rotated() == other.spec_rotated()
    }
}

impl Eq for Platform {

}

} // verus!

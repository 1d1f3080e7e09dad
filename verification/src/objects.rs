//! Signed-distance primitives.

use vstd::prelude::*;
use crate::fixed::{fx_mul, lemma_floor_sqrt, lemma_floor_sqrt_unique, LIMIT, ONE};
use crate::lighting::Color;
use crate::vector::{lemma_step_length, lemma_unit, Point3, V3, Vector3};

verus! {

/// A shape given by its signed distance field.
pub trait Object {
    /// The shape's parameters are within the representable world.
    spec fn wf(&self) -> bool;

    /// The signed distance from `point` to the surface.
    spec fn distance(&self, point: V3) -> int;

    /// The direction away from the surface nearest to `point`.
    spec fn normal(&self, point: V3) -> V3;

    /// The base colour.
    spec fn color(&self) -> Color;

    /// The fraction of light that is reflected, from zero to one.
    spec fn reflectance(&self) -> int;

    /// Whether the shape's parameters are within the representable world.
    fn is_wf(&self) -> (b: bool)
        ensures
            b == self.wf(),
    ;

    /// The signed distance from `point` to the surface: how far a ray may advance from
    /// there, in any direction, without passing through the surface.
    fn distance_estimate(&self, point: Point3) -> (d: i64)
        requires
            self.wf(),
            point.in_world(),
        ensures
            d == self.distance(point@),
            -LIMIT <= d <= 4 * LIMIT,
    ;

    /// The normal of the surface nearest to `point`.
    fn get_normal(&self, point: Point3) -> (n: Vector3)
        requires
            self.wf(),
            point.in_world(),
        ensures
            n@ == self.normal(point@),
            n@.within(ONE as int),
            n@.is_unit() || n@ == V3::zero(),
            n@.at_most_unit(),
    ;

    /// The base colour.
    fn get_color_ref(&self) -> (c: &Color)
        ensures
            *c == self.color(),
            self.wf() ==> c.wf(),
    ;

    /// The fraction of light that is reflected: zero for a surface that does not reflect.
    fn get_reflectance(&self) -> (r: i64)
        ensures
            r == self.reflectance(),
            self.wf() ==> 0 <= r <= ONE,
    ;
}

/// A sphere.
#[derive(Clone, Copy, Debug, PartialEq, Eq, Structural)]
pub struct Sphere {
    pub centre: Point3,
    pub radius: i64,
    pub color: Color,
    pub reflectance: i64,
}

/// A plane of constant height, facing up.
#[derive(Clone, Copy, Debug, PartialEq, Eq, Structural)]
pub struct HorizontalPlane {
    pub y: i64,
    pub color: Color,
    pub reflectance: i64,
}

impl Object for Sphere {
    open spec fn wf(&self) -> bool {
        &&& self.centre.in_world()
        &&& 0 <= self.radius <= LIMIT
        &&& self.color.wf()
        &&& 0 <= self.reflectance <= ONE
    }

    /// The distance to the centre, less the radius.
    open spec fn distance(&self, point: V3) -> int {
        point.minus(self.centre@).length() - self.radius
    }

    /// The unit vector from the centre toward `point`.
    open spec fn normal(&self, point: V3) -> V3 {
        point.minus(self.centre@).unit()
    }

    open spec fn color(&self) -> Color {
        self.color
    }

    open spec fn reflectance(&self) -> int {
        self.reflectance as int
    }

    fn is_wf(&self) -> (b: bool) {
        self.centre.is_in_world() && 0 <= self.radius && self.radius <= LIMIT
            && self.color.is_wf() && 0 <= self.reflectance && self.reflectance <= ONE
    }

    fn distance_estimate(&self, point: Point3) -> (d: i64) {
        let r_centre = point.minus(&self.centre);
        r_centre.norm() - self.radius
    }

    fn get_normal(&self, point: Point3) -> (n: Vector3)
        ensures
            point@ != self.centre@ ==> n@.is_unit(),
    {
        point.minus(&self.centre).normalize()
    }

    fn get_color_ref(&self) -> (c: &Color) {
        &self.color
    }

    fn get_reflectance(&self) -> (r: i64) {
        self.reflectance
    }
}

impl Object for HorizontalPlane {
    open spec fn wf(&self) -> bool {
        &&& -LIMIT <= self.y <= LIMIT
        &&& self.color.wf()
        &&& 0 <= self.reflectance <= ONE
    }

    /// The vertical distance to the plane.
    open spec fn distance(&self, point: V3) -> int {
        if point.y >= self.y {
            point.y - self.y
        } else {
            self.y - point.y
        }
    }

    /// Straight up.
    open spec fn normal(&self, point: V3) -> V3 {
        V3 { x: 0, y: ONE as int, z: 0 }
    }

    open spec fn color(&self) -> Color {
        self.color
    }

    open spec fn reflectance(&self) -> int {
        self.reflectance as int
    }

    fn is_wf(&self) -> (b: bool) {
        -LIMIT <= self.y && self.y <= LIMIT && self.color.is_wf() && 0 <= self.reflectance
            && self.reflectance <= ONE
    }

    fn distance_estimate(&self, point: Point3) -> (d: i64) {
        if point.y >= self.y {
            point.y - self.y
        } else {
            self.y - point.y
        }
    }

    fn get_normal(&self, point: Point3) -> (n: Vector3)
        ensures
            n@.is_unit(),
    {
        assert(ONE * ONE + 0 * 0 + 0 * 0 == 1_000_000_000_000) by (nonlinear_arith)
            requires
                ONE == 1_000_000,
        ;
        Vector3::new(0, ONE, 0)
    }

    fn get_color_ref(&self) -> (c: &Color) {
        &self.color
    }

    fn get_reflectance(&self) -> (r: i64) {
        self.reflectance
    }
}

/// A point whose offset from the centre of a sphere has the length of the radius and `d`
/// more, to within a raw unit, is at distance `d` from the sphere.
pub proof fn lemma_sphere_distance(s: Sphere, offset: V3, d: int)
    requires
        0 <= s.radius,
        0 <= d,
        (s.radius + d) * (s.radius + d) <= offset.norm_sq() < (s.radius + d + 1) * (s.radius + d
            + 1),
    ensures
        s.distance(s.centre@.plus(offset)) == d,
{
    let p = s.centre@.plus(offset);
    assert(p.minus(s.centre@) == offset);
    lemma_floor_sqrt_unique(offset.norm_sq(), s.radius + d);
}

/// The normal of a sphere at any point but its centre has length one, to within six
/// millionths of its square, and points away from the centre.
pub proof fn lemma_sphere_normal(s: Sphere, p: V3)
    requires
        p != s.centre@,
    ensures
        s.normal(p).is_unit(),
        s.normal(p).within(ONE as int),
        s.normal(p).dot(p.minus(s.centre@)) > 0,
{
    lemma_unit(p.minus(s.centre@));
}

/// A ray that starts on a plane and does not run straight up or down stands closer to
/// the plane than `step` after a first step of that length.
pub proof fn lemma_plane_first_step(plane: HorizontalPlane, origin: V3, dir: V3, step: int)
    requires
        origin.y == plane.y,
        dir.within(ONE as int),
        -ONE < dir.y < ONE,
        step > 0,
    ensures
        0 <= plane.distance(origin.plus(dir.scaled(step))) < step,
{
    let rise = fx_mul(dir.y, step);
    assert(-(step * 1_000_000) < dir.y * step < step * 1_000_000) by (nonlinear_arith)
        requires
            -1_000_000 < dir.y < 1_000_000,
            step > 0,
    ;
    if dir.y * step >= 0 {
        assert((dir.y * step) / 1_000_000 < step);
    } else {
        assert((-(dir.y * step)) / 1_000_000 < step);
    }
    assert(-step < rise < step);
}

/// A ray that starts on a sphere and whose first step does not lead away from the centre
/// stands closer to the sphere than `step` after that step, if the step is at least two
/// raw units and no longer than the radius.
pub proof fn lemma_sphere_first_step(s: Sphere, origin: V3, dir: V3, step: int)
    requires
        2 <= step <= s.radius,
        origin.minus(s.centre@).length() == s.radius,
        dir.norm_sq() <= ONE * ONE + 6 * ONE,
        dir.scaled(step).dot(origin.minus(s.centre@)) <= 0,
    ensures
        s.distance(origin.plus(dir.scaled(step))) < step,
{
    let w = origin.minus(s.centre@);
    let sv = dir.scaled(step);
    let p = origin.plus(sv);
    let v = p.minus(s.centre@);
    let r = s.radius as int;
    let ws = w.norm_sq();
    let ss = sv.norm_sq();
    let vs = v.norm_sq();
    let cross = sv.dot(w);
    assert(vs == ws + 2 * cross + ss) by (nonlinear_arith)
        requires
            v.x == w.x + sv.x,
            v.y == w.y + sv.y,
            v.z == w.z + sv.z,
            vs == v.x * v.x + v.y * v.y + v.z * v.z,
            ws == w.x * w.x + w.y * w.y + w.z * w.z,
            ss == sv.x * sv.x + sv.y * sv.y + sv.z * sv.z,
            cross == sv.x * w.x + sv.y * w.y + sv.z * w.z,
    ;
    assert(ws >= 0 && vs >= 0) by (nonlinear_arith)
        requires
            vs == v.x * v.x + v.y * v.y + v.z * v.z,
            ws == w.x * w.x + w.y * w.y + w.z * w.z,
    ;
    lemma_floor_sqrt(ws);
    lemma_floor_sqrt(vs);
    lemma_step_length(dir, step);
    let ds = dir.norm_sq();
    let st = step * step;
    assert(ONE * ONE == 1_000_000_000_000) by (nonlinear_arith)
        requires
            ONE == 1_000_000,
    ;
    assert(1_000_000_000_000 * ss <= 1_000_006_000_000 * st) by (nonlinear_arith)
        requires
            1_000_000_000_000 * ss <= ds * st,
            ds <= 1_000_006_000_000,
            st >= 0,
    ;
    let l = v.length();
    assert(l < r + step) by (nonlinear_arith)
        requires
            l >= 0,
            l * l <= vs,
            vs <= ws + ss,
            ws < (r + 1) * (r + 1),
            1_000_000_000_000 * ss <= 1_000_006_000_000 * st,
            st == step * step,
            2 <= step <= r,
    ;
}

/// Any of the primitives.
#[derive(Clone, Copy, Debug, PartialEq, Eq, Structural)]
pub enum Shape {
    Sphere(Sphere),
    Plane(HorizontalPlane),
}

impl Object for Shape {
    open spec fn wf(&self) -> bool {
        match self {
            Shape::Sphere(s) => s.wf(),
            Shape::Plane(p) => p.wf(),
        }
    }

    open spec fn distance(&self, point: V3) -> int {
        match self {
            Shape::Sphere(s) => s.distance(point),
            Shape::Plane(p) => p.distance(point),
        }
    }

    open spec fn normal(&self, point: V3) -> V3 {
        match self {
            Shape::Sphere(s) => s.normal(point),
            Shape::Plane(p) => p.normal(point),
        }
    }

    open spec fn color(&self) -> Color {
        match self {
            Shape::Sphere(s) => s.color(),
            Shape::Plane(p) => p.color(),
        }
    }

    open spec fn reflectance(&self) -> int {
        match self {
            Shape::Sphere(s) => s.reflectance(),
            Shape::Plane(p) => p.reflectance(),
        }
    }

    fn is_wf(&self) -> (b: bool) {
        match self {
            Shape::Sphere(s) => s.is_wf(),
            Shape::Plane(p) => p.is_wf(),
        }
    }

    fn distance_estimate(&self, point: Point3) -> (d: i64) {
        match self {
            Shape::Sphere(s) => s.distance_estimate(point),
            Shape::Plane(p) => p.distance_estimate(point),
        }
    }

    fn get_normal(&self, point: Point3) -> (n: Vector3) {
        match self {
            Shape::Sphere(s) => s.get_normal(point),
            Shape::Plane(p) => p.get_normal(point),
        }
    }

    fn get_color_ref(&self) -> (c: &Color) {
        match self {
            Shape::Sphere(s) => s.get_color_ref(),
            Shape::Plane(p) => p.get_color_ref(),
        }
    }

    fn get_reflectance(&self) -> (r: i64) {
        match self {
            Shape::Sphere(s) => s.get_reflectance(),
            Shape::Plane(p) => p.get_reflectance(),
        }
    }
}

} // verus!

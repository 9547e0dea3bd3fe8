//! Three-dimensional things: points, groups and the kinds of objects.

use vstd::prelude::*;

verus! {

/// A point in 3D space; coordinates count lattice units.
#[derive(Debug, Clone, Copy, PartialEq, Eq, PartialOrd, Ord, Hash, Structural)]
pub struct Point3 {
    /// The x-coordinate.
    pub x: i32,
    /// The y-coordinate.
    pub y: i32,
    /// The z-coordinate.
    pub z: i32,
}

/// An alternate constructor for 3D points.
#[allow(non_snake_case)]
pub fn Point3(x: i32, y: i32, z: i32) -> (r: Point3)
    ensures
        r.x == x,
        r.y == y,
        r.z == z,
{
    Point3 { x, y, z }
}

/// The origin.
#[allow(non_snake_case)]
pub fn Origin() -> (r: Point3)
    ensures
        r.x == 0 && r.y == 0 && r.z == 0,
{
    Point3 { x: 0, y: 0, z: 0 }
}

/// A group of like things in 3D.
#[derive(Debug, Clone)]
pub struct Group<T> {
    /// The things.
    pub items: Vec<T>,
}

/// Builds a group of the things.
#[allow(non_snake_case)]
pub fn Group<T>(a: Vec<T>) -> (r: Group<T>)
    ensures
        r.items@ == a@,
{
    Group { items: a }
}

/// The kind of a 3D object.
#[derive(Debug, Clone, Copy, PartialEq, Eq, Structural)]
pub enum ObjType3d {
    /// A point.
    Point3d,
    /// A segment.
    Segment3d,
    /// A polygon.
    Polygon3d,
    /// A group.
    Group3d,
}

/// Whether objects further back are hidden behind nearer ones.
#[derive(Debug, Clone, Copy, PartialEq, Eq, Structural)]
pub enum Occlusion {
    /// They are not.
    False,
    /// They are.
    True,
}

impl Default for Occlusion {
    /// Objects are hidden by default.
    fn default() -> (r: Occlusion)
        ensures
            r == Occlusion::True,
    {
        Occlusion::True
    }
}

} // verus!

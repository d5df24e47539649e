//! Polygon vertices on the integer pixel grid.

use vstd::prelude::*;

verus! {

/// A position on the pixel grid. The third coordinate is carried along and
/// plays no part in rasterization.
#[derive(Debug, Clone, Copy, PartialEq, Eq, Structural)]
pub struct Vertex {
    pub x: i32,
    pub y: i32,
    pub z: i32,
}

/// The vertex that follows vertex `i` on the way around a polygon; the last
/// vertex is followed by the first, which closes the polygon.
pub open spec fn edge_end(vertices: Seq<Vertex>, i: int) -> Vertex {
    if i + 1 == vertices.len() {
        vertices[0]
    } else {
        vertices[i + 1]
    }
}

/// Construction of a vertex from its coordinates.
pub trait VertexExt: Sized {
    /// The coordinates of a value, as `(x, y, z)`.
    spec fn coordinates(self) -> (int, int, int);

    /// Builds the vertex with the given coordinates.
    fn new(x: i32, y: i32, z: i32) -> (vertex: Self)
        ensures
            vertex.coordinates() == (x as int, y as int, z as int),
    ;
}

impl VertexExt for Vertex {
    open spec fn coordinates(self) -> (int, int, int) {
        (self.x as int, self.y as int, self.z as int)
    }

    fn new(x: i32, y: i32, z: i32) -> (vertex: Self)
        ensures
            vertex == (Vertex { x, y, z }),
    {
        Vertex { x, y, z }
    }
}

} // verus!

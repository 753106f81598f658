use vstd::prelude::*;

use crate::graph::Edge;

verus! {

/// A node and the edges that leave it, in the order they were given.
pub struct Node {
    pub id: usize,
    pub edges: Vec<Edge>,
}

impl Node {
    pub fn from(id: usize, edges: Vec<Edge>) -> (r: Node)
        ensures
            r.id == id,
            r.edges@ == edges@,
    {
        Node { id, edges }
    }
}

/// A point in space. Each coordinate is the bit pattern of an IEEE 754 single-precision
/// number: the graph stores positions for heuristics and never computes with them.
#[derive(Clone, Copy, Debug, PartialEq, Eq, Structural)]
pub struct Position {
    pub x: u32,
    pub y: u32,
    pub z: u32,
}

impl Position {
    pub fn from(x: u32, y: u32, z: u32) -> (r: Position)
        ensures
            r == (Position { x, y, z }),
    {
        Position { x, y, z }
    }
}

} // verus!

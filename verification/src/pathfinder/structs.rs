//! Value types of the grid model: the heuristic triple [`Node`], the grid
//! cell [`Tile`], and the build error [`CreationError`].

use vstd::prelude::*;

verus! {

/// The heuristic triple attached to a tile: `g` is the Manhattan distance
/// from the start coordinate, `h` the Manhattan distance to the end
/// coordinate, and `f = g + h`.  The scores are static geometry, computed
/// once at grid-construction time; they never account for obstacles.
#[derive(Debug, Clone, Copy, PartialEq, Eq, Structural)]
pub struct Node {
    pub g: u32,
    pub h: u32,
    pub f: i32,
}

/// Why a grid build failed.
#[derive(Debug, Clone, Copy, PartialEq, Eq, Structural)]
pub enum CreationError {
    /// A computed distance or coordinate would be negative.
    Negative,
    /// The map text holds a character outside `{'#', '-'}`.
    WrongCharacter,
}

impl CreationError {
    /// A human-readable description of the error.
    pub fn describe(&self) -> (desc: &'static str)
        ensures
            *self == CreationError::Negative ==> desc@ == "number is negative"@,
            *self == CreationError::WrongCharacter ==> desc@ == "wrong character"@,
    {
        match *self {
            CreationError::Negative => "number is negative",
            CreationError::WrongCharacter => "wrong character",
        }
    }
}

impl Node {
    /// Builds a node from the triple `(g, h, f)`; fails with
    /// [`CreationError::Negative`] exactly when `g` or `h` is negative.
    pub fn new(tuple: (i32, i32, i32)) -> (r: Result<Self, CreationError>)
        ensures
            r is Ok <==> tuple.0 >= 0 && tuple.1 >= 0,
            r matches Ok(n) ==> n == (Node { g: tuple.0 as u32, h: tuple.1 as u32, f: tuple.2 }),
            r matches Err(e) ==> e == CreationError::Negative,
    {
        if tuple.0 < 0 || tuple.1 < 0 {
            Err(CreationError::Negative)
        } else {
            Ok(Self { g: tuple.0 as u32, h: tuple.1 as u32, f: tuple.2 })
        }
    }

    /// Returns the `(g, h, f)` triple.
    pub fn get_info(&self) -> (info: (u32, u32, i32))
        ensures
            info == (self.g, self.h, self.f),
    {
        (self.g, self.h, self.f)
    }
}

/// One addressable grid cell: its coordinates, whether it can be walked on
/// (`path`), and its heuristic scores.  Immutable after construction.
#[derive(Debug, Clone, Copy, PartialEq, Eq, Structural)]
pub struct Tile {
    pub x: usize,
    pub y: usize,
    pub path: bool,
    pub node: Node,
}

impl Tile {
    /// Builds a tile at `(x, y)`; fails with [`CreationError::Negative`]
    /// exactly when a coordinate is negative.
    pub fn new(x: i32, y: i32, path: bool, node: Node) -> (r: Result<Self, CreationError>)
        ensures
            r is Ok <==> x >= 0 && y >= 0,
            r matches Ok(t) ==> t == (Tile { x: x as usize, y: y as usize, path, node }),
            r matches Err(e) ==> e == CreationError::Negative,
    {
        if x < 0 || y < 0 {
            Err(CreationError::Negative)
        } else {
            Ok(Self { x: x as usize, y: y as usize, path, node })
        }
    }

    /// Returns the `(x, y)` coordinate.
    pub fn get_coord(&self) -> (coord: (usize, usize))
        ensures
            coord == (self.x, self.y),
    {
        (self.x, self.y)
    }

    /// Returns whether the tile is open terrain.
    pub fn get_path(&self) -> (path: bool)
        ensures
            path == self.path,
    {
        self.path
    }

    /// Returns the heuristic triple.
    pub fn get_node(&self) -> (node: Node)
        ensures
            node == self.node,
    {
        self.node
    }
}

} // verus!

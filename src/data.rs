//! The values that label the board: positions, colours, cities and the
//! costs of its edges.

use crate::graph::NodeId;
use vstd::prelude::*;

verus! {

/// The colour of a city.
#[derive(Debug, Clone, Copy, PartialEq, Eq, Structural)]
pub enum Color {
    Green,
    Yellow,
    Red,
    Blue,
    Orange,
}

/// A cell of the hexagonal board, by column and row.
#[derive(Debug, Copy, Clone, PartialEq, Eq, Structural, PartialOrd, Ord, Hash)]
pub struct Position(pub u8, pub u8);

/// The node id of a position: its column in the high byte, its row in the
/// low byte.
pub open spec fn position_id(p: Position) -> NodeId {
    ((p.0 as int) * 256 + (p.1 as int)) as NodeId
}

impl Position {
    /// The node id of this position.
    pub fn id(&self) -> (r: NodeId)
        ensures
            r == position_id(*self),
    {
        (self.0 as u64) * 256 + (self.1 as u64)
    }

    /// The position whose node id is `id`, if any.
    pub fn from_id(id: NodeId) -> (r: Option<Position>)
        ensures
            r matches Some(p) ==> position_id(p) == id,
            r is None <==> id >= 65536,
    {
        if id >= 65536 {
            None
        } else {
            let p = Position((id / 256) as u8, (id % 256) as u8);
            assert(((id / 256) as u8) as int * 256 + ((id % 256) as u8) as int == id);
            Some(p)
        }
    }
}

/// A city of the board.
#[derive(Debug, Clone, Copy)]
pub struct City {
    pub pos: Position,
    pub color: Color,
    pub name: &'static str,
    /// Not used in games of two or three players.
    pub dashed: bool,
}

/// The cost of crossing an edge of the board.
#[derive(Debug, Clone, Copy, PartialEq, Eq, Structural)]
pub enum Cost {
    Zero,
    One,
    Two,
    Inf,
}

/// The number that a finite cost stands for.
pub open spec fn cost_value(c: Cost) -> usize {
    match c {
        Cost::Zero => 0,
        Cost::One => 1,
        Cost::Two => 2,
        Cost::Inf => 0,
    }
}

impl Cost {
    /// The number that this finite cost stands for.
    pub fn value(self) -> (r: usize)
        requires
            self != Cost::Inf,
        ensures
            r == cost_value(self),
    {
        match self {
            Cost::Zero => 0,
            Cost::One => 1,
            Cost::Two => 2,
            Cost::Inf => 0,
        }
    }

    /// `total` plus this finite cost.
    pub fn add_to(self, total: usize) -> (r: usize)
        requires
            self != Cost::Inf,
            total + cost_value(self) <= usize::MAX,
        ensures
            r == total + cost_value(self),
    {
        total + self.value()
    }
}

/// The payload of a board edge.
#[derive(Debug, Clone, Copy)]
pub struct Edge {
    pub cost: Cost,
}

} // verus!

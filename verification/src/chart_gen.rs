//! The plain data of a roll chart: a pass along an edge, where an edge leads,
//! and which observed hole state an edge stands for.

use vstd::prelude::*;

use crate::hole_info::Mass;
use crate::roll_calc::roll_calc::{Direction, Ship, ShipState};

verus! {

/// One ship passing the hole in one state and direction.
#[derive(Debug, Hash, PartialEq, Eq, Clone, Copy, Structural)]
pub struct ConnectionPass {
    pub ship: Ship,
    pub state: ShipState,
    pub direction: Direction,
}

/// The mass that a pass puts through the hole.
pub open spec fn spec_pass_mass(pass: ConnectionPass) -> Mass {
    match pass.state {
        ShipState::Cold => pass.ship.cold,
        ShipState::Hot => pass.ship.hot,
    }
}

impl ConnectionPass {
    /// The mass that the pass puts through the hole: the ship's cold or hot mass.
    pub fn mass(&self) -> (r: Mass)
        ensures
            r == spec_pass_mass(*self),
    {
        match self.state {
            ShipState::Cold => self.ship.cold,
            ShipState::Hot => self.ship.hot,
        }
    }
}

/// An edge into the plan node `to`, made by the pass `pass`.
pub struct NodeConnectionData {
    pub to: usize,
    pub pass: ConnectionPass,
}

/// Where an edge of the chart leads.
pub enum Destination {
    Closed,
    Node(NodeConnectionData),
}

/// The observation that an edge of the chart stands for.
#[derive(Debug, Hash, PartialEq, Eq, Clone, Copy, Structural)]
pub enum PassDecision {
    Closed,
    Crit,
    Shrink,
    Full,
    NotClosed,
}

/// What adding an edge to the chart does, given an edge with the same
/// decision between the same nodes.
#[derive(Debug, PartialEq, Eq, Clone, Copy, Structural)]
pub enum EdgeAddition {
    /// Add the edge.
    Add,
    /// The edge leads to closed and one like it is there already: add nothing.
    Skip,
    /// The existing edge makes another pass: refuse the edge.
    Refuse,
}

/// The rule for adding an edge with pass `pass` (`None` for an edge to
/// closed), where `existing` is `None` when no edge with the same decision
/// joins the two nodes, else the first pass of that edge. An edge to closed
/// is added once; an edge whose existing twin makes another pass is refused.
pub fn edge_addition(existing: Option<Option<ConnectionPass>>, pass: Option<ConnectionPass>) -> (r:
    EdgeAddition)
    requires
        pass is Some ==> existing != Some(None::<ConnectionPass>),
    ensures
        r == (match existing {
            None => EdgeAddition::Add,
            Some(first) => match pass {
                None => EdgeAddition::Skip,
                Some(p) => if first == Some(p) {
                    EdgeAddition::Add
                } else {
                    EdgeAddition::Refuse
                },
            },
        }),
{
    match existing {
        None => EdgeAddition::Add,
        Some(first) => match pass {
            None => EdgeAddition::Skip,
            Some(p) => match first {
                Some(a) => if a == p {
                    EdgeAddition::Add
                } else {
                    EdgeAddition::Refuse
                },
                None => EdgeAddition::Refuse,
            },
        },
    }
}

} // verus!

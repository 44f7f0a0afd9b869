use vstd::prelude::*;

verus! {

/// Marker type: the graph admits cycles.
#[derive(Clone, Copy, Debug)]
pub struct Cyclic;

/// Marker type: the graph never holds a cycle.
#[derive(Clone, Copy, Debug)]
pub struct Acyclic;

/// Marker type: edges lead from their source to their destination.
#[derive(Clone, Copy, Debug)]
pub struct Directed;

/// Marker type: edges may be followed in either direction.
#[derive(Clone, Copy, Debug)]
pub struct Undirected;

/// Cycle admissibility of a graph, fixed at construction.
pub trait Cyclicness: Sized {
    /// Whether graphs of this kind may hold cycles.
    spec fn admits_cycles() -> bool;

    /// Returns `true` if graphs of this kind may hold cycles.
    fn is_cyclic() -> (r: bool)
        ensures
            r == Self::admits_cycles(),
    ;
}

impl Cyclicness for Cyclic {
    open spec fn admits_cycles() -> bool {
        true
    }

    fn is_cyclic() -> (r: bool) {
        true
    }
}

impl Cyclicness for Acyclic {
    open spec fn admits_cycles() -> bool {
        false
    }

    fn is_cyclic() -> (r: bool) {
        false
    }
}

/// Directedness of a graph's edges, fixed at construction.
pub trait EdgeType: Sized {
    /// Whether edges of this kind carry a direction.
    spec fn directed() -> bool;

    /// Returns `true` if the edges of a graph are directed.
    fn is_directed(&self) -> (r: bool)
        ensures
            r == Self::directed(),
    ;

    /// Returns `true` if the edges of graphs of this kind are directed.
    fn directedness() -> (r: bool)
        ensures
            r == Self::directed(),
    ;
}

impl EdgeType for Directed {
    open spec fn directed() -> bool {
        true
    }

    fn is_directed(&self) -> (r: bool) {
        true
    }

    fn directedness() -> (r: bool) {
        true
    }
}

impl EdgeType for Undirected {
    open spec fn directed() -> bool {
        false
    }

    fn is_directed(&self) -> (r: bool) {
        false
    }

    fn directedness() -> (r: bool) {
        false
    }
}

/// Indicates that inserting an edge into an acyclic graph would close a cycle.
#[derive(Clone, Copy, Debug, PartialEq, Eq, Structural)]
pub struct CycleError;

/// The ways in which a graph operation can fail.
#[derive(Clone, Copy, Debug, PartialEq, Eq, Structural)]
pub enum GraphError {
    /// A handle names no live vertex or edge of the graph.
    InvalidHandle,
    /// The edge would close a cycle in an acyclic graph; nothing was changed.
    Cycle(CycleError),
}

/// The two ways an edge can be followed from one of its endpoints.
#[derive(Clone, Copy, Debug, PartialEq, Eq, Structural)]
pub enum Direction {
    Outgoing,
    Incoming,
}

impl Direction {
    /// Returns the other direction.
    pub fn opposite(self) -> (r: Self)
        ensures
            self == Direction::Outgoing ==> r == Direction::Incoming,
            self == Direction::Incoming ==> r == Direction::Outgoing,
    {
        match self {
            Direction::Outgoing => Direction::Incoming,
            Direction::Incoming => Direction::Outgoing,
        }
    }
}

} // verus!

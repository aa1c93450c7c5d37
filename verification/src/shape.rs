//! Shape kinds and the choice of contact algorithm for a pair of them.
use vstd::prelude::*;

verus! {

/// The kind of a collision shape, in the order the dispatcher sorts pairs.
#[derive(Debug, Clone, Copy, PartialEq, Eq, Structural, PartialOrd, Ord, Hash)]
pub enum ShapeType {
    Circle,
    Box,
    Capsule,
    Polygon,
}

/// The position of `t` in the dispatch order.
pub open spec fn shape_rank(t: ShapeType) -> int {
    match t {
        ShapeType::Circle => 0,
        ShapeType::Box => 1,
        ShapeType::Capsule => 2,
        ShapeType::Polygon => 3,
    }
}

impl ShapeType {
    /// The position of this kind in the dispatch order.
    pub fn rank(&self) -> (r: u8)
        ensures
            r == shape_rank(*self),
    {
        match self {
            ShapeType::Circle => 0,
            ShapeType::Box => 1,
            ShapeType::Capsule => 2,
            ShapeType::Polygon => 3,
        }
    }
}

/// The contact algorithm used for a pair of shape kinds.
#[derive(Debug, Clone, Copy, PartialEq, Eq, Structural)]
pub enum ContactAlgorithm {
    /// Closed form for two circles.
    CircleCircle,
    /// Closed form for a circle and a box.
    CircleBox,
    /// Separating axes for two boxes.
    BoxBox,
    /// GJK with EPA for any other pair.
    GjkEpa,
}

/// The algorithm for kinds `a` and `b` taken in dispatch order (the lower
/// rank first).
pub open spec fn algorithm_for(a: ShapeType, b: ShapeType) -> ContactAlgorithm {
    match (a, b) {
        (ShapeType::Circle, ShapeType::Circle) => ContactAlgorithm::CircleCircle,
        (ShapeType::Circle, ShapeType::Box) => ContactAlgorithm::CircleBox,
        (ShapeType::Box, ShapeType::Box) => ContactAlgorithm::BoxBox,
        _ => ContactAlgorithm::GjkEpa,
    }
}

/// How to test shapes of kinds `a` and `b`: whether to swap them first (when
/// `a` comes later in the dispatch order, after which the contact found must
/// be swapped back) and which algorithm to run on the ordered pair.
pub fn narrowphase_route(a: ShapeType, b: ShapeType) -> (r: (bool, ContactAlgorithm))
    ensures
        r.0 == (shape_rank(a) > shape_rank(b)),
        r.1 == route_algorithm(a, b),
{
    let swap = a.rank() > b.rank();
    let (first, second) = if swap {
        (b, a)
    } else {
        (a, b)
    };
    let algorithm = match (first, second) {
        (ShapeType::Circle, ShapeType::Circle) => ContactAlgorithm::CircleCircle,
        (ShapeType::Circle, ShapeType::Box) => ContactAlgorithm::CircleBox,
        (ShapeType::Box, ShapeType::Box) => ContactAlgorithm::BoxBox,
        _ => ContactAlgorithm::GjkEpa,
    };
    (swap, algorithm)
}

/// The algorithm chosen for kinds `a` and `b` in either order: the pair is
/// first put in dispatch order.
pub open spec fn route_algorithm(a: ShapeType, b: ShapeType) -> ContactAlgorithm {
    if shape_rank(a) > shape_rank(b) {
        algorithm_for(b, a)
    } else {
        algorithm_for(a, b)
    }
}

/// The algorithm does not depend on which shape comes first, and exactly
/// one of the two orders of a pair of different kinds is swapped.
pub proof fn lemma_route_symmetric(a: ShapeType, b: ShapeType)
    ensures
        route_algorithm(a, b) == route_algorithm(b, a),
        a != b ==> (shape_rank(a) > shape_rank(b)) != (shape_rank(b) > shape_rank(a)),
{
}


/// Which algorithm a pair of kinds gets, whichever comes first: box-box
/// exactly for two boxes, circle-circle exactly for two circles, circle-box
/// exactly for a circle with a box, and GJK/EPA exactly for the pairs with a
/// capsule or a polygon in them.
pub proof fn lemma_route_choice(a: ShapeType, b: ShapeType)
    ensures
        (route_algorithm(a, b) == ContactAlgorithm::BoxBox) == (a == ShapeType::Box && b == ShapeType::Box),
        (route_algorithm(a, b) == ContactAlgorithm::CircleCircle) == (a == ShapeType::Circle && b
            == ShapeType::Circle),
        (route_algorithm(a, b) == ContactAlgorithm::CircleBox) == ((a == ShapeType::Circle && b
            == ShapeType::Box) || (a == ShapeType::Box && b == ShapeType::Circle)),
        (route_algorithm(a, b) == ContactAlgorithm::GjkEpa) == (a == ShapeType::Capsule || a
            == ShapeType::Polygon || b == ShapeType::Capsule || b == ShapeType::Polygon),
{
}

} // verus!

//! The arithmetic of the space the chain lies in, and the three moves that the
//! chain makes with it.

use vstd::prelude::*;

verus! {

/// Four operations on points and vectors, supplied by whoever works a chain.
///
/// The chain computes every point it places from these four and from nothing
/// else. A point and a vector have one type, `P`; a length has the type `L`.
/// What an operation returns is known to the chain, and to every contract
/// here, only through that operation's own postcondition.
pub struct Plane<D, S, U, M> {
    /// The vector that leads from the second point to the first.
    pub difference: D,
    /// The point that the second argument, taken as a vector, leads to from
    /// the first.
    pub sum: S,
    /// The vector of length one along the given vector; the zero vector where
    /// the given vector has no direction.
    pub unit_or_zero: U,
    /// The given vector stretched by the given length.
    pub scaled: M,
}

/// Every operation of `plane` accepts every input.
pub open spec fn total<
    P,
    L,
    D: Fn(P, P) -> P,
    S: Fn(P, P) -> P,
    U: Fn(P) -> P,
    M: Fn(P, L) -> P,
>(plane: Plane<D, S, U, M>) -> bool {
    &&& forall|a: P, b: P| call_requires(plane.difference, (a, b))
    &&& forall|a: P, b: P| call_requires(plane.sum, (a, b))
    &&& forall|v: P| call_requires(plane.unit_or_zero, (v,))
    &&& forall|v: P, length: L| call_requires(plane.scaled, (v, length))
}

/// The two operations that lead from `anchor` to `next`, one step of `length`
/// along `direction`, with what the first of them returned.
pub open spec fn advance_steps<
    P,
    L,
    D: Fn(P, P) -> P,
    S: Fn(P, P) -> P,
    U: Fn(P) -> P,
    M: Fn(P, L) -> P,
>(plane: Plane<D, S, U, M>, anchor: P, direction: P, length: L, reach: P, next: P) -> bool {
    &&& call_ensures(plane.scaled, (direction, length), reach)
    &&& call_ensures(plane.sum, (anchor, reach), next)
}

/// `next` is `anchor` moved on by `direction` stretched to `length`.
pub open spec fn advanced<
    P,
    L,
    D: Fn(P, P) -> P,
    S: Fn(P, P) -> P,
    U: Fn(P) -> P,
    M: Fn(P, L) -> P,
>(plane: Plane<D, S, U, M>, anchor: P, direction: P, length: L, next: P) -> bool {
    exists|reach: P| #[trigger] advance_steps(plane, anchor, direction, length, reach, next)
}

/// The four operations that pull `current` after `next`, with what the first
/// three of them returned.
pub open spec fn pull_steps<
    P,
    L,
    D: Fn(P, P) -> P,
    S: Fn(P, P) -> P,
    U: Fn(P) -> P,
    M: Fn(P, L) -> P,
>(
    plane: Plane<D, S, U, M>,
    next: P,
    current: P,
    length: L,
    direction: P,
    unit: P,
    reach: P,
    moved: P,
) -> bool {
    &&& call_ensures(plane.difference, (next, current), direction)
    &&& call_ensures(plane.unit_or_zero, (direction,), unit)
    &&& call_ensures(plane.scaled, (unit, length), reach)
    &&& call_ensures(plane.difference, (next, reach), moved)
}

/// `moved` is `current` pulled after `next`: the direction from `current` to
/// `next` is taken, brought to length one (or to zero where the two points
/// coincide), stretched to `length` and taken off `next`.
pub open spec fn pulled<
    P,
    L,
    D: Fn(P, P) -> P,
    S: Fn(P, P) -> P,
    U: Fn(P) -> P,
    M: Fn(P, L) -> P,
>(plane: Plane<D, S, U, M>, next: P, current: P, length: L, moved: P) -> bool {
    exists|direction: P, unit: P, reach: P| #[trigger]
        pull_steps(plane, next, current, length, direction, unit, reach, moved)
}

/// The four operations that place a new head before `head`, with what the
/// first three of them returned.
pub open spec fn extend_steps<
    P,
    L,
    D: Fn(P, P) -> P,
    S: Fn(P, P) -> P,
    U: Fn(P) -> P,
    M: Fn(P, L) -> P,
>(
    plane: Plane<D, S, U, M>,
    head: P,
    neck: P,
    length: L,
    direction: P,
    unit: P,
    reach: P,
    placed: P,
) -> bool {
    &&& call_ensures(plane.difference, (head, neck), direction)
    &&& call_ensures(plane.unit_or_zero, (direction,), unit)
    &&& call_ensures(plane.scaled, (unit, length), reach)
    &&& call_ensures(plane.sum, (head, reach), placed)
}

/// `placed` continues the chain beyond `head`: the direction from `neck` to
/// `head` is taken, brought to length one (or to zero where the two points
/// coincide), stretched to `length` and added to `head`.
pub open spec fn extended<
    P,
    L,
    D: Fn(P, P) -> P,
    S: Fn(P, P) -> P,
    U: Fn(P) -> P,
    M: Fn(P, L) -> P,
>(plane: Plane<D, S, U, M>, head: P, neck: P, length: L, placed: P) -> bool {
    exists|direction: P, unit: P, reach: P| #[trigger]
        extend_steps(plane, head, neck, length, direction, unit, reach, placed)
}

/// The anchor one step of `length` along `direction` from `anchor`.
pub fn advance<
    P: Copy,
    L: Copy,
    D: Fn(P, P) -> P,
    S: Fn(P, P) -> P,
    U: Fn(P) -> P,
    M: Fn(P, L) -> P,
>(plane: &Plane<D, S, U, M>, anchor: P, direction: P, length: L) -> (next: P)
    requires
        total::<P, L, D, S, U, M>(*plane),
    ensures
        advanced(*plane, anchor, direction, length, next),
{
    let reach = (plane.scaled)(direction, length);
    let next = (plane.sum)(anchor, reach);
    proof {
        assert(advance_steps(*plane, anchor, direction, length, reach, next));
    }
    next
}

/// The anchor of a segment of `length` that lay at `current`, once its
/// successor has moved to `next`.
///
/// The segment keeps the side of `next` it was on and comes to lie `length`
/// away from it. Where the two points coincide there is no such side, the
/// direction is zero, and the segment comes to lie on `next`.
pub fn pull<
    P: Copy,
    L: Copy,
    D: Fn(P, P) -> P,
    S: Fn(P, P) -> P,
    U: Fn(P) -> P,
    M: Fn(P, L) -> P,
>(plane: &Plane<D, S, U, M>, next: P, current: P, length: L) -> (moved: P)
    requires
        total::<P, L, D, S, U, M>(*plane),
    ensures
        pulled(*plane, next, current, length, moved),
{
    let direction = (plane.difference)(next, current);
    let unit = (plane.unit_or_zero)(direction);
    let reach = (plane.scaled)(unit, length);
    let moved = (plane.difference)(next, reach);
    proof {
        assert(pull_steps(*plane, next, current, length, direction, unit, reach, moved));
    }
    moved
}

/// The anchor of a new head of `length` for a chain that leads with `head`
/// and, behind it, `neck`.
///
/// The new head lies `length` beyond `head`, on the line from `neck` through
/// `head`. Where the two points coincide the direction is zero, and the new
/// head comes to lie on `head`.
pub fn extend<
    P: Copy,
    L: Copy,
    D: Fn(P, P) -> P,
    S: Fn(P, P) -> P,
    U: Fn(P) -> P,
    M: Fn(P, L) -> P,
>(plane: &Plane<D, S, U, M>, head: P, neck: P, length: L) -> (placed: P)
    requires
        total::<P, L, D, S, U, M>(*plane),
    ensures
        extended(*plane, head, neck, length, placed),
{
    let direction = (plane.difference)(head, neck);
    let unit = (plane.unit_or_zero)(direction);
    let reach = (plane.scaled)(unit, length);
    let placed = (plane.sum)(head, reach);
    proof {
        assert(extend_steps(*plane, head, neck, length, direction, unit, reach, placed));
    }
    placed
}

} // verus!

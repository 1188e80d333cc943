//! What the three moves of the chain come to on a plane whose arithmetic is
//! exact.
//!
//! The properties named here are properties of vector arithmetic in the
//! plane. A plane that computes exactly has them; a plane that rounds has them
//! up to its rounding, and then what follows from them holds up to that
//! rounding too. Every law here takes as `requires` the properties it uses, so
//! that it says of each plane exactly what that plane supports.

use crate::plane::{
    advance_steps, advanced, extend_steps, extended, pull_steps, pulled, Plane,
};
use vstd::prelude::*;

verus! {

/// Every operation of `plane` has one result for each input.
pub open spec fn plane_is_determined<
    P,
    L,
    D: Fn(P, P) -> P,
    S: Fn(P, P) -> P,
    U: Fn(P) -> P,
    M: Fn(P, L) -> P,
>(plane: Plane<D, S, U, M>) -> bool {
    &&& forall|a: P, b: P, first: P, second: P|
        #![trigger call_ensures(plane.difference, (a, b), first), call_ensures(plane.difference, (a, b), second)]
        call_ensures(plane.difference, (a, b), first) && call_ensures(
            plane.difference,
            (a, b),
            second,
        ) ==> first == second
    &&& forall|a: P, b: P, first: P, second: P|
        #![trigger call_ensures(plane.sum, (a, b), first), call_ensures(plane.sum, (a, b), second)]
        call_ensures(plane.sum, (a, b), first) && call_ensures(plane.sum, (a, b), second) ==> first
            == second
    &&& forall|v: P, first: P, second: P|
        #![trigger call_ensures(plane.unit_or_zero, (v,), first), call_ensures(plane.unit_or_zero, (v,), second)]
        call_ensures(plane.unit_or_zero, (v,), first) && call_ensures(
            plane.unit_or_zero,
            (v,),
            second,
        ) ==> first == second
    &&& forall|v: P, length: L, first: P, second: P|
        #![trigger call_ensures(plane.scaled, (v, length), first), call_ensures(plane.scaled, (v, length), second)]
        call_ensures(plane.scaled, (v, length), first) && call_ensures(
            plane.scaled,
            (v, length),
            second,
        ) ==> first == second
}

/// On a determined plane a step along a direction has one outcome.
pub proof fn lemma_advance_is_determined<
    P,
    L,
    D: Fn(P, P) -> P,
    S: Fn(P, P) -> P,
    U: Fn(P) -> P,
    M: Fn(P, L) -> P,
>(
    plane: Plane<D, S, U, M>,
    anchor: P,
    direction: P,
    length: L,
    one: P,
    other: P,
)
    requires
        plane_is_determined(plane),
        advanced(plane, anchor, direction, length, one),
        advanced(plane, anchor, direction, length, other),
    ensures
        one == other,
{
    let reach_one = choose|reach: P| #[trigger]
        advance_steps(plane, anchor, direction, length, reach, one);
    let reach_other = choose|reach: P| #[trigger]
        advance_steps(plane, anchor, direction, length, reach, other);
    assert(reach_one == reach_other);
}

/// On a determined plane a pull has one outcome.
pub proof fn lemma_pull_is_determined<
    P,
    L,
    D: Fn(P, P) -> P,
    S: Fn(P, P) -> P,
    U: Fn(P) -> P,
    M: Fn(P, L) -> P,
>(
    plane: Plane<D, S, U, M>,
    next: P,
    current: P,
    length: L,
    one: P,
    other: P,
)
    requires
        plane_is_determined(plane),
        pulled(plane, next, current, length, one),
        pulled(plane, next, current, length, other),
    ensures
        one == other,
{
    let (d1, u1, r1) = choose|direction: P, unit: P, reach: P| #[trigger]
        pull_steps(plane, next, current, length, direction, unit, reach, one);
    let (d2, u2, r2) = choose|direction: P, unit: P, reach: P| #[trigger]
        pull_steps(plane, next, current, length, direction, unit, reach, other);
    assert(d1 == d2);
    assert(u1 == u2);
    assert(r1 == r2);
}

/// On a determined plane the place of a new head has one outcome.
pub proof fn lemma_extend_is_determined<
    P,
    L,
    D: Fn(P, P) -> P,
    S: Fn(P, P) -> P,
    U: Fn(P) -> P,
    M: Fn(P, L) -> P,
>(
    plane: Plane<D, S, U, M>,
    head: P,
    neck: P,
    length: L,
    one: P,
    other: P,
)
    requires
        plane_is_determined(plane),
        extended(plane, head, neck, length, one),
        extended(plane, head, neck, length, other),
    ensures
        one == other,
{
    let (d1, u1, r1) = choose|direction: P, unit: P, reach: P| #[trigger]
        extend_steps(plane, head, neck, length, direction, unit, reach, one);
    let (d2, u2, r2) = choose|direction: P, unit: P, reach: P| #[trigger]
        extend_steps(plane, head, neck, length, direction, unit, reach, other);
    assert(d1 == d2);
    assert(u1 == u2);
    assert(r1 == r2);
}

/// On `plane`, `unit` says which vectors have length one, `long` which
/// vectors have a given length, and `apart` which points lie a given length
/// from each other: a vector of length one stretched to a length has that
/// length, and a point moved by a vector of some length, either way, lies
/// that length from where it was.
pub open spec fn measures<
    P,
    L,
    D: Fn(P, P) -> P,
    S: Fn(P, P) -> P,
    U: Fn(P) -> P,
    M: Fn(P, L) -> P,
>(
    plane: Plane<D, S, U, M>,
    unit: spec_fn(P) -> bool,
    long: spec_fn(P, L) -> bool,
    apart: spec_fn(P, P, L) -> bool,
) -> bool {
    &&& forall|a: P, b: P, length: L| #[trigger] apart(a, b, length) ==> apart(b, a, length)
    &&& forall|v: P, length: L, reach: P| #[trigger]
        call_ensures(plane.scaled, (v, length), reach) && unit(v) ==> long(reach, length)
    &&& forall|point: P, reach: P, length: L, moved: P|
        #![trigger call_ensures(plane.difference, (point, reach), moved), long(reach, length)]
        call_ensures(plane.difference, (point, reach), moved) && long(reach, length) ==> apart(
            moved,
            point,
            length,
        )
    &&& forall|point: P, reach: P, length: L, moved: P|
        #![trigger call_ensures(plane.sum, (point, reach), moved), long(reach, length)]
        call_ensures(plane.sum, (point, reach), moved) && long(reach, length) ==> apart(
            moved,
            point,
            length,
        )
}

/// There is a direction from `from` to `to`: what leads from the one to the
/// other can be brought to length one.
pub open spec fn directed<
    P,
    L,
    D: Fn(P, P) -> P,
    S: Fn(P, P) -> P,
    U: Fn(P) -> P,
    M: Fn(P, L) -> P,
>(
    plane: Plane<D, S, U, M>,
    unit: spec_fn(P) -> bool,
    to: P,
    from: P,
) -> bool {
    forall|direction: P, brought: P|
        #![trigger call_ensures(plane.difference, (to, from), direction), call_ensures(plane.unit_or_zero, (direction,), brought)]
        call_ensures(plane.difference, (to, from), direction) && call_ensures(
            plane.unit_or_zero,
            (direction,),
            brought,
        ) ==> unit(brought)
}

/// A step of a length along a direction of length one ends that length from
/// where it began.
pub proof fn lemma_advance_keeps_the_length<
    P,
    L,
    D: Fn(P, P) -> P,
    S: Fn(P, P) -> P,
    U: Fn(P) -> P,
    M: Fn(P, L) -> P,
>(
    plane: Plane<D, S, U, M>,
    unit: spec_fn(P) -> bool,
    long: spec_fn(P, L) -> bool,
    apart: spec_fn(P, P, L) -> bool,
    anchor: P,
    direction: P,
    length: L,
    next: P,
)
    requires
        measures(plane, unit, long, apart),
        unit(direction),
        advanced(plane, anchor, direction, length, next),
    ensures
        apart(anchor, next, length),
{
    let reach = choose|reach: P| #[trigger]
        advance_steps(plane, anchor, direction, length, reach, next);
    assert(long(reach, length));
    assert(apart(next, anchor, length));
}

/// A point pulled after another from which it has a direction comes to lie
/// the length of the pull from it.
pub proof fn lemma_pull_keeps_the_length<
    P,
    L,
    D: Fn(P, P) -> P,
    S: Fn(P, P) -> P,
    U: Fn(P) -> P,
    M: Fn(P, L) -> P,
>(
    plane: Plane<D, S, U, M>,
    unit: spec_fn(P) -> bool,
    long: spec_fn(P, L) -> bool,
    apart: spec_fn(P, P, L) -> bool,
    next: P,
    current: P,
    length: L,
    moved: P,
)
    requires
        measures(plane, unit, long, apart),
        directed(plane, unit, next, current),
        pulled(plane, next, current, length, moved),
    ensures
        apart(moved, next, length),
{
    let (direction, brought, reach) = choose|direction: P, brought: P, reach: P| #[trigger]
        pull_steps(plane, next, current, length, direction, brought, reach, moved);
    assert(unit(brought));
    assert(long(reach, length));
}

/// A new head placed before a head that has a direction from its neck lies
/// the given length from that head.
pub proof fn lemma_extend_keeps_the_length<
    P,
    L,
    D: Fn(P, P) -> P,
    S: Fn(P, P) -> P,
    U: Fn(P) -> P,
    M: Fn(P, L) -> P,
>(
    plane: Plane<D, S, U, M>,
    unit: spec_fn(P) -> bool,
    long: spec_fn(P, L) -> bool,
    apart: spec_fn(P, P, L) -> bool,
    head: P,
    neck: P,
    length: L,
    placed: P,
)
    requires
        measures(plane, unit, long, apart),
        directed(plane, unit, head, neck),
        extended(plane, head, neck, length, placed),
    ensures
        apart(placed, head, length),
{
    let (direction, brought, reach) = choose|direction: P, brought: P, reach: P| #[trigger]
        extend_steps(plane, head, neck, length, direction, brought, reach, placed);
    assert(unit(brought));
    assert(long(reach, length));
}

/// At `point` and for `length` the plane has a zero vector and treats it as
/// one: a point taken off itself gives `zero`, `zero` has no direction and
/// stays `zero` when brought to length one and when stretched to `length`, and
/// `zero` taken off `point` gives `point`.
pub open spec fn rests_at<
    P,
    L,
    D: Fn(P, P) -> P,
    S: Fn(P, P) -> P,
    U: Fn(P) -> P,
    M: Fn(P, L) -> P,
>(plane: Plane<D, S, U, M>, point: P, zero: P, length: L) -> bool {
    &&& forall|direction: P| #[trigger]
        call_ensures(plane.difference, (point, point), direction) ==> direction == zero
    &&& forall|brought: P| #[trigger]
        call_ensures(plane.unit_or_zero, (zero,), brought) ==> brought == zero
    &&& forall|reach: P| #[trigger]
        call_ensures(plane.scaled, (zero, length), reach) ==> reach == zero
    &&& forall|moved: P| #[trigger]
        call_ensures(plane.difference, (point, zero), moved) ==> moved == point
}

/// A point that lies on its successor stays there when it is pulled: with no
/// direction to pull along, the pull returns the successor's anchor.
pub proof fn lemma_pull_rests_on_successor<
    P,
    L,
    D: Fn(P, P) -> P,
    S: Fn(P, P) -> P,
    U: Fn(P) -> P,
    M: Fn(P, L) -> P,
>(
    plane: Plane<D, S, U, M>,
    point: P,
    zero: P,
    length: L,
    moved: P,
)
    requires
        rests_at(plane, point, zero, length),
        pulled(plane, point, point, length, moved),
    ensures
        moved == point,
{
    let (direction, brought, reach) = choose|direction: P, brought: P, reach: P| #[trigger]
        pull_steps(plane, point, point, length, direction, brought, reach, moved);
    assert(direction == zero);
    assert(brought == zero);
    assert(reach == zero);
}

/// Taking a vector off a point, and what that gives off the point again,
/// gives the vector back.
pub open spec fn difference_undoes<
    P,
    L,
    D: Fn(P, P) -> P,
    S: Fn(P, P) -> P,
    U: Fn(P) -> P,
    M: Fn(P, L) -> P,
>(plane: Plane<D, S, U, M>) -> bool {
    forall|point: P, reach: P, moved: P, back: P|
        #![trigger call_ensures(plane.difference, (point, reach), moved), call_ensures(plane.difference, (point, moved), back)]
        call_ensures(plane.difference, (point, reach), moved) && call_ensures(
            plane.difference,
            (point, moved),
            back,
        ) ==> back == reach
}

/// A vector that was brought to length one is the same again after it is
/// stretched to `length` and brought to length one once more.
pub open spec fn unit_survives<
    P,
    L,
    D: Fn(P, P) -> P,
    S: Fn(P, P) -> P,
    U: Fn(P) -> P,
    M: Fn(P, L) -> P,
>(plane: Plane<D, S, U, M>, length: L) -> bool {
    forall|v: P, brought: P, reach: P, again: P|
        #![trigger call_ensures(plane.unit_or_zero, (v,), brought), call_ensures(plane.scaled, (brought, length), reach), call_ensures(plane.unit_or_zero, (reach,), again)]
        call_ensures(plane.unit_or_zero, (v,), brought) && call_ensures(
            plane.scaled,
            (brought, length),
            reach,
        ) && call_ensures(plane.unit_or_zero, (reach,), again) ==> again == brought
}

/// A pull with `length` leaves a point alone that it has itself pulled after
/// the same successor: a second pull gives the first one's result.
pub open spec fn pull_settles<
    P,
    L,
    D: Fn(P, P) -> P,
    S: Fn(P, P) -> P,
    U: Fn(P) -> P,
    M: Fn(P, L) -> P,
>(plane: Plane<D, S, U, M>, length: L) -> bool {
    forall|next: P, current: P, first: P, second: P|
        #![trigger pulled(plane, next, current, length, first), pulled(plane, next, first, length, second)]
        pulled(plane, next, current, length, first) && pulled(plane, next, first, length, second)
            ==> second == first
}

/// On a determined plane on which a difference undoes itself and a vector of
/// length one survives the stretch to `length`, a pull with `length` settles.
pub proof fn lemma_pull_settles<
    P,
    L,
    D: Fn(P, P) -> P,
    S: Fn(P, P) -> P,
    U: Fn(P) -> P,
    M: Fn(P, L) -> P,
>(plane: Plane<D, S, U, M>, length: L)
    requires
        plane_is_determined(plane),
        difference_undoes(plane),
        unit_survives(plane, length),
    ensures
        pull_settles(plane, length),
{
    assert forall|next: P, current: P, first: P, second: P|
        #![trigger pulled(plane, next, current, length, first), pulled(plane, next, first, length, second)]
        pulled(plane, next, current, length, first) && pulled(
            plane,
            next,
            first,
            length,
            second,
        ) implies second == first by {
        let (d1, u1, r1) = choose|direction: P, brought: P, reach: P| #[trigger]
            pull_steps(plane, next, current, length, direction, brought, reach, first);
        let (d2, u2, r2) = choose|direction: P, brought: P, reach: P| #[trigger]
            pull_steps(plane, next, first, length, direction, brought, reach, second);
        assert(d2 == r1);
        assert(u2 == u1);
        assert(r2 == r1);
    }
}

} // verus!

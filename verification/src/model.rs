//! The chain as contracts see it, and what each operation makes of it.

use crate::plane::{advanced, extended, pulled, Plane};
use vstd::prelude::*;

verus! {

/// What a caller can tell of a chain between two calls.
#[derive(Clone, Copy, PartialEq, Eq, Debug, Structural)]
pub enum Mode {
    /// The target has not changed since the last solve.
    Idle,
    /// A target was set, or the chain was laid out anew, and no solve has run since.
    Tracking,
}

/// The chain as contracts see it: anchors and lengths from head (index 0) to
/// tail, the point the tail is driven to, and what a reset goes back to.
#[verifier::ext_equal]
pub struct LimbView<P, L> {
    /// Anchor of each segment, head first.
    pub positions: Seq<P>,
    /// Length each segment keeps to its successor, head first.
    pub lengths: Seq<L>,
    /// Where the next solve puts the tail.
    pub target: P,
    /// Whether a solve is due.
    pub mode: Mode,
    /// Number of segments after construction and after every reset.
    pub baseline: nat,
    /// Length of an ordinary segment, and of every segment added by growth.
    pub part_length: L,
    /// Length of the segment just before the tail in a fresh layout.
    pub head_length: L,
    /// The vector along which a fresh layout runs from the head to the tail.
    pub direction: P,
}

/// Lengths of a fresh layout of `count` segments: the segment just before the
/// tail has `head_length`, every other one `part_length`.
pub open spec fn baseline_lengths<L>(count: nat, part_length: L, head_length: L) -> Seq<L> {
    Seq::new(
        count,
        |i: int|
            if i + 2 == count {
                head_length
            } else {
                part_length
            },
    )
}

/// The anchor after `index` is the anchor at `index` moved on by `direction`
/// stretched to the length at `index`.
pub open spec fn advanced_at<
    P,
    L,
    D: Fn(P, P) -> P,
    S: Fn(P, P) -> P,
    U: Fn(P) -> P,
    M: Fn(P, L) -> P,
>(plane: Plane<D, S, U, M>, direction: P, lengths: Seq<L>, positions: Seq<P>, index: int) -> bool {
    advanced(plane, positions[index], direction, lengths[index], positions[index + 1])
}

/// `positions` is a layout that starts at `start` and runs along `direction`,
/// each anchor one length of its segment after the one before.
pub open spec fn laid_out<
    P,
    L,
    D: Fn(P, P) -> P,
    S: Fn(P, P) -> P,
    U: Fn(P) -> P,
    M: Fn(P, L) -> P,
>(plane: Plane<D, S, U, M>, start: P, direction: P, lengths: Seq<L>, positions: Seq<P>) -> bool {
    &&& positions.len() == lengths.len()
    &&& positions.len() > 0 ==> positions[0] == start
    &&& forall|i: int|
        #![trigger positions[i]]
        #![trigger advanced_at(plane, direction, lengths, positions, i)]
        0 <= i < positions.len() - 1 ==> advanced_at(plane, direction, lengths, positions, i)
}

/// `view` is a chain as construction and reset leave it: its baseline count of
/// segments with the baseline lengths, laid out from `start` along its
/// direction, not yet solved.
pub open spec fn fresh<
    P,
    L,
    D: Fn(P, P) -> P,
    S: Fn(P, P) -> P,
    U: Fn(P) -> P,
    M: Fn(P, L) -> P,
>(plane: Plane<D, S, U, M>, start: P, view: LimbView<P, L>) -> bool {
    &&& view.lengths == baseline_lengths(view.baseline, view.part_length, view.head_length)
    &&& laid_out(plane, start, view.direction, view.lengths, view.positions)
    &&& view.mode == Mode::Tracking
}

/// The new anchor at `index` is the old anchor at `index` pulled after the new
/// anchor of the successor, with the length at `index`.
pub open spec fn pulled_at<
    P,
    L,
    D: Fn(P, P) -> P,
    S: Fn(P, P) -> P,
    U: Fn(P) -> P,
    M: Fn(P, L) -> P,
>(plane: Plane<D, S, U, M>, before: Seq<P>, lengths: Seq<L>, after: Seq<P>, index: int) -> bool {
    pulled(plane, after[index + 1], before[index], lengths[index], after[index])
}

/// `after` is the outcome of one backward pass over `before`: the tail sits on
/// `target`, and every other anchor is its old anchor pulled after the new
/// anchor of its successor.
pub open spec fn relaxed<
    P,
    L,
    D: Fn(P, P) -> P,
    S: Fn(P, P) -> P,
    U: Fn(P) -> P,
    M: Fn(P, L) -> P,
>(plane: Plane<D, S, U, M>, before: Seq<P>, lengths: Seq<L>, target: P, after: Seq<P>) -> bool {
    &&& after.len() == before.len()
    &&& after.len() > 0 ==> after.last() == target
    &&& forall|i: int|
        #![trigger after[i]]
        #![trigger pulled_at(plane, before, lengths, after, i)]
        0 <= i < after.len() - 1 ==> pulled_at(plane, before, lengths, after, i)
}

/// `after` is `before` after one solve: the anchors are relaxed toward the
/// target, the chain is idle, and nothing else has changed.
pub open spec fn solved<
    P,
    L,
    D: Fn(P, P) -> P,
    S: Fn(P, P) -> P,
    U: Fn(P) -> P,
    M: Fn(P, L) -> P,
>(plane: Plane<D, S, U, M>, before: LimbView<P, L>, after: LimbView<P, L>) -> bool {
    &&& relaxed(plane, before.positions, before.lengths, before.target, after.positions)
    &&& after == (LimbView { positions: after.positions, mode: Mode::Idle, ..before })
}

/// The anchor at `index` continues, with `length`, the chain that the two
/// anchors behind it lead.
pub open spec fn extended_at<
    P,
    L,
    D: Fn(P, P) -> P,
    S: Fn(P, P) -> P,
    U: Fn(P) -> P,
    M: Fn(P, L) -> P,
>(plane: Plane<D, S, U, M>, length: L, anchors: Seq<P>, index: int) -> bool {
    extended(plane, anchors[index + 1], anchors[index + 2], length, anchors[index])
}

/// `after` is `before` with `count` anchors put in front of it: the old
/// anchors follow in their old order, and every new anchor continues the chain
/// behind it with `length`. Only a chain of two or more anchors is lengthened.
pub open spec fn lengthened<
    P,
    L,
    D: Fn(P, P) -> P,
    S: Fn(P, P) -> P,
    U: Fn(P) -> P,
    M: Fn(P, L) -> P,
>(plane: Plane<D, S, U, M>, length: L, before: Seq<P>, count: nat, after: Seq<P>) -> bool {
    &&& after.len() == before.len() + count
    &&& count > 0 ==> before.len() >= 2
    &&& forall|k: int| count <= k < after.len() ==> #[trigger] after[k] == before[k - count]
    &&& forall|j: int|
        #![trigger after[j]]
        #![trigger extended_at(plane, length, after, j)]
        0 <= j < count ==> extended_at(plane, length, after, j)
}

/// `after` is `before` grown by `count` segments at the head: the anchors are
/// lengthened with the part length, each new segment has the part length, and
/// nothing else has changed.
pub open spec fn grown<
    P,
    L,
    D: Fn(P, P) -> P,
    S: Fn(P, P) -> P,
    U: Fn(P) -> P,
    M: Fn(P, L) -> P,
>(plane: Plane<D, S, U, M>, count: nat, before: LimbView<P, L>, after: LimbView<P, L>) -> bool {
    &&& lengthened(plane, before.part_length, before.positions, count, after.positions)
    &&& after.lengths == Seq::new(count, |i: int| before.part_length) + before.lengths
    &&& after == (LimbView { positions: after.positions, lengths: after.lengths, ..before })
}

/// `link` holds of every segment of `view`, its successor and the length
/// between them.
pub open spec fn every_link_holds<P, L>(link: spec_fn(P, P, L) -> bool, view: LimbView<P, L>) -> bool {
    forall|i: int|
        0 <= i < view.positions.len() - 1 ==> link(
            #[trigger] view.positions[i],
            view.positions[i + 1],
            view.lengths[i],
        )
}

} // verus!

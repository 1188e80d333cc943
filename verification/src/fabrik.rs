//! The chain and its segments: construction, the solve, growth at the head,
//! reset and the queries.

use crate::laws::lemma_lengthened_once_more;
use crate::model::{
    advanced_at, baseline_lengths, extended_at, fresh, grown, laid_out, lengthened, pulled_at,
    relaxed, solved, LimbView, Mode,
};
use crate::plane::{advance, advanced, extend, pull, pulled, total, Plane};
use std::collections::VecDeque;
use vstd::prelude::*;

verus! {

/// One link of the chain: an anchor point and the fixed distance it keeps to
/// its neighbour toward the tail.
///
/// The point type `P` and the scalar type `L` are the caller's; the chain only
/// stores them and hands them to the operations of the plane.
pub struct Segment<P, L> {
    position: P,
    length: L,
}

impl<P: Copy, L: Copy> Segment<P, L> {
    /// The anchor point of this segment.
    pub closed spec fn spec_position(&self) -> P {
        self.position
    }

    /// The distance this segment keeps to its neighbour toward the tail.
    pub closed spec fn spec_length(&self) -> L {
        self.length
    }

    /// A segment anchored at `position` that keeps `length` to its successor.
    pub fn new(position: P, length: L) -> (segment: Self)
        ensures
            segment.spec_position() == position,
            segment.spec_length() == length,
    {
        Self { position, length }
    }

    /// The distance this segment keeps to its neighbour toward the tail.
    #[verifier::when_used_as_spec(spec_length)]
    pub fn length(&self) -> (length: L)
        ensures
            length == self.spec_length(),
    {
        self.length
    }

    /// The anchor point of this segment.
    #[verifier::when_used_as_spec(spec_position)]
    pub fn position(&self) -> (position: P)
        ensures
            position == self.spec_position(),
    {
        self.position
    }

    /// Moves the anchor; the length never changes after construction.
    pub fn set_position(&mut self, position: P)
        ensures
            final(self).spec_position() == position,
            final(self).spec_length() == old(self).spec_length(),
    {
        self.position = position;
    }
}

/// Why a chain refused a request.
#[derive(Clone, Copy, PartialEq, Eq, Debug, Structural)]
pub enum LimbError {
    /// The index asked for is not below the segment count.
    OutOfRange,
    /// Growth needs two segments to take the head's direction from.
    TooShort,
    /// The segment count after growth would not fit in `usize`.
    Overflow,
}

/// A chain of segments that follows a target with its tail and grows at its head.
///
/// The chain keeps the order of its segments and decides which segment is
/// moved when, against which neighbour and by which steps. It takes the four
/// operations that those steps are made of from the plane that each
/// operation is handed.
pub struct Limb<P, L> {
    segments: VecDeque<Segment<P, L>>,
    target: P,
    mode: Mode,
    baseline: usize,
    part_length: L,
    head_length: L,
    direction: P,
}

impl<P: Copy, L: Copy> View for Limb<P, L> {
    type V = LimbView<P, L>;

    closed spec fn view(&self) -> LimbView<P, L> {
        LimbView {
            positions: anchors(self.segments@),
            lengths: lengths(self.segments@),
            target: self.target,
            mode: self.mode,
            baseline: self.baseline as nat,
            part_length: self.part_length,
            head_length: self.head_length,
            direction: self.direction,
        }
    }
}

/// The anchors of `segments`, in their order.
spec fn anchors<P, L>(segments: Seq<Segment<P, L>>) -> Seq<P> {
    Seq::new(segments.len(), |i: int| segments[i].position)
}

/// The lengths of `segments`, in their order.
spec fn lengths<P, L>(segments: Seq<Segment<P, L>>) -> Seq<L> {
    Seq::new(segments.len(), |i: int| segments[i].length)
}

/// Segments of a fresh layout, head first.
fn lay_out<
    P: Copy,
    L: Copy,
    D: Fn(P, P) -> P,
    S: Fn(P, P) -> P,
    U: Fn(P) -> P,
    M: Fn(P, L) -> P,
>(
    plane: &Plane<D, S, U, M>,
    count: usize,
    start: P,
    direction: P,
    part_length: L,
    head_length: L,
) -> (segments: VecDeque<Segment<P, L>>)
    requires
        total::<P, L, D, S, U, M>(*plane),
    ensures
        segments@.len() == count,
        lengths(segments@) == baseline_lengths(count as nat, part_length, head_length),
        laid_out(*plane, start, direction, lengths(segments@), anchors(segments@)),
{
    let ghost wanted = baseline_lengths(count as nat, part_length, head_length);
    let mut segments: VecDeque<Segment<P, L>> = VecDeque::new();
    let mut position = start;
    let mut placed: usize = 0;
    while placed < count
        invariant
            placed <= count,
            segments@.len() == placed,
            total::<P, L, D, S, U, M>(*plane),
            wanted == baseline_lengths(count as nat, part_length, head_length),
            forall|i: int| 0 <= i < placed ==> (#[trigger] segments@[i]).length == wanted[i],
            placed == 0 ==> position == start,
            placed > 0 ==> segments@[0].position == start,
            0 < placed < count ==> advanced(
                *plane,
                segments@[placed - 1].position,
                direction,
                wanted[placed - 1],
                position,
            ),
            forall|i: int|
                0 <= i < placed - 1 ==> advanced(
                    *plane,
                    (#[trigger] segments@[i]).position,
                    direction,
                    wanted[i],
                    segments@[i + 1].position,
                ),
        decreases count - placed,
    {
        let length = if count - placed == 2 {
            head_length
        } else {
            part_length
        };
        segments.push_back(Segment::new(position, length));
        placed = placed + 1;
        if placed < count {
            position = advance(plane, position, direction, length);
        }
    }
    proof {
        assert(lengths(segments@) =~= wanted);
        assert forall|i: int| 0 <= i < anchors(segments@).len() - 1 implies advanced_at(
            *plane,
            direction,
            lengths(segments@),
            anchors(segments@),
            i,
        ) by {
            assert(segments@[i].position == anchors(segments@)[i]);
        }
    }
    segments
}

/// One backward pass over `segments`: the tail jumps onto `target`, then every
/// segment from the one before the tail down to the head is pulled after its
/// successor.
fn relax<
    P: Copy,
    L: Copy,
    D: Fn(P, P) -> P,
    S: Fn(P, P) -> P,
    U: Fn(P) -> P,
    M: Fn(P, L) -> P,
>(plane: &Plane<D, S, U, M>, segments: &mut VecDeque<Segment<P, L>>, target: P)
    requires
        total::<P, L, D, S, U, M>(*plane),
    ensures
        lengths(final(segments)@) == lengths(old(segments)@),
        relaxed(
            *plane,
            anchors(old(segments)@),
            lengths(old(segments)@),
            target,
            anchors(final(segments)@),
        ),
{
    let count = segments.len();
    // The pass walks from the tail to the head by turning the deque once: each
    // step takes the segment at the back, moves it and puts it at the front,
    // where the next step finds it as the successor.
    let mut moved: usize = 0;
    while moved < count
        invariant
            moved <= count,
            segments@.len() == count,
            old(segments)@.len() == count,
            total::<P, L, D, S, U, M>(*plane),
            forall|j: int| moved <= j < count ==> #[trigger] segments@[j] == old(segments)@[j - moved],
            forall|j: int|
                0 <= j < moved ==> (#[trigger] segments@[j]).length == old(segments)@[count - moved
                    + j].length,
            moved > 0 ==> segments@[moved - 1].position == target,
            forall|j: int|
                0 <= j < moved - 1 ==> pulled(
                    *plane,
                    segments@[j + 1].position,
                    old(segments)@[count - moved + j].position,
                    old(segments)@[count - moved + j].length,
                    (#[trigger] segments@[j]).position,
                ),
        decreases count - moved,
    {
        let mut segment = segments.pop_back().unwrap();
        let anchor = if moved == 0 {
            target
        } else {
            let next = segments[0].position();
            pull(plane, next, segment.position(), segment.length())
        };
        segment.set_position(anchor);
        segments.push_front(segment);
        moved = moved + 1;
    }
    proof {
        assert(lengths(segments@) =~= lengths(old(segments)@));
        assert forall|i: int| 0 <= i < anchors(segments@).len() - 1 implies pulled_at(
            *plane,
            anchors(old(segments)@),
            lengths(old(segments)@),
            anchors(segments@),
            i,
        ) by {
            assert(segments@[i].position == anchors(segments@)[i]);
        }
    }
}

/// Puts `count` new segments of `length` in front of the head of `segments`,
/// one after another.
fn lengthen<
    P: Copy,
    L: Copy,
    D: Fn(P, P) -> P,
    S: Fn(P, P) -> P,
    U: Fn(P) -> P,
    M: Fn(P, L) -> P,
>(plane: &Plane<D, S, U, M>, segments: &mut VecDeque<Segment<P, L>>, length: L, count: usize)
    requires
        total::<P, L, D, S, U, M>(*plane),
        old(segments)@.len() >= 2,
    ensures
        lengthened(
            *plane,
            length,
            anchors(old(segments)@),
            count as nat,
            anchors(final(segments)@),
        ),
        lengths(final(segments)@) == Seq::new(count as nat, |i: int| length) + lengths(
            old(segments)@,
        ),
{
    let mut added: usize = 0;
    proof {
        assert(lengths(segments@) =~= Seq::new(0, |i: int| length) + lengths(segments@));
    }
    while added < count
        invariant
            added <= count,
            old(segments)@.len() >= 2,
            total::<P, L, D, S, U, M>(*plane),
            lengthened(*plane, length, anchors(old(segments)@), added as nat, anchors(segments@)),
            lengths(segments@) == Seq::new(added as nat, |i: int| length) + lengths(
                old(segments)@,
            ),
        decreases count - added,
    {
        let ghost middle = segments@;
        let head = segments[0].position();
        let neck = segments[1].position();
        let anchor = extend(plane, head, neck, length);
        segments.push_front(Segment::new(anchor, length));
        added = added + 1;
        proof {
            assert(extended_at(*plane, length, anchors(segments@), 0));
            assert(lengthened(*plane, length, anchors(middle), 1, anchors(segments@)));
            lemma_lengthened_once_more(
                *plane,
                length,
                anchors(old(segments)@),
                (added - 1) as nat,
                anchors(middle),
                anchors(segments@),
            );
            assert(lengths(segments@) =~= seq![length] + lengths(middle));
            assert(lengths(segments@) =~= Seq::new(added as nat, |i: int| length) + lengths(
                old(segments)@,
            ));
        }
    }
}

impl<P: Copy, L: Copy> Limb<P, L> {
    /// A chain of `no_of_segments` segments laid out from `starting_position`.
    ///
    /// The head sits on `starting_position`; each further anchor lies one
    /// length of the segment before it further along `direction`, which is
    /// meant to be a vector of length one. The segment just before the tail
    /// gets `head_length`, every other one `part_length`. The target is
    /// stored and not yet solved for.
    pub fn new<
        D: Fn(P, P) -> P,
        S: Fn(P, P) -> P,
        U: Fn(P) -> P,
        M: Fn(P, L) -> P,
    >(
        target: P,
        no_of_segments: usize,
        starting_position: P,
        part_length: L,
        head_length: L,
        direction: P,
        plane: &Plane<D, S, U, M>,
    ) -> (limb: Self)
        requires
            total::<P, L, D, S, U, M>(*plane),
        ensures
            fresh(*plane, starting_position, limb@),
            limb@.target == target,
            limb@.baseline == no_of_segments,
            limb@.part_length == part_length,
            limb@.head_length == head_length,
            limb@.direction == direction,
    {
        let segments = lay_out(
            plane,
            no_of_segments,
            starting_position,
            direction,
            part_length,
            head_length,
        );
        Self {
            segments,
            target,
            mode: Mode::Tracking,
            baseline: no_of_segments,
            part_length,
            head_length,
            direction,
        }
    }

    /// Lays the chain out anew from `starting_position`, as `new` did: the
    /// baseline count of segments with the baseline lengths along the same
    /// direction. Every segment that growth added is dropped. The target
    /// stays, and is not yet solved for.
    pub fn reset_limb<
        D: Fn(P, P) -> P,
        S: Fn(P, P) -> P,
        U: Fn(P) -> P,
        M: Fn(P, L) -> P,
    >(&mut self, starting_position: P, plane: &Plane<D, S, U, M>)
        requires
            total::<P, L, D, S, U, M>(*plane),
        ensures
            fresh(*plane, starting_position, final(self)@),
            final(self)@ == (LimbView {
                positions: final(self)@.positions,
                lengths: final(self)@.lengths,
                mode: Mode::Tracking,
                ..old(self)@
            }),
    {
        self.segments = lay_out(
            plane,
            self.baseline,
            starting_position,
            self.direction,
            self.part_length,
            self.head_length,
        );
        self.mode = Mode::Tracking;
    }

    /// The chain has one length for each anchor.
    pub proof fn lemma_one_length_each(&self)
        ensures
            self@.positions.len() == self@.lengths.len(),
    {
    }

    /// Replaces the target. No segment moves until the next solve.
    pub fn set_target(&mut self, target: P)
        ensures
            final(self)@ == (LimbView { target, mode: Mode::Tracking, ..old(self)@ }),
    {
        self.target = target;
        self.mode = Mode::Tracking;
    }

    /// Whether a target or a fresh layout is waiting for a solve.
    pub fn mode(&self) -> (mode: Mode)
        ensures
            mode == self@.mode,
    {
        self.mode
    }

    /// Number of segments in the chain.
    pub fn segment_count(&self) -> (count: usize)
        ensures
            count == self@.positions.len(),
            count == self@.lengths.len(),
    {
        self.segments.len()
    }

    /// Anchor of the segment at `index`, counted from the head.
    pub fn position_at(&self, index: usize) -> (result: Result<P, LimbError>)
        ensures
            match result {
                Ok(position) => index < self@.positions.len() && position == self@.positions[
                    index as int
                ],
                Err(error) => index >= self@.positions.len() && error == LimbError::OutOfRange,
            },
    {
        if index < self.segments.len() {
            Ok(self.segments[index].position())
        } else {
            Err(LimbError::OutOfRange)
        }
    }

    /// Anchor of the tail, the segment that a solve puts on the target.
    pub fn get_last_segment_position(&self) -> (position: P)
        requires
            self@.positions.len() > 0,
        ensures
            position == self@.positions.last(),
    {
        let last_index = self.segments.len() - 1;
        self.segments[last_index].position()
    }

    /// One backward pass: the tail jumps onto the target, then every segment
    /// from the one before the tail down to the head is pulled after its
    /// successor.
    ///
    /// Each segment but the tail is pulled once, tail side first, so that each
    /// pull sees the successor where this pass has put it and the segment
    /// where the pass found it. Lengths, order and target stay as they were.
    /// On an empty chain nothing is computed.
    pub fn forward_fabrik<
        D: Fn(P, P) -> P,
        S: Fn(P, P) -> P,
        U: Fn(P) -> P,
        M: Fn(P, L) -> P,
    >(&mut self, plane: &Plane<D, S, U, M>)
        requires
            total::<P, L, D, S, U, M>(*plane),
        ensures
            solved(*plane, old(self)@, final(self)@),
            final(self)@.positions.len() > 0 ==> final(self)@.positions.last() == old(
                self,
            )@.target,
    {
        relax(plane, &mut self.segments, self.target);
        self.mode = Mode::Idle;
    }

    /// Grows the chain by one segment at the head.
    ///
    /// The new head continues the chain beyond the old head, along the line
    /// from the anchor behind the head through the head, at the part length.
    /// The new segment has the part length. No old segment moves; each is
    /// found one index higher than before. A chain of fewer than two segments
    /// has no direction to grow in and is left as it was.
    pub fn add_snake_part<
        D: Fn(P, P) -> P,
        S: Fn(P, P) -> P,
        U: Fn(P) -> P,
        M: Fn(P, L) -> P,
    >(&mut self, plane: &Plane<D, S, U, M>) -> (result: Result<(), LimbError>)
        requires
            total::<P, L, D, S, U, M>(*plane),
        ensures
            match result {
                Ok(()) => {
                    &&& old(self)@.positions.len() >= 2
                    &&& old(self)@.positions.len() + 1 <= usize::MAX
                    &&& grown(*plane, 1, old(self)@, final(self)@)
                },
                Err(LimbError::TooShort) => {
                    &&& old(self)@.positions.len() < 2
                    &&& final(self)@ == old(self)@
                },
                Err(LimbError::Overflow) => {
                    &&& old(self)@.positions.len() >= 2
                    &&& old(self)@.positions.len() + 1 > usize::MAX
                    &&& final(self)@ == old(self)@
                },
                Err(LimbError::OutOfRange) => false,
            },
    {
        self.add_multiple_snake_parts(1, plane)
    }

    /// Grows the chain by `no_of_parts` segments at the head.
    ///
    /// The new segments are added one after another, each continuing the chain
    /// beyond the two anchors that lead it at that moment, each with the part
    /// length. The old segments keep their anchors, lengths and order and are
    /// found `no_of_parts` indices higher than before; whoever keeps indices
    /// into the chain adds `no_of_parts` to each. Growing by 0 changes
    /// nothing, whatever the chain. A refused request changes nothing either.
    pub fn add_multiple_snake_parts<
        D: Fn(P, P) -> P,
        S: Fn(P, P) -> P,
        U: Fn(P) -> P,
        M: Fn(P, L) -> P,
    >(
        &mut self,
        no_of_parts: usize,
        plane: &Plane<D, S, U, M>,
    ) -> (result: Result<(), LimbError>)
        requires
            total::<P, L, D, S, U, M>(*plane),
        ensures
            match result {
                Ok(()) => {
                    &&& no_of_parts == 0 || old(self)@.positions.len() >= 2
                    &&& old(self)@.positions.len() + no_of_parts <= usize::MAX
                    &&& grown(*plane, no_of_parts as nat, old(self)@, final(self)@)
                },
                Err(LimbError::TooShort) => {
                    &&& no_of_parts > 0
                    &&& old(self)@.positions.len() < 2
                    &&& final(self)@ == old(self)@
                },
                Err(LimbError::Overflow) => {
                    &&& no_of_parts > 0
                    &&& old(self)@.positions.len() >= 2
                    &&& old(self)@.positions.len() + no_of_parts > usize::MAX
                    &&& final(self)@ == old(self)@
                },
                Err(LimbError::OutOfRange) => false,
            },
    {
        let count = self.segments.len();
        if no_of_parts == 0 {
            proof {
                assert(self@.lengths =~= Seq::new(0, |i: int| self@.part_length) + self@.lengths);
            }
            return Ok(());
        }
        if count < 2 {
            return Err(LimbError::TooShort);
        }
        if no_of_parts > usize::MAX - count {
            return Err(LimbError::Overflow);
        }
        lengthen(plane, &mut self.segments, self.part_length, no_of_parts);
        Ok(())
    }
}

} // verus!

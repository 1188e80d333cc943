//! What holds of the chain across its operations, proved from their contracts.
//!
//! The chain computes with the four operations of the plane it is handed and
//! knows of them what their postconditions say. A law that needs more of the
//! plane says so in its `requires`, in the terms of exact arithmetic.

use crate::exact::{
    directed, lemma_advance_is_determined, lemma_advance_keeps_the_length,
    lemma_extend_is_determined, lemma_extend_keeps_the_length, lemma_pull_is_determined,
    lemma_pull_keeps_the_length, lemma_pull_rests_on_successor, measures, plane_is_determined,
    pull_settles, rests_at,
};
use crate::model::{
    advanced_at, every_link_holds, extended_at, fresh, grown, laid_out, lengthened, pulled_at,
    relaxed, solved, LimbView,
};
use crate::plane::Plane;
use vstd::prelude::*;

verus! {

/// A fresh layout keeps every length: where the chain's direction has length
/// one, every segment of a fresh chain lies its length from its successor.
pub proof fn lemma_layout_keeps_every_length<
    P,
    L,
    D: Fn(P, P) -> P,
    S: Fn(P, P) -> P,
    U: Fn(P) -> P,
    M: Fn(P, L) -> P,
>(
    plane: Plane<D, S, U, M>,
    unit: spec_fn(P) -> bool,
    long: spec_fn(P, L) -> bool,
    apart: spec_fn(P, P, L) -> bool,
    start: P,
    view: LimbView<P, L>,
)
    requires
        fresh(plane, start, view),
        measures(plane, unit, long, apart),
        unit(view.direction),
    ensures
        every_link_holds(apart, view),
{
    assert forall|i: int| 0 <= i < view.positions.len() - 1 implies apart(
        #[trigger] view.positions[i],
        view.positions[i + 1],
        view.lengths[i],
    ) by {
        assert(advanced_at(plane, view.direction, view.lengths, view.positions, i));
        lemma_advance_keeps_the_length(
            plane,
            unit,
            long,
            apart,
            view.positions[i],
            view.direction,
            view.lengths[i],
            view.positions[i + 1],
        );
    }
}

/// A solve brings every segment to its length from its successor, however the
/// chain lay before: where each segment had a direction to the place its
/// successor has moved to, every segment of the solved chain lies its length
/// from its successor.
pub proof fn lemma_solve_keeps_every_length<
    P,
    L,
    D: Fn(P, P) -> P,
    S: Fn(P, P) -> P,
    U: Fn(P) -> P,
    M: Fn(P, L) -> P,
>(
    plane: Plane<D, S, U, M>,
    unit: spec_fn(P) -> bool,
    long: spec_fn(P, L) -> bool,
    apart: spec_fn(P, P, L) -> bool,
    before: LimbView<P, L>,
    after: LimbView<P, L>,
)
    requires
        solved(plane, before, after),
        measures(plane, unit, long, apart),
        forall|i: int|
            0 <= i < after.positions.len() - 1 ==> directed(
                plane,
                unit,
                after.positions[i + 1],
                #[trigger] before.positions[i],
            ),
    ensures
        every_link_holds(apart, after),
{
    assert forall|i: int| 0 <= i < after.positions.len() - 1 implies apart(
        #[trigger] after.positions[i],
        after.positions[i + 1],
        after.lengths[i],
    ) by {
        assert(pulled_at(plane, before.positions, before.lengths, after.positions, i));
        assert(directed(plane, unit, after.positions[i + 1], before.positions[i]));
        lemma_pull_keeps_the_length(
            plane,
            unit,
            long,
            apart,
            after.positions[i + 1],
            before.positions[i],
            before.lengths[i],
            after.positions[i],
        );
    }
}

/// Growth breaks no length and adds none unkept: where every segment lay its
/// length from its successor before, and each new head had a direction from
/// the two anchors behind it, every segment does so after.
pub proof fn lemma_growth_keeps_every_length<
    P,
    L,
    D: Fn(P, P) -> P,
    S: Fn(P, P) -> P,
    U: Fn(P) -> P,
    M: Fn(P, L) -> P,
>(
    plane: Plane<D, S, U, M>,
    unit: spec_fn(P) -> bool,
    long: spec_fn(P, L) -> bool,
    apart: spec_fn(P, P, L) -> bool,
    count: nat,
    before: LimbView<P, L>,
    after: LimbView<P, L>,
)
    requires
        before.positions.len() == before.lengths.len(),
        grown(plane, count, before, after),
        measures(plane, unit, long, apart),
        every_link_holds(apart, before),
        forall|j: int|
            0 <= j < count ==> directed(
                plane,
                unit,
                #[trigger] after.positions[j + 1],
                after.positions[j + 2],
            ),
    ensures
        every_link_holds(apart, after),
{
    assert forall|i: int| 0 <= i < after.positions.len() - 1 implies apart(
        #[trigger] after.positions[i],
        after.positions[i + 1],
        after.lengths[i],
    ) by {
        if i < count {
            assert(extended_at(plane, before.part_length, after.positions, i));
            assert(directed(plane, unit, after.positions[i + 1], after.positions[i + 2]));
            lemma_extend_keeps_the_length(
                plane,
                unit,
                long,
                apart,
                after.positions[i + 1],
                after.positions[i + 2],
                before.part_length,
                after.positions[i],
            );
        } else {
            let k = i - count;
            assert(after.positions[i] == before.positions[k]);
            assert(after.positions[i + 1] == before.positions[k + 1]);
            assert(apart(before.positions[k], before.positions[k + 1], before.lengths[k]));
        }
    }
}

/// From index `from` to the tail a second pass leaves every anchor where the
/// first pass put it.
proof fn lemma_second_pass_agrees_from<
    P,
    L,
    D: Fn(P, P) -> P,
    S: Fn(P, P) -> P,
    U: Fn(P) -> P,
    M: Fn(P, L) -> P,
>(
    plane: Plane<D, S, U, M>,
    start: Seq<P>,
    lengths: Seq<L>,
    target: P,
    once: Seq<P>,
    twice: Seq<P>,
    from: int,
)
    requires
        start.len() == lengths.len(),
        relaxed(plane, start, lengths, target, once),
        relaxed(plane, once, lengths, target, twice),
        forall|i: int| 0 <= i < lengths.len() ==> pull_settles(plane, #[trigger] lengths[i]),
        0 <= from <= once.len(),
    ensures
        forall|j: int| from <= j < once.len() ==> twice[j] == once[j],
    decreases once.len() - from,
{
    if from < once.len() {
        lemma_second_pass_agrees_from(plane, start, lengths, target, once, twice, from + 1);
        if from < once.len() - 1 {
            assert(twice[from + 1] == once[from + 1]);
            assert(pulled_at(plane, start, lengths, once, from));
            assert(pulled_at(plane, once, lengths, twice, from));
            assert(pull_settles(plane, lengths[from]));
        }
    }
}

/// A second solve with the same target changes nothing: where a pull settles
/// for every length of the chain, the chain after two solves in a row is the
/// chain after the first.
pub proof fn lemma_second_solve_changes_nothing<
    P,
    L,
    D: Fn(P, P) -> P,
    S: Fn(P, P) -> P,
    U: Fn(P) -> P,
    M: Fn(P, L) -> P,
>(
    plane: Plane<D, S, U, M>,
    start: LimbView<P, L>,
    once: LimbView<P, L>,
    twice: LimbView<P, L>,
)
    requires
        start.positions.len() == start.lengths.len(),
        solved(plane, start, once),
        solved(plane, once, twice),
        forall|i: int|
            0 <= i < start.lengths.len() ==> pull_settles(plane, #[trigger] start.lengths[i]),
    ensures
        twice == once,
{
    lemma_second_pass_agrees_from(
        plane,
        start.positions,
        start.lengths,
        start.target,
        once.positions,
        twice.positions,
        0,
    );
    assert(twice.positions =~= once.positions);
}

/// From index `from` to the tail a pass over a chain that lies on its target
/// leaves every anchor on the target.
proof fn lemma_collapsed_from<
    P,
    L,
    D: Fn(P, P) -> P,
    S: Fn(P, P) -> P,
    U: Fn(P) -> P,
    M: Fn(P, L) -> P,
>(
    plane: Plane<D, S, U, M>,
    zero: P,
    before: Seq<P>,
    lengths: Seq<L>,
    target: P,
    after: Seq<P>,
    from: int,
)
    requires
        before.len() == lengths.len(),
        relaxed(plane, before, lengths, target, after),
        forall|i: int| 0 <= i < before.len() ==> before[i] == target,
        forall|i: int| 0 <= i < lengths.len() ==> rests_at(plane, target, zero, #[trigger] lengths[i]),
        0 <= from <= after.len(),
    ensures
        forall|j: int| from <= j < after.len() ==> after[j] == target,
    decreases after.len() - from,
{
    if from < after.len() {
        lemma_collapsed_from(plane, zero, before, lengths, target, after, from + 1);
        if from < after.len() - 1 {
            assert(after[from + 1] == target);
            assert(pulled_at(plane, before, lengths, after, from));
            assert(rests_at(plane, target, zero, lengths[from]));
            lemma_pull_rests_on_successor(plane, target, zero, lengths[from], after[from]);
        }
    }
}

/// A chain that lies with every anchor on its target stays there: where the
/// plane rests at the target for every length of the chain, a solve moves no
/// anchor of such a chain.
pub proof fn lemma_collapsed_chain_stays_put<
    P,
    L,
    D: Fn(P, P) -> P,
    S: Fn(P, P) -> P,
    U: Fn(P) -> P,
    M: Fn(P, L) -> P,
>(
    plane: Plane<D, S, U, M>,
    zero: P,
    before: LimbView<P, L>,
    after: LimbView<P, L>,
)
    requires
        before.positions.len() == before.lengths.len(),
        solved(plane, before, after),
        forall|i: int| 0 <= i < before.positions.len() ==> before.positions[i] == before.target,
        forall|i: int|
            0 <= i < before.lengths.len() ==> rests_at(
                plane,
                before.target,
                zero,
                #[trigger] before.lengths[i],
            ),
    ensures
        after.positions == before.positions,
{
    lemma_collapsed_from(
        plane,
        zero,
        before.positions,
        before.lengths,
        before.target,
        after.positions,
        0,
    );
    assert(after.positions =~= before.positions);
}

/// Growth moves no old segment and changes no old length: the chain is longer
/// by exactly `count`, and the segment that was at index `i` is at index
/// `i + count`, with the anchor and the length it had.
pub proof fn lemma_growth_keeps_old_segments<
    P,
    L,
    D: Fn(P, P) -> P,
    S: Fn(P, P) -> P,
    U: Fn(P) -> P,
    M: Fn(P, L) -> P,
>(
    plane: Plane<D, S, U, M>,
    count: nat,
    before: LimbView<P, L>,
    after: LimbView<P, L>,
)
    requires
        before.positions.len() == before.lengths.len(),
        grown(plane, count, before, after),
    ensures
        after.positions.len() == before.positions.len() + count,
        after.lengths.len() == before.lengths.len() + count,
        forall|i: int|
            0 <= i < before.positions.len() ==> after.positions[i + count]
                == #[trigger] before.positions[i],
        forall|i: int|
            0 <= i < before.lengths.len() ==> after.lengths[i + count]
                == #[trigger] before.lengths[i],
        count == 0 ==> after == before,
{
    assert forall|i: int| 0 <= i < before.positions.len() implies after.positions[i + count]
        == #[trigger] before.positions[i] by {
        assert(after.positions[i + count] == before.positions[(i + count) - count]);
    }
    if count == 0 {
        assert(after.positions =~= before.positions);
        assert(after.lengths =~= before.lengths);
    }
}

/// Two layouts from one start agree up to index `upto`.
proof fn lemma_layouts_agree_upto<
    P,
    L,
    D: Fn(P, P) -> P,
    S: Fn(P, P) -> P,
    U: Fn(P) -> P,
    M: Fn(P, L) -> P,
>(
    plane: Plane<D, S, U, M>,
    start: P,
    direction: P,
    lengths: Seq<L>,
    one: Seq<P>,
    other: Seq<P>,
    upto: int,
)
    requires
        laid_out(plane, start, direction, lengths, one),
        laid_out(plane, start, direction, lengths, other),
        plane_is_determined(plane),
        0 <= upto <= one.len(),
    ensures
        forall|j: int| 0 <= j < upto ==> one[j] == other[j],
    decreases upto,
{
    if upto > 0 {
        lemma_layouts_agree_upto(plane, start, direction, lengths, one, other, upto - 1);
        if upto > 1 {
            let i = upto - 2;
            assert(one[i] == other[i]);
            assert(advanced_at(plane, direction, lengths, one, i));
            assert(advanced_at(plane, direction, lengths, other, i));
            lemma_advance_is_determined(
                plane,
                one[i],
                direction,
                lengths[i],
                one[i + 1],
                other[i + 1],
            );
        }
    }
}

/// A fresh layout is determined by its start and its settings: on a
/// determined plane, two fresh chains that agree on the start, the target, the
/// direction, and the baseline count and lengths are the same chain.
pub proof fn lemma_layout_is_determined<
    P,
    L,
    D: Fn(P, P) -> P,
    S: Fn(P, P) -> P,
    U: Fn(P) -> P,
    M: Fn(P, L) -> P,
>(
    plane: Plane<D, S, U, M>,
    start: P,
    one: LimbView<P, L>,
    other: LimbView<P, L>,
)
    requires
        fresh(plane, start, one),
        fresh(plane, start, other),
        plane_is_determined(plane),
        one.target == other.target,
        one.baseline == other.baseline,
        one.part_length == other.part_length,
        one.head_length == other.head_length,
        one.direction == other.direction,
    ensures
        one == other,
{
    lemma_layouts_agree_upto(
        plane,
        start,
        one.direction,
        one.lengths,
        one.positions,
        other.positions,
        one.positions.len() as int,
    );
    assert(one.positions =~= other.positions);
}

/// Two passes over one chain agree from index `from` to the tail.
proof fn lemma_passes_agree_from<
    P,
    L,
    D: Fn(P, P) -> P,
    S: Fn(P, P) -> P,
    U: Fn(P) -> P,
    M: Fn(P, L) -> P,
>(
    plane: Plane<D, S, U, M>,
    before: Seq<P>,
    lengths: Seq<L>,
    target: P,
    one: Seq<P>,
    other: Seq<P>,
    from: int,
)
    requires
        relaxed(plane, before, lengths, target, one),
        relaxed(plane, before, lengths, target, other),
        plane_is_determined(plane),
        0 <= from <= one.len(),
    ensures
        forall|j: int| from <= j < one.len() ==> one[j] == other[j],
    decreases one.len() - from,
{
    if from < one.len() {
        lemma_passes_agree_from(plane, before, lengths, target, one, other, from + 1);
        if from < one.len() - 1 {
            assert(one[from + 1] == other[from + 1]);
            assert(pulled_at(plane, before, lengths, one, from));
            assert(pulled_at(plane, before, lengths, other, from));
            lemma_pull_is_determined(
                plane,
                one[from + 1],
                before[from],
                lengths[from],
                one[from],
                other[from],
            );
        }
    }
}

/// A solve is determined by the chain it starts from: on a determined plane,
/// two solves of one chain end in the same chain.
pub proof fn lemma_solve_is_determined<
    P,
    L,
    D: Fn(P, P) -> P,
    S: Fn(P, P) -> P,
    U: Fn(P) -> P,
    M: Fn(P, L) -> P,
>(
    plane: Plane<D, S, U, M>,
    before: LimbView<P, L>,
    one: LimbView<P, L>,
    other: LimbView<P, L>,
)
    requires
        solved(plane, before, one),
        solved(plane, before, other),
        plane_is_determined(plane),
    ensures
        one == other,
{
    lemma_passes_agree_from(
        plane,
        before.positions,
        before.lengths,
        before.target,
        one.positions,
        other.positions,
        0,
    );
    assert(one.positions =~= other.positions);
}

/// Two lengthenings of one chain agree from index `from` to the tail.
proof fn lemma_lengthenings_agree_from<
    P,
    L,
    D: Fn(P, P) -> P,
    S: Fn(P, P) -> P,
    U: Fn(P) -> P,
    M: Fn(P, L) -> P,
>(
    plane: Plane<D, S, U, M>,
    length: L,
    before: Seq<P>,
    count: nat,
    one: Seq<P>,
    other: Seq<P>,
    from: int,
)
    requires
        lengthened(plane, length, before, count, one),
        lengthened(plane, length, before, count, other),
        plane_is_determined(plane),
        0 <= from <= one.len(),
    ensures
        forall|j: int| from <= j < one.len() ==> one[j] == other[j],
    decreases one.len() - from,
{
    if from < one.len() {
        lemma_lengthenings_agree_from(plane, length, before, count, one, other, from + 1);
        if from < count {
            assert(one[from + 1] == other[from + 1]);
            assert(one[from + 2] == other[from + 2]);
            assert(extended_at(plane, length, one, from));
            assert(extended_at(plane, length, other, from));
            lemma_extend_is_determined(
                plane,
                one[from + 1],
                one[from + 2],
                length,
                one[from],
                other[from],
            );
        } else {
            assert(one[from] == before[from - count]);
            assert(other[from] == before[from - count]);
        }
    }
}

/// Growth is determined by the chain it starts from: on a determined plane,
/// two growths of one chain by one count end in the same chain.
pub proof fn lemma_growth_is_determined<
    P,
    L,
    D: Fn(P, P) -> P,
    S: Fn(P, P) -> P,
    U: Fn(P) -> P,
    M: Fn(P, L) -> P,
>(
    plane: Plane<D, S, U, M>,
    count: nat,
    before: LimbView<P, L>,
    one: LimbView<P, L>,
    other: LimbView<P, L>,
)
    requires
        grown(plane, count, before, one),
        grown(plane, count, before, other),
        plane_is_determined(plane),
    ensures
        one == other,
{
    lemma_lengthenings_agree_from(
        plane,
        before.part_length,
        before.positions,
        count,
        one.positions,
        other.positions,
        0,
    );
    assert(one.positions =~= other.positions);
}

/// Lengthening by `count` and then by one more is lengthening by `count + 1`.
pub proof fn lemma_lengthened_once_more<
    P,
    L,
    D: Fn(P, P) -> P,
    S: Fn(P, P) -> P,
    U: Fn(P) -> P,
    M: Fn(P, L) -> P,
>(
    plane: Plane<D, S, U, M>,
    length: L,
    before: Seq<P>,
    count: nat,
    middle: Seq<P>,
    after: Seq<P>,
)
    requires
        lengthened(plane, length, before, count, middle),
        lengthened(plane, length, middle, 1, after),
    ensures
        lengthened(plane, length, before, count + 1, after),
{
    assert forall|k: int| count + 1 <= k < after.len() implies #[trigger] after[k] == before[k - (
    count + 1)] by {
        assert(after[k] == middle[k - 1]);
        assert(middle[k - 1] == before[k - 1 - count]);
    }
    assert forall|j: int| 0 <= j < count + 1 implies #[trigger] extended_at(
        plane,
        length,
        after,
        j,
    ) by {
        if j == 0 {
            assert(extended_at(plane, length, after, 0));
        } else {
            assert(extended_at(plane, length, middle, j - 1));
            assert(after[j] == middle[j - 1]);
            assert(after[j + 1] == middle[j]);
            assert(after[j + 2] == middle[j + 1]);
        }
    }
}

} // verus!

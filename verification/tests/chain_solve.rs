use bevy::math::Vec2;
use snake::fabrik::{Limb, LimbError};
use snake::model::Mode;
use snake::plane::{pull, Plane};

type Chain = Limb<Vec2, f32>;

type Flat = Plane<
    fn(Vec2, Vec2) -> Vec2,
    fn(Vec2, Vec2) -> Vec2,
    fn(Vec2) -> Vec2,
    fn(Vec2, f32) -> Vec2,
>;

/// The plane of single-precision vectors.
fn flat() -> Flat {
    Plane {
        difference: |a, b| a - b,
        sum: |a, b| a + b,
        unit_or_zero: |v| v.normalize_or_zero(),
        scaled: |v, length| v * length,
    }
}

fn positions(limb: &Chain) -> Vec<Vec2> {
    (0..limb.segment_count())
        .map(|index| limb.position_at(index).unwrap())
        .collect()
}

fn close(a: Vec2, b: Vec2) -> bool {
    (a.x - b.x).abs() < 1e-4 && (a.y - b.y).abs() < 1e-4
}

#[test]
fn solve_bends_three_segments_toward_the_target() {
    let mut limb = Limb::new(Vec2::new(20.0, 30.0), 3, Vec2::ZERO, 10.0, 10.0, Vec2::X, &flat());
    assert_eq!(
        positions(&limb),
        vec![Vec2::new(0.0, 0.0), Vec2::new(10.0, 0.0), Vec2::new(20.0, 0.0)]
    );
    limb.forward_fabrik(&flat());
    let after = positions(&limb);
    assert_eq!(after[2], Vec2::new(20.0, 30.0));
    assert!(close(after[1], Vec2::new(16.837723, 20.513166)));
    assert!(close(after[0], Vec2::new(10.493114, 12.783617)));
    assert!((after[1].distance(after[2]) - 10.0).abs() < 1e-4);
    assert!((after[0].distance(after[1]) - 10.0).abs() < 1e-4);
}

#[test]
fn solve_keeps_every_link_at_its_length() {
    let mut limb = Limb::new(
        Vec2::new(210.0, -80.0),
        5,
        Vec2::new(200.0, -100.0),
        20.0,
        50.0,
        Vec2::NEG_X,
        &flat(),
    );
    limb.forward_fabrik(&flat());
    let after = positions(&limb);
    let lengths = [20.0, 20.0, 20.0, 50.0];
    for index in 0..4 {
        let distance = after[index].distance(after[index + 1]);
        assert!((distance - lengths[index]).abs() < 1e-4);
    }
    assert!(close(after[3], Vec2::new(161.9238, -93.73605)));
    assert!(close(after[0], Vec2::new(193.50952, -100.83719)));
}

#[test]
fn solve_puts_the_tail_on_the_target_exactly() {
    let target = Vec2::new(-0.1, 1.0e-7);
    let mut limb = Limb::new(target, 4, Vec2::new(3.0, 3.0), 20.0, 50.0, Vec2::NEG_X, &flat());
    limb.forward_fabrik(&flat());
    assert_eq!(limb.get_last_segment_position(), target);
    assert_eq!(limb.position_at(3), Ok(target));
}

#[test]
fn solve_twice_gives_the_same_positions() {
    let mut limb = Limb::new(Vec2::new(30.0, 0.0), 3, Vec2::ZERO, 10.0, 10.0, Vec2::X, &flat());
    limb.forward_fabrik(&flat());
    let once = positions(&limb);
    assert_eq!(
        once,
        vec![Vec2::new(10.0, 0.0), Vec2::new(20.0, 0.0), Vec2::new(30.0, 0.0)]
    );
    limb.forward_fabrik(&flat());
    assert_eq!(positions(&limb), once);
}

#[test]
fn solve_twice_after_a_bend_gives_the_same_positions() {
    let mut limb = Limb::new(Vec2::new(20.0, 30.0), 3, Vec2::ZERO, 10.0, 10.0, Vec2::X, &flat());
    limb.forward_fabrik(&flat());
    let once = positions(&limb);
    limb.forward_fabrik(&flat());
    assert_eq!(positions(&limb), once);
}

#[test]
fn second_pull_may_move_a_point_by_one_unit_in_the_last_place() {
    let next = Vec2::new(10.0, 4.0);
    let first = pull(&flat(), next, Vec2::new(11.0, 8.0), 10.0);
    let second = pull(&flat(), next, first, 10.0);
    assert!(close(first, second));
    assert_eq!(first.x.to_bits(), second.x.to_bits());
    assert_eq!(first.y.to_bits(), 0x415b390a);
    assert_eq!(second.y.to_bits(), 0x415b3909);
}

#[test]
fn solve_leaves_a_collapsed_chain_where_it_is() {
    let point = Vec2::new(3.0, 4.0);
    let mut limb = Limb::new(point, 4, point, 20.0, 50.0, Vec2::ZERO, &flat());
    assert_eq!(positions(&limb), vec![point; 4]);
    limb.forward_fabrik(&flat());
    let after = positions(&limb);
    assert!(after.iter().all(|position| position.is_finite()));
    assert_eq!(after, vec![point; 4]);
}

#[test]
fn solve_pulls_a_collapsed_chain_out_behind_a_new_target() {
    let point = Vec2::new(3.0, 4.0);
    let mut limb = Limb::new(Vec2::new(3.0, 24.0), 3, point, 20.0, 20.0, Vec2::ZERO, &flat());
    limb.forward_fabrik(&flat());
    let after = positions(&limb);
    assert!(after.iter().all(|position| position.is_finite()));
    assert_eq!(
        after,
        vec![Vec2::new(3.0, 4.0), Vec2::new(3.0, 4.0), Vec2::new(3.0, 24.0)]
    );
}

#[test]
fn solve_on_an_empty_chain_does_nothing() {
    let mut limb = Limb::new(Vec2::new(1.0, 2.0), 0, Vec2::ZERO, 20.0, 50.0, Vec2::NEG_X, &flat());
    limb.forward_fabrik(&flat());
    assert_eq!(limb.segment_count(), 0);
    assert_eq!(limb.position_at(0), Err(LimbError::OutOfRange));
}

#[test]
fn solve_moves_a_single_segment_onto_the_target() {
    let mut limb = Limb::new(Vec2::new(7.0, -7.0), 1, Vec2::ZERO, 20.0, 50.0, Vec2::NEG_X, &flat());
    limb.forward_fabrik(&flat());
    assert_eq!(positions(&limb), vec![Vec2::new(7.0, -7.0)]);
}

#[test]
fn set_target_moves_nothing_until_the_next_solve() {
    let mut limb = Limb::new(Vec2::new(30.0, 0.0), 3, Vec2::ZERO, 10.0, 10.0, Vec2::X, &flat());
    let before = positions(&limb);
    limb.set_target(Vec2::new(-50.0, 12.0));
    assert_eq!(positions(&limb), before);
    limb.forward_fabrik(&flat());
    assert_eq!(limb.get_last_segment_position(), Vec2::new(-50.0, 12.0));
}

#[test]
fn latest_target_wins() {
    let mut limb = Limb::new(Vec2::new(30.0, 0.0), 3, Vec2::ZERO, 10.0, 10.0, Vec2::X, &flat());
    limb.set_target(Vec2::new(1.0, 1.0));
    limb.set_target(Vec2::new(20.0, 5.0));
    limb.forward_fabrik(&flat());
    assert_eq!(limb.get_last_segment_position(), Vec2::new(20.0, 5.0));
}

#[test]
fn mode_follows_targets_and_solves() {
    let mut limb = Limb::new(Vec2::new(30.0, 0.0), 3, Vec2::ZERO, 10.0, 10.0, Vec2::X, &flat());
    assert_eq!(limb.mode(), Mode::Tracking);
    limb.forward_fabrik(&flat());
    assert_eq!(limb.mode(), Mode::Idle);
    limb.forward_fabrik(&flat());
    assert_eq!(limb.mode(), Mode::Idle);
    limb.set_target(Vec2::new(1.0, 1.0));
    assert_eq!(limb.mode(), Mode::Tracking);
    limb.set_target(Vec2::new(2.0, 2.0));
    assert_eq!(limb.mode(), Mode::Tracking);
    limb.forward_fabrik(&flat());
    assert_eq!(limb.mode(), Mode::Idle);
}

#[test]
fn same_calls_give_the_same_bits() {
    let run = || {
        let mut limb = Limb::new(
            Vec2::new(210.0, -80.0),
            5,
            Vec2::new(200.0, -100.0),
            20.0,
            50.0,
            Vec2::NEG_X,
            &flat(),
        );
        limb.forward_fabrik(&flat());
        limb.set_target(Vec2::new(215.5, -70.25));
        limb.forward_fabrik(&flat());
        positions(&limb)
            .iter()
            .map(|position| (position.x.to_bits(), position.y.to_bits()))
            .collect::<Vec<_>>()
    };
    assert_eq!(run(), run());
}

type Line = Plane<fn(i64, i64) -> i64, fn(i64, i64) -> i64, fn(i64) -> i64, fn(i64, i64) -> i64>;

/// The line of whole numbers, whose arithmetic is exact.
fn line() -> Line {
    Plane {
        difference: |a, b| a - b,
        sum: |a, b| a + b,
        unit_or_zero: |v| v.signum(),
        scaled: |v, length| v * length,
    }
}

fn places(limb: &Limb<i64, i64>) -> Vec<i64> {
    (0..limb.segment_count())
        .map(|index| limb.position_at(index).unwrap())
        .collect()
}

#[test]
fn solve_on_an_exact_line_keeps_every_length_exactly() {
    let mut limb = Limb::new(-40, 5, 100, 20, 50, -1, &line());
    assert_eq!(places(&limb), vec![100, 80, 60, 40, -10]);
    limb.forward_fabrik(&line());
    let after = places(&limb);
    assert_eq!(after, vec![70, 50, 30, 10, -40]);
    let lengths = [20, 20, 20, 50];
    for index in 0..4 {
        assert_eq!((after[index] - after[index + 1]).abs(), lengths[index]);
    }
}

#[test]
fn solve_on_an_exact_line_folds_the_chain_over_a_target_behind_it() {
    let mut limb = Limb::new(95, 4, 100, 20, 50, -1, &line());
    assert_eq!(places(&limb), vec![100, 80, 60, 10]);
    limb.forward_fabrik(&line());
    assert_eq!(places(&limb), vec![85, 65, 45, 95]);
}

#[test]
fn second_solve_on_an_exact_line_changes_nothing() {
    let mut limb = Limb::new(95, 4, 100, 20, 50, -1, &line());
    limb.forward_fabrik(&line());
    let once = places(&limb);
    limb.forward_fabrik(&line());
    assert_eq!(places(&limb), once);
}

#[test]
fn solve_on_an_exact_line_leaves_a_collapsed_chain_where_it_is() {
    let mut limb = Limb::new(7, 4, 7, 20, 50, 0, &line());
    assert_eq!(places(&limb), vec![7, 7, 7, 7]);
    limb.forward_fabrik(&line());
    assert_eq!(places(&limb), vec![7, 7, 7, 7]);
}

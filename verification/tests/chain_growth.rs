use bevy::math::Vec2;
use snake::fabrik::{Limb, LimbError};
use snake::model::Mode;
use snake::plane::Plane;

type Chain = Limb<Vec2, f32>;

type Flat = Plane<
    fn(Vec2, Vec2) -> Vec2,
    fn(Vec2, Vec2) -> Vec2,
    fn(Vec2) -> Vec2,
    fn(Vec2, f32) -> Vec2,
>;

/// The plane of single-precision vectors.
fn flat() -> Flat {
    Plane {
        difference: |a, b| a - b,
        sum: |a, b| a + b,
        unit_or_zero: |v| v.normalize_or_zero(),
        scaled: |v, length| v * length,
    }
}

fn positions(limb: &Chain) -> Vec<Vec2> {
    (0..limb.segment_count())
        .map(|index| limb.position_at(index).unwrap())
        .collect()
}

fn five_by_five() -> Chain {
    Limb::new(Vec2::new(-17.0, 6.0), 5, Vec2::ZERO, 5.0, 5.0, Vec2::NEG_X, &flat())
}

#[test]
fn growth_by_two_keeps_the_old_positions() {
    let mut limb = five_by_five();
    limb.forward_fabrik(&flat());
    let before = positions(&limb);
    assert_eq!(limb.add_multiple_snake_parts(2, &flat()), Ok(()));
    assert_eq!(limb.segment_count(), 7);
    for index in 0..5 {
        assert_eq!(limb.position_at(index + 2), Ok(before[index]));
    }
}

#[test]
fn growth_continues_the_head_direction() {
    let mut limb = five_by_five();
    assert_eq!(limb.add_multiple_snake_parts(2, &flat()), Ok(()));
    assert_eq!(
        positions(&limb),
        vec![
            Vec2::new(10.0, 0.0),
            Vec2::new(5.0, 0.0),
            Vec2::new(0.0, 0.0),
            Vec2::new(-5.0, 0.0),
            Vec2::new(-10.0, 0.0),
            Vec2::new(-15.0, 0.0),
            Vec2::new(-20.0, 0.0),
        ]
    );
}

#[test]
fn growth_after_a_bend_continues_the_bent_head() {
    let mut limb = five_by_five();
    limb.forward_fabrik(&flat());
    assert_eq!(limb.add_multiple_snake_parts(2, &flat()), Ok(()));
    let after = positions(&limb);
    assert!((after[1].x - 4.4505568).abs() < 1e-4);
    assert!((after[1].y + 0.010094182).abs() < 1e-4);
    assert!((after[0].x - 9.450544).abs() < 1e-4);
    assert!((after[0].y + 0.02143451).abs() < 1e-4);
    for index in 0..6 {
        assert!((after[index].distance(after[index + 1]) - 5.0).abs() < 1e-4);
    }
}

#[test]
fn growth_adds_exactly_the_count() {
    let mut limb = five_by_five();
    assert_eq!(limb.add_multiple_snake_parts(3, &flat()), Ok(()));
    assert_eq!(limb.segment_count(), 8);
    assert_eq!(limb.add_snake_part(&flat()), Ok(()));
    assert_eq!(limb.segment_count(), 9);
}

#[test]
fn growth_by_zero_changes_nothing() {
    let mut limb = five_by_five();
    let before = positions(&limb);
    assert_eq!(limb.add_multiple_snake_parts(0, &flat()), Ok(()));
    assert_eq!(limb.segment_count(), 5);
    assert_eq!(positions(&limb), before);
}

#[test]
fn growth_by_zero_is_accepted_on_a_short_chain() {
    let mut empty = Limb::new(Vec2::ZERO, 0, Vec2::ZERO, 5.0, 5.0, Vec2::NEG_X, &flat());
    assert_eq!(empty.add_multiple_snake_parts(0, &flat()), Ok(()));
    assert_eq!(empty.segment_count(), 0);
    let mut single = Limb::new(Vec2::ZERO, 1, Vec2::ZERO, 5.0, 5.0, Vec2::NEG_X, &flat());
    assert_eq!(single.add_multiple_snake_parts(0, &flat()), Ok(()));
    assert_eq!(single.segment_count(), 1);
}

#[test]
fn growth_of_a_short_chain_is_refused() {
    let mut empty = Limb::new(Vec2::ZERO, 0, Vec2::ZERO, 5.0, 5.0, Vec2::NEG_X, &flat());
    assert_eq!(empty.add_snake_part(&flat()), Err(LimbError::TooShort));
    assert_eq!(empty.add_multiple_snake_parts(2, &flat()), Err(LimbError::TooShort));
    assert_eq!(empty.segment_count(), 0);
    let mut single = Limb::new(Vec2::ZERO, 1, Vec2::new(4.0, 4.0), 5.0, 5.0, Vec2::NEG_X, &flat());
    assert_eq!(single.add_snake_part(&flat()), Err(LimbError::TooShort));
    assert_eq!(single.add_multiple_snake_parts(usize::MAX, &flat()), Err(LimbError::TooShort));
    assert_eq!(positions(&single), vec![Vec2::new(4.0, 4.0)]);
}

#[test]
fn growth_beyond_the_counter_is_refused() {
    let mut limb = five_by_five();
    let before = positions(&limb);
    assert_eq!(
        limb.add_multiple_snake_parts(usize::MAX, &flat()),
        Err(LimbError::Overflow)
    );
    assert_eq!(
        limb.add_multiple_snake_parts(usize::MAX - 4, &flat()),
        Err(LimbError::Overflow)
    );
    assert_eq!(positions(&limb), before);
}

#[test]
fn growth_of_two_segments_is_the_shortest_that_works() {
    let mut limb = Limb::new(Vec2::ZERO, 2, Vec2::new(1.0, 1.0), 5.0, 7.0, Vec2::NEG_X, &flat());
    assert_eq!(positions(&limb), vec![Vec2::new(1.0, 1.0), Vec2::new(-6.0, 1.0)]);
    assert_eq!(limb.add_snake_part(&flat()), Ok(()));
    assert_eq!(
        positions(&limb),
        vec![Vec2::new(6.0, 1.0), Vec2::new(1.0, 1.0), Vec2::new(-6.0, 1.0)]
    );
}

#[test]
fn growth_keeps_every_link_at_its_length_before_any_solve() {
    let mut limb = Limb::new(
        Vec2::new(200.0, 200.0),
        4,
        Vec2::new(200.0, -100.0),
        20.0,
        50.0,
        Vec2::NEG_X,
        &flat(),
    );
    assert_eq!(limb.add_multiple_snake_parts(2, &flat()), Ok(()));
    assert_eq!(
        positions(&limb),
        vec![
            Vec2::new(240.0, -100.0),
            Vec2::new(220.0, -100.0),
            Vec2::new(200.0, -100.0),
            Vec2::new(180.0, -100.0),
            Vec2::new(160.0, -100.0),
            Vec2::new(110.0, -100.0),
        ]
    );
}

#[test]
fn grown_segments_have_the_part_length() {
    let mut limb = Limb::new(
        Vec2::new(500.0, 300.0),
        4,
        Vec2::new(200.0, -100.0),
        20.0,
        50.0,
        Vec2::NEG_X,
        &flat(),
    );
    assert_eq!(limb.add_multiple_snake_parts(2, &flat()), Ok(()));
    limb.forward_fabrik(&flat());
    let after = positions(&limb);
    let lengths = [20.0, 20.0, 20.0, 20.0, 50.0];
    for index in 0..5 {
        let distance = after[index].distance(after[index + 1]);
        assert!((distance - lengths[index]).abs() < 1e-4);
    }
}

#[test]
fn growth_leaves_the_mode_as_it_was() {
    let mut limb = five_by_five();
    assert_eq!(limb.add_snake_part(&flat()), Ok(()));
    assert_eq!(limb.mode(), Mode::Tracking);
    limb.forward_fabrik(&flat());
    assert_eq!(limb.add_snake_part(&flat()), Ok(()));
    assert_eq!(limb.mode(), Mode::Idle);
}

#[test]
fn reset_goes_back_to_the_baseline_layout() {
    let mut limb = Limb::new(
        Vec2::new(200.0, 200.0),
        5,
        Vec2::new(200.0, -100.0),
        20.0,
        50.0,
        Vec2::NEG_X,
        &flat(),
    );
    let fresh = positions(&limb);
    limb.forward_fabrik(&flat());
    assert_eq!(limb.add_multiple_snake_parts(6, &flat()), Ok(()));
    assert_eq!(limb.segment_count(), 11);
    limb.reset_limb(Vec2::new(200.0, -100.0), &flat());
    assert_eq!(limb.segment_count(), 5);
    assert_eq!(positions(&limb), fresh);
    assert_eq!(limb.mode(), Mode::Tracking);
    limb.forward_fabrik(&flat());
    assert_eq!(limb.get_last_segment_position(), Vec2::new(200.0, 200.0));
    let after = positions(&limb);
    assert!((after[3].distance(after[4]) - 50.0).abs() < 1e-4);
    assert!((after[2].distance(after[3]) - 20.0).abs() < 1e-4);
}

#[test]
fn reset_can_anchor_the_chain_elsewhere() {
    let mut limb = Limb::new(Vec2::ZERO, 3, Vec2::ZERO, 5.0, 8.0, Vec2::NEG_X, &flat());
    limb.reset_limb(Vec2::new(100.0, 50.0), &flat());
    assert_eq!(
        positions(&limb),
        vec![Vec2::new(100.0, 50.0), Vec2::new(95.0, 50.0), Vec2::new(87.0, 50.0)]
    );
}

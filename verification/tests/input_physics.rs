use scene2d::input::KeyState;
use scene2d::physics::PlayerCharacter;
use scene2d::physics::game_tick;
use scene2d::physics::radius_from_height;
use scene2d::physics::rotation_for;
use scene2d::physics::MAX_VELOCITY;
use scene2d::defined_min;
use scene2d::defined_max;
use scene2d::clamp_between;

#[test]
fn press_makes_button_down() {
    let mut ks = KeyState::new();
    assert!(!ks.is_down(5));
    ks.update(Some(5), None);
    assert!(ks.is_down(5));
    assert!(!ks.is_down(6));
}

#[test]
fn press_is_idempotent() {
    let mut ks = KeyState::new();
    ks.update(Some(5), None);
    ks.update(Some(5), None);
    ks.update(Some(5), None);
    assert!(ks.is_down(5));
    ks.update(None, Some(5));
    assert!(!ks.is_down(5));
}

#[test]
fn release_without_press_is_noop() {
    let mut ks = KeyState::new();
    ks.update(Some(9), None);
    ks.update(None, Some(4));
    assert!(!ks.is_down(4));
    assert!(ks.is_down(9));
}

#[test]
fn press_and_release_in_one_event() {
    let mut ks = KeyState::new();
    ks.update(Some(7), Some(7));
    assert!(!ks.is_down(7));
}

#[test]
fn min_max_clamp_exact() {
    assert_eq!(defined_min(3, 8), 3);
    assert_eq!(defined_min(8, 3), 3);
    assert_eq!(defined_min(-4, -4), -4);
    assert_eq!(defined_max(3, 8), 8);
    assert_eq!(defined_max(8, 3), 8);
    assert_eq!(defined_max(-4, -4), -4);
    assert_eq!(clamp_between(5, 0, 10), 5);
    assert_eq!(clamp_between(-5, 0, 10), 0);
    assert_eq!(clamp_between(15, 0, 10), 10);
}

#[test]
fn radius_derivation_from_content_height() {
    // half the pixel height less a two-pixel trim, in milli-units
    assert_eq!(radius_from_height(56), 26_000);
    assert_eq!(radius_from_height(60), 28_000);
    assert_eq!(radius_from_height(4), 0);
}

#[test]
fn rotation_across_range() {
    // radius 30 units, width 300 units, in milli-units
    assert_eq!(rotation_for(30_000, 30_000), 0);
    assert_eq!(rotation_for(270_000, 30_000), 360_000);
    assert_eq!(rotation_for(150_000, 30_000), 180_000);
}

#[test]
fn velocity_is_clamped_after_update() {
    let mut pc = PlayerCharacter::new(30_000, 150_000, 195_000);
    pc.accelerate(10_000_000, 0);
    pc.update(16);
    assert_eq!(pc.vx, MAX_VELOCITY);
    pc.accelerate(-30_000_000, -10_000_000);
    pc.update(16);
    assert_eq!(pc.vx, -MAX_VELOCITY);
    assert_eq!(pc.vy, -MAX_VELOCITY);
}

#[test]
fn position_stays_within_bounds() {
    let mut pc = PlayerCharacter::new(30_000, 150_000, 195_000);
    pc.accelerate(-400_000, 0);
    pc.update(1000);
    // one full second leftward at the bound lands exactly on the wall
    assert_eq!(pc.x, 30_000);
    assert_eq!(pc.rotation, 0);
    pc.accelerate(800_000, 800_000);
    for _ in 0..100 {
        pc.update(1000);
        assert!(pc.x >= 30_000 && pc.x <= 270_000);
        assert!(pc.y >= 0 && pc.y <= 195_000);
    }
}

#[test]
fn damping_decays_geometrically() {
    let mut pc = PlayerCharacter::new(30_000, 150_000, 195_000);
    pc.accelerate(10_000, 0);
    let expected = [
        9_000, 8_100, 7_290, 6_561, 5_904, 5_313, 4_781, 4_302, 3_871, 3_483,
    ];
    for i in 0..10 {
        pc.update(16);
        assert_eq!(pc.vx, expected[i]);
    }
}

#[test]
fn damping_reaches_rest() {
    let mut pc = PlayerCharacter::new(30_000, 150_000, 195_000);
    pc.accelerate(5, 0);
    let mut steps = 0;
    while pc.vx != 0 {
        pc.update(16);
        steps += 1;
        assert!(steps < 100);
    }
    pc.update(16);
    assert_eq!(pc.vx, 0);
}

#[test]
fn game_tick_accelerates_while_held() {
    let mut ks = KeyState::new();
    let left = 1u64;
    let right = 2u64;
    ks.update(Some(left), None);
    let mut pc = PlayerCharacter::new(30_000, 150_000, 195_000);
    game_tick(&mut pc, &ks, left, right, 16);
    // velocity: damp(0 - 250_000) clamped; position moved by -250_000 * 16 / 1000
    assert_eq!(pc.vx, -225_000);
    assert_eq!(pc.x, 146_000);
    assert_eq!(pc.rotation, rotation_for(146_000, 30_000));
    assert_eq!(pc.rotation, 174_000);
}

#[test]
fn game_tick_without_input_only_damps() {
    let ks = KeyState::new();
    let mut pc = PlayerCharacter::new(30_000, 150_000, 195_000);
    pc.accelerate(100_000, 0);
    game_tick(&mut pc, &ks, 1, 2, 1000);
    assert_eq!(pc.vx, 90_000);
    assert_eq!(pc.x, 250_000);
}

#[test]
fn held_left_for_a_second_then_release() {
    // hold left for 60 frames, then release and watch the decay factor
    let mut ks = KeyState::new();
    let left = 1u64;
    let mut pc = PlayerCharacter::new(30_000, 270_000, 195_000);
    ks.update(Some(left), None);
    for _ in 0..60 {
        game_tick(&mut pc, &ks, left, 2, 16);
        assert!(pc.vx >= -MAX_VELOCITY);
    }
    // at the bound the velocity saturates at the per-axis maximum
    assert_eq!(pc.vx, -MAX_VELOCITY);
    ks.update(None, Some(left));
    let v0 = pc.vx;
    game_tick(&mut pc, &ks, left, 2, 16);
    assert_eq!(pc.vx, v0 * 9 / 10);
}

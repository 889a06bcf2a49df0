use scene2d::behavior::Behavior;
use scene2d::behavior::Primitive;
use scene2d::behavior::RepeatCondition;
use scene2d::easing::Easing;
use scene2d::easing::ease;
use scene2d::entity::Entity;
use scene2d::scene::SceneError;
use scene2d::scene::SceneRegistry;
use scene2d::scene::intro_scene;
use scene2d::scene::intro_should_exit;

fn action(p: Primitive) -> Behavior {
    Behavior::Action { easing: Easing::Linear, primitive: p }
}

#[test]
fn easing_exact_values() {
    assert_eq!(ease(Easing::Linear, 123), 123);
    assert_eq!(ease(Easing::Linear, 0), 0);
    assert_eq!(ease(Easing::CubicOut, 0), 0);
    assert_eq!(ease(Easing::CubicOut, 500), 875);
    assert_eq!(ease(Easing::CubicOut, 1000), 1000);
    assert_eq!(ease(Easing::QuarticInOut, 0), 0);
    assert_eq!(ease(Easing::QuarticInOut, 500), 500);
    assert_eq!(ease(Easing::QuarticInOut, 1000), 1000);
    assert_eq!(ease(Easing::BounceOut, 0), 0);
    assert_eq!(ease(Easing::BounceOut, 1000), 1000);
}

#[test]
fn easing_stays_in_range() {
    for t in 0..=1000 {
        for e in [Easing::Linear, Easing::CubicOut, Easing::QuarticInOut, Easing::BounceOut] {
            let r = ease(e, t);
            assert!((0..=1000).contains(&r));
        }
    }
}

#[test]
fn scenario_scale_wait_fadeout() {
    // entity at (150, 150); a sequence of a half-second scale to (0.5, 0.5),
    // a half-second wait, and a 0.3 s fade-out, advanced 0.6 s, 0.5 s, 0.3 s
    let mut scene = SceneRegistry::new();
    let id = scene.add(Entity::new(150_000, 150_000));
    let seq = Behavior::Sequence {
        children: vec![
            action(Primitive::ScaleTo { duration: 500, sx: 500, sy: 500 }),
            Behavior::Wait { duration: 500 },
            action(Primitive::FadeOut { duration: 300 }),
        ],
    };
    scene.run(id, seq).unwrap();
    assert_eq!(scene.running_count(), 1);
    scene.advance_all(600);
    let e = scene.draw_list()[0];
    assert_eq!((e.sx, e.sy), (500, 500));
    scene.advance_all(500);
    scene.advance_all(300);
    let e = scene.draw_list()[0];
    assert_eq!((e.sx, e.sy), (500, 500));
    assert_eq!(e.opacity, 0);
    assert_eq!(scene.running_count(), 0);
}

#[test]
fn sequence_completes_with_fine_and_coarse_steps() {
    // total duration 600 ms over three children
    let children = || vec![
        Behavior::Wait { duration: 100 },
        action(Primitive::RotateTo { duration: 200, degrees: 90_000 }),
        Behavior::Wait { duration: 300 },
    ];
    // coarse: one frame per child suffices
    let mut scene = SceneRegistry::new();
    let id = scene.add(Entity::new(0, 0));
    scene.run(id, Behavior::Sequence { children: children() }).unwrap();
    for _ in 0..3 {
        scene.advance_all(1000);
    }
    assert_eq!(scene.running_count(), 0);
    // fine: 50 ms frames, done within 600/50 + 3 frames
    let mut scene = SceneRegistry::new();
    let id = scene.add(Entity::new(0, 0));
    scene.run(id, Behavior::Sequence { children: children() }).unwrap();
    for _ in 0..15 {
        scene.advance_all(50);
    }
    assert_eq!(scene.running_count(), 0);
}

#[test]
fn empty_sequence_is_degenerate_success() {
    let mut scene = SceneRegistry::new();
    let id = scene.add(Entity::new(10_000, 10_000));
    scene.run(id, Behavior::Sequence { children: vec![] }).unwrap();
    assert_eq!(scene.running_count(), 1);
    scene.advance_all(1);
    assert_eq!(scene.running_count(), 0);
    let e = scene.draw_list()[0];
    assert_eq!(e, Entity::new(10_000, 10_000));
}

#[test]
fn wait_forever_never_completes() {
    let mut scene = SceneRegistry::new();
    let id = scene.add(Entity::new(0, 0));
    scene.run(id, Behavior::WaitForever).unwrap();
    for _ in 0..5 {
        scene.advance_all(1_000_000);
        assert_eq!(scene.running_count(), 1);
    }
}

#[test]
fn repeat_countdown_runs_body_again() {
    // body of 100 ms, repeated twice more after the first run
    let mut scene = SceneRegistry::new();
    let id = scene.add(Entity::new(0, 0));
    let b = Behavior::RepeatWhile {
        condition: RepeatCondition::Countdown(2),
        body: Box::new(Behavior::Wait { duration: 100 }),
    };
    scene.run(id, b).unwrap();
    for _ in 0..3 {
        scene.advance_all(100);
        assert_eq!(scene.running_count(), 1);
    }
    scene.advance_all(100);
    assert_eq!(scene.running_count(), 0);
}

#[test]
fn repeat_forever_keeps_running() {
    let mut scene = SceneRegistry::new();
    let id = scene.add(Entity::new(0, 0));
    let b = Behavior::RepeatWhile {
        condition: RepeatCondition::Forever,
        body: Box::new(Behavior::Wait { duration: 50 }),
    };
    scene.run(id, b).unwrap();
    for _ in 0..10 {
        scene.advance_all(50);
        assert_eq!(scene.running_count(), 1);
    }
}

#[test]
fn linear_interpolation_midway() {
    let mut scene = SceneRegistry::new();
    let id = scene.add(Entity::new(0, 0));
    scene.run(id, action(Primitive::ScaleTo { duration: 1000, sx: 2000, sy: 3000 })).unwrap();
    scene.advance_all(500);
    let e = scene.draw_list()[0];
    assert_eq!((e.sx, e.sy), (1500, 2000));
    scene.advance_all(500);
    let e = scene.draw_list()[0];
    assert_eq!((e.sx, e.sy), (2000, 3000));
    assert_eq!(scene.running_count(), 0);
}

#[test]
fn move_by_is_relative_to_activation() {
    let mut scene = SceneRegistry::new();
    let id = scene.add(Entity::new(100_000, 200_000));
    scene.run(id, action(Primitive::MoveBy { duration: 400, dx: 80_000, dy: -40_000 })).unwrap();
    scene.advance_all(100);
    let e = scene.draw_list()[0];
    assert_eq!((e.x, e.y), (120_000, 190_000));
    scene.advance_all(300);
    let e = scene.draw_list()[0];
    assert_eq!((e.x, e.y), (180_000, 160_000));
}

#[test]
fn fade_in_restores_opacity() {
    let mut scene = SceneRegistry::new();
    let id = scene.add(Entity::new(0, 0));
    let seq = Behavior::Sequence {
        children: vec![
            action(Primitive::FadeOut { duration: 200 }),
            action(Primitive::FadeIn { duration: 200 }),
        ],
    };
    scene.run(id, seq).unwrap();
    scene.advance_all(200);
    assert_eq!(scene.draw_list()[0].opacity, 0);
    scene.advance_all(100);
    assert_eq!(scene.draw_list()[0].opacity, 500);
    scene.advance_all(100);
    assert_eq!(scene.draw_list()[0].opacity, 1000);
    assert_eq!(scene.running_count(), 0);
}

#[test]
fn blink_oscillates_and_restores() {
    let mut scene = SceneRegistry::new();
    let id = scene.add(Entity::new(0, 0));
    scene.run(id, action(Primitive::Blink { duration: 800 })).unwrap();
    scene.advance_all(100);
    assert_eq!(scene.draw_list()[0].opacity, 0);
    scene.advance_all(100);
    assert_eq!(scene.draw_list()[0].opacity, 1000);
    scene.advance_all(100);
    assert_eq!(scene.draw_list()[0].opacity, 0);
    scene.advance_all(500);
    assert_eq!(scene.draw_list()[0].opacity, 1000);
    assert_eq!(scene.running_count(), 0);
}

#[test]
fn run_on_unknown_id_reports_error() {
    let mut scene = SceneRegistry::new();
    let id = scene.add(Entity::new(0, 0));
    let r = scene.run(id + 1, Behavior::Wait { duration: 10 });
    assert_eq!(r, Err(SceneError::InvalidEntityReference));
    assert_eq!(scene.running_count(), 0);
    assert!(scene.run(id, Behavior::Wait { duration: 10 }).is_ok());
}

#[test]
fn draw_order_is_insertion_order() {
    let mut scene = SceneRegistry::new();
    let a = scene.add(Entity::new(1000, 0));
    let b = scene.add(Entity::new(2000, 0));
    let c = scene.add(Entity::new(3000, 0));
    assert!(a < b && b < c);
    let cmds = scene.draw_list();
    assert_eq!(cmds.len(), 3);
    assert_eq!(cmds[0].x, 1000);
    assert_eq!(cmds[1].x, 2000);
    assert_eq!(cmds[2].x, 3000);
}

#[test]
fn parallel_animations_compose_by_field() {
    let mut scene = SceneRegistry::new();
    let id = scene.add(Entity::new(0, 0));
    scene.run(id, action(Primitive::RotateTo { duration: 1000, degrees: 360_000 })).unwrap();
    scene.run(id, action(Primitive::FadeOut { duration: 1000 })).unwrap();
    assert_eq!(scene.running_count(), 2);
    scene.advance_all(500);
    let e = scene.draw_list()[0];
    assert_eq!(e.rotation, 180_000);
    assert_eq!(e.opacity, 500);
    scene.advance_all(500);
    let e = scene.draw_list()[0];
    assert_eq!(e.rotation, 360_000);
    assert_eq!(e.opacity, 0);
    assert_eq!(scene.running_count(), 0);
}

#[test]
fn intro_scene_finishes() {
    let (mut scene, _id) = intro_scene();
    assert_eq!(scene.running_count(), 2);
    for _ in 0..4 {
        scene.advance_all(2500);
    }
    assert_eq!(scene.running_count(), 0);
    let e = scene.draw_list()[0];
    assert_eq!((e.sx, e.sy), (500, 500));
    assert_eq!(e.opacity, 0);
    assert_eq!(e.rotation, 1_080_000);
    assert_eq!((e.x, e.y), (150_000, 230_000));
}

#[test]
fn intro_exit_decision() {
    assert!(intro_should_exit(Some(32), 32, 13, 7));
    assert!(intro_should_exit(Some(13), 32, 13, 7));
    assert!(!intro_should_exit(Some(99), 32, 13, 7));
    assert!(intro_should_exit(None, 32, 13, 0));
    assert!(!intro_should_exit(None, 32, 13, 1));
}

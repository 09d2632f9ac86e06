use raytracer::{camera_motion, Keys, Step};

fn none() -> Keys {
    Keys {
        forward: false,
        back: false,
        right: false,
        left: false,
        up: false,
        down: false,
        turn_left: false,
        turn_right: false,
        look_up: false,
        look_down: false,
    }
}

#[test]
fn no_keys_no_steps() {
    assert!(camera_motion(&none()).is_empty());
}

#[test]
fn each_key_gives_its_step() {
    assert_eq!(camera_motion(&Keys { forward: true, ..none() }), vec![Step::Forward]);
    assert_eq!(camera_motion(&Keys { back: true, ..none() }), vec![Step::Back]);
    assert_eq!(camera_motion(&Keys { right: true, ..none() }), vec![Step::Right]);
    assert_eq!(camera_motion(&Keys { left: true, ..none() }), vec![Step::Left]);
    assert_eq!(camera_motion(&Keys { up: true, ..none() }), vec![Step::Up]);
    assert_eq!(camera_motion(&Keys { down: true, ..none() }), vec![Step::Down]);
    assert_eq!(camera_motion(&Keys { turn_left: true, ..none() }), vec![Step::TurnLeft]);
    assert_eq!(camera_motion(&Keys { turn_right: true, ..none() }), vec![Step::TurnRight]);
    assert_eq!(camera_motion(&Keys { look_up: true, ..none() }), vec![Step::LookUp]);
    assert_eq!(camera_motion(&Keys { look_down: true, ..none() }), vec![Step::LookDown]);
}

#[test]
fn opposite_keys_both_step_in_key_order() {
    let all = Keys {
        forward: true,
        back: true,
        right: true,
        left: true,
        up: true,
        down: true,
        turn_left: true,
        turn_right: true,
        look_up: true,
        look_down: true,
    };
    assert_eq!(
        camera_motion(&all),
        vec![
            Step::Forward,
            Step::Back,
            Step::Right,
            Step::Left,
            Step::Up,
            Step::Down,
            Step::TurnLeft,
            Step::TurnRight,
            Step::LookUp,
            Step::LookDown,
        ]
    );
}

#[test]
fn steps_keep_the_fixed_order() {
    let m = camera_motion(&Keys { look_down: true, left: true, forward: true, ..none() });
    assert_eq!(m, vec![Step::Forward, Step::Left, Step::LookDown]);
}

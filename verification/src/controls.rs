use vstd::prelude::*;

verus! {

/// The navigation keys held down during one frame.
pub struct Keys {
    /// `W`: move along the viewing direction.
    pub forward: bool,
    /// `S`: move against the viewing direction.
    pub back: bool,
    /// `D`: move to the camera's right.
    pub right: bool,
    /// `A`: move to the camera's left.
    pub left: bool,
    /// `Space`: move up along the world's vertical.
    pub up: bool,
    /// `Left Shift`: move down along the world's vertical.
    pub down: bool,
    /// Left arrow: turn left (yaw decreases).
    pub turn_left: bool,
    /// Right arrow: turn right (yaw increases).
    pub turn_right: bool,
    /// Up arrow: look up (pitch increases).
    pub look_up: bool,
    /// Down arrow: look down (pitch decreases).
    pub look_down: bool,
}

/// One step of camera motion, scaled by the caller by the frame's speed.
#[derive(Clone, Copy, Debug, PartialEq, Eq, Structural)]
pub enum Step {
    /// Along the viewing direction.
    Forward,
    /// Against the viewing direction.
    Back,
    /// Along the camera's right.
    Right,
    /// Against the camera's right.
    Left,
    /// Up along the world's vertical.
    Up,
    /// Down along the world's vertical.
    Down,
    /// Yaw decreases.
    TurnLeft,
    /// Yaw increases.
    TurnRight,
    /// Pitch increases.
    LookUp,
    /// Pitch decreases.
    LookDown,
}

/// `seq![step]` when `held`, else nothing.
pub open spec fn step_if(held: bool, step: Step) -> Seq<Step> {
    if held { seq![step] } else { Seq::empty() }
}

/// The steps of one frame: one per held key, in the fixed order W, S, D, A,
/// Space, Left Shift, Left, Right, Up, Down. Two opposite keys both give
/// their step; each is applied in turn.
pub open spec fn held_steps(keys: Keys) -> Seq<Step> {
    step_if(keys.forward, Step::Forward) + step_if(keys.back, Step::Back)
        + step_if(keys.right, Step::Right) + step_if(keys.left, Step::Left)
        + step_if(keys.up, Step::Up) + step_if(keys.down, Step::Down)
        + step_if(keys.turn_left, Step::TurnLeft) + step_if(keys.turn_right, Step::TurnRight)
        + step_if(keys.look_up, Step::LookUp) + step_if(keys.look_down, Step::LookDown)
}

/// Whether the key that gives `step` is held.
pub open spec fn key_held(keys: Keys, step: Step) -> bool {
    match step {
        Step::Forward => keys.forward,
        Step::Back => keys.back,
        Step::Right => keys.right,
        Step::Left => keys.left,
        Step::Up => keys.up,
        Step::Down => keys.down,
        Step::TurnLeft => keys.turn_left,
        Step::TurnRight => keys.turn_right,
        Step::LookUp => keys.look_up,
        Step::LookDown => keys.look_down,
    }
}

/// The place of a step's key in the order W, S, D, A, Space, Left Shift,
/// Left, Right, Up, Down.
pub open spec fn step_rank(step: Step) -> int {
    match step {
        Step::Forward => 0,
        Step::Back => 1,
        Step::Right => 2,
        Step::Left => 3,
        Step::Up => 4,
        Step::Down => 5,
        Step::TurnLeft => 6,
        Step::TurnRight => 7,
        Step::LookUp => 8,
        Step::LookDown => 9,
    }
}

/// Each step comes strictly after the one before it in key order, so no
/// step appears twice.
pub open spec fn in_key_order(steps: Seq<Step>) -> bool {
    forall|i: int, j: int| 0 <= i < j < steps.len() ==> step_rank(steps[i]) < step_rank(steps[j])
}

/// `a` holds, in key order, the steps of exactly the held keys that come
/// before place `k`.
#[verifier::opaque]
spec fn prefix_ok(keys: Keys, a: Seq<Step>, k: int) -> bool {
    &&& in_key_order(a)
    &&& forall|i: int| 0 <= i < a.len() ==> step_rank(a[i]) < k
    &&& forall|x: Step| a.contains(x) <==> (key_held(keys, x) && step_rank(x) < k)
}

proof fn lemma_prefix_step(keys: Keys, a: Seq<Step>, step: Step)
    requires
        prefix_ok(keys, a, step_rank(step)),
    ensures
        prefix_ok(keys, a + step_if(key_held(keys, step), step), step_rank(step) + 1),
{
    reveal(prefix_ok);
    let held = key_held(keys, step);
    let b = a + step_if(held, step);
    assert forall|x: Step| b.contains(x) <==> (key_held(keys, x) && step_rank(x) < step_rank(step) + 1) by {
        if b.contains(x) {
            let k = choose|k: int| 0 <= k < b.len() && b[k] == x;
            if k < a.len() {
                assert(a[k] == x);
                assert(a.contains(x));
            }
        }
        if key_held(keys, x) && step_rank(x) < step_rank(step) {
            assert(a.contains(x));
            let k = choose|k: int| 0 <= k < a.len() && a[k] == x;
            assert(b[k] == x);
        }
        if key_held(keys, x) && step_rank(x) == step_rank(step) {
            assert(x == step);
            assert(b[a.len() as int] == x);
        }
    }
}

/// Each held key gives its step and no key that is not held gives one,
/// whatever the other keys are; the steps come once each, in the key order
/// W, S, D, A, Space, Left Shift, Left, Right, Up, Down.
pub proof fn lemma_held_steps(keys: Keys)
    ensures
        forall|step: Step| held_steps(keys).contains(step) <==> key_held(keys, step),
        in_key_order(held_steps(keys)),
{
    let s0 = Seq::<Step>::empty();
    assert(prefix_ok(keys, s0, 0)) by {
        reveal(prefix_ok);
    }
    lemma_prefix_step(keys, s0, Step::Forward);
    assert(s0 + step_if(keys.forward, Step::Forward) =~= step_if(keys.forward, Step::Forward));
    let s1 = step_if(keys.forward, Step::Forward);
    lemma_prefix_step(keys, s1, Step::Back);
    let s2 = s1 + step_if(keys.back, Step::Back);
    lemma_prefix_step(keys, s2, Step::Right);
    let s3 = s2 + step_if(keys.right, Step::Right);
    lemma_prefix_step(keys, s3, Step::Left);
    let s4 = s3 + step_if(keys.left, Step::Left);
    lemma_prefix_step(keys, s4, Step::Up);
    let s5 = s4 + step_if(keys.up, Step::Up);
    lemma_prefix_step(keys, s5, Step::Down);
    let s6 = s5 + step_if(keys.down, Step::Down);
    lemma_prefix_step(keys, s6, Step::TurnLeft);
    let s7 = s6 + step_if(keys.turn_left, Step::TurnLeft);
    lemma_prefix_step(keys, s7, Step::TurnRight);
    let s8 = s7 + step_if(keys.turn_right, Step::TurnRight);
    lemma_prefix_step(keys, s8, Step::LookUp);
    let s9 = s8 + step_if(keys.look_up, Step::LookUp);
    lemma_prefix_step(keys, s9, Step::LookDown);
    let s10 = s9 + step_if(keys.look_down, Step::LookDown);
    assert(held_steps(keys) == s10);
    lemma_prefix_done(keys, s10);
}

proof fn lemma_prefix_done(keys: Keys, a: Seq<Step>)
    requires
        prefix_ok(keys, a, 10),
    ensures
        forall|step: Step| a.contains(step) <==> key_held(keys, step),
        in_key_order(a),
{
    reveal(prefix_ok);
    assert forall|step: Step| a.contains(step) <==> key_held(keys, step) by {
        assert(step_rank(step) < 10);
    }
}

/// Appends `step` when `held`.
fn push_if(steps: &mut Vec<Step>, held: bool, step: Step)
    ensures
        final(steps)@ == old(steps)@ + step_if(held, step),
{
    if held {
        steps.push(step);
    }
    proof {
        assert(steps@ =~= old(steps)@ + step_if(held, step));
    }
}

/// Turns the held keys into the camera's steps for this frame, in the order
/// in which they are to be applied.
pub fn camera_motion(keys: &Keys) -> (steps: Vec<Step>)
    ensures
        steps@ == held_steps(*keys),
        forall|step: Step| steps@.contains(step) <==> key_held(*keys, step),
        in_key_order(steps@),
{
    let mut steps: Vec<Step> = Vec::new();
    push_if(&mut steps, keys.forward, Step::Forward);
    push_if(&mut steps, keys.back, Step::Back);
    push_if(&mut steps, keys.right, Step::Right);
    push_if(&mut steps, keys.left, Step::Left);
    push_if(&mut steps, keys.up, Step::Up);
    push_if(&mut steps, keys.down, Step::Down);
    push_if(&mut steps, keys.turn_left, Step::TurnLeft);
    push_if(&mut steps, keys.turn_right, Step::TurnRight);
    push_if(&mut steps, keys.look_up, Step::LookUp);
    push_if(&mut steps, keys.look_down, Step::LookDown);
    proof {
        assert(Seq::<Step>::empty() + step_if(keys.forward, Step::Forward) =~= step_if(keys.forward, Step::Forward));
        lemma_held_steps(*keys);
    }
    steps
}

} // verus!

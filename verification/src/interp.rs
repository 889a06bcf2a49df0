//! The animation interpreter: advances one running behavior-tree instance by
//! an elapsed time, mutating the target entity's transform and opacity and
//! reporting completion.

use vstd::prelude::*;
use crate::behavior::Behavior;
use crate::behavior::Primitive;
use crate::behavior::RepeatCondition;
use crate::behavior::wf_all;
use crate::behavior::lemma_wf_all_index;
use crate::bounds::spec_clamp;
use crate::bounds::clamp_between;
use crate::easing::ease;
use crate::easing::spec_ease;
use crate::easing::lemma_ease_range;
use crate::easing::lemma_div_range;
use crate::entity::Entity;
use crate::entity::VAL_LIMIT;
use crate::entity::OPACITY_FULL;

verus! {

/// Mutable interpreter state for one node of a running behavior tree. For a
/// leaf, `elapsed`, `started` and `snap` (the entity's value when the leaf
/// was activated) are meaningful; for a sequence, `idx` and one child state
/// per child; for a conditional loop, one body state, `remaining`
/// re-evaluations that will still hold, and whether the body has completed.
pub struct RunState {
    pub elapsed: u64,
    pub started: bool,
    pub snap: Entity,
    pub idx: usize,
    pub remaining: u32,
    pub body_done: bool,
    pub done: bool,
    pub children: Vec<RunState>,
}

/// The mathematical value of a `RunState`: the same fields over unbounded
/// integers and sequences.
pub struct StateModel {
    pub elapsed: int,
    pub started: bool,
    pub snap: Entity,
    pub idx: int,
    pub remaining: int,
    pub body_done: bool,
    pub done: bool,
    pub children: Seq<StateModel>,
}

/// The model of a run state.
pub open spec fn model_of(s: RunState) -> StateModel
    decreases s,
{
    StateModel {
        elapsed: s.elapsed as int,
        started: s.started,
        snap: s.snap,
        idx: s.idx as int,
        remaining: s.remaining as int,
        body_done: s.body_done,
        done: s.done,
        children: models_of(s.children@),
    }
}

/// The models of a sequence of run states, in order.
pub open spec fn models_of(s: Seq<RunState>) -> Seq<StateModel>
    decreases s,
{
    if s.len() == 0 {
        Seq::empty()
    } else {
        models_of(s.drop_last()).push(model_of(s.last()))
    }
}

/// `models_of` maps elementwise.
pub proof fn lemma_models_index(s: Seq<RunState>)
    ensures
        models_of(s).len() == s.len(),
        forall|i: int| 0 <= i < s.len() ==> models_of(s)[i] == model_of(s[i]),
    decreases s,
{
    if s.len() > 0 {
        lemma_models_index(s.drop_last());
    }
}

/// Updating one element commutes with taking models.
pub proof fn lemma_models_update(s: Seq<RunState>, i: int, t: RunState)
    requires
        0 <= i < s.len(),
    ensures
        models_of(s.update(i, t)) == models_of(s).update(i, model_of(t)),
    decreases s,
{
    let u = s.update(i, t);
    if i == s.len() - 1 {
        assert(u.drop_last() =~= s.drop_last());
        assert(u.last() == t);
        lemma_models_index(s);
        assert(models_of(u) =~= models_of(s).update(i, model_of(t)));
    } else {
        assert(u.drop_last() =~= s.drop_last().update(i, t));
        assert(u.last() == s.last());
        lemma_models_update(s.drop_last(), i, t);
        lemma_models_index(s.drop_last());
        lemma_models_index(s);
        lemma_models_index(u);
        assert(models_of(u) =~= models_of(s).update(i, model_of(t)));
    }
}

/// The placeholder snapshot a state holds before its leaf is activated.
pub open spec fn blank_entity() -> Entity {
    Entity { x: 0, y: 0, rotation: 0, sx: 0, sy: 0, opacity: 0 }
}

/// The initial interpreter state for a tree: cursor at the root, nothing
/// elapsed, nothing started, nothing completed.
pub open spec fn spec_fresh(b: Behavior) -> StateModel
    decreases b,
{
    StateModel {
        elapsed: 0,
        started: false,
        snap: blank_entity(),
        idx: 0,
        remaining: match b {
            Behavior::RepeatWhile { condition: RepeatCondition::Countdown(n), .. } => n as int,
            _ => 0,
        },
        body_done: false,
        done: false,
        children: match b {
            Behavior::Sequence { children } => fresh_models(children@),
            Behavior::RepeatWhile { body, .. } => seq![spec_fresh(*body)],
            _ => Seq::empty(),
        },
    }
}

/// Fresh states for a forest, in order.
pub open spec fn fresh_models(s: Seq<Behavior>) -> Seq<StateModel>
    decreases s,
{
    if s.len() == 0 {
        Seq::empty()
    } else {
        fresh_models(s.drop_last()).push(spec_fresh(s.last()))
    }
}

/// `fresh_models` maps elementwise.
pub proof fn lemma_fresh_models_index(s: Seq<Behavior>)
    ensures
        fresh_models(s).len() == s.len(),
        forall|i: int| 0 <= i < s.len() ==> fresh_models(s)[i] == spec_fresh(s[i]),
    decreases s,
{
    if s.len() > 0 {
        lemma_fresh_models_index(s.drop_last());
    }
}

/// A state is well formed for the tree it runs: elapsed times within the
/// active duration, cursor within range, one child state per child, and an
/// in-bounds snapshot once a leaf has started.
pub open spec fn state_wf(b: Behavior, s: StateModel) -> bool
    decreases b,
{
    match b {
        Behavior::Action { primitive, .. } => {
            &&& 0 <= s.elapsed <= primitive.duration()
            &&& (s.started ==> s.snap.wf())
        },
        Behavior::Wait { duration } => 0 <= s.elapsed <= duration,
        Behavior::WaitForever => !s.done && 0 <= s.elapsed <= u64::MAX,
        Behavior::Sequence { children } => {
            &&& 0 <= s.idx <= children@.len()
            &&& (s.done ==> s.idx == children@.len())
            &&& states_wf(children@, s.children)
        },
        Behavior::RepeatWhile { body, .. } => {
            &&& s.children.len() == 1
            &&& state_wf(*body, s.children[0])
            &&& 0 <= s.remaining
        },
    }
}

/// Pairwise well-formedness of a forest and its states; implies equal
/// lengths.
pub open spec fn states_wf(bs: Seq<Behavior>, ss: Seq<StateModel>) -> bool
    decreases bs,
{
    if bs.len() != ss.len() {
        false
    } else if bs.len() == 0 {
        true
    } else {
        states_wf(bs.drop_last(), ss.drop_last()) && state_wf(bs.last(), ss.last())
    }
}

/// `states_wf` holds elementwise.
pub proof fn lemma_states_wf_index(bs: Seq<Behavior>, ss: Seq<StateModel>)
    requires
        states_wf(bs, ss),
    ensures
        bs.len() == ss.len(),
        forall|i: int| 0 <= i < bs.len() ==> state_wf(bs[i], #[trigger] ss[i]),
    decreases bs,
{
    if bs.len() > 0 {
        lemma_states_wf_index(bs.drop_last(), ss.drop_last());
        assert forall|i: int| 0 <= i < bs.len() implies state_wf(bs[i], #[trigger] ss[i]) by {
            if i < bs.len() - 1 {
                assert(bs.drop_last()[i] == bs[i]);
                assert(ss.drop_last()[i] == ss[i]);
            } else {
                assert(bs.last() == bs[i]);
                assert(ss.last() == ss[i]);
            }
        }
    }
}

/// Replacing one state with another well-formed state keeps the pair well
/// formed.
pub proof fn lemma_states_wf_update(bs: Seq<Behavior>, ss: Seq<StateModel>, i: int, m: StateModel)
    requires
        states_wf(bs, ss),
        0 <= i < bs.len(),
        state_wf(bs[i], m),
    ensures
        states_wf(bs, ss.update(i, m)),
    decreases bs,
{
    let u = ss.update(i, m);
    if i == bs.len() - 1 {
        assert(u.drop_last() =~= ss.drop_last());
        assert(u.last() == m);
        assert(bs.last() == bs[i]);
    } else {
        assert(u.drop_last() =~= ss.drop_last().update(i, m));
        assert(u.last() == ss.last());
        assert(bs.drop_last()[i] == bs[i]);
        lemma_states_wf_update(bs.drop_last(), ss.drop_last(), i, m);
    }
}

/// A fresh state is well formed for every well-formed tree.
pub proof fn lemma_fresh_wf(b: Behavior)
    requires
        b.wf(),
    ensures
        state_wf(b, spec_fresh(b)),
    decreases b,
{
    match b {
        Behavior::Sequence { children } => {
            lemma_fresh_states_wf(children@);
        },
        Behavior::RepeatWhile { body, .. } => {
            lemma_fresh_wf(*body);
        },
        _ => {},
    }
}

/// Fresh states are pairwise well formed for a well-formed forest.
pub proof fn lemma_fresh_states_wf(bs: Seq<Behavior>)
    requires
        wf_all(bs),
    ensures
        states_wf(bs, fresh_models(bs)),
    decreases bs,
{
    if bs.len() > 0 {
        lemma_fresh_states_wf(bs.drop_last());
        lemma_fresh_wf(bs.last());
        assert(fresh_models(bs).drop_last() =~= fresh_models(bs.drop_last()));
        assert(fresh_models(bs).last() == spec_fresh(bs.last()));
    }
}

/// Builds the initial interpreter state for a tree.
#[verifier::loop_isolation(false)]
pub fn fresh_state(b: &Behavior) -> (r: RunState)
    ensures
        model_of(r) == spec_fresh(*b),
    decreases *b,
{
    let blank = Entity { x: 0, y: 0, rotation: 0, sx: 0, sy: 0, opacity: 0 };
    match b {
        Behavior::Sequence { children } => {
            let mut kids: Vec<RunState> = Vec::new();
            let mut i: usize = 0;
            proof {
                assert(children@.take(0) =~= Seq::<Behavior>::empty());
            }
            while i < children.len()
                invariant
                    0 <= i <= children@.len(),
                    models_of(kids@) == fresh_models(children@.take(i as int)),
                decreases children@.len() - i,
            {
                proof {
                    assert(decreases_to!(*b => children@[i as int]));
                }
                let c = fresh_state(&children[i]);
                proof {
                    let pre = kids@;
                    assert(pre.push(c).drop_last() =~= pre);
                    assert(pre.push(c).last() == c);
                    assert(children@.take(i + 1).drop_last() =~= children@.take(i as int));
                    assert(children@.take(i + 1).last() == children@[i as int]);
                }
                kids.push(c);
                i = i + 1;
            }
            proof {
                assert(children@.take(children@.len() as int) =~= children@);
            }
            RunState {
                elapsed: 0,
                started: false,
                snap: blank,
                idx: 0,
                remaining: 0,
                body_done: false,
                done: false,
                children: kids,
            }
        },
        Behavior::RepeatWhile { condition, body } => {
            let c = fresh_state(body);
            let mut kids: Vec<RunState> = Vec::new();
            kids.push(c);
            let rem: u32 = match condition {
                RepeatCondition::Countdown(n) => *n,
                RepeatCondition::Forever => 0,
            };
            proof {
                assert(kids@.drop_last() =~= Seq::<RunState>::empty());
                assert(kids@.last() == c);
                assert(models_of(kids@) == models_of(kids@.drop_last()).push(model_of(c)));
                assert(models_of(kids@) =~= seq![model_of(c)]);
            }
            RunState {
                elapsed: 0,
                started: false,
                snap: blank,
                idx: 0,
                remaining: rem,
                body_done: false,
                done: false,
                children: kids,
            }
        },
        _ => {
            RunState {
                elapsed: 0,
                started: false,
                snap: blank,
                idx: 0,
                remaining: 0,
                body_done: false,
                done: false,
                children: Vec::new(),
            }
        },
    }
}

/// A coordinate saturated at the scene's coordinate bound: animation moves
/// never push a value past it.
pub open spec fn sat_val(v: int) -> int {
    spec_clamp(v, -(VAL_LIMIT as int), VAL_LIMIT as int)
}

/// Fixed-point linear interpolation from `a` toward `b` by `t` thousandths,
/// rounding toward `a`.
pub open spec fn spec_lerp(a: int, b: int, t: int) -> int {
    if b >= a {
        a + ((b - a) * t) / 1000
    } else {
        a - ((a - b) * t) / 1000
    }
}

/// Interpolation stays between its endpoints.
pub proof fn lemma_lerp_between(a: int, b: int, t: int)
    requires
        0 <= t <= 1000,
    ensures
        b >= a ==> a <= spec_lerp(a, b, t) <= b,
        b < a ==> b <= spec_lerp(a, b, t) <= a,
{
    let d = if b >= a { b - a } else { a - b };
    assert(0 <= d * t <= d * 1000) by (nonlinear_arith)
        requires
            0 <= d,
            0 <= t <= 1000,
    ;
    lemma_div_range(d * t, d * 1000, 1000);
    vstd::arithmetic::div_mod::lemma_div_by_multiple(d, 1000);
}

/// Evaluates `spec_lerp` on machine integers.
fn lerp(a: i64, b: i64, t: i64) -> (r: i64)
    requires
        -VAL_LIMIT <= a <= VAL_LIMIT,
        -VAL_LIMIT <= b <= VAL_LIMIT,
        0 <= t <= 1000,
    ensures
        r == spec_lerp(a as int, b as int, t as int),
        b >= a ==> a <= r <= b,
        b < a ==> b <= r <= a,
{
    proof {
        lemma_lerp_between(a as int, b as int, t as int);
        let d: int = if b >= a { b - a } else { a - b };
        assert(0 <= d * t <= 2_000_000_000_000_000) by (nonlinear_arith)
            requires
                0 <= d <= 2_000_000_000_000,
                0 <= t <= 1000,
        ;
    }
    if b >= a {
        a + ((b - a) * t) / 1000
    } else {
        a - ((a - b) * t) / 1000
    }
}

/// The entity value when a primitive completes: the final value applied
/// exactly, absorbing any overshoot; fields the primitive does not animate
/// are taken from the current entity.
pub open spec fn apply_final(p: Primitive, snap: Entity, e: Entity) -> Entity {
    match p {
        Primitive::ScaleTo { sx, sy, .. } => Entity { sx, sy, ..e },
        Primitive::MoveBy { dx, dy, .. } => Entity {
            x: sat_val(snap.x + dx) as i64,
            y: sat_val(snap.y + dy) as i64,
            ..e
        },
        Primitive::RotateTo { degrees, .. } => Entity { rotation: degrees, ..e },
        Primitive::FadeOut { .. } => Entity { opacity: 0, ..e },
        Primitive::FadeIn { .. } => Entity { opacity: OPACITY_FULL, ..e },
        Primitive::Blink { .. } => Entity { opacity: snap.opacity, ..e },
    }
}

/// The entity value while a primitive is in flight: the animated fields
/// interpolated from the activation snapshot toward the target by eased
/// normalized time `t`; `elapsed` drives the blink waveform.
pub open spec fn apply_at(p: Primitive, snap: Entity, e: Entity, elapsed: int, t: int) -> Entity {
    match p {
        Primitive::ScaleTo { sx, sy, .. } => Entity {
            sx: spec_lerp(snap.sx as int, sx as int, t) as i64,
            sy: spec_lerp(snap.sy as int, sy as int, t) as i64,
            ..e
        },
        Primitive::MoveBy { dx, dy, .. } => Entity {
            x: spec_lerp(snap.x as int, sat_val(snap.x + dx), t) as i64,
            y: spec_lerp(snap.y as int, sat_val(snap.y + dy), t) as i64,
            ..e
        },
        Primitive::RotateTo { degrees, .. } => Entity {
            rotation: spec_lerp(snap.rotation as int, degrees as int, t) as i64,
            ..e
        },
        Primitive::FadeOut { .. } => Entity {
            opacity: spec_lerp(snap.opacity as int, 0, t) as i64,
            ..e
        },
        Primitive::FadeIn { .. } => Entity {
            opacity: spec_lerp(snap.opacity as int, OPACITY_FULL as int, t) as i64,
            ..e
        },
        Primitive::Blink { duration } => Entity {
            opacity: if ((elapsed * 8) / (duration as int)) % 2 == 0 {
                snap.opacity
            } else {
                0
            },
            ..e
        },
    }
}

/// Applies a primitive's final value.
fn apply_final_exec(p: &Primitive, snap: &Entity, e: &Entity) -> (r: Entity)
    requires
        p.wf(),
        snap.wf(),
        e.wf(),
    ensures
        r == apply_final(*p, *snap, *e),
        r.wf(),
{
    match p {
        Primitive::ScaleTo { sx, sy, .. } => Entity { sx: *sx, sy: *sy, ..*e },
        Primitive::MoveBy { dx, dy, .. } => Entity {
            x: clamp_between(snap.x + *dx, -VAL_LIMIT, VAL_LIMIT),
            y: clamp_between(snap.y + *dy, -VAL_LIMIT, VAL_LIMIT),
            ..*e
        },
        Primitive::RotateTo { degrees, .. } => Entity { rotation: *degrees, ..*e },
        Primitive::FadeOut { .. } => Entity { opacity: 0, ..*e },
        Primitive::FadeIn { .. } => Entity { opacity: OPACITY_FULL, ..*e },
        Primitive::Blink { .. } => Entity { opacity: snap.opacity, ..*e },
    }
}

/// Applies a primitive's in-flight value.
fn apply_at_exec(p: &Primitive, snap: &Entity, e: &Entity, elapsed: u64, t: i64) -> (r: Entity)
    requires
        p.wf(),
        snap.wf(),
        e.wf(),
        0 <= t <= 1000,
        elapsed < p.duration(),
    ensures
        r == apply_at(*p, *snap, *e, elapsed as int, t as int),
        r.wf(),
{
    match p {
        Primitive::ScaleTo { sx, sy, .. } => Entity {
            sx: lerp(snap.sx, *sx, t),
            sy: lerp(snap.sy, *sy, t),
            ..*e
        },
        Primitive::MoveBy { dx, dy, .. } => Entity {
            x: lerp(snap.x, clamp_between(snap.x + *dx, -VAL_LIMIT, VAL_LIMIT), t),
            y: lerp(snap.y, clamp_between(snap.y + *dy, -VAL_LIMIT, VAL_LIMIT), t),
            ..*e
        },
        Primitive::RotateTo { degrees, .. } => Entity {
            rotation: lerp(snap.rotation, *degrees, t),
            ..*e
        },
        Primitive::FadeOut { .. } => Entity { opacity: lerp(snap.opacity, 0, t), ..*e },
        Primitive::FadeIn { .. } => Entity { opacity: lerp(snap.opacity, OPACITY_FULL, t), ..*e },
        Primitive::Blink { duration } => {
            let phase = (elapsed * 8) / *duration;
            Entity { opacity: if phase % 2 == 0 { snap.opacity } else { 0 }, ..*e }
        },
    }
}

/// One interpreter step on one node: the mathematical meaning of `advance`.
/// Dispatches by the node's variant, as described on `Behavior`; a state that
/// is already complete is left unchanged.
pub open spec fn spec_advance(b: Behavior, s: StateModel, e: Entity, dt: int) -> (StateModel,
    Entity)
    decreases b,
{
    if s.done {
        (s, e)
    } else {
        match b {
            Behavior::Action { easing, primitive } => {
                let snap = if s.started { s.snap } else { e };
                let dur = primitive.duration();
                if s.elapsed + dt >= dur {
                    (
                        StateModel { elapsed: dur, started: true, snap, done: true, ..s },
                        apply_final(primitive, snap, e),
                    )
                } else {
                    let ne = s.elapsed + dt;
                    let t = spec_ease(easing, (ne * 1000) / dur);
                    (
                        StateModel { elapsed: ne, started: true, snap, ..s },
                        apply_at(primitive, snap, e, ne, t),
                    )
                }
            },
            Behavior::Wait { duration } => {
                if s.elapsed + dt >= duration {
                    (StateModel { elapsed: duration as int, done: true, ..s }, e)
                } else {
                    (StateModel { elapsed: s.elapsed + dt, ..s }, e)
                }
            },
            Behavior::WaitForever => {
                let ne = if s.elapsed + dt > u64::MAX {
                    u64::MAX as int
                } else {
                    s.elapsed + dt
                };
                (StateModel { elapsed: ne, ..s }, e)
            },
            Behavior::Sequence { children } => {
                if s.idx < 0 || s.idx >= children@.len() {
                    (StateModel { done: true, ..s }, e)
                } else {
                    let stepped = spec_advance(children@[s.idx], s.children[s.idx], e, dt);
                    let c2 = stepped.0;
                    let e2 = stepped.1;
                    let kids = s.children.update(s.idx, c2);
                    if c2.done {
                        (
                            StateModel {
                                idx: s.idx + 1,
                                children: kids,
                                done: s.idx + 1 == children@.len(),
                                ..s
                            },
                            e2,
                        )
                    } else {
                        (StateModel { children: kids, ..s }, e2)
                    }
                }
            },
            Behavior::RepeatWhile { condition, body } => {
                if s.body_done {
                    match condition {
                        RepeatCondition::Forever => {
                            let stepped = spec_advance(*body, spec_fresh(*body), e, dt);
                            (
                                StateModel {
                                    children: seq![stepped.0],
                                    body_done: stepped.0.done,
                                    ..s
                                },
                                stepped.1,
                            )
                        },
                        RepeatCondition::Countdown(_) => {
                            if s.remaining <= 0 {
                                (StateModel { done: true, ..s }, e)
                            } else {
                                let stepped = spec_advance(*body, spec_fresh(*body), e, dt);
                                (
                                    StateModel {
                                        children: seq![stepped.0],
                                        body_done: stepped.0.done,
                                        remaining: s.remaining - 1,
                                        ..s
                                    },
                                    stepped.1,
                                )
                            }
                        },
                    }
                } else {
                    let stepped = spec_advance(*body, s.children[0], e, dt);
                    (
                        StateModel { children: seq![stepped.0], body_done: stepped.0.done, ..s },
                        stepped.1,
                    )
                }
            },
        }
    }
}

/// Removing an element and inserting another at the same place is an update.
pub proof fn lemma_remove_insert<A>(s: Seq<A>, i: int, x: A)
    requires
        0 <= i < s.len(),
    ensures
        s.remove(i).insert(i, x) == s.update(i, x),
{
    s.remove_ensures(i);
    s.remove(i).insert_ensures(i, x);
    let r = s.remove(i).insert(i, x);

    assert forall|j: int| 0 <= j < s.len() implies r[j] == s.update(i, x)[j] by {
        if j < i {
        } else if j == i {
        } else {
            assert(r[j] == s.remove(i)[j - 1]);
            assert(s.remove(i)[j - 1] == s[j]);
        }
    }
    assert(r =~= s.update(i, x));
}

/// A one-element state vector.
fn singleton_state(c: RunState) -> (r: Vec<RunState>)
    ensures
        models_of(r@) == seq![model_of(c)],
{
    let mut kids: Vec<RunState> = Vec::new();
    kids.push(c);
    proof {
        assert(kids@.drop_last() =~= Seq::<RunState>::empty());
        assert(models_of(kids@) == models_of(kids@.drop_last()).push(model_of(kids@.last())));
        assert(models_of(kids@) =~= seq![model_of(c)]);
    }
    kids
}

/// Advances one running instance by `dt` milliseconds, mutating the target
/// entity; returns the new interpreter state and entity. Its meaning is
/// exactly `spec_advance`.
#[verifier::loop_isolation(false)]
pub fn advance(b: &Behavior, s: RunState, e: Entity, dt: u64) -> (r: (RunState, Entity))
    requires
        b.wf(),
        state_wf(*b, model_of(s)),
        e.wf(),
    ensures
        (model_of(r.0), r.1) == spec_advance(*b, model_of(s), e, dt as int),
        state_wf(*b, model_of(r.0)),
        r.1.wf(),
    decreases *b,
{
    let mut s = s;
    if s.done {
        return (s, e);
    }
    match b {
        Behavior::Action { easing, primitive } => {
            if !s.started {
                s.snap = e;
                s.started = true;
            }
            let dur = primitive.duration_ms();
            let rem = dur - s.elapsed;
            if dt >= rem {
                let e2 = apply_final_exec(primitive, &s.snap, &e);
                s.elapsed = dur;
                s.done = true;
                (s, e2)
            } else {
                let ne = s.elapsed + dt;
                proof {
                    assert(ne * 1000 < dur * 1000) by (nonlinear_arith)
                        requires
                            0 <= ne < dur,
                    ;
                    lemma_div_range(ne * 1000, dur * 1000 - 1, dur as int);
                    vstd::arithmetic::div_mod::lemma_multiply_divide_lt(
                        ne * 1000,
                        dur as int,
                        1000,
                    );
                    vstd::arithmetic::div_mod::lemma_div_pos_is_pos(ne * 1000, dur as int);
                }
                let tr = ((ne * 1000) / dur) as i64;
                let t = ease(*easing, tr);
                let e2 = apply_at_exec(primitive, &s.snap, &e, ne, t);
                s.elapsed = ne;
                (s, e2)
            }
        },
        Behavior::Wait { duration } => {
            let rem = *duration - s.elapsed;
            if dt >= rem {
                s.elapsed = *duration;
                s.done = true;
            } else {
                s.elapsed = s.elapsed + dt;
            }
            (s, e)
        },
        Behavior::WaitForever => {
            if dt > u64::MAX - s.elapsed {
                s.elapsed = u64::MAX;
            } else {
                s.elapsed = s.elapsed + dt;
            }
            (s, e)
        },
        Behavior::Sequence { children } => {
            proof {
                lemma_states_wf_index(children@, models_of(s.children@));
                lemma_models_index(s.children@);
            }
            if s.idx >= children.len() {
                s.done = true;
                return (s, e);
            }
            let idx = s.idx;
            let ghost old_kids = s.children@;
            proof {
                assert(decreases_to!(*b => children@[idx as int]));
                lemma_wf_all_index(children@);
                lemma_states_wf_index(children@, models_of(old_kids));
                lemma_models_index(old_kids);
            }
            let cs = s.children.remove(idx);
            proof {
                assert(cs == old_kids[idx as int]);
                assert(models_of(old_kids)[idx as int] == model_of(cs));
                assert(state_wf(children@[idx as int], model_of(cs)));
            }
            let stepped = advance(&children[idx], cs, e, dt);
            let cs2 = stepped.0;
            let e2 = stepped.1;
            let child_done = cs2.done;
            s.children.insert(idx, cs2);
            proof {
                lemma_remove_insert(old_kids, idx as int, cs2);
                assert(s.children@ == old_kids.update(idx as int, cs2));
                lemma_models_update(old_kids, idx as int, cs2);
                lemma_states_wf_update(
                    children@,
                    models_of(old_kids),
                    idx as int,
                    model_of(cs2),
                );
            }
            if child_done {
                s.idx = idx + 1;
                if s.idx == children.len() {
                    s.done = true;
                }
            }
            (s, e2)
        },
        Behavior::RepeatWhile { condition, body } => {
            if s.body_done {
                match condition {
                    RepeatCondition::Forever => {
                        let fresh = fresh_state(body);
                        proof {
                            lemma_fresh_wf(**body);
                        }
                        let stepped = advance(body, fresh, e, dt);
                        let c2 = stepped.0;
                        s.body_done = c2.done;
                        s.children = singleton_state(c2);
                        (s, stepped.1)
                    },
                    RepeatCondition::Countdown(_) => {
                        if s.remaining == 0 {
                            s.done = true;
                            (s, e)
                        } else {
                            s.remaining = s.remaining - 1;
                            let fresh = fresh_state(body);
                            proof {
                                lemma_fresh_wf(**body);
                            }
                            let stepped = advance(body, fresh, e, dt);
                            let c2 = stepped.0;
                            s.body_done = c2.done;
                            s.children = singleton_state(c2);
                            (s, stepped.1)
                        }
                    },
                }
            } else {
                proof {
                    lemma_models_index(s.children@);
                }
                let ghost kids0 = s.children@;
                let cs = s.children.remove(0);
                proof {
                    lemma_models_index(kids0);
                    assert(model_of(cs) == models_of(kids0)[0]);
                }
                let stepped = advance(body, cs, e, dt);
                let c2 = stepped.0;
                s.body_done = c2.done;
                s.children = singleton_state(c2);
                (s, stepped.1)
            }
        },
    }
}

/// A timed leaf: a primitive action or a timed wait.
pub open spec fn timed_leaf(b: Behavior) -> bool {
    match b {
        Behavior::Action { .. } => true,
        Behavior::Wait { .. } => true,
        _ => false,
    }
}

/// The duration of a timed leaf.
pub open spec fn leaf_duration(b: Behavior) -> int {
    match b {
        Behavior::Action { primitive, .. } => primitive.duration(),
        Behavior::Wait { duration } => duration as int,
        _ => 0,
    }
}

/// Every member of the forest is a timed leaf.
pub open spec fn all_timed(bs: Seq<Behavior>) -> bool {
    forall|i: int| 0 <= i < bs.len() ==> timed_leaf(#[trigger] bs[i])
}

/// Time still to consume in one timed leaf.
pub open spec fn leaf_rem(b: Behavior, s: StateModel) -> int {
    if s.done {
        0
    } else {
        leaf_duration(b) - s.elapsed
    }
}

/// Time still to consume in the leaves from position `i` on.
pub open spec fn rem_from(bs: Seq<Behavior>, ss: Seq<StateModel>, i: int) -> int
    decreases bs.len() - i,
{
    if i < 0 || i >= bs.len() || ss.len() != bs.len() {
        0
    } else {
        leaf_rem(bs[i], ss[i]) + rem_from(bs, ss, i + 1)
    }
}

/// Total duration of the leaves from position `i` on.
pub open spec fn total_from(bs: Seq<Behavior>, i: int) -> int
    decreases bs.len() - i,
{
    if i < 0 || i >= bs.len() {
        0
    } else {
        leaf_duration(bs[i]) + total_from(bs, i + 1)
    }
}

/// Remaining time is non-negative for well-formed timed leaves.
proof fn lemma_rem_nonneg(bs: Seq<Behavior>, ss: Seq<StateModel>, i: int)
    requires
        all_timed(bs),
        states_wf(bs, ss),
    ensures
        rem_from(bs, ss, i) >= 0,
    decreases bs.len() - i,
{
    lemma_states_wf_index(bs, ss);
    if 0 <= i < bs.len() {
        lemma_rem_nonneg(bs, ss, i + 1);
    }
}

/// Entries below `i` do not influence the remaining time from `i`.
proof fn lemma_rem_update_below(bs: Seq<Behavior>, ss: Seq<StateModel>, i: int, j: int,
    m: StateModel)
    requires
        0 <= j < i,
        ss.len() == bs.len(),
    ensures
        rem_from(bs, ss.update(j, m), i) == rem_from(bs, ss, i),
    decreases bs.len() - i,
{
    if 0 <= i < bs.len() {
        lemma_rem_update_below(bs, ss, i + 1, j, m);
    }
}

/// In a fresh state the remaining time is the total duration.
proof fn lemma_rem_fresh(bs: Seq<Behavior>, i: int)
    requires
        all_timed(bs),
    ensures
        rem_from(bs, fresh_models(bs), i) == total_from(bs, i),
    decreases bs.len() - i,
{
    lemma_fresh_models_index(bs);
    if 0 <= i < bs.len() {
        lemma_rem_fresh(bs, i + 1);
    }
}

/// Interpolated application keeps the entity well formed.
proof fn lemma_apply_at_wf(p: Primitive, snap: Entity, e: Entity, elapsed: int, t: int)
    requires
        p.wf(),
        snap.wf(),
        e.wf(),
        0 <= t <= 1000,
    ensures
        apply_at(p, snap, e, elapsed, t).wf(),
{
    match p {
        Primitive::ScaleTo { sx, sy, .. } => {
            lemma_lerp_between(snap.sx as int, sx as int, t);
            lemma_lerp_between(snap.sy as int, sy as int, t);
        },
        Primitive::MoveBy { dx, dy, .. } => {
            lemma_lerp_between(snap.x as int, sat_val(snap.x + dx), t);
            lemma_lerp_between(snap.y as int, sat_val(snap.y + dy), t);
        },
        Primitive::RotateTo { degrees, .. } => {
            lemma_lerp_between(snap.rotation as int, degrees as int, t);
        },
        Primitive::FadeOut { .. } => {
            lemma_lerp_between(snap.opacity as int, 0, t);
        },
        Primitive::FadeIn { .. } => {
            lemma_lerp_between(snap.opacity as int, OPACITY_FULL as int, t);
        },
        Primitive::Blink { .. } => {},
    }
}

/// Final application keeps the entity well formed.
proof fn lemma_apply_final_wf(p: Primitive, snap: Entity, e: Entity)
    requires
        p.wf(),
        snap.wf(),
        e.wf(),
    ensures
        apply_final(p, snap, e).wf(),
{
}

/// One step on a timed leaf keeps the state and entity well formed, and
/// either completes the leaf or consumes exactly `dt` of its remaining time.
proof fn lemma_leaf_step(b: Behavior, s: StateModel, e: Entity, dt: int)
    requires
        timed_leaf(b),
        b.wf(),
        state_wf(b, s),
        e.wf(),
        dt >= 0,
    ensures
        state_wf(b, spec_advance(b, s, e, dt).0),
        spec_advance(b, s, e, dt).1.wf(),
        !s.done && !spec_advance(b, s, e, dt).0.done ==> leaf_rem(b, spec_advance(b, s, e, dt).0)
            == leaf_rem(b, s) - dt,
        spec_advance(b, s, e, dt).0.done ==> leaf_rem(b, spec_advance(b, s, e, dt).0) == 0,
        s.done ==> spec_advance(b, s, e, dt) == (s, e),
{
    if !s.done {
        match b {
            Behavior::Action { easing, primitive } => {
                let snap = if s.started {
                    s.snap
                } else {
                    e
                };
                let dur = primitive.duration();
                if s.elapsed + dt >= dur {
                    lemma_apply_final_wf(primitive, snap, e);
                } else {
                    let ne = s.elapsed + dt;
                    assert(ne * 1000 < dur * 1000) by (nonlinear_arith)
                        requires
                            0 <= ne < dur,
                    ;
                    lemma_div_range(ne * 1000, dur * 1000 - 1, dur);
                    vstd::arithmetic::div_mod::lemma_multiply_divide_lt(ne * 1000, dur, 1000);
                    vstd::arithmetic::div_mod::lemma_div_pos_is_pos(ne * 1000, dur);
                    lemma_ease_range(easing, (ne * 1000) / dur);
                    lemma_apply_at_wf(primitive, snap, e, ne, spec_ease(easing, (ne * 1000) / dur));
                }
            },
            Behavior::Wait { .. } => {},
            _ => {},
        }
    }
}

/// The completion measure of a sequence of timed leaves: remaining time plus
/// one frame budget for each child not yet passed.
pub open spec fn seq_measure(b: Behavior, s: StateModel, dt: int) -> int {
    rem_from(b->Sequence_children@, s.children, s.idx) + dt * (b->Sequence_children@.len()
        - s.idx)
}

/// One step on a not-yet-complete sequence of timed leaves either completes
/// it or strictly shrinks its measure by at least `dt`, and keeps everything
/// well formed.
proof fn lemma_sequence_step(b: Behavior, s: StateModel, e: Entity, dt: int)
    requires
        b is Sequence,
        all_timed(b->Sequence_children@),
        b.wf(),
        state_wf(b, s),
        e.wf(),
        dt >= 1,
        !s.done,
    ensures
        state_wf(b, spec_advance(b, s, e, dt).0),
        spec_advance(b, s, e, dt).1.wf(),
        spec_advance(b, s, e, dt).0.done || seq_measure(b, spec_advance(b, s, e, dt).0, dt)
            <= seq_measure(b, s, dt) - dt,
        !spec_advance(b, s, e, dt).0.done ==> seq_measure(b, spec_advance(b, s, e, dt).0, dt)
            >= dt,
{
    let cs = b->Sequence_children@;
    let stepped = spec_advance(b, s, e, dt);
    let s2 = stepped.0;
    if s.idx < 0 || s.idx >= cs.len() {
        assert(s2.done);
    } else {
        let i = s.idx;
        lemma_wf_all_index(cs);
        lemma_states_wf_index(cs, s.children);
        let child = cs[i];
        let cst = s.children[i];
        let cres = spec_advance(child, cst, e, dt);
        lemma_leaf_step(child, cst, e, dt);
        lemma_states_wf_update(cs, s.children, i, cres.0);
        lemma_rem_update_below(cs, s.children, i + 1, i, cres.0);
        lemma_rem_nonneg(cs, s.children, i + 1);
        if cres.0.done {
            assert(rem_from(cs, s2.children, i + 1) == rem_from(cs, s.children, i + 1));
            assert(leaf_rem(child, cst) >= 0);
            if i + 1 == cs.len() {
                assert(s2.done);
            } else {
                assert(s2.idx == i + 1);
                assert(seq_measure(b, s2, dt) == rem_from(cs, s2.children, i + 1) + dt * (
                    cs.len() - i - 1));
                assert(dt * (cs.len() - i - 1) == dt * (cs.len() - i) - dt)
                    by (nonlinear_arith);
                assert(rem_from(cs, s.children, i) == leaf_rem(child, cst) + rem_from(
                    cs, s.children, i + 1));
                lemma_rem_nonneg(cs, s2.children, i + 1);
                assert(dt * (cs.len() - i - 1) >= dt) by (nonlinear_arith)
                    requires
                        dt >= 1,
                        i + 1 < cs.len(),
                ;
            }
        } else {
            assert(!s2.done);
            assert(s2.idx == i);
            assert(rem_from(cs, s2.children, i) == leaf_rem(child, cres.0) + rem_from(
                cs, s2.children, i + 1));
            assert(rem_from(cs, s2.children, i + 1) == rem_from(cs, s.children, i + 1));
            assert(leaf_rem(child, cres.0) == leaf_rem(child, cst) - dt);
            lemma_rem_nonneg(cs, s2.children, i);
            assert(dt * (cs.len() - i) >= dt) by (nonlinear_arith)
                requires
                    dt >= 1,
                    i < cs.len(),
            ;
        }
    }
}

/// The interpreter iterated `n` times with a fixed frame delta.
pub open spec fn spec_advance_n(b: Behavior, s: StateModel, e: Entity, dt: int, n: nat) -> (
    StateModel,
    Entity,
)
    decreases n,
{
    if n == 0 {
        (s, e)
    } else {
        let h = spec_advance(b, s, e, dt);
        spec_advance_n(b, h.0, h.1, dt, (n - 1) as nat)
    }
}

/// A completed instance stays completed under further advancing.
pub proof fn lemma_done_stays(b: Behavior, s: StateModel, e: Entity, dt: int, n: nat)
    requires
        s.done,
    ensures
        spec_advance_n(b, s, e, dt, n).0.done,
    decreases n,
{
    if n > 0 {
        lemma_done_stays(b, s, e, dt, (n - 1) as nat);
    }
}

/// Law: a sequence of timed primitives and waits completes, whatever the
/// frame granularity, once it has been advanced often enough: `n` calls with
/// frame delta `dt >= 1` complete it as soon as `n * dt` covers the
/// remaining time plus one frame per child.
pub proof fn lemma_sequence_completes(b: Behavior, s: StateModel, e: Entity, dt: int, n: nat)
    requires
        b is Sequence,
        all_timed(b->Sequence_children@),
        b.wf(),
        state_wf(b, s),
        e.wf(),
        dt >= 1,
        n >= 1,
        n * dt >= seq_measure(b, s, dt),
    ensures
        spec_advance_n(b, s, e, dt, n).0.done,
    decreases n,
{
    if s.done {
        lemma_done_stays(b, s, e, dt, n);
    } else {
        let h = spec_advance(b, s, e, dt);
        lemma_sequence_step(b, s, e, dt);
        if h.0.done {
            lemma_done_stays(b, h.0, h.1, dt, (n - 1) as nat);
        } else {
            assert(seq_measure(b, h.0, dt) >= dt);
            assert(n * dt - dt == (n - 1) * dt) by (nonlinear_arith);
            assert((n - 1) * dt >= seq_measure(b, h.0, dt));
            assert(n - 1 >= 1) by {
                if n == 1 {
                    assert((n - 1) * dt == 0) by (nonlinear_arith)
                        requires
                            n == 1nat,
                    ;
                }
            }
            lemma_sequence_completes(b, h.0, h.1, dt, (n - 1) as nat);
        }
    }
}

/// Law, from the start: a fresh sequence of `k` timed leaves of total
/// duration `d` is complete after any `n` advances of `dt >= 1` milliseconds
/// with `n * dt >= d + k * dt`.
pub proof fn lemma_fresh_sequence_completes(b: Behavior, e: Entity, dt: int, n: nat)
    requires
        b is Sequence,
        all_timed(b->Sequence_children@),
        b.wf(),
        e.wf(),
        dt >= 1,
        n >= 1,
        n * dt >= total_from(b->Sequence_children@, 0) + b->Sequence_children@.len() * dt,
    ensures
        spec_advance_n(b, spec_fresh(b), e, dt, n).0.done,
{
    lemma_fresh_wf(b);
    lemma_rem_fresh(b->Sequence_children@, 0);
    assert(b->Sequence_children@.len() * dt == dt * (b->Sequence_children@.len() - 0))
        by (nonlinear_arith);
    lemma_sequence_completes(b, spec_fresh(b), e, dt, n);
}

} // verus!

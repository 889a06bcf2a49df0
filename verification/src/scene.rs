//! The scene registry: owns a collection of entities keyed by identifier,
//! dispatches per-frame advancement to every running animation, tracks how
//! many are still running, and produces the ordered draw list for the
//! external renderer.

use vstd::prelude::*;
use crate::behavior::Behavior;
use crate::behavior::Primitive;
use crate::behavior::lemma_wf_all_intro;
use crate::easing::Easing;
use crate::entity::Entity;
use crate::interp::RunState;
use crate::interp::StateModel;
use crate::interp::model_of;
use crate::interp::spec_fresh;
use crate::interp::spec_advance;
use crate::interp::state_wf;
use crate::interp::fresh_state;
use crate::interp::advance;
use crate::interp::lemma_fresh_wf;
use crate::interp::lemma_remove_insert;

verus! {

/// Detectable misuse of the registry.
#[derive(Clone, Copy, PartialEq, Eq, Structural, Debug)]
pub enum SceneError {
    /// The operation targeted an entity identifier not present in the
    /// registry.
    InvalidEntityReference,
}

/// One running animation: the tree it plays and the interpreter state bound
/// to it.
pub struct Anim {
    pub behavior: Behavior,
    pub state: RunState,
}

/// The mathematical value of a running animation.
pub struct AnimModel {
    pub behavior: Behavior,
    pub state: StateModel,
}

/// The model of one running animation.
pub open spec fn anim_model(a: Anim) -> AnimModel {
    AnimModel { behavior: a.behavior, state: model_of(a.state) }
}

/// The models of a list of running animations, in order.
pub open spec fn anim_models(s: Seq<Anim>) -> Seq<AnimModel>
    decreases s,
{
    if s.len() == 0 {
        Seq::empty()
    } else {
        anim_models(s.drop_last()).push(anim_model(s.last()))
    }
}

/// `anim_models` maps elementwise.
pub proof fn lemma_anim_models_index(s: Seq<Anim>)
    ensures
        anim_models(s).len() == s.len(),
        forall|i: int| 0 <= i < s.len() ==> anim_models(s)[i] == anim_model(s[i]),
    decreases s,
{
    if s.len() > 0 {
        lemma_anim_models_index(s.drop_last());
    }
}

/// A running animation is well formed when its tree is and its state fits
/// the tree.
pub open spec fn anim_wf(a: AnimModel) -> bool {
    a.behavior.wf() && state_wf(a.behavior, a.state)
}

/// One registry entry: an entity under its identifier, with the animations
/// running against it.
pub struct SceneEntry {
    pub id: u64,
    pub entity: Entity,
    pub anims: Vec<Anim>,
}

/// Advancing a list of animations in order against an entity: each animation
/// steps on the entity the previous one produced. Yields the stepped states
/// and the final entity.
pub open spec fn spec_advance_list(anims: Seq<AnimModel>, e: Entity, dt: int, j: int) -> (Seq<
    StateModel,
>, Entity)
    decreases anims.len() - j,
{
    if j < 0 || j >= anims.len() {
        (Seq::empty(), e)
    } else {
        let head = spec_advance(anims[j].behavior, anims[j].state, e, dt);
        let rest = spec_advance_list(anims, head.1, dt, j + 1);
        (seq![head.0] + rest.0, rest.1)
    }
}

/// How many of the animations have not yet completed.
pub open spec fn spec_running(anims: Seq<AnimModel>) -> int
    decreases anims,
{
    if anims.len() == 0 {
        0int
    } else {
        spec_running(anims.drop_last()) + if anims.last().state.done {
            0int
        } else {
            1int
        }
    }
}

/// Total not-yet-completed animations across a list of entries.
pub open spec fn spec_running_entries(entries: Seq<SceneEntry>) -> int
    decreases entries,
{
    if entries.len() == 0 {
        0int
    } else {
        spec_running_entries(entries.drop_last()) + spec_running(
            anim_models(entries.last().anims@),
        )
    }
}

/// Mapping from entity identifier to entity and running animations, in
/// insertion order.
pub struct SceneRegistry {
    pub entries: Vec<SceneEntry>,
    pub next_id: u64,
}

impl SceneRegistry {
    /// Identifiers are unique, below the generator, and every entity and
    /// animation is well formed.
    pub open spec fn wf(&self) -> bool {
        &&& forall|i: int| 0 <= i < self.entries@.len() ==> (#[trigger] self.entries@[i]).id
            < self.next_id
        &&& forall|i: int, j: int|
            0 <= i < j < self.entries@.len() ==> self.entries@[i].id != self.entries@[j].id
        &&& forall|i: int| 0 <= i < self.entries@.len() ==> (#[trigger] self.entries@[i]).entity.wf()
        &&& forall|i: int, j: int|
            0 <= i < self.entries@.len() && 0 <= j < self.entries@[i].anims@.len() ==> anim_wf(
                anim_model(#[trigger] self.entries@[i].anims@[j]),
            )
    }

    /// Whether some entry carries `id`.
    pub open spec fn has_id(&self, id: u64) -> bool {
        exists|i: int| 0 <= i < self.entries@.len() && (#[trigger] self.entries@[i]).id == id
    }

    /// An empty scene.
    pub fn new() -> (r: SceneRegistry)
        ensures
            r.wf(),
            r.entries@.len() == 0,
            r.next_id == 0,
    {
        SceneRegistry { entries: Vec::new(), next_id: 0 }
    }

    /// Inserts an entity and returns its freshly generated identifier, which
    /// no other entry carries.
    pub fn add(&mut self, entity: Entity) -> (id: u64)
        requires
            old(self).wf(),
            entity.wf(),
            old(self).next_id < u64::MAX,
        ensures
            final(self).wf(),
            id == old(self).next_id,
            final(self).next_id == old(self).next_id + 1,
            final(self).entries@.len() == old(self).entries@.len() + 1,
            final(self).entries@.last().id == id,
            final(self).entries@.last().entity == entity,
            final(self).entries@.last().anims@ == Seq::<Anim>::empty(),
            forall|i: int| 0 <= i < old(self).entries@.len() ==> final(self).entries@[i] == old(
                self,
            ).entries@[i],
            final(self).has_id(id),
            forall|i: int| 0 <= i < old(self).entries@.len() ==> (#[trigger] old(
                self,
            ).entries@[i]).id != id,
    {
        let id = self.next_id;
        self.next_id = self.next_id + 1;
        let entry = SceneEntry { id, entity, anims: Vec::new() };
        self.entries.push(entry);
        proof {
            assert(self.entries@.last().anims@ =~= Seq::<Anim>::empty());
        }
        id
    }

    /// Starts `behavior` against the entity carrying `id`: registers a fresh
    /// running animation after the ones already running there. Fails, leaving
    /// the registry unchanged, exactly when no entry carries `id`.
    #[verifier::loop_isolation(false)]
    pub fn run(&mut self, id: u64, behavior: Behavior) -> (r: Result<(), SceneError>)
        requires
            old(self).wf(),
            behavior.wf(),
        ensures
            final(self).wf(),
            r is Ok <==> old(self).has_id(id),
            r is Err ==> *final(self) == *old(self) && r == Err::<(), SceneError>(
                SceneError::InvalidEntityReference,
            ),
            r is Ok ==> {
                &&& final(self).next_id == old(self).next_id
                &&& final(self).entries@.len() == old(self).entries@.len()
                &&& exists|i: int|
                    {
                        &&& 0 <= i < old(self).entries@.len()
                        &&& old(self).entries@[i].id == id
                        &&& (#[trigger] final(self).entries@[i]).id == id
                        &&& final(self).entries@[i].entity == old(self).entries@[i].entity
                        &&& anim_models(final(self).entries@[i].anims@) == anim_models(
                            old(self).entries@[i].anims@,
                        ).push(AnimModel { behavior, state: spec_fresh(behavior) })
                        &&& forall|k: int|
                            0 <= k < old(self).entries@.len() && k != i
                                ==> final(self).entries@[k] == old(self).entries@[k]
                    }
            },
    {
        let ghost old_entries = self.entries@;
        let mut i: usize = 0;
        while i < self.entries.len()
            invariant
                0 <= i <= self.entries@.len(),
                self.entries@ == old_entries,
                *self == *old(self),
                forall|k: int| 0 <= k < i ==> old_entries[k].id != id,
            decreases self.entries@.len() - i,
        {
            if self.entries[i].id == id {
                let mut entry = self.entries.remove(i);
                let st = fresh_state(&behavior);
                let ghost old_anims = entry.anims@;
                proof {
                    lemma_fresh_wf(behavior);
                }
                entry.anims.push(Anim { behavior, state: st });
                proof {
                    assert(entry.anims@.drop_last() =~= old_anims);
                    assert(anim_models(entry.anims@) == anim_models(old_anims).push(
                        anim_model(entry.anims@.last())));
                }
                self.entries.insert(i, entry);
                proof {
                    lemma_remove_insert(old_entries, i as int, entry);
                    assert(self.entries@ == old_entries.update(i as int, entry));
                    assert(self.entries@[i as int].id == id);
                    lemma_anim_models_index(entry.anims@);
                }
                return Ok(());
            }
            i = i + 1;
        }
        Err(SceneError::InvalidEntityReference)
    }
}

/// The stepped-state list of `spec_advance_list` has one state per animation
/// from `j` on.
pub proof fn lemma_advance_list_len(anims: Seq<AnimModel>, e: Entity, dt: int, j: int)
    requires
        0 <= j <= anims.len(),
    ensures
        spec_advance_list(anims, e, dt, j).0.len() == anims.len() - j,
    decreases anims.len() - j,
{
    if j < anims.len() {
        let head = spec_advance(anims[j].behavior, anims[j].state, e, dt);
        lemma_advance_list_len(anims, head.1, dt, j + 1);
    }
}

/// Advances every animation of one entry by `dt`, in order, each mutating
/// the entity the previous one produced.
#[verifier::loop_isolation(false)]
fn advance_entry(entry: SceneEntry, dt: u64) -> (r: SceneEntry)
    requires
        entry.entity.wf(),
        forall|j: int|
            0 <= j < entry.anims@.len() ==> anim_wf(anim_model(#[trigger] entry.anims@[j])),
    ensures
        r.id == entry.id,
        r.anims@.len() == entry.anims@.len(),
        forall|j: int|
            0 <= j < entry.anims@.len() ==> (#[trigger] r.anims@[j]).behavior
                == entry.anims@[j].behavior,
        ({
            let res = spec_advance_list(anim_models(entry.anims@), entry.entity, dt as int, 0);
            &&& r.entity == res.1
            &&& forall|j: int|
                0 <= j < entry.anims@.len() ==> anim_model(#[trigger] r.anims@[j]).state
                    == res.0[j]
        }),
        r.entity.wf(),
        forall|j: int| 0 <= j < r.anims@.len() ==> anim_wf(anim_model(#[trigger] r.anims@[j])),
{
    let ghost anims0 = anim_models(entry.anims@);
    let ghost full = spec_advance_list(anims0, entry.entity, dt as int, 0);
    let mut cur = entry;
    let mut e = cur.entity;
    let n = cur.anims.len();
    let mut j: usize = 0;
    proof {
        lemma_anim_models_index(cur.anims@);
        lemma_advance_list_len(anims0, e, dt as int, 0);
    }
    while j < n
        invariant
            cur.id == entry.id,
            0 <= j <= n,
            cur.anims@.len() == n,
            e.wf(),
            forall|k: int|
                j <= k < n ==> anim_model(#[trigger] cur.anims@[k]) == anims0[k],
            forall|k: int|
                0 <= k < j ==> anim_model(#[trigger] cur.anims@[k]).state == full.0[k],
            forall|k: int|
                0 <= k < n ==> (#[trigger] cur.anims@[k]).behavior == anims0[k].behavior,
            forall|k: int|
                0 <= k < n ==> anim_wf(anim_model(#[trigger] cur.anims@[k])),
            full.1 == spec_advance_list(anims0, e, dt as int, j as int).1,
            full.0.skip(j as int) == spec_advance_list(anims0, e, dt as int, j as int).0,
        decreases n - j,
    {
        let ghost suffix = spec_advance_list(anims0, e, dt as int, j as int);
        let ghost kids0 = cur.anims@;
        let a = cur.anims.remove(j);
        let stepped = advance(&a.behavior, a.state, e, dt);
        let a2 = Anim { behavior: a.behavior, state: stepped.0 };
        let ghost head = spec_advance(anims0[j as int].behavior, anims0[j as int].state, e, dt as int);
        proof {
            assert(anim_model(a) == anims0[j as int]);
            assert(model_of(stepped.0) == head.0);
        }
        e = stepped.1;
        cur.anims.insert(j, a2);
        proof {
            lemma_remove_insert(kids0, j as int, a2);
            assert(cur.anims@ == kids0.update(j as int, a2));
            lemma_advance_list_len(anims0, e, dt as int, j + 1);
            assert(suffix.0 == seq![head.0] + spec_advance_list(anims0, e, dt as int, j + 1).0);
            assert(full.0.skip(j as int)[0] == head.0);
            assert(full.0[j as int] == head.0);
            assert(full.0.skip(j + 1) =~= full.0.skip(j as int).skip(1));
            assert((seq![head.0] + spec_advance_list(anims0, e, dt as int, j + 1).0).skip(1)
                =~= spec_advance_list(anims0, e, dt as int, j + 1).0);
        }
        j = j + 1;
    }
    cur.entity = e;
    cur
}

impl SceneRegistry {
    /// Advances every running animation in the registry by `dt`
    /// milliseconds: for each entry, its animations step in order, each
    /// mutating the owning entity; completed instances stay, marked
    /// complete, and step no further. This is the only place animation
    /// mutates entities.
    #[verifier::loop_isolation(false)]
    pub fn advance_all(&mut self, dt: u64)
        requires
            old(self).wf(),
        ensures
            final(self).wf(),
            final(self).next_id == old(self).next_id,
            final(self).entries@.len() == old(self).entries@.len(),
            forall|i: int|
                0 <= i < old(self).entries@.len() ==> {
                    let prev = old(self).entries@[i];
                    let res = spec_advance_list(
                        anim_models(prev.anims@),
                        prev.entity,
                        dt as int,
                        0,
                    );
                    let cur = #[trigger] final(self).entries@[i];
                    &&& cur.id == prev.id
                    &&& cur.entity == res.1
                    &&& cur.anims@.len() == prev.anims@.len()
                    &&& forall|j: int|
                        0 <= j < prev.anims@.len() ==> (#[trigger] cur.anims@[j]).behavior
                            == prev.anims@[j].behavior
                    &&& forall|j: int|
                        0 <= j < prev.anims@.len() ==> anim_model(
                            #[trigger] cur.anims@[j],
                        ).state == res.0[j]
                },
    {
        let ghost entries0 = self.entries@;
        let n = self.entries.len();
        let mut i: usize = 0;
        while i < n
            invariant
                0 <= i <= n,
                self.entries@.len() == n,
                self.next_id == old(self).next_id,
                forall|k: int| i <= k < n ==> #[trigger] self.entries@[k] == entries0[k],
                forall|k: int|
                    0 <= k < i ==> {
                        let prev = entries0[k];
                        let res = spec_advance_list(
                            anim_models(prev.anims@),
                            prev.entity,
                            dt as int,
                            0,
                        );
                        let cur = #[trigger] self.entries@[k];
                        &&& cur.id == prev.id
                        &&& cur.entity == res.1
                        &&& cur.anims@.len() == prev.anims@.len()
                        &&& forall|j: int|
                            0 <= j < prev.anims@.len() ==> (#[trigger] cur.anims@[j]).behavior
                                == prev.anims@[j].behavior
                        &&& forall|j: int|
                            0 <= j < prev.anims@.len() ==> anim_model(
                                #[trigger] cur.anims@[j],
                            ).state == res.0[j]
                    },
                forall|k: int| 0 <= k < n ==> (#[trigger] self.entries@[k]).id == entries0[k].id,
                forall|k: int| 0 <= k < n ==> (#[trigger] self.entries@[k]).entity.wf(),
                forall|k: int, j: int|
                    0 <= k < n && 0 <= j < self.entries@[k].anims@.len() ==> anim_wf(
                        anim_model(#[trigger] self.entries@[k].anims@[j]),
                    ),
            decreases n - i,
        {
            let ghost pre = self.entries@;
            let entry = self.entries.remove(i);
            let entry2 = advance_entry(entry, dt);
            self.entries.insert(i, entry2);
            proof {
                lemma_remove_insert(pre, i as int, entry2);
                assert(self.entries@ == pre.update(i as int, entry2));
            }
            i = i + 1;
        }
    }

    /// The number of running animations that have not yet completed, summed
    /// over every entry; saturates at `usize::MAX`. Dropping to zero means
    /// every started animation has finished.
    #[verifier::loop_isolation(false)]
    pub fn running_count(&self) -> (r: usize)
        ensures
            r as int == if spec_running_entries(self.entries@) <= usize::MAX {
                spec_running_entries(self.entries@)
            } else {
                usize::MAX as int
            },
    {
        let mut acc: usize = 0;
        let n = self.entries.len();
        let mut i: usize = 0;
        proof {
            assert(self.entries@.take(0) =~= Seq::<SceneEntry>::empty());
        }
        while i < n
            invariant
                0 <= i <= n,
                n == self.entries@.len(),
                acc as int == if spec_running_entries(self.entries@.take(i as int)) <= usize::MAX {
                    spec_running_entries(self.entries@.take(i as int))
                } else {
                    usize::MAX as int
                },
                spec_running_entries(self.entries@.take(i as int)) >= 0,
            decreases n - i,
        {
            let c = running_in_entry(&self.entries[i]);
            proof {
                assert(self.entries@.take(i + 1).drop_last() =~= self.entries@.take(i as int));
                assert(self.entries@.take(i + 1).last() == self.entries@[i as int]);
            }
            if c > usize::MAX - acc {
                acc = usize::MAX;
            } else {
                acc = acc + c;
            }
            i = i + 1;
        }
        proof {
            assert(self.entries@.take(n as int) =~= self.entries@);
        }
        acc
    }

    /// The draw list: one command per entity, in insertion order (the first
    /// entity added is drawn first, beneath later ones), each carrying that
    /// entity's current transform and opacity.
    #[verifier::loop_isolation(false)]
    pub fn draw_list(&self) -> (r: Vec<Entity>)
        ensures
            r@.len() == self.entries@.len(),
            forall|i: int|
                0 <= i < self.entries@.len() ==> r@[i] == (#[trigger] self.entries@[i]).entity,
    {
        let mut out: Vec<Entity> = Vec::new();
        let mut i: usize = 0;
        while i < self.entries.len()
            invariant
                0 <= i <= self.entries@.len(),
                out@.len() == i,
                forall|k: int|
                    0 <= k < i ==> out@[k] == (#[trigger] self.entries@[k]).entity,
            decreases self.entries@.len() - i,
        {
            out.push(self.entries[i].entity);
            i = i + 1;
        }
        out
    }
}

/// How many animations of one entry are still running.
#[verifier::loop_isolation(false)]
fn running_in_entry(entry: &SceneEntry) -> (r: usize)
    ensures
        r as int == spec_running(anim_models(entry.anims@)),
        r <= entry.anims@.len(),
{
    let ghost ms = anim_models(entry.anims@);
    let mut c: usize = 0;
    let mut j: usize = 0;
    proof {
        lemma_anim_models_index(entry.anims@);
        assert(ms.take(0) =~= Seq::<AnimModel>::empty());
    }
    while j < entry.anims.len()
        invariant
            0 <= j <= entry.anims@.len(),
            c as int == spec_running(ms.take(j as int)),
            c <= j,
        decreases entry.anims@.len() - j,
    {
        proof {
            assert(ms.take(j + 1).drop_last() =~= ms.take(j as int));
            assert(ms.take(j + 1).last() == ms[j as int]);
        }
        if !entry.anims[j].state.done {
            c = c + 1;
        }
        j = j + 1;
    }
    proof {
        assert(ms.take(entry.anims@.len() as int) =~= ms);
    }
    c
}

/// The starting entity of the introductory scene: at the viewport centre,
/// unrotated, unit scale, fully opaque.
pub open spec fn intro_entity() -> Entity {
    Entity { x: 150_000, y: 150_000, rotation: 0, sx: 1000, sy: 1000, opacity: 1000 }
}

/// The children of the intro's main sequence: a two-second scale to half
/// with a cubic ease-out, a one-second drop of eighty units with a bounce,
/// a half-second wait, and a 0.3-second fade-out.
pub open spec fn intro_sequence_children() -> Seq<Behavior> {
    seq![
        Behavior::Action {
            easing: Easing::CubicOut,
            primitive: Primitive::ScaleTo { duration: 2000, sx: 500, sy: 500 },
        },
        Behavior::Action {
            easing: Easing::BounceOut,
            primitive: Primitive::MoveBy { duration: 1000, dx: 0, dy: 80_000 },
        },
        Behavior::Wait { duration: 500 },
        Behavior::Action {
            easing: Easing::Linear,
            primitive: Primitive::FadeOut { duration: 300 },
        },
    ]
}

/// The intro's parallel rotation: three full turns over two and a half
/// seconds with a quartic ease.
pub open spec fn intro_rotate() -> Behavior {
    Behavior::Action {
        easing: Easing::QuarticInOut,
        primitive: Primitive::RotateTo { duration: 2500, degrees: 1_080_000 },
    }
}

/// The introductory scene: one entity at the viewport centre playing the
/// intro sequence and, in parallel, the intro rotation, both freshly
/// started. Returns the scene and the entity's identifier.
pub fn intro_scene() -> (r: (SceneRegistry, u64))
    ensures
        r.0.wf(),
        r.0.entries@.len() == 1,
        r.0.has_id(r.1),
        r.0.entries@[0].id == r.1,
        r.0.entries@[0].entity == intro_entity(),
        r.0.entries@[0].anims@.len() == 2,
        r.0.entries@[0].anims@[0].behavior is Sequence,
        r.0.entries@[0].anims@[0].behavior->Sequence_children@ == intro_sequence_children(),
        model_of(r.0.entries@[0].anims@[0].state) == spec_fresh(
            r.0.entries@[0].anims@[0].behavior,
        ),
        r.0.entries@[0].anims@[1].behavior == intro_rotate(),
        model_of(r.0.entries@[0].anims@[1].state) == spec_fresh(intro_rotate()),
{
    let mut scene = SceneRegistry::new();
    let id = scene.add(Entity::new(150_000, 150_000));
    let kids = vec![
        Behavior::Action {
            easing: Easing::CubicOut,
            primitive: Primitive::ScaleTo { duration: 2000, sx: 500, sy: 500 },
        },
        Behavior::Action {
            easing: Easing::BounceOut,
            primitive: Primitive::MoveBy { duration: 1000, dx: 0, dy: 80_000 },
        },
        Behavior::Wait { duration: 500 },
        Behavior::Action { easing: Easing::Linear, primitive: Primitive::FadeOut { duration: 300 } },
    ];
    proof {
        assert forall|i: int| 0 <= i < kids@.len() implies (#[trigger] kids@[i]).wf() by {
            if i == 0 {
                assert(kids@[0].wf());
            } else if i == 1 {
                assert(kids@[1].wf());
            } else if i == 2 {
                assert(kids@[2].wf());
            } else {
                assert(kids@[3].wf());
            }
        }
        lemma_wf_all_intro(kids@);
        assert(kids@ =~= intro_sequence_children());
    }
    let seq_tree = Behavior::Sequence { children: kids };
    let ghost seq_g = seq_tree;
    let ghost pre1 = scene;
    let ok1 = scene.run(id, seq_tree);
    proof {
        let m1 = AnimModel { behavior: seq_g, state: spec_fresh(seq_g) };
        assert(ok1 is Ok);
        assert(scene.entries@[0].id == id);
        assert(anim_models(pre1.entries@[0].anims@) =~= Seq::<AnimModel>::empty());
        assert(anim_models(scene.entries@[0].anims@) == Seq::<AnimModel>::empty().push(m1));
        lemma_anim_models_index(scene.entries@[0].anims@);
        assert(Seq::<AnimModel>::empty().push(m1)[0] == m1);
        assert(scene.entries@[0].anims@.len() == 1);
        assert(anim_models(scene.entries@[0].anims@)[0] == anim_model(
            scene.entries@[0].anims@[0],
        ));
        assert(anim_model(scene.entries@[0].anims@[0]) == m1);
    }
    let rotate = Behavior::Action {
        easing: Easing::QuarticInOut,
        primitive: Primitive::RotateTo { duration: 2500, degrees: 1_080_000 },
    };
    let ghost pre2 = scene;
    let ok2 = scene.run(id, rotate);
    proof {
        let m1 = AnimModel { behavior: seq_g, state: spec_fresh(seq_g) };
        let m2 = AnimModel { behavior: rotate, state: spec_fresh(rotate) };
        let before = anim_models(pre2.entries@[0].anims@);
        assert(ok2 is Ok);
        assert(rotate == intro_rotate());
        assert(anim_models(scene.entries@[0].anims@) == before.push(m2));
        lemma_anim_models_index(pre2.entries@[0].anims@);
        lemma_anim_models_index(scene.entries@[0].anims@);
        assert(before.len() == 1);
        assert(before[0] == anim_model(pre2.entries@[0].anims@[0]));
        assert(before[0] == m1);
        assert(before.push(m2).len() == 2);
        assert(scene.entries@[0].anims@.len() == 2);
        assert(before.push(m2)[0] == m1);
        assert(before.push(m2)[1] == m2);
        assert(anim_models(scene.entries@[0].anims@)[0] == anim_model(
            scene.entries@[0].anims@[0],
        ));
        assert(anim_models(scene.entries@[0].anims@)[1] == anim_model(
            scene.entries@[0].anims@[1],
        ));
        assert(anim_model(scene.entries@[0].anims@[0]) == m1);
        assert(scene.entries@[0].anims@[0].behavior == seq_g);
        assert(anim_model(scene.entries@[0].anims@[1]) == m2);
    }
    (scene, id)
}

/// Whether the intro loop is over: the viewer pressed one of the two skip
/// buttons, or every intro animation has completed.
pub fn intro_should_exit(pressed: Option<u64>, skip1: u64, skip2: u64, running: usize) -> (r:
    bool)
    ensures
        r == (pressed == Some(skip1) || pressed == Some(skip2) || running == 0),
{
    match pressed {
        Some(b) => b == skip1 || b == skip2 || running == 0,
        None => running == 0,
    }
}

} // verus!

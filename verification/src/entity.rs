use vstd::prelude::*;

use crate::entitydata::{comp_at, has_entity, slots_of};
use crate::scene::{
    can_attach, component_reachable, scene_after_attach, scene_after_destroy, scene_after_detach,
    scene_after_use, Scene,
};
use crate::tcomponent::Component;

verus! {

/// A handle to an entity owned by a scene: the entity's id. The handle
/// carries no pointer back to the scene; every operation takes the scene and
/// resolves the id through its entity table, so a stale handle fails soft
/// instead of dangling. Destroying the entity through this handle sets the
/// id to the sentinel `-1`.
pub struct Entity {
    id: i64,
}

impl View for Entity {
    type V = i64;

    closed spec fn view(&self) -> i64 {
        self.id
    }
}

impl Entity {
    /// A handle to the entity with this id.
    pub(crate) fn from_id(id: i64) -> (e: Entity)
        ensures
            e@ == id,
    {
        Entity { id }
    }

    /// Marks this handle destroyed.
    pub(crate) fn invalidate(&mut self)
        ensures
            (*final(self))@ == -1,
    {
        self.id = -1;
    }

    /// The entity's id, or `-1` after destruction.
    pub fn get_id(&self) -> (r: i64)
        ensures
            r == self@,
    {
        self.id
    }

    /// Whether this handle still names a live entity of the scene.
    pub fn is_valid(&self, scene: &Scene) -> (r: bool)
        ensures
            r == (self@ >= 0 && has_entity(scene@.entities, self@)),
    {
        self.id >= 0 && scene.contains_entity(self.id)
    }

    /// Attaches a component to this entity under type slot `tag`. Fails soft
    /// — reporting failure and changing nothing — when the handle is stale
    /// or a component already sits in that slot; the first component of a
    /// type is retained. On success every installed system observes the
    /// attach.
    pub fn add_component(&self, scene: &mut Scene, tag: u64, component: Component) -> (r: Option<
        (),
    >)
        requires
            old(scene)@.wf(),
        ensures
            r is Some <==> can_attach(old(scene)@, self@, tag),
            r is Some ==> (*final(scene))@ == scene_after_attach(
                old(scene)@,
                self@,
                tag,
                component@,
            ),
            r is None ==> (*final(scene))@ == old(scene)@,
            (*final(scene))@.wf(),
    {
        scene.attach_component(self.id, tag, component)
    }

    /// Detaches the component stored under `tag`. Fails soft when the
    /// handle is stale or the slot is empty. On success every installed
    /// system observes the detach.
    pub fn remove_component(&self, scene: &mut Scene, tag: u64) -> (r: Option<()>)
        requires
            old(scene)@.wf(),
        ensures
            r is Some <==> component_reachable(old(scene)@, self@, tag),
            r is Some ==> (*final(scene))@ == scene_after_detach(old(scene)@, self@, tag),
            r is None ==> (*final(scene))@ == old(scene)@,
            (*final(scene))@.wf(),
    {
        scene.detach_component(self.id, tag)
    }

    /// Temporary exclusive access to the component stored under `tag`:
    /// applies `f` once to it and returns `f`'s result. This is the only
    /// typed read/write path to a stored component. Fails soft when the
    /// handle is stale or the slot is empty.
    pub fn use_component<R, F: FnOnce(&mut Component) -> R>(
        &self,
        scene: &mut Scene,
        tag: u64,
        f: F,
    ) -> (r: Option<R>)
        requires
            old(scene)@.wf(),
            forall|m: &mut Component| #[trigger] call_requires(f, (m,)),
        ensures
            r is Some <==> component_reachable(old(scene)@, self@, tag),
            r is None ==> (*final(scene))@ == old(scene)@,
            r matches Some(out) ==> exists|m: &mut Component, o: R|
                {
                    &&& #[trigger] call_ensures(f, (m,), o)
                    &&& o == out
                    &&& mut_ref_current(m)@ == comp_at(
                        slots_of(old(scene)@.entities, self@),
                        tag,
                    )
                    &&& (*final(scene))@ == scene_after_use(
                        old(scene)@,
                        self@,
                        tag,
                        mut_ref_future(m)@,
                    )
                },
            (*final(scene))@.wf(),
    {
        scene.apply_component(self.id, tag, f)
    }

    /// Destroys this entity through its owning scene: a convenience
    /// forwarding call. A no-op when the handle is already stale.
    pub fn destroy(&mut self, scene: &mut Scene)
        requires
            old(scene)@.wf(),
        ensures
            has_entity(old(scene)@.entities, (*old(self))@) ==> {
                &&& (*final(scene))@ == scene_after_destroy(old(scene)@, (*old(self))@)
                &&& (*final(self))@ == -1
            },
            !has_entity(old(scene)@.entities, (*old(self))@) ==> {
                &&& (*final(scene))@ == old(scene)@
                &&& *final(self) == *old(self)
            },
            (*final(scene))@.wf(),
    {
        let _ = scene.destroy_entity(self);
    }
}

} // verus!

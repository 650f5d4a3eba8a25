use vstd::prelude::*;

use crate::behavioursystem::{
    dispatched_keys, entities_after_pass, key_dispatchable, key_of, keys_distinct, keys_without,
    lemma_keys_without_absent, lemma_keys_without_push_back, lemma_pass_shape,
    BehaviourSystem, BehaviourSystemView,
};
use crate::entity::Entity;
use crate::entitydata::{
    comp_at, entries_view, find_entity, has_entity, has_tag, ids_distinct, lemma_entity_idx_unique,
    lemma_tag_idx_unique, slots_of, slots_wf, table_wf, EntityData, EntityEntry, EntityEntryView,
    Slot, SlotView,
};
use crate::tcomponent::{
    view_destroyed, view_is_behaviour, view_with_entity, Component, ComponentKey, ComponentView,
};
use crate::tsystem::TSystem;

verus! {

/// The type tag under which the behaviour system is registered.
pub const BEHAVIOUR_SYSTEM_TAG: u64 = 1;

/// The model of one installed system.
#[verifier::ext_equal]
pub enum SystemView {
    Behaviour(BehaviourSystemView),
}

/// One installed system. The registry holds at most one system per concrete
/// kind, each kind named by its tag.
pub enum System {
    Behaviour(BehaviourSystem),
}

impl View for System {
    type V = SystemView;

    open spec fn view(&self) -> SystemView {
        match self {
            System::Behaviour(b) => SystemView::Behaviour(b@),
        }
    }
}

/// The tag naming a system's concrete kind.
pub open spec fn system_tag(sv: SystemView) -> u64 {
    match sv {
        SystemView::Behaviour(_) => BEHAVIOUR_SYSTEM_TAG,
    }
}

/// The subscription list a system maintains.
pub open spec fn system_subs(sv: SystemView) -> Seq<ComponentKey> {
    match sv {
        SystemView::Behaviour(bv) => bv.subs,
    }
}

/// Whether a system offers the update capability.
pub open spec fn system_updatable(sv: SystemView) -> bool {
    match sv {
        SystemView::Behaviour(_) => true,
    }
}

/// Whether a system offers the draw capability.
pub open spec fn system_drawable(sv: SystemView) -> bool {
    match sv {
        SystemView::Behaviour(_) => true,
    }
}

/// A system that has observed nothing yet.
pub open spec fn system_fresh(sv: SystemView) -> bool {
    system_subs(sv).len() == 0
}

/// A system after it observes an attach: the behaviour system subscribes
/// the identity of a behaviour-capable component and ignores the rest.
pub open spec fn system_after_attach(sv: SystemView, key: ComponentKey, cv: ComponentView) -> SystemView {
    match sv {
        SystemView::Behaviour(bv) => SystemView::Behaviour(
            BehaviourSystemView {
                subs: if view_is_behaviour(cv) {
                    bv.subs.push(key)
                } else {
                    bv.subs
                },
                dispatched: bv.dispatched,
            },
        ),
    }
}

/// A system after it observes a detach: the behaviour system drops every
/// subscription with that identity.
pub open spec fn system_after_detach(sv: SystemView, key: ComponentKey) -> SystemView {
    match sv {
        SystemView::Behaviour(bv) => SystemView::Behaviour(
            BehaviourSystemView { subs: keys_without(bv.subs, key), dispatched: bv.dispatched },
        ),
    }
}

impl System {
    /// The tag naming this system's concrete kind.
    pub fn tag(&self) -> (t: u64)
        ensures
            t == system_tag(self@),
    {
        match self {
            System::Behaviour(_) => BEHAVIOUR_SYSTEM_TAG,
        }
    }

    /// Capability query: whether this system takes part in update dispatch.
    pub fn updatable(&self) -> (r: bool)
        ensures
            r == system_updatable(self@),
    {
        match self {
            System::Behaviour(_) => true,
        }
    }

    /// Capability query: whether this system takes part in draw dispatch.
    pub fn drawable(&self) -> (r: bool)
        ensures
            r == system_drawable(self@),
    {
        match self {
            System::Behaviour(_) => true,
        }
    }
}

impl TSystem for System {
    fn get_updatable(&self) -> bool {
        match self {
            System::Behaviour(b) => b.get_updatable(),
        }
    }

    fn get_drawable(&self) -> bool {
        match self {
            System::Behaviour(b) => b.get_drawable(),
        }
    }

    fn on_component_added_to_entity(&mut self, key: ComponentKey, component: &Component) {
        match self {
            System::Behaviour(b) => b.on_component_added_to_entity(key, component),
        }
    }

    fn on_component_removed_from_entity(&mut self, key: ComponentKey) {
        match self {
            System::Behaviour(b) => b.on_component_removed_from_entity(key),
        }
    }
}

/// Whether a system of this kind is installed.
pub open spec fn has_system(ss: Seq<SystemView>, tag: u64) -> bool {
    exists|i: int| 0 <= i < ss.len() && system_tag(#[trigger] ss[i]) == tag
}

/// The index of the system of this kind; meaningful only when `has_system`
/// holds.
pub open spec fn system_idx(ss: Seq<SystemView>, tag: u64) -> int {
    choose|i: int| 0 <= i < ss.len() && system_tag(#[trigger] ss[i]) == tag
}

/// The model of a whole scene: its entity table in creation order, its
/// system registry in registration order, and the id the next entity will
/// receive. Ids are handed out by a counter that never goes back, so an id
/// is never reused.
#[verifier::ext_equal]
pub struct SceneView {
    pub entities: Seq<EntityEntryView>,
    pub systems: Seq<SystemView>,
    pub next_id: i64,
}

impl SceneView {
    /// A subscription key never outruns the id counter, and while its entity
    /// is live it names a stored slot. A key whose entity is gone is a stale
    /// subscription: destruction does not notify the systems.
    pub open spec fn sub_key_ok(self, k: ComponentKey) -> bool {
        &&& 0 <= k.entity_id < self.next_id
        &&& has_entity(self.entities, k.entity_id) ==> has_tag(
            slots_of(self.entities, k.entity_id),
            k.tag,
        )
    }

    /// The scene invariant: entity ids are distinct, below the id counter
    /// and never reused; every entity holds at most one component per type
    /// tag; at most one system is installed per kind; and no system
    /// subscribes an identity twice or one that was never attached.
    pub open spec fn wf(self) -> bool {
        &&& 0 <= self.next_id
        &&& forall|i: int|
            0 <= i < self.entities.len() ==> 0 <= (#[trigger] self.entities[i]).id < self.next_id
        &&& table_wf(self.entities)
        &&& forall|i: int, j: int|
            0 <= i < j < self.systems.len() ==> system_tag(self.systems[i]) != system_tag(
                self.systems[j],
            )
        &&& forall|i: int|
            0 <= i < self.systems.len() ==> keys_distinct(system_subs(#[trigger] self.systems[i]))
        &&& forall|i: int, k: ComponentKey|
            0 <= i < self.systems.len() && #[trigger] system_subs(self.systems[i]).contains(k)
                ==> self.sub_key_ok(k)
    }
}

/// Whether a component can be attached here: the entity is live and the
/// type slot is free.
pub open spec fn can_attach(v: SceneView, id: i64, tag: u64) -> bool {
    has_entity(v.entities, id) && !has_tag(slots_of(v.entities, id), tag)
}

/// Whether an attached component is reachable here: the entity is live and
/// the type slot is filled.
pub open spec fn component_reachable(v: SceneView, id: i64, tag: u64) -> bool {
    has_entity(v.entities, id) && has_tag(slots_of(v.entities, id), tag)
}

/// The scene after a successful attach: the stored component carries the
/// owning entity's id as its back-reference, the slot is appended to the
/// entity, and every system observes the attach.
pub open spec fn scene_after_attach(v: SceneView, id: i64, tag: u64, cv: ComponentView) -> SceneView {
    let stored = view_with_entity(cv, Some(id));
    let ei = entity_idx_of(v, id);
    SceneView {
        entities: v.entities.update(
            ei,
            EntityEntryView {
                id,
                slots: v.entities[ei].slots.push(SlotView { tag, component: stored }),
            },
        ),
        systems: v.systems.map_values(
            |sv: SystemView| system_after_attach(sv, key_of(id, tag), stored),
        ),
        next_id: v.next_id,
    }
}

/// The scene after a successful detach: the slot is removed, later slots
/// keep their order, and every system observes the detach.
pub open spec fn scene_after_detach(v: SceneView, id: i64, tag: u64) -> SceneView {
    let ei = entity_idx_of(v, id);
    let si = crate::entitydata::tag_idx(v.entities[ei].slots, tag);
    SceneView {
        entities: v.entities.update(
            ei,
            EntityEntryView { id, slots: v.entities[ei].slots.remove(si) },
        ),
        systems: v.systems.map_values(|sv: SystemView| system_after_detach(sv, key_of(id, tag))),
        next_id: v.next_id,
    }
}

/// The scene after exclusive access replaced the component stored under
/// `tag` on entity `id` by `cv`.
pub open spec fn scene_after_use(v: SceneView, id: i64, tag: u64, cv: ComponentView) -> SceneView {
    let ei = entity_idx_of(v, id);
    let si = crate::entitydata::tag_idx(v.entities[ei].slots, tag);
    SceneView {
        entities: v.entities.update(
            ei,
            EntityEntryView {
                id,
                slots: v.entities[ei].slots.update(si, SlotView { tag, component: cv }),
            },
        ),
        systems: v.systems,
        next_id: v.next_id,
    }
}

/// The scene after an entity was destroyed: the entity is gone, and nothing
/// else changed — in particular the systems were not notified, so stale
/// subscriptions may remain until dispatch skips them.
pub open spec fn scene_after_destroy(v: SceneView, id: i64) -> SceneView {
    SceneView {
        entities: v.entities.remove(entity_idx_of(v, id)),
        systems: v.systems,
        next_id: v.next_id,
    }
}

/// The slots of entity `id` after every destruction hook ran once.
pub open spec fn destroyed_slots(s: Seq<SlotView>) -> Seq<SlotView> {
    s.map_values(|sl: SlotView| SlotView { tag: sl.tag, component: view_destroyed(sl.component) })
}

/// The index of entity `id` in the table.
pub open spec fn entity_idx_of(v: SceneView, id: i64) -> int {
    crate::entitydata::entity_idx(v.entities, id)
}

/// The scene after one dispatch pass: the installed system — the registry
/// holds at most one under the invariant — runs one pass over the entity
/// table and records what it dispatched; with no system installed nothing
/// happens.
pub open spec fn scene_after_pass(v: SceneView, draw: bool) -> SceneView {
    if v.systems.len() == 0 {
        v
    } else {
        match v.systems[0] {
            SystemView::Behaviour(bv) => SceneView {
                entities: entities_after_pass(v.entities, bv.subs, draw),
                systems: v.systems.update(
                    0,
                    SystemView::Behaviour(
                        BehaviourSystemView {
                            subs: bv.subs,
                            dispatched: dispatched_keys(v.entities, bv.subs),
                        },
                    ),
                ),
                next_id: v.next_id,
            },
        }
    }
}

/// The scene: it owns every entity and every installed system, hands out
/// entity ids, fans attach and detach notifications out to the systems, and
/// drives dispatch once per tick.
pub struct Scene {
    entities: Vec<EntityEntry>,
    systems: Vec<System>,
    id_count: i64,
}

impl View for Scene {
    type V = SceneView;

    closed spec fn view(&self) -> SceneView {
        SceneView {
            entities: entries_view(self.entities@),
            systems: self.systems@.map_values(|s: System| s@),
            next_id: self.id_count,
        }
    }
}

impl Scene {
    /// An empty scene.
    pub fn new() -> (s: Scene)
        ensures
            s@.entities =~= Seq::<EntityEntryView>::empty(),
            s@.systems =~= Seq::<SystemView>::empty(),
            s@.next_id == 0,
            s@.wf(),
    {
        let s = Scene { entities: Vec::new(), systems: Vec::new(), id_count: 0 };
        proof {
            assert(s@.entities =~= Seq::<EntityEntryView>::empty());
            assert(s@.systems =~= Seq::<SystemView>::empty());
        }
        s
    }

    /// The id the next created entity will receive.
    pub fn next_entity_id(&self) -> (r: i64)
        ensures
            r == self@.next_id,
    {
        self.id_count
    }

    /// Whether an entity with this id is live in this scene.
    pub fn contains_entity(&self, id: i64) -> (r: bool)
        ensures
            r == has_entity(self@.entities, id),
    {
        match find_entity(&self.entities, id) {
            Some(i) => {
                proof {
                    assert(has_entity(self@.entities, id));
                }
                true
            },
            None => false,
        }
    }

    /// Creates a new entity with the next id and an empty component store,
    /// and returns its handle.
    pub fn create_entity(&mut self) -> (e: Entity)
        requires
            old(self)@.wf(),
            old(self)@.next_id < i64::MAX,
        ensures
            e@ == old(self)@.next_id,
            (*final(self))@.entities == old(self)@.entities.push(
                EntityEntryView { id: old(self)@.next_id, slots: Seq::empty() },
            ),
            (*final(self))@.systems == old(self)@.systems,
            (*final(self))@.next_id == old(self)@.next_id + 1,
            (*final(self))@.wf(),
            !has_entity(old(self)@.entities, old(self)@.next_id),
    {
        let id = self.id_count;
        let data = EntityData::new();
        self.entities.push(EntityEntry { id, data });
        self.id_count = id + 1;
        proof {
            assert((*final(self))@.entities =~= old(self)@.entities.push(
                EntityEntryView { id: old(self)@.next_id, slots: Seq::empty() },
            ));
            assert(!has_entity(old(self)@.entities, id)) by {
                if has_entity(old(self)@.entities, id) {
                    let a = choose|a: int|
                        0 <= a < old(self)@.entities.len() && (#[trigger] old(
                            self,
                        )@.entities[a]).id == id;
                }
            };
            let fv = (*final(self))@;
            let ov = old(self)@;
            assert(fv.systems == ov.systems);
            assert(forall|i: int|
                0 <= i < ov.entities.len() ==> fv.entities[i] == (#[trigger] ov.entities[i]));
            assert(ids_distinct(fv.entities)) by {
                assert forall|i: int, j: int|
                    0 <= i < j < fv.entities.len() implies fv.entities[i].id
                    != fv.entities[j].id by {
                    if j + 1 == fv.entities.len() {
                        assert(fv.entities[j].id == id);
                        assert(0 <= ov.entities[i].id < ov.next_id);
                    }
                };
            };
            assert forall|i: int, k: ComponentKey|
                0 <= i < fv.systems.len() && #[trigger] system_subs(fv.systems[i]).contains(k)
                    implies fv.sub_key_ok(k) by {
                assert(ov.sub_key_ok(k));
                if has_entity(fv.entities, k.entity_id) {
                    let a = choose|a: int|
                        0 <= a < fv.entities.len() && (#[trigger] fv.entities[a]).id
                            == k.entity_id;
                    assert(a < ov.entities.len());
                    lemma_entity_idx_unique(ov.entities, k.entity_id, a);
                    lemma_entity_idx_unique(fv.entities, k.entity_id, a);
                    assert(slots_of(fv.entities, k.entity_id) == slots_of(
                        ov.entities,
                        k.entity_id,
                    ));
                }
            };
            assert(fv.wf());
        }
        Entity::from_id(id)
    }

    /// Fans an attach notification out to every installed system, in
    /// registration order.
    pub(crate) fn on_component_added_to_entity(&mut self, key: ComponentKey, component: &Component)
        ensures
            (*final(self))@.entities == old(self)@.entities,
            (*final(self))@.next_id == old(self)@.next_id,
            (*final(self))@.systems == old(self)@.systems.map_values(
                |sv: SystemView| system_after_attach(sv, key, component@),
            ),
    {
        let n = self.systems.len();
        for i in 0..n
            invariant
                n == self@.systems.len(),
                n == (*old(self))@.systems.len(),
                self@.entities == (*old(self))@.entities,
                self@.next_id == (*old(self))@.next_id,
                forall|j: int|
                    0 <= j < i ==> self@.systems[j] == system_after_attach(
                        (*old(self))@.systems[j],
                        key,
                        component@,
                    ),
                forall|j: int| i <= j < n ==> self@.systems[j] == (*old(self))@.systems[j],
        {
            let ghost prev = self@.systems;
            match &mut self.systems[i] {
                System::Behaviour(b) => b.notify_attached(key, component),
            }
            proof {
                assert forall|j: int|
                    0 <= j <= i implies self@.systems[j] == system_after_attach(
                    (*old(self))@.systems[j],
                    key,
                    component@,
                ) by {
                    if j < i {
                        assert(self@.systems[j] == prev[j]);
                        assert(prev[j] == system_after_attach(
                            (*old(self))@.systems[j],
                            key,
                            component@,
                        ));
                    }
                };
            }
        }
        proof {
            assert(self@.systems =~~= (*old(self))@.systems.map_values(
                |sv: SystemView| system_after_attach(sv, key, component@),
            ));
        }
    }

    /// Fans a detach notification out to every installed system, in
    /// registration order.
    pub(crate) fn on_component_removed_from_entity(&mut self, key: ComponentKey)
        ensures
            (*final(self))@.entities == old(self)@.entities,
            (*final(self))@.next_id == old(self)@.next_id,
            (*final(self))@.systems == old(self)@.systems.map_values(
                |sv: SystemView| system_after_detach(sv, key),
            ),
    {
        let n = self.systems.len();
        for i in 0..n
            invariant
                n == self@.systems.len(),
                n == (*old(self))@.systems.len(),
                self@.entities == (*old(self))@.entities,
                self@.next_id == (*old(self))@.next_id,
                forall|j: int|
                    0 <= j < i ==> self@.systems[j] == system_after_detach(
                        (*old(self))@.systems[j],
                        key,
                    ),
                forall|j: int| i <= j < n ==> self@.systems[j] == (*old(self))@.systems[j],
        {
            let ghost prev = self@.systems;
            match &mut self.systems[i] {
                System::Behaviour(b) => b.notify_detached(key),
            }
            proof {
                assert forall|j: int|
                    0 <= j <= i implies self@.systems[j] == system_after_detach(
                    (*old(self))@.systems[j],
                    key,
                ) by {
                    if j < i {
                        assert(self@.systems[j] == prev[j]);
                        assert(prev[j] == system_after_detach((*old(self))@.systems[j], key));
                    }
                };
            }
        }
        proof {
            assert(self@.systems =~~= (*old(self))@.systems.map_values(
                |sv: SystemView| system_after_detach(sv, key),
            ));
        }
    }

    /// Attaches a component to entity `id` under type slot `tag`. Fails soft
    /// when the entity is not live or the slot is already filled; on success
    /// the component's back-reference is set and every system observes the
    /// attach.
    pub(crate) fn attach_component(&mut self, id: i64, tag: u64, component: Component) -> (r:
        Option<()>)
        requires
            old(self)@.wf(),
        ensures
            r is Some <==> can_attach(old(self)@, id, tag),
            r is Some ==> (*final(self))@ == scene_after_attach(old(self)@, id, tag, component@),
            r is None ==> (*final(self))@ == old(self)@,
            (*final(self))@.wf(),
    {
        let ghost ov = self@;
        match find_entity(&self.entities, id) {
            None => {
                None
            },
            Some(ei) => {
                proof {
                    lemma_entity_idx_unique(ov.entities, id, ei as int);
                }
                match self.entities[ei].data.find_tag(tag) {
                    Some(si) => {
                        proof {
                            assert(has_tag(slots_of(ov.entities, id), tag));
                        }
                        None
                    },
                    None => {
                        let mut c = component;
                        c.set_entity(Some(id));
                        let key = ComponentKey { entity_id: id, tag };
                        self.on_component_added_to_entity(key, &c);
                        proof {
                            assert(self@.entities == ov.entities);
                        }
                        self.entities[ei].data.attach(Slot { tag, component: c });
                        proof {
                            lemma_attach_result(ov, id, tag, component@, self@, ei as int);
                        }
                        Some(())
                    },
                }
            },
        }
    }

    /// Detaches the component stored under `tag` on entity `id`. Fails soft
    /// when the entity is not live or the slot is empty; on success the slot
    /// is removed and every system observes the detach.
    pub(crate) fn detach_component(&mut self, id: i64, tag: u64) -> (r: Option<()>)
        requires
            old(self)@.wf(),
        ensures
            r is Some <==> component_reachable(old(self)@, id, tag),
            r is Some ==> (*final(self))@ == scene_after_detach(old(self)@, id, tag),
            r is None ==> (*final(self))@ == old(self)@,
            (*final(self))@.wf(),
    {
        let ghost ov = self@;
        match find_entity(&self.entities, id) {
            None => {
                None
            },
            Some(ei) => {
                proof {
                    lemma_entity_idx_unique(ov.entities, id, ei as int);
                }
                match self.entities[ei].data.find_tag(tag) {
                    None => {
                        None
                    },
                    Some(si) => {
                        proof {
                            lemma_tag_idx_unique(ov.entities[ei as int].slots, tag, si as int);
                        }
                        let _removed = self.entities[ei].data.detach_at(si);
                        let key = ComponentKey { entity_id: id, tag };
                        self.on_component_removed_from_entity(key);
                        proof {
                            lemma_detach_result(ov, id, tag, self@, ei as int, si as int);
                        }
                        Some(())
                    },
                }
            },
        }
    }

    /// Exclusive typed access to the component stored under `tag` on entity
    /// `id`: applies `f` once to the component and returns its result.
    /// Fails soft when the entity is not live or the slot is empty.
    pub(crate) fn apply_component<R, F: FnOnce(&mut Component) -> R>(
        &mut self,
        id: i64,
        tag: u64,
        f: F,
    ) -> (r: Option<R>)
        requires
            old(self)@.wf(),
            forall|m: &mut Component| #[trigger] call_requires(f, (m,)),
        ensures
            r is Some <==> component_reachable(old(self)@, id, tag),
            r is None ==> (*final(self))@ == old(self)@,
            r matches Some(out) ==> exists|m: &mut Component, o: R|
                {
                    &&& #[trigger] call_ensures(f, (m,), o)
                    &&& o == out
                    &&& mut_ref_current(m)@ == comp_at(slots_of(old(self)@.entities, id), tag)
                    &&& (*final(self))@ == scene_after_use(
                        old(self)@,
                        id,
                        tag,
                        mut_ref_future(m)@,
                    )
                },
            (*final(self))@.wf(),
    {
        let ghost ov = self@;
        match find_entity(&self.entities, id) {
            None => {
                None
            },
            Some(ei) => {
                proof {
                    lemma_entity_idx_unique(ov.entities, id, ei as int);
                }
                match self.entities[ei].data.find_tag(tag) {
                    None => {
                        None
                    },
                    Some(si) => {
                        proof {
                            lemma_tag_idx_unique(ov.entities[ei as int].slots, tag, si as int);
                        }
                        let out = f(self.entities[ei].data.component_mut(si));
                        proof {
                            lemma_use_result(
                                ov,
                                id,
                                tag,
                                comp_of_view(self@, ei as int, si as int),
                                self@,
                                ei as int,
                                si as int,
                            );
                        }
                        Some(out)
                    },
                }
            },
        }
    }

    /// Destroys an entity: the destruction hook of every behaviour-capable
    /// component attached to it fires exactly once, in slot order, and the
    /// entity is removed; the torn-down component store is returned. The
    /// systems are not notified — a deliberate sharp edge: a behaviour
    /// system keeps a stale subscription that dispatch then skips.
    /// Destroying an entity that is already gone is a no-op.
    pub fn destroy_entity(&mut self, entity: &mut Entity) -> (r: Option<EntityData>)
        requires
            old(self)@.wf(),
        ensures
            r is Some <==> has_entity(old(self)@.entities, (*old(entity))@),
            r is None ==> (*final(self))@ == old(self)@ && (*final(entity))@ == (*old(entity))@,
            r matches Some(d) ==> {
                &&& d@ == destroyed_slots(slots_of(old(self)@.entities, (*old(entity))@))
                &&& (*final(self))@ == scene_after_destroy(old(self)@, (*old(entity))@)
                &&& (*final(entity))@ == -1
                &&& !has_entity((*final(self))@.entities, (*old(entity))@)
            },
            (*final(self))@.wf(),
    {
        let ghost ov = self@;
        let id = entity.get_id();
        match find_entity(&self.entities, id) {
            None => {
                None
            },
            Some(ei) => {
                proof {
                    lemma_entity_idx_unique(ov.entities, id, ei as int);
                }
                self.deinitialize_entity(ei);
                let ghost hv = self@;
                let entry = self.entities.remove(ei);
                entity.invalidate();
                proof {
                    assert(self@.entities =~= hv.entities.remove(ei as int));
                    lemma_destroy_result(ov, id, hv, self@, ei as int);
                    assert(entry@.slots == destroyed_slots(slots_of(ov.entities, id)));
                }
                Some(entry.data)
            },
        }
    }

    /// Runs the destruction hook of every component of the entity at table
    /// index `ei`, in slot order.
    fn deinitialize_entity(&mut self, ei: usize)
        requires
            ei < old(self)@.entities.len(),
        ensures
            (*final(self))@.systems == old(self)@.systems,
            (*final(self))@.next_id == old(self)@.next_id,
            (*final(self))@.entities.len() == old(self)@.entities.len(),
            forall|a: int|
                0 <= a < old(self)@.entities.len() && a != ei
                    ==> (*final(self))@.entities[a] == old(self)@.entities[a],
            (*final(self))@.entities[ei as int] == (EntityEntryView {
                id: old(self)@.entities[ei as int].id,
                slots: destroyed_slots(old(self)@.entities[ei as int].slots),
            }),
    {
        let ghost ov = self@;
        let m = self.entities[ei].data.len();
        for b in 0..m
            invariant
                ei < self@.entities.len(),
                self@.entities.len() == ov.entities.len(),
                m == ov.entities[ei as int].slots.len(),
                self@.systems == ov.systems,
                self@.next_id == ov.next_id,
                forall|a: int|
                    0 <= a < self@.entities.len() && a != ei ==> self@.entities[a]
                        == ov.entities[a],
                self@.entities[ei as int].id == ov.entities[ei as int].id,
                self@.entities[ei as int].slots.len() == m,
                forall|j: int|
                    0 <= j < b ==> self@.entities[ei as int].slots[j] == (SlotView {
                        tag: ov.entities[ei as int].slots[j].tag,
                        component: view_destroyed(ov.entities[ei as int].slots[j].component),
                    }),
                forall|j: int|
                    b <= j < m ==> self@.entities[ei as int].slots[j]
                        == ov.entities[ei as int].slots[j],
        {
            let ghost prev = self@.entities;
            self.entities[ei].data.component_mut(b).on_destroyed();
            proof {
                assert(forall|a: int|
                    0 <= a < prev.len() && a != ei ==> self@.entities[a] == prev[a]);
                assert forall|j: int|
                    0 <= j <= b implies self@.entities[ei as int].slots[j] == (SlotView {
                    tag: ov.entities[ei as int].slots[j].tag,
                    component: view_destroyed(ov.entities[ei as int].slots[j].component),
                }) by {
                    if j < b {
                        assert(self@.entities[ei as int].slots[j]
                            == prev[ei as int].slots[j]);
                    }
                };
            }
        }
        proof {
            assert((*final(self))@.entities[ei as int] =~~= (EntityEntryView {
                id: ov.entities[ei as int].id,
                slots: destroyed_slots(ov.entities[ei as int].slots),
            }));
        }
    }

    /// The index of the installed system of kind `tag`, if any.
    fn find_system(&self, tag: u64) -> (r: Option<usize>)
        ensures
            match r {
                Some(i) => {
                    &&& i < self@.systems.len()
                    &&& system_tag(self@.systems[i as int]) == tag
                    &&& forall|j: int| 0 <= j < i ==> system_tag(self@.systems[j]) != tag
                },
                None => !has_system(self@.systems, tag),
            },
    {
        let n = self.systems.len();
        for i in 0..n
            invariant
                n == self@.systems.len(),
                forall|j: int| 0 <= j < i ==> system_tag(self@.systems[j]) != tag,
        {
            let t = self.systems[i].tag();
            if t == tag {
                return Some(i);
            }
        }
        None
    }

    /// Installs a system; at most one per concrete kind. Adding a second
    /// system of an already installed kind fails and keeps the first.
    /// A system is installed before it observes anything.
    pub fn add_system(&mut self, sys: System) -> (r: Option<()>)
        requires
            old(self)@.wf(),
            system_fresh(sys@),
        ensures
            r is Some <==> !has_system(old(self)@.systems, system_tag(sys@)),
            r is Some ==> (*final(self))@ == (SceneView {
                systems: old(self)@.systems.push(sys@),
                ..old(self)@
            }),
            r is None ==> (*final(self))@ == old(self)@,
            (*final(self))@.wf(),
    {
        let ghost ov = self@;
        let t = sys.tag();
        match self.find_system(t) {
            Some(i) => {
                proof {
                    assert(has_system(ov.systems, t));
                }
                None
            },
            None => {
                self.systems.push(sys);
                proof {
                    assert(self@.systems =~= ov.systems.push(sys@));
                    assert(self@ =~~= (SceneView { systems: ov.systems.push(sys@), ..ov }));
                    let fv = self@;
                    assert forall|i: int, k: ComponentKey|
                        0 <= i < fv.systems.len() && #[trigger] system_subs(
                            fv.systems[i],
                        ).contains(k) implies fv.sub_key_ok(k) by {
                        if i < ov.systems.len() {
                            assert(ov.sub_key_ok(k));
                        } else {
                            assert(system_subs(fv.systems[i]).len() == 0);
                            let j = choose|j: int|
                                0 <= j < system_subs(fv.systems[i]).len() && (
                                #[trigger] system_subs(fv.systems[i])[j]) == k;
                        }
                    };
                    assert(fv.wf());
                }
                Some(())
            },
        }
    }

    /// Removes the installed system of kind `tag`, if any.
    pub fn remove_system(&mut self, tag: u64) -> (r: Option<()>)
        requires
            old(self)@.wf(),
        ensures
            r is Some <==> has_system(old(self)@.systems, tag),
            r is Some ==> (*final(self))@ == (SceneView {
                systems: old(self)@.systems.remove(system_idx(old(self)@.systems, tag)),
                ..old(self)@
            }),
            r is None ==> (*final(self))@ == old(self)@,
            (*final(self))@.wf(),
    {
        let ghost ov = self@;
        match self.find_system(tag) {
            None => {
                None
            },
            Some(i) => {
                proof {
                    lemma_system_idx_unique(ov.systems, tag, i as int);
                }
                self.systems.remove(i);
                proof {
                    assert(self@.systems =~= ov.systems.remove(i as int));
                    assert(self@ =~~= (SceneView {
                        systems: ov.systems.remove(system_idx(ov.systems, tag)),
                        ..ov
                    }));
                    let fv = self@;
                    assert forall|a: int, b: int|
                        0 <= a < b < fv.systems.len() implies system_tag(fv.systems[a])
                        != system_tag(fv.systems[b]) by {
                        let a2: int = if a < i { a } else { a + 1 };
                        let b2: int = if b < i { b } else { b + 1 };
                        assert(fv.systems[a] == ov.systems[a2] && fv.systems[b]
                            == ov.systems[b2]);
                    };
                    assert forall|si: int, k: ComponentKey|
                        0 <= si < fv.systems.len() && #[trigger] system_subs(
                            fv.systems[si],
                        ).contains(k) implies fv.sub_key_ok(k) by {
                        let s2: int = if si < i { si } else { si + 1 };
                        assert(fv.systems[si] == ov.systems[s2]);
                        assert(ov.sub_key_ok(k));
                    };
                    assert(fv.wf());
                }
                Some(())
            },
        }
    }

    /// Read access to the installed system of kind `tag`, if any.
    pub fn get_system(&self, tag: u64) -> (r: Option<&System>)
        requires
            self@.wf(),
        ensures
            match r {
                Some(s) => has_system(self@.systems, tag) && s@ == self@.systems[system_idx(
                    self@.systems,
                    tag,
                )],
                None => !has_system(self@.systems, tag),
            },
    {
        match self.find_system(tag) {
            None => {
                None
            },
            Some(i) => {
                proof {
                    lemma_system_idx_unique(self@.systems, tag, i as int);
                }
                Some(&self.systems[i])
            },
        }
    }

    /// Read access to the component store of entity `id`, if it is live.
    pub fn get_entity_data(&self, id: i64) -> (r: Option<&EntityData>)
        requires
            self@.wf(),
        ensures
            match r {
                Some(d) => has_entity(self@.entities, id) && d@ == slots_of(self@.entities, id),
                None => !has_entity(self@.entities, id),
            },
    {
        match find_entity(&self.entities, id) {
            None => {
                None
            },
            Some(ei) => {
                proof {
                    lemma_entity_idx_unique(self@.entities, id, ei as int);
                }
                Some(&self.entities[ei].data)
            },
        }
    }

    /// One update tick: every installed system that offers the update
    /// capability runs one update pass, in registration order.
    pub fn update(&mut self)
        requires
            old(self)@.wf(),
        ensures
            (*final(self))@ == scene_after_pass(old(self)@, false),
            (*final(self))@.wf(),
    {
        self.run_registry_pass(false);
    }

    /// One draw tick: every installed system that offers the draw
    /// capability runs one draw pass, in registration order.
    pub fn draw(&mut self)
        requires
            old(self)@.wf(),
        ensures
            (*final(self))@ == scene_after_pass(old(self)@, true),
            (*final(self))@.wf(),
    {
        self.run_registry_pass(true);
    }

    /// Dispatches only the behaviour system's update pass, bypassing every
    /// other system. With the single built-in system kind this coincides
    /// with a full update tick.
    pub fn update_behaviour(&mut self)
        requires
            old(self)@.wf(),
        ensures
            (*final(self))@ == scene_after_pass(old(self)@, false),
            (*final(self))@.wf(),
    {
        match self.find_system(BEHAVIOUR_SYSTEM_TAG) {
            None => {
                proof {
                    if self@.systems.len() > 0 {
                        assert(system_tag(self@.systems[0]) == BEHAVIOUR_SYSTEM_TAG);
                    }
                }
            },
            Some(i) => {
                self.run_registry_pass(false);
            },
        }
    }

    /// Dispatches only the behaviour system's draw pass, bypassing every
    /// other system. With the single built-in system kind this coincides
    /// with a full draw tick.
    pub fn draw_behaviour(&mut self)
        requires
            old(self)@.wf(),
        ensures
            (*final(self))@ == scene_after_pass(old(self)@, true),
            (*final(self))@.wf(),
    {
        match self.find_system(BEHAVIOUR_SYSTEM_TAG) {
            None => {
                proof {
                    if self@.systems.len() > 0 {
                        assert(system_tag(self@.systems[0]) == BEHAVIOUR_SYSTEM_TAG);
                    }
                }
            },
            Some(i) => {
                self.run_registry_pass(true);
            },
        }
    }

    /// Runs one dispatch pass of the installed system over the entity
    /// table; under the invariant the registry holds at most one system.
    fn run_registry_pass(&mut self, draw: bool)
        requires
            old(self)@.wf(),
        ensures
            (*final(self))@ == scene_after_pass(old(self)@, draw),
            (*final(self))@.wf(),
    {
        let ghost ov = self@;
        if self.systems.len() > 0 {
            proof {
                assert(ov.systems.len() == 1) by {
                    if ov.systems.len() > 1 {
                        assert(system_tag(ov.systems[0]) != system_tag(ov.systems[1]));
                    }
                };
            }
            let capable = if draw {
                self.systems[0].drawable()
            } else {
                self.systems[0].updatable()
            };
            if !capable {
                return ;
            }
            match &mut self.systems[0] {
                System::Behaviour(b) => {
                    if draw {
                        b.run_draw(&mut self.entities);
                    } else {
                        b.run_update(&mut self.entities);
                    }
                },
            }
            proof {
                let fv = self@;
                assert(fv.systems =~= ov.systems.update(
                    0,
                    fv.systems[0],
                ));
                assert(fv =~~= scene_after_pass(ov, draw));
                lemma_pass_shape(ov.entities, system_subs(ov.systems[0]), draw);
                lemma_wf_same_shape(ov, fv);
            }
        }
    }
}

/// What exclusive access leaves behind: the slot holds the closure's
/// result, everything else is untouched, and the invariant holds.
proof fn lemma_use_result(
    ov: SceneView,
    id: i64,
    tag: u64,
    cv: ComponentView,
    fv: SceneView,
    ei: int,
    si: int,
)
    requires
        ov.wf(),
        component_reachable(ov, id, tag),
        0 <= ei < ov.entities.len(),
        ov.entities[ei].id == id,
        entity_idx_of(ov, id) == ei,
        0 <= si < ov.entities[ei].slots.len(),
        ov.entities[ei].slots[si].tag == tag,
        crate::entitydata::tag_idx(ov.entities[ei].slots, tag) == si,
        fv.next_id == ov.next_id,
        fv.systems == ov.systems,
        fv.entities =~= ov.entities.update(
            ei,
            EntityEntryView {
                id,
                slots: ov.entities[ei].slots.update(si, SlotView { tag, component: cv }),
            },
        ),
    ensures
        fv == scene_after_use(ov, id, tag, cv),
        fv.wf(),
{
    assert(fv =~~= scene_after_use(ov, id, tag, cv));
    lemma_wf_same_shape(ov, fv);
}

/// The component stored at entity index `ei`, slot index `si`.
pub open spec fn comp_of_view(v: SceneView, ei: int, si: int) -> ComponentView {
    v.entities[ei].slots[si].component
}

/// What destruction leaves behind: the entity is gone, everything else —
/// the systems included — is untouched, and the invariant holds.
proof fn lemma_destroy_result(ov: SceneView, id: i64, hv: SceneView, fv: SceneView, ei: int)
    requires
        ov.wf(),
        0 <= ei < ov.entities.len(),
        ov.entities[ei].id == id,
        entity_idx_of(ov, id) == ei,
        hv.next_id == ov.next_id,
        hv.systems == ov.systems,
        hv.entities.len() == ov.entities.len(),
        forall|a: int|
            0 <= a < ov.entities.len() && a != ei ==> (#[trigger] hv.entities[a])
                == ov.entities[a],
        hv.entities[ei].id == ov.entities[ei].id,
        fv.next_id == hv.next_id,
        fv.systems == hv.systems,
        fv.entities =~= hv.entities.remove(ei),
    ensures
        fv == scene_after_destroy(ov, id),
        fv.wf(),
        !has_entity(fv.entities, id),
{
    assert forall|a: int|
        0 <= a < fv.entities.len() implies #[trigger] fv.entities[a] == ov.entities.remove(
        ei,
    )[a] by {
        let a2: int = if a < ei { a } else { a + 1 };
        assert(fv.entities[a] == hv.entities[a2]);
        assert(hv.entities[a2] == ov.entities[a2]);
    };
    assert(fv.entities =~= ov.entities.remove(ei));
    assert(fv =~~= scene_after_destroy(ov, id));
    assert(!has_entity(fv.entities, id)) by {
        if has_entity(fv.entities, id) {
            let a = choose|a: int|
                0 <= a < fv.entities.len() && (#[trigger] fv.entities[a]).id == id;
            let a2: int = if a < ei { a } else { a + 1 };
            assert(ov.entities[a2].id == id && ov.entities[ei].id == id && a2 != ei);
        }
    };
    assert(ids_distinct(fv.entities)) by {
        assert forall|a: int, b: int|
            0 <= a < b < fv.entities.len() implies fv.entities[a].id != fv.entities[b].id by {
            let a2: int = if a < ei { a } else { a + 1 };
            let b2: int = if b < ei { b } else { b + 1 };
            assert(fv.entities[a] == ov.entities[a2] && fv.entities[b] == ov.entities[b2]);
        };
    };
    assert forall|a: int| 0 <= a < fv.entities.len() implies slots_wf(
        (#[trigger] fv.entities[a]).slots,
    ) by {
        let a2: int = if a < ei { a } else { a + 1 };
        assert(fv.entities[a] == ov.entities[a2]);
        assert(slots_wf(ov.entities[a2].slots));
    };
    assert forall|i: int, k: ComponentKey|
        0 <= i < fv.systems.len() && #[trigger] system_subs(fv.systems[i]).contains(k)
            implies fv.sub_key_ok(k) by {
        assert(system_subs(ov.systems[i]).contains(k));
        assert(ov.sub_key_ok(k));
        if has_entity(fv.entities, k.entity_id) {
            let a = choose|a: int|
                0 <= a < fv.entities.len() && (#[trigger] fv.entities[a]).id == k.entity_id;
            let a2: int = if a < ei { a } else { a + 1 };
            assert(fv.entities[a] == ov.entities[a2]);
            lemma_entity_idx_unique(ov.entities, k.entity_id, a2);
            lemma_entity_idx_unique(fv.entities, k.entity_id, a);
            assert(has_entity(ov.entities, k.entity_id));
            let b = choose|b: int|
                0 <= b < slots_of(ov.entities, k.entity_id).len() && (#[trigger] slots_of(
                    ov.entities,
                    k.entity_id,
                )[b]).tag == k.tag;
            assert(fv.entities[a].slots[b].tag == k.tag);
            assert(has_tag(slots_of(fv.entities, k.entity_id), k.tag));
        }
    };
    assert(fv.wf());
}

/// The exact-subscription invariant of one subscription list: it holds an
/// identity if and only if that identity names a behaviour-capable component
/// attached to a live entity, and holds none twice.
pub open spec fn subs_exact_for(subs: Seq<ComponentKey>, es: Seq<EntityEntryView>) -> bool {
    &&& keys_distinct(subs)
    &&& forall|k: ComponentKey| #[trigger] subs.contains(k) <==> key_dispatchable(es, k)
}

/// The exact-subscription invariant of a scene: every installed system's
/// subscription set equals exactly the set of identities of the
/// behaviour-capable components currently attached to live entities — never
/// more, never less, no duplicates.
pub open spec fn subs_exact(v: SceneView) -> bool {
    forall|i: int|
        0 <= i < v.systems.len() ==> subs_exact_for(
            system_subs(#[trigger] v.systems[i]),
            v.entities,
        )
}

/// A scene with no systems holds the exact-subscription invariant
/// vacuously; with the lemmas below it then holds along any run of system
/// installs (before components arrive), entity creations, attaches and
/// detaches. Destruction deliberately breaks it: stale subscriptions stay
/// behind, and dispatch skips them.
pub proof fn lemma_no_systems_subs_exact(v: SceneView)
    requires
        v.systems.len() == 0,
    ensures
        subs_exact(v),
{
}

/// Installing a fresh system before any behaviour-capable component is
/// attached keeps every subscription list exact: the new list is empty, and
/// so is the set of attached behaviour-capable components.
pub proof fn lemma_add_system_preserves_subs_exact(v: SceneView, sv: SystemView)
    requires
        subs_exact(v),
        system_fresh(sv),
        forall|k: ComponentKey| !#[trigger] key_dispatchable(v.entities, k),
    ensures
        subs_exact(SceneView { systems: v.systems.push(sv), ..v }),
{
    let fv = SceneView { systems: v.systems.push(sv), ..v };
    assert forall|i: int|
        0 <= i < fv.systems.len() implies subs_exact_for(
        system_subs(#[trigger] fv.systems[i]),
        fv.entities,
    ) by {
        if i < v.systems.len() {
            assert(fv.systems[i] == v.systems[i]);
            assert(subs_exact_for(system_subs(v.systems[i]), v.entities));
        } else {
            assert(fv.systems[i] == sv);
            assert forall|k: ComponentKey| !(#[trigger] system_subs(sv).contains(k)) by {
                if system_subs(sv).contains(k) {
                    let j = choose|j: int|
                        0 <= j < system_subs(sv).len() && (#[trigger] system_subs(sv)[j]) == k;
                }
            };
        }
    };
}

/// Creating an entity preserves the exact-subscription invariant: the new
/// entity holds no components, so nothing becomes dispatchable.
pub proof fn lemma_create_entity_preserves_subs_exact(v: SceneView, id: i64)
    requires
        v.wf(),
        subs_exact(v),
        !has_entity(v.entities, id),
    ensures
        subs_exact(
            SceneView {
                entities: v.entities.push(EntityEntryView { id, slots: Seq::empty() }),
                ..v
            },
        ),
{
    let fs = v.entities.push(EntityEntryView { id, slots: Seq::empty() });
    let fv = SceneView { entities: fs, ..v };
    assert forall|k: ComponentKey|
        #[trigger] key_dispatchable(fs, k) == key_dispatchable(v.entities, k) by {
        if key_dispatchable(fs, k) {
            let a = choose|a: int| 0 <= a < fs.len() && (#[trigger] fs[a]).id == k.entity_id;
            let b = choose|b: int|
                0 <= b < slots_of(fs, k.entity_id).len() && (#[trigger] slots_of(
                    fs,
                    k.entity_id,
                )[b]).tag == k.tag;
            if a < v.entities.len() {
                assert(fs[a] == v.entities[a]);
                lemma_entity_idx_unique(v.entities, k.entity_id, a);
                let ei = crate::entitydata::entity_idx(fs, k.entity_id);
                assert(fs[ei].id == k.entity_id);
                assert(ei < v.entities.len()) by {
                    if ei == v.entities.len() {
                        assert(fs[ei].id == id);
                        assert(has_entity(v.entities, id)) by {
                            assert(v.entities[a].id == id);
                        };
                    }
                };
                assert(fs[ei] == v.entities[ei]);
                lemma_tag_idx_unique(v.entities[ei].slots, k.tag, b);
                assert(key_dispatchable(v.entities, k));
            } else {
                assert(fs[a].slots.len() == 0);
                assert(slots_of(fs, k.entity_id).len() > b);
                let ei = crate::entitydata::entity_idx(fs, k.entity_id);
                assert(fs[ei].id == k.entity_id);
                if ei < v.entities.len() {
                    assert(key_dispatchable(v.entities, k)) by {
                        lemma_tag_idx_unique(v.entities[ei].slots, k.tag, b);
                    };
                } else {
                    assert(fs[ei].slots.len() == 0);
                }
            }
        }
        if key_dispatchable(v.entities, k) {
            let a = choose|a: int|
                0 <= a < v.entities.len() && (#[trigger] v.entities[a]).id == k.entity_id;
            lemma_entity_idx_unique(v.entities, k.entity_id, a);
            assert(fs[a] == v.entities[a]);
            assert(ids_distinct(fs)) by {
                assert forall|x: int, y: int|
                    0 <= x < y < fs.len() implies fs[x].id != fs[y].id by {
                    if y == fs.len() - 1 {
                        assert(fs[x] == v.entities[x]);
                        if v.entities[x].id == id {
                            assert(has_entity(v.entities, id));
                        }
                    }
                };
            };
            lemma_entity_idx_unique(fs, k.entity_id, a);
            let b = choose|b: int|
                0 <= b < slots_of(v.entities, k.entity_id).len() && (#[trigger] slots_of(
                    v.entities,
                    k.entity_id,
                )[b]).tag == k.tag;
            lemma_tag_idx_unique(v.entities[a].slots, k.tag, b);
            lemma_tag_idx_unique(fs[a].slots, k.tag, b);
            assert(key_dispatchable(fs, k));
        }
    };
    assert forall|i: int|
        0 <= i < fv.systems.len() implies subs_exact_for(
        system_subs(#[trigger] fv.systems[i]),
        fv.entities,
    ) by {
        assert(subs_exact_for(system_subs(v.systems[i]), v.entities));
        assert forall|k: ComponentKey| #[trigger]
            system_subs(fv.systems[i]).contains(k) <==> key_dispatchable(fv.entities, k) by {
            assert(system_subs(v.systems[i]).contains(k) <==> key_dispatchable(v.entities, k));
        };
    };
}

/// How an attach changes which identities are dispatchable: exactly the new
/// component's identity is added, when it is behaviour-capable.
proof fn lemma_attach_dispatchable(v: SceneView, id: i64, tag: u64, cv: ComponentView)
    requires
        v.wf(),
        can_attach(v, id, tag),
    ensures
        forall|k: ComponentKey|
            key_dispatchable(#[trigger] scene_after_attach(v, id, tag, cv).entities, k) <==> (
            key_dispatchable(v.entities, k) || (k == key_of(id, tag) && view_is_behaviour(
                view_with_entity(cv, Some(id)),
            ))),
{
    let fv = scene_after_attach(v, id, tag, cv);
    let stored = view_with_entity(cv, Some(id));
    let ei = entity_idx_of(v, id);
    let a0 = choose|a: int| 0 <= a < v.entities.len() && (#[trigger] v.entities[a]).id == id;
    lemma_entity_idx_unique(v.entities, id, a0);
    assert(forall|a: int|
        0 <= a < fv.entities.len() ==> (#[trigger] fv.entities[a]).id == v.entities[a].id);
    assert forall|k: ComponentKey|
        key_dispatchable(#[trigger] fv.entities, k) <==> (key_dispatchable(v.entities, k) || (k
            == key_of(id, tag) && view_is_behaviour(stored))) by {
        if key_dispatchable(fv.entities, k) {
            let a = choose|a: int|
                0 <= a < fv.entities.len() && (#[trigger] fv.entities[a]).id == k.entity_id;
            lemma_entity_idx_unique(fv.entities, k.entity_id, a);
            lemma_entity_idx_unique(v.entities, k.entity_id, a);
            let fs = slots_of(fv.entities, k.entity_id);
            let b = choose|b: int| 0 <= b < fs.len() && (#[trigger] fs[b]).tag == k.tag;
            lemma_tag_idx_unique(fs, k.tag, b);
            if a == ei {
                if b < v.entities[ei].slots.len() {
                    assert(fs[b] == v.entities[ei].slots[b]);
                    lemma_tag_idx_unique(v.entities[ei].slots, k.tag, b);
                    assert(key_dispatchable(v.entities, k));
                } else {
                    assert(fs[b] == (SlotView { tag, component: stored }));
                    assert(k.tag == tag && k.entity_id == id);
                    assert(k == key_of(id, tag));
                }
            } else {
                assert(fv.entities[a] == v.entities[a]);
                lemma_tag_idx_unique(v.entities[a].slots, k.tag, b);
                assert(key_dispatchable(v.entities, k));
            }
        }
        if key_dispatchable(v.entities, k) {
            let a = choose|a: int|
                0 <= a < v.entities.len() && (#[trigger] v.entities[a]).id == k.entity_id;
            lemma_entity_idx_unique(v.entities, k.entity_id, a);
            lemma_entity_idx_unique(fv.entities, k.entity_id, a);
            let os = slots_of(v.entities, k.entity_id);
            let b = choose|b: int| 0 <= b < os.len() && (#[trigger] os[b]).tag == k.tag;
            lemma_tag_idx_unique(os, k.tag, b);
            if a == ei {
                assert(fv.entities[a].slots[b] == os[b]);
                lemma_tag_idx_unique(fv.entities[a].slots, k.tag, b);
            } else {
                assert(fv.entities[a] == v.entities[a]);
                lemma_tag_idx_unique(fv.entities[a].slots, k.tag, b);
            }
            assert(key_dispatchable(fv.entities, k));
        }
        if k == key_of(id, tag) && view_is_behaviour(stored) {
            lemma_entity_idx_unique(fv.entities, id, ei);
            let nb = fv.entities[ei].slots.len() - 1;
            assert(fv.entities[ei].slots[nb] == (SlotView { tag, component: stored }));
            lemma_tag_idx_unique(fv.entities[ei].slots, tag, nb);
            assert(key_dispatchable(fv.entities, k));
        }
    };
}

/// How a detach changes which identities are dispatchable: exactly the
/// detached identity is removed.
proof fn lemma_detach_dispatchable(v: SceneView, id: i64, tag: u64)
    requires
        v.wf(),
        component_reachable(v, id, tag),
    ensures
        forall|k: ComponentKey|
            key_dispatchable(#[trigger] scene_after_detach(v, id, tag).entities, k) <==> (
            key_dispatchable(v.entities, k) && k != key_of(id, tag)),
{
    let fv = scene_after_detach(v, id, tag);
    let ei = entity_idx_of(v, id);
    let a0 = choose|a: int| 0 <= a < v.entities.len() && (#[trigger] v.entities[a]).id == id;
    lemma_entity_idx_unique(v.entities, id, a0);
    let os0 = v.entities[ei].slots;
    let b0 = choose|b: int| 0 <= b < os0.len() && (#[trigger] os0[b]).tag == tag;
    lemma_tag_idx_unique(os0, tag, b0);
    let si = b0;
    assert(forall|a: int|
        0 <= a < fv.entities.len() ==> (#[trigger] fv.entities[a]).id == v.entities[a].id);
    assert forall|k: ComponentKey|
        key_dispatchable(#[trigger] fv.entities, k) <==> (key_dispatchable(v.entities, k) && k
            != key_of(id, tag)) by {
        if key_dispatchable(fv.entities, k) {
            let a = choose|a: int|
                0 <= a < fv.entities.len() && (#[trigger] fv.entities[a]).id == k.entity_id;
            lemma_entity_idx_unique(fv.entities, k.entity_id, a);
            lemma_entity_idx_unique(v.entities, k.entity_id, a);
            let fs = slots_of(fv.entities, k.entity_id);
            let b = choose|b: int| 0 <= b < fs.len() && (#[trigger] fs[b]).tag == k.tag;
            lemma_tag_idx_unique(fs, k.tag, b);
            if a == ei {
                let ob: int = if b < si {
                    b
                } else {
                    b + 1
                };
                assert(fs[b] == os0[ob]);
                lemma_tag_idx_unique(os0, k.tag, ob);
                assert(key_dispatchable(v.entities, k));
                assert(os0[si].tag == tag && ob != si);
                assert(k != key_of(id, tag));
            } else {
                assert(fv.entities[a] == v.entities[a]);
                lemma_tag_idx_unique(v.entities[a].slots, k.tag, b);
                assert(key_dispatchable(v.entities, k));
                assert(k.entity_id != id);
            }
        }
        if key_dispatchable(v.entities, k) && k != key_of(id, tag) {
            let a = choose|a: int|
                0 <= a < v.entities.len() && (#[trigger] v.entities[a]).id == k.entity_id;
            lemma_entity_idx_unique(v.entities, k.entity_id, a);
            lemma_entity_idx_unique(fv.entities, k.entity_id, a);
            let os = slots_of(v.entities, k.entity_id);
            let b = choose|b: int| 0 <= b < os.len() && (#[trigger] os[b]).tag == k.tag;
            lemma_tag_idx_unique(os, k.tag, b);
            if a == ei {
                assert(b != si);
                let nb: int = if b < si {
                    b
                } else {
                    b - 1
                };
                assert(fv.entities[a].slots[nb] == os[b]);
                lemma_tag_idx_unique(fv.entities[a].slots, k.tag, nb);
            } else {
                assert(fv.entities[a] == v.entities[a]);
                lemma_tag_idx_unique(fv.entities[a].slots, k.tag, b);
            }
            assert(key_dispatchable(fv.entities, k));
        }
    };
}

/// Exclusive access preserves the exact-subscription invariant as long as
/// the replacement keeps the component's capability: replacing a stored
/// value changes nothing about which identities are attached.
pub proof fn lemma_use_preserves_subs_exact(v: SceneView, id: i64, tag: u64, cv: ComponentView)
    requires
        v.wf(),
        subs_exact(v),
        component_reachable(v, id, tag),
        view_is_behaviour(cv) == view_is_behaviour(comp_at(slots_of(v.entities, id), tag)),
    ensures
        subs_exact(scene_after_use(v, id, tag, cv)),
{
    let fv = scene_after_use(v, id, tag, cv);
    let ei = entity_idx_of(v, id);
    let a0 = choose|a: int| 0 <= a < v.entities.len() && (#[trigger] v.entities[a]).id == id;
    lemma_entity_idx_unique(v.entities, id, a0);
    let si = crate::entitydata::tag_idx(v.entities[ei].slots, tag);
    let b0 = choose|b: int|
        0 <= b < v.entities[ei].slots.len() && (#[trigger] v.entities[ei].slots[b]).tag == tag;
    lemma_tag_idx_unique(v.entities[ei].slots, tag, b0);
    assert(forall|a: int|
        0 <= a < fv.entities.len() ==> (#[trigger] fv.entities[a]).id == v.entities[a].id);
    assert forall|k: ComponentKey|
        #[trigger] key_dispatchable(fv.entities, k) == key_dispatchable(v.entities, k) by {
        if key_dispatchable(fv.entities, k) {
            let a = choose|a: int|
                0 <= a < fv.entities.len() && (#[trigger] fv.entities[a]).id == k.entity_id;
            lemma_entity_idx_unique(fv.entities, k.entity_id, a);
            lemma_entity_idx_unique(v.entities, k.entity_id, a);
            let b = choose|b: int|
                0 <= b < fv.entities[a].slots.len() && (#[trigger] fv.entities[a].slots[b]).tag
                    == k.tag;
            lemma_tag_idx_unique(fv.entities[a].slots, k.tag, b);
            lemma_tag_idx_unique(v.entities[a].slots, k.tag, b);
            assert(key_dispatchable(v.entities, k));
        }
        if key_dispatchable(v.entities, k) {
            let a = choose|a: int|
                0 <= a < v.entities.len() && (#[trigger] v.entities[a]).id == k.entity_id;
            lemma_entity_idx_unique(v.entities, k.entity_id, a);
            lemma_entity_idx_unique(fv.entities, k.entity_id, a);
            let b = choose|b: int|
                0 <= b < v.entities[a].slots.len() && (#[trigger] v.entities[a].slots[b]).tag
                    == k.tag;
            lemma_tag_idx_unique(v.entities[a].slots, k.tag, b);
            lemma_tag_idx_unique(fv.entities[a].slots, k.tag, b);
            assert(key_dispatchable(fv.entities, k));
        }
    };
    assert forall|i: int|
        0 <= i < fv.systems.len() implies subs_exact_for(
        system_subs(#[trigger] fv.systems[i]),
        fv.entities,
    ) by {
        assert(subs_exact_for(system_subs(v.systems[i]), v.entities));
        assert forall|k: ComponentKey| #[trigger]
            system_subs(fv.systems[i]).contains(k) <==> key_dispatchable(fv.entities, k) by {
            assert(system_subs(v.systems[i]).contains(k) <==> key_dispatchable(v.entities, k));
        };
    };
}

/// Attaching a component preserves the exact-subscription invariant: every
/// system observes the attach, so the subscriptions grow by exactly the new
/// identity when the component is behaviour-capable and stay put otherwise.
pub proof fn lemma_attach_preserves_subs_exact(v: SceneView, id: i64, tag: u64, cv: ComponentView)
    requires
        v.wf(),
        subs_exact(v),
        can_attach(v, id, tag),
    ensures
        subs_exact(scene_after_attach(v, id, tag, cv)),
{
    let fv = scene_after_attach(v, id, tag, cv);
    let stored = view_with_entity(cv, Some(id));
    let key = key_of(id, tag);
    lemma_attach_dispatchable(v, id, tag, cv);
    assert forall|i: int|
        0 <= i < fv.systems.len() implies subs_exact_for(
        system_subs(#[trigger] fv.systems[i]),
        fv.entities,
    ) by {
        let osub = system_subs(v.systems[i]);
        assert(subs_exact_for(osub, v.entities));
        assert(!osub.contains(key)) by {
            if osub.contains(key) {
                assert(key_dispatchable(v.entities, key));
            }
        };
        crate::behavioursystem::lemma_push_contains(osub, key);
        if view_is_behaviour(stored) {
            assert(system_subs(fv.systems[i]) == osub.push(key));
            crate::behavioursystem::lemma_push_distinct(osub, key);
        } else {
            assert(system_subs(fv.systems[i]) == osub);
        }
        assert forall|k: ComponentKey| #[trigger]
            system_subs(fv.systems[i]).contains(k) <==> key_dispatchable(fv.entities, k) by {
            assert(osub.contains(k) <==> key_dispatchable(v.entities, k));
        };
    };
}

/// Detaching a component preserves the exact-subscription invariant: every
/// system observes the detach, so the identity leaves every subscription
/// list and nothing else changes.
pub proof fn lemma_detach_preserves_subs_exact(v: SceneView, id: i64, tag: u64)
    requires
        v.wf(),
        subs_exact(v),
        component_reachable(v, id, tag),
    ensures
        subs_exact(scene_after_detach(v, id, tag)),
{
    let fv = scene_after_detach(v, id, tag);
    let key = key_of(id, tag);
    lemma_detach_dispatchable(v, id, tag);
    assert forall|i: int|
        0 <= i < fv.systems.len() implies subs_exact_for(
        system_subs(#[trigger] fv.systems[i]),
        fv.entities,
    ) by {
        let osub = system_subs(v.systems[i]);
        assert(subs_exact_for(osub, v.entities));
        crate::behavioursystem::lemma_keys_without_props(osub, key);
        assert(system_subs(fv.systems[i]) == keys_without(osub, key));
        assert forall|k: ComponentKey| #[trigger]
            system_subs(fv.systems[i]).contains(k) <==> key_dispatchable(fv.entities, k) by {
            assert(osub.contains(k) <==> key_dispatchable(v.entities, k));
            if !keys_without(osub, key).contains(k) && osub.contains(k) && k != key {
                crate::behavioursystem::lemma_keys_without_keeps(osub, key, k);
            }
        };
    };
}

/// An identity that was never subscribed survives a detach list untouched;
/// with that, attaching a component and immediately detaching it restores
/// the scene exactly: the entity's slots, every system's subscriptions, and
/// the id counter are all as they were before the attach.
pub proof fn lemma_attach_detach_round_trip(v: SceneView, id: i64, tag: u64, cv: ComponentView)
    requires
        v.wf(),
        can_attach(v, id, tag),
    ensures
        scene_after_detach(scene_after_attach(v, id, tag, cv), id, tag) == v,
{
    let stored = view_with_entity(cv, Some(id));
    let key = key_of(id, tag);
    let av = scene_after_attach(v, id, tag, cv);
    let fv = scene_after_detach(av, id, tag);
    let ei = entity_idx_of(v, id);
    let a0 = choose|a: int| 0 <= a < v.entities.len() && (#[trigger] v.entities[a]).id == id;
    lemma_entity_idx_unique(v.entities, id, a0);
    assert(forall|a: int|
        0 <= a < av.entities.len() ==> (#[trigger] av.entities[a]).id == v.entities[a].id);
    lemma_entity_idx_unique(av.entities, id, ei);
    // the pushed slot is the unique holder of the new tag, at the end
    let nlen = av.entities[ei].slots.len() - 1;
    assert(av.entities[ei].slots[nlen] == (SlotView { tag, component: stored }));
    assert forall|b: int| 0 <= b < nlen implies av.entities[ei].slots[b].tag != tag by {
        assert(av.entities[ei].slots[b] == v.entities[ei].slots[b]);
    };
    lemma_tag_idx_unique(av.entities[ei].slots, tag, nlen);
    assert(av.entities[ei].slots.remove(nlen) =~= v.entities[ei].slots);
    // every system's subscriptions return to what they were
    assert forall|i: int|
        0 <= i < fv.systems.len() implies system_subs(#[trigger] fv.systems[i]) == system_subs(
        v.systems[i],
    ) by {
        let osub = system_subs(v.systems[i]);
        assert(!osub.contains(key)) by {
            if osub.contains(key) {
                assert(v.sub_key_ok(key));
                assert(has_tag(slots_of(v.entities, id), tag));
            }
        };
        if view_is_behaviour(stored) {
            assert(system_subs(av.systems[i]) == osub.push(key));
            lemma_keys_without_push_back(osub, key);
        } else {
            assert(system_subs(av.systems[i]) == osub);
            lemma_keys_without_absent(osub, key);
        }
    };
    assert forall|i: int|
        0 <= i < fv.systems.len() implies #[trigger] fv.systems[i] == v.systems[i] by {
        assert(fv.systems[i] =~~= v.systems[i]);
    };
    assert(fv =~~= v);
}

/// The identities a system dispatched on its most recent pass.
pub open spec fn system_dispatched(sv: SystemView) -> Seq<ComponentKey> {
    match sv {
        SystemView::Behaviour(bv) => bv.dispatched,
    }
}

/// A pass over subscriptions that all still resolve dispatches every one of
/// them, in subscription order.
proof fn lemma_all_dispatchable_dispatches_all(es: Seq<EntityEntryView>, ks: Seq<ComponentKey>)
    requires
        forall|k: ComponentKey| ks.contains(k) ==> #[trigger] key_dispatchable(es, k),
    ensures
        dispatched_keys(es, ks) == ks,
    decreases ks.len(),
{
    if ks.len() == 0 {
        assert(dispatched_keys(es, ks) =~= ks);
    } else {
        let rest = ks.drop_last();
        assert(forall|k: ComponentKey|
            rest.contains(k) ==> ks.contains(k) && #[trigger] key_dispatchable(es, k)) by {
            assert forall|k: ComponentKey| rest.contains(k) implies ks.contains(k) by {
                let j = choose|j: int| 0 <= j < rest.len() && (#[trigger] rest[j]) == k;
                assert(ks[j] == k);
            };
        };
        lemma_all_dispatchable_dispatches_all(es, rest);
        assert(ks.contains(ks.last())) by {
            assert(ks[ks.len() - 1] == ks.last());
        };
        assert(dispatched_keys(es, ks) =~= ks);
    }
}

/// With exact subscriptions a pass dispatches exactly the subscription
/// list: dispatch order equals subscription insertion order.
pub proof fn lemma_pass_dispatches_subs(v: SceneView, draw: bool)
    requires
        v.wf(),
        subs_exact(v),
        v.systems.len() > 0,
    ensures
        system_dispatched(scene_after_pass(v, draw).systems[0]) == system_subs(v.systems[0]),
        system_subs(scene_after_pass(v, draw).systems[0]) == system_subs(v.systems[0]),
{
    let subs = system_subs(v.systems[0]);
    assert(subs_exact_for(subs, v.entities));
    assert forall|k: ComponentKey| subs.contains(k) implies #[trigger] key_dispatchable(
        v.entities,
        k,
    ) by {
        assert(subs.contains(k) <==> key_dispatchable(v.entities, k));
    };
    lemma_all_dispatchable_dispatches_all(v.entities, subs);
}

/// Which identities resolve is untouched by a pass: the table keeps its
/// shape, so the same keys stay dispatchable.
proof fn lemma_pass_keeps_dispatchable(es: Seq<EntityEntryView>, ks: Seq<ComponentKey>, draw: bool)
    requires
        table_wf(es),
    ensures
        forall|k: ComponentKey|
            #[trigger] key_dispatchable(entities_after_pass(es, ks, draw), k)
                == key_dispatchable(es, k),
{
    let fs = entities_after_pass(es, ks, draw);
    lemma_pass_shape(es, ks, draw);
    assert forall|k: ComponentKey|
        #[trigger] key_dispatchable(fs, k) == key_dispatchable(es, k) by {
        if key_dispatchable(fs, k) {
            let a = choose|a: int| 0 <= a < fs.len() && (#[trigger] fs[a]).id == k.entity_id;
            lemma_entity_idx_unique(fs, k.entity_id, a);
            lemma_entity_idx_unique(es, k.entity_id, a);
            let b = choose|b: int|
                0 <= b < fs[a].slots.len() && (#[trigger] fs[a].slots[b]).tag == k.tag;
            lemma_tag_idx_unique(fs[a].slots, k.tag, b);
            lemma_tag_idx_unique(es[a].slots, k.tag, b);
            assert(key_dispatchable(es, k));
        }
        if key_dispatchable(es, k) {
            let a = choose|a: int| 0 <= a < es.len() && (#[trigger] es[a]).id == k.entity_id;
            lemma_entity_idx_unique(es, k.entity_id, a);
            lemma_entity_idx_unique(fs, k.entity_id, a);
            let b = choose|b: int|
                0 <= b < es[a].slots.len() && (#[trigger] es[a].slots[b]).tag == k.tag;
            lemma_tag_idx_unique(es[a].slots, k.tag, b);
            lemma_tag_idx_unique(fs[a].slots, k.tag, b);
            assert(key_dispatchable(fs, k));
        }
    };
}

/// A pass dispatches the same identities over two tables on which the same
/// keys resolve.
proof fn lemma_dispatched_keys_congruence(
    es1: Seq<EntityEntryView>,
    es2: Seq<EntityEntryView>,
    ks: Seq<ComponentKey>,
)
    requires
        forall|k: ComponentKey|
            #[trigger] key_dispatchable(es1, k) == key_dispatchable(es2, k),
    ensures
        dispatched_keys(es1, ks) == dispatched_keys(es2, ks),
    decreases ks.len(),
{
    if ks.len() == 0 {
        assert(dispatched_keys(es1, ks) =~= dispatched_keys(es2, ks));
    } else {
        lemma_dispatched_keys_congruence(es1, es2, ks.drop_last());
    }
}

/// Dispatch is stable: a pass leaves every subscription list as it was, and
/// when no attach or detach comes between two passes, the second pass
/// dispatches exactly the identities the first one did, in the same order.
pub proof fn lemma_pass_stable(v: SceneView, draw1: bool, draw2: bool)
    requires
        v.wf(),
        v.systems.len() > 0,
    ensures
        system_subs(scene_after_pass(v, draw1).systems[0]) == system_subs(v.systems[0]),
        system_dispatched(
            scene_after_pass(scene_after_pass(v, draw1), draw2).systems[0],
        ) == system_dispatched(scene_after_pass(v, draw1).systems[0]),
{
    let subs = system_subs(v.systems[0]);
    let v1 = scene_after_pass(v, draw1);
    lemma_pass_keeps_dispatchable(v.entities, subs, draw1);
    lemma_dispatched_keys_congruence(v1.entities, v.entities, subs);
}

/// A dispatch pass preserves the exact-subscription invariant: it only
/// steps hook counters, never what is attached or subscribed.
pub proof fn lemma_pass_preserves_subs_exact(v: SceneView, draw: bool)
    requires
        v.wf(),
        subs_exact(v),
    ensures
        subs_exact(scene_after_pass(v, draw)),
{
    let fv = scene_after_pass(v, draw);
    if v.systems.len() > 0 {
        match v.systems[0] {
            SystemView::Behaviour(bv) => {
                lemma_pass_keeps_dispatchable(v.entities, bv.subs, draw);
                assert forall|i: int|
                    0 <= i < fv.systems.len() implies subs_exact_for(
                    system_subs(#[trigger] fv.systems[i]),
                    fv.entities,
                ) by {
                    assert(v.systems.len() == 1) by {
                        if v.systems.len() > 1 {
                            assert(system_tag(v.systems[0]) != system_tag(v.systems[1]));
                        }
                    };
                    assert(system_subs(fv.systems[i]) == bv.subs);
                    assert(subs_exact_for(bv.subs, v.entities));
                    assert forall|k: ComponentKey| #[trigger]
                        bv.subs.contains(k) <==> key_dispatchable(fv.entities, k) by {
                        assert(bv.subs.contains(k) <==> key_dispatchable(v.entities, k));
                    };
                };
            },
        }
    }
}

/// A destroyed entity rejects every subsequent component operation: once
/// its id no longer resolves, attach, detach and typed access on it all
/// fail soft.
pub proof fn lemma_destroyed_entity_rejects(v: SceneView, id: i64)
    requires
        !has_entity(v.entities, id),
    ensures
        forall|tag: u64| !#[trigger] can_attach(v, id, tag),
        forall|tag: u64| !#[trigger] component_reachable(v, id, tag),
{
}

/// With distinct system kinds, any index holding a system of kind `tag` is
/// the index `system_idx` names.
pub proof fn lemma_system_idx_unique(ss: Seq<SystemView>, tag: u64, i: int)
    requires
        forall|a: int, b: int|
            0 <= a < b < ss.len() ==> system_tag(ss[a]) != system_tag(ss[b]),
        0 <= i < ss.len(),
        system_tag(ss[i]) == tag,
    ensures
        has_system(ss, tag),
        system_idx(ss, tag) == i,
{
    assert(has_system(ss, tag));
    let j = system_idx(ss, tag);
    if i < j {
        assert(system_tag(ss[i]) != system_tag(ss[j]));
    } else if j < i {
        assert(system_tag(ss[j]) != system_tag(ss[i]));
    }
}

/// The invariant transfers between two scenes of the same shape: same ids,
/// same tags, same system kinds and subscriptions — only component values
/// may differ.
proof fn lemma_wf_same_shape(ov: SceneView, fv: SceneView)
    requires
        ov.wf(),
        fv.next_id == ov.next_id,
        fv.entities.len() == ov.entities.len(),
        forall|a: int|
            0 <= a < ov.entities.len() ==> (#[trigger] fv.entities[a]).id == ov.entities[a].id,
        forall|a: int|
            0 <= a < ov.entities.len() ==> (#[trigger] fv.entities[a]).slots.len()
                == ov.entities[a].slots.len(),
        forall|a: int, b: int|
            0 <= a < ov.entities.len() && 0 <= b < ov.entities[a].slots.len() ==> (
            #[trigger] fv.entities[a].slots[b]).tag == ov.entities[a].slots[b].tag,
        fv.systems.len() == ov.systems.len(),
        forall|i: int|
            0 <= i < ov.systems.len() ==> system_tag(#[trigger] fv.systems[i]) == system_tag(
                ov.systems[i],
            ),
        forall|i: int|
            0 <= i < ov.systems.len() ==> system_subs(#[trigger] fv.systems[i]) == system_subs(
                ov.systems[i],
            ),
    ensures
        fv.wf(),
{
    assert forall|a: int| 0 <= a < fv.entities.len() implies slots_wf(
        (#[trigger] fv.entities[a]).slots,
    ) by {
        assert(slots_wf(ov.entities[a].slots));
        assert forall|b1: int, b2: int|
            0 <= b1 < b2 < fv.entities[a].slots.len() implies fv.entities[a].slots[b1].tag
            != fv.entities[a].slots[b2].tag by {
            assert(ov.entities[a].slots[b1].tag != ov.entities[a].slots[b2].tag);
        };
    };
    assert forall|i: int, k: ComponentKey|
        0 <= i < fv.systems.len() && #[trigger] system_subs(fv.systems[i]).contains(k)
            implies fv.sub_key_ok(k) by {
        assert(system_subs(ov.systems[i]).contains(k));
        assert(ov.sub_key_ok(k));
        if has_entity(fv.entities, k.entity_id) {
            let a = choose|a: int|
                0 <= a < fv.entities.len() && (#[trigger] fv.entities[a]).id == k.entity_id;
            assert(ov.entities[a].id == k.entity_id);
            lemma_entity_idx_unique(ov.entities, k.entity_id, a);
            lemma_entity_idx_unique(fv.entities, k.entity_id, a);
            assert(has_entity(ov.entities, k.entity_id));
            let b = choose|b: int|
                0 <= b < slots_of(ov.entities, k.entity_id).len() && (#[trigger] slots_of(
                    ov.entities,
                    k.entity_id,
                )[b]).tag == k.tag;
            assert(fv.entities[a].slots[b].tag == k.tag);
            assert(has_tag(slots_of(fv.entities, k.entity_id), k.tag));
        }
    };
    assert(fv.wf());
}

/// What a successful attach leaves behind: the updated scene equals the
/// attach model and satisfies the invariant.
proof fn lemma_attach_result(
    ov: SceneView,
    id: i64,
    tag: u64,
    cv: ComponentView,
    fv: SceneView,
    ei: int,
)
    requires
        ov.wf(),
        can_attach(ov, id, tag),
        0 <= ei < ov.entities.len(),
        ov.entities[ei].id == id,
        entity_idx_of(ov, id) == ei,
        fv.next_id == ov.next_id,
        fv.entities =~= ov.entities.update(
            ei,
            EntityEntryView {
                id,
                slots: ov.entities[ei].slots.push(
                    SlotView { tag, component: view_with_entity(cv, Some(id)) },
                ),
            },
        ),
        fv.systems == ov.systems.map_values(
            |sv: SystemView| system_after_attach(sv, key_of(id, tag), view_with_entity(cv, Some(id))),
        ),
    ensures
        fv == scene_after_attach(ov, id, tag, cv),
        fv.wf(),
{
    let stored = view_with_entity(cv, Some(id));
    let key = key_of(id, tag);
    assert(fv =~~= scene_after_attach(ov, id, tag, cv));
    // ids and bounds are untouched
    assert(forall|a: int|
        0 <= a < fv.entities.len() ==> (#[trigger] fv.entities[a]).id == ov.entities[a].id);
    // the updated entity keeps its tags distinct: the new tag was free
    assert(forall|b: int|
        0 <= b < ov.entities[ei].slots.len() ==> (#[trigger] ov.entities[ei].slots[b]).tag
            != tag);
    assert forall|a: int| 0 <= a < fv.entities.len() implies slots_wf(
        (#[trigger] fv.entities[a]).slots,
    ) by {
        if a == ei {
            let ns = fv.entities[ei].slots;
            assert forall|b1: int, b2: int|
                0 <= b1 < b2 < ns.len() implies ns[b1].tag != ns[b2].tag by {
                if b2 == ns.len() - 1 {
                    assert(ns[b1] == ov.entities[ei].slots[b1]);
                }
            };
        }
    };
    // system kinds are unchanged, and a fresh key keeps the lists distinct
    assert(forall|i: int|
        0 <= i < fv.systems.len() ==> system_tag(#[trigger] fv.systems[i]) == system_tag(
            ov.systems[i],
        ));
    assert forall|i: int| 0 <= i < fv.systems.len() implies keys_distinct(
        system_subs(#[trigger] fv.systems[i]),
    ) by {
        let osub = system_subs(ov.systems[i]);
        assert(!osub.contains(key)) by {
            if osub.contains(key) {
                assert(ov.sub_key_ok(key));
                assert(has_tag(slots_of(ov.entities, id), tag));
            }
        };
        if view_is_behaviour(stored) {
            crate::behavioursystem::lemma_push_distinct(osub, key);
            assert(system_subs(fv.systems[i]) == osub.push(key));
        } else {
            assert(system_subs(fv.systems[i]) == osub);
        }
    };
    // every subscription still names a stored slot
    assert forall|i: int, k: ComponentKey|
        0 <= i < fv.systems.len() && #[trigger] system_subs(fv.systems[i]).contains(k)
            implies fv.sub_key_ok(k) by {
        let osub = system_subs(ov.systems[i]);
        crate::behavioursystem::lemma_push_contains(osub, key);
        let in_old = osub.contains(k);
        if in_old {
            assert(ov.sub_key_ok(k));
        } else {
            assert(k == key);
            assert(0 <= id < ov.next_id);
        }
        if has_entity(fv.entities, k.entity_id) {
            let a = choose|a: int|
                0 <= a < fv.entities.len() && (#[trigger] fv.entities[a]).id == k.entity_id;
            lemma_entity_idx_unique(fv.entities, k.entity_id, a);
            lemma_entity_idx_unique(ov.entities, k.entity_id, a);
            assert(has_entity(ov.entities, k.entity_id));
            if a == ei {
                if in_old {
                    let b = choose|b: int|
                        0 <= b < slots_of(ov.entities, k.entity_id).len() && (#[trigger] slots_of(
                            ov.entities,
                            k.entity_id,
                        )[b]).tag == k.tag;
                    assert(fv.entities[a].slots[b].tag == k.tag);
                    assert(has_tag(slots_of(fv.entities, k.entity_id), k.tag));
                } else {
                    let nlen = fv.entities[a].slots.len() - 1;
                    assert(fv.entities[a].slots[nlen].tag == k.tag);
                    assert(has_tag(slots_of(fv.entities, k.entity_id), k.tag));
                }
            } else {
                assert(fv.entities[a].slots == ov.entities[a].slots);
                if in_old {
                    let b = choose|b: int|
                        0 <= b < slots_of(ov.entities, k.entity_id).len() && (#[trigger] slots_of(
                            ov.entities,
                            k.entity_id,
                        )[b]).tag == k.tag;
                    assert(fv.entities[a].slots[b].tag == k.tag);
                    assert(has_tag(slots_of(fv.entities, k.entity_id), k.tag));
                }
            }
        }
    };
    assert(fv.wf());
}

/// What a successful detach leaves behind: the updated scene equals the
/// detach model and satisfies the invariant.
proof fn lemma_detach_result(
    ov: SceneView,
    id: i64,
    tag: u64,
    fv: SceneView,
    ei: int,
    si: int,
)
    requires
        ov.wf(),
        component_reachable(ov, id, tag),
        0 <= ei < ov.entities.len(),
        ov.entities[ei].id == id,
        entity_idx_of(ov, id) == ei,
        0 <= si < ov.entities[ei].slots.len(),
        ov.entities[ei].slots[si].tag == tag,
        crate::entitydata::tag_idx(ov.entities[ei].slots, tag) == si,
        fv.next_id == ov.next_id,
        fv.entities =~= ov.entities.update(
            ei,
            EntityEntryView { id, slots: ov.entities[ei].slots.remove(si) },
        ),
        fv.systems == ov.systems.map_values(
            |sv: SystemView| system_after_detach(sv, key_of(id, tag)),
        ),
    ensures
        fv == scene_after_detach(ov, id, tag),
        fv.wf(),
{
    let key = key_of(id, tag);
    assert(fv =~~= scene_after_detach(ov, id, tag));
    assert(forall|a: int|
        0 <= a < fv.entities.len() ==> (#[trigger] fv.entities[a]).id == ov.entities[a].id);
    // removing a slot keeps the remaining tags distinct
    assert forall|a: int| 0 <= a < fv.entities.len() implies slots_wf(
        (#[trigger] fv.entities[a]).slots,
    ) by {
        if a == ei {
            let os = ov.entities[ei].slots;
            let ns = fv.entities[ei].slots;
            assert forall|b1: int, b2: int|
                0 <= b1 < b2 < ns.len() implies ns[b1].tag != ns[b2].tag by {
                let c1: int = if b1 < si { b1 } else { b1 + 1 };
                let c2: int = if b2 < si { b2 } else { b2 + 1 };
                assert(ns[b1] == os[c1] && ns[b2] == os[c2]);
            };
        }
    };
    assert(forall|i: int|
        0 <= i < fv.systems.len() ==> system_tag(#[trigger] fv.systems[i]) == system_tag(
            ov.systems[i],
        ));
    assert forall|i: int| 0 <= i < fv.systems.len() implies keys_distinct(
        system_subs(#[trigger] fv.systems[i]),
    ) by {
        let osub = system_subs(ov.systems[i]);
        crate::behavioursystem::lemma_keys_without_props(osub, key);
        assert(system_subs(fv.systems[i]) == keys_without(osub, key));
    };
    assert forall|i: int, k: ComponentKey|
        0 <= i < fv.systems.len() && #[trigger] system_subs(fv.systems[i]).contains(k)
            implies fv.sub_key_ok(k) by {
        let osub = system_subs(ov.systems[i]);
        crate::behavioursystem::lemma_keys_without_props(osub, key);
        assert(system_subs(fv.systems[i]) == keys_without(osub, key));
        assert(osub.contains(k) && k != key);
        assert(ov.sub_key_ok(k));
        if has_entity(fv.entities, k.entity_id) {
            let a = choose|a: int|
                0 <= a < fv.entities.len() && (#[trigger] fv.entities[a]).id == k.entity_id;
            lemma_entity_idx_unique(fv.entities, k.entity_id, a);
            lemma_entity_idx_unique(ov.entities, k.entity_id, a);
            assert(has_entity(ov.entities, k.entity_id));
            let b = choose|b: int|
                0 <= b < slots_of(ov.entities, k.entity_id).len() && (#[trigger] slots_of(
                    ov.entities,
                    k.entity_id,
                )[b]).tag == k.tag;
            if a == ei {
                // the removed slot held a different tag, so a witness remains
                assert(ov.entities[ei].slots[b].tag == k.tag);
                if b == si {
                    assert(k.tag == tag);
                    assert(k.entity_id == id);
                } else {
                    let nb: int = if b < si { b } else { b - 1 };
                    assert(fv.entities[a].slots[nb] == ov.entities[a].slots[b]);
                    assert(has_tag(slots_of(fv.entities, k.entity_id), k.tag));
                }
            } else {
                assert(fv.entities[a].slots == ov.entities[a].slots);
                assert(fv.entities[a].slots[b].tag == k.tag);
                assert(has_tag(slots_of(fv.entities, k.entity_id), k.tag));
            }
        }
    };
    assert(fv.wf());
}

} // verus!

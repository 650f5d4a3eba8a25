use vstd::prelude::*;

use crate::entitydata::{
    comp_at, entries_view, find_entity, has_entity, has_tag, lemma_entity_idx_unique,
    lemma_tag_idx_unique, slots_of, table_wf, EntityEntry, EntityEntryView, SlotView,
};
use crate::tcomponent::{
    view_drawn, view_is_behaviour, view_updated, Component, ComponentKey, ComponentView,
    TComponent,
};
use crate::tdrawsystem::TDrawSystem;
use crate::tsystem::TSystem;
use crate::tupdatesystem::TUpdateSystem;

verus! {

/// The model of the behaviour system: its subscription list, in insertion
/// order, and the identities it dispatched on its most recent pass, in
/// dispatch order.
#[verifier::ext_equal]
pub struct BehaviourSystemView {
    pub subs: Seq<ComponentKey>,
    pub dispatched: Seq<ComponentKey>,
}

/// No identity is subscribed twice.
pub open spec fn keys_distinct(ks: Seq<ComponentKey>) -> bool {
    forall|i: int, j: int| 0 <= i < j < ks.len() ==> ks[i] != ks[j]
}

/// The attachment identity of the component stored under `tag` on entity
/// `id`.
pub open spec fn key_of(id: i64, tag: u64) -> ComponentKey {
    ComponentKey { entity_id: id, tag }
}

/// Whether an identity still names a stored component: its entity is live
/// and holds a slot under the key's tag.
pub open spec fn key_resolves(es: Seq<EntityEntryView>, k: ComponentKey) -> bool {
    has_entity(es, k.entity_id) && has_tag(slots_of(es, k.entity_id), k.tag)
}

/// Whether a dispatch pass reaches the component an identity names: the
/// identity resolves and the component is behaviour-capable. A stale key of
/// a destroyed entity is skipped silently.
pub open spec fn key_dispatchable(es: Seq<EntityEntryView>, k: ComponentKey) -> bool {
    key_resolves(es, k) && view_is_behaviour(comp_at(slots_of(es, k.entity_id), k.tag))
}

/// The subscription keys a pass over `es` dispatches, in subscription order.
pub open spec fn dispatched_keys(es: Seq<EntityEntryView>, ks: Seq<ComponentKey>) -> Seq<
    ComponentKey,
>
    decreases ks.len(),
{
    if ks.len() == 0 {
        Seq::empty()
    } else if key_dispatchable(es, ks.last()) {
        dispatched_keys(es, ks.drop_last()).push(ks.last())
    } else {
        dispatched_keys(es, ks.drop_last())
    }
}

/// The subscription list with every occurrence of `key` removed.
pub open spec fn keys_without(ks: Seq<ComponentKey>, key: ComponentKey) -> Seq<ComponentKey>
    decreases ks.len(),
{
    if ks.len() == 0 {
        Seq::empty()
    } else if ks.last() == key {
        keys_without(ks.drop_last(), key)
    } else {
        keys_without(ks.drop_last(), key).push(ks.last())
    }
}

/// Membership in a pushed subscription list.
pub proof fn lemma_push_contains(ks: Seq<ComponentKey>, x: ComponentKey)
    ensures
        forall|k: ComponentKey|
            #[trigger] ks.push(x).contains(k) <==> (ks.contains(k) || k == x),
{
    assert forall|k: ComponentKey| #[trigger]
        ks.push(x).contains(k) implies (ks.contains(k) || k == x) by {
        let j = choose|j: int| 0 <= j < ks.push(x).len() && (#[trigger] ks.push(x)[j]) == k;
        if j < ks.len() {
            assert(ks[j] == k);
        }
    };
    assert forall|k: ComponentKey| (ks.contains(k) || k == x) implies #[trigger]
        ks.push(x).contains(k) by {
        if ks.contains(k) {
            let j = choose|j: int| 0 <= j < ks.len() && (#[trigger] ks[j]) == k;
            assert(ks.push(x)[j] == k);
        } else {
            assert(ks.push(x)[ks.len() as int] == k);
        }
    };
}

/// A subscription list with distinct keys stays distinct when a key not yet
/// subscribed is appended.
pub proof fn lemma_push_distinct(ks: Seq<ComponentKey>, x: ComponentKey)
    requires
        keys_distinct(ks),
        !ks.contains(x),
    ensures
        keys_distinct(ks.push(x)),
{
    assert forall|i: int, j: int|
        0 <= i < j < ks.push(x).len() implies ks.push(x)[i] != ks.push(x)[j] by {
        if j == ks.len() {
            assert(ks[i] == ks.push(x)[i]);
            if ks.push(x)[i] == x {
                assert(ks.contains(x));
            }
        }
    };
}

/// Dropping an identity removes exactly its occurrences: what remains was
/// subscribed, is not the dropped identity, and stays duplicate-free.
pub proof fn lemma_keys_without_props(ks: Seq<ComponentKey>, key: ComponentKey)
    ensures
        forall|k: ComponentKey|
            #[trigger] keys_without(ks, key).contains(k) ==> ks.contains(k) && k != key,
        keys_distinct(ks) ==> keys_distinct(keys_without(ks, key)),
    decreases ks.len(),
{
    if ks.len() == 0 {
    } else {
        let rest = ks.drop_last();
        let last = ks.last();
        lemma_keys_without_props(rest, key);
        assert forall|k: ComponentKey|
            #[trigger] rest.contains(k) implies ks.contains(k) by {
            let j = choose|j: int| 0 <= j < rest.len() && (#[trigger] rest[j]) == k;
            assert(ks[j] == k);
        };
        assert(ks.contains(last)) by {
            assert(ks[ks.len() - 1] == last);
        };
        if last == key {
            assert(keys_without(ks, key) == keys_without(rest, key));
        } else {
            lemma_push_contains(keys_without(rest, key), last);
            assert(keys_without(ks, key) == keys_without(rest, key).push(last));
            assert forall|k: ComponentKey| #[trigger]
                keys_without(ks, key).contains(k) implies ks.contains(k) && k != key by {
                if k != last {
                    assert(keys_without(rest, key).contains(k));
                }
            };
            if keys_distinct(ks) {
                assert(keys_distinct(rest)) by {
                    assert forall|i: int, j: int|
                        0 <= i < j < rest.len() implies rest[i] != rest[j] by {
                        assert(ks[i] == rest[i] && ks[j] == rest[j]);
                    };
                };
                assert(!keys_without(rest, key).contains(last)) by {
                    if keys_without(rest, key).contains(last) {
                        assert(rest.contains(last));
                        let j = choose|j: int|
                            0 <= j < rest.len() && (#[trigger] rest[j]) == last;
                        assert(ks[j] == last && ks[ks.len() - 1] == last);
                    }
                };
                lemma_push_distinct(keys_without(rest, key), last);
            }
        }
    }
}

/// An identity other than the dropped one survives the drop.
pub proof fn lemma_keys_without_keeps(ks: Seq<ComponentKey>, key: ComponentKey, k: ComponentKey)
    requires
        ks.contains(k),
        k != key,
    ensures
        keys_without(ks, key).contains(k),
    decreases ks.len(),
{
    let rest = ks.drop_last();
    let last = ks.last();
    if last == k {
        if last == key {
        } else {
            lemma_push_contains(keys_without(rest, key), last);
        }
    } else {
        assert(rest.contains(k)) by {
            let j = choose|j: int| 0 <= j < ks.len() && (#[trigger] ks[j]) == k;
            assert(rest[j] == k);
        };
        lemma_keys_without_keeps(rest, key, k);
        if last != key {
            lemma_push_contains(keys_without(rest, key), last);
        }
    }
}

/// Dropping an identity that was never subscribed changes nothing.
pub proof fn lemma_keys_without_absent(ks: Seq<ComponentKey>, key: ComponentKey)
    requires
        !ks.contains(key),
    ensures
        keys_without(ks, key) == ks,
    decreases ks.len(),
{
    if ks.len() == 0 {
        assert(keys_without(ks, key) =~= ks);
    } else {
        let rest = ks.drop_last();
        let last = ks.last();
        assert(last != key) by {
            assert(ks[ks.len() - 1] == last);
        };
        assert(!rest.contains(key)) by {
            if rest.contains(key) {
                let j = choose|j: int| 0 <= j < rest.len() && (#[trigger] rest[j]) == key;
                assert(ks[j] == key);
            }
        };
        lemma_keys_without_absent(rest, key);
        assert(keys_without(ks, key) =~= ks);
    }
}

/// Subscribing a fresh identity and then dropping it restores the list.
pub proof fn lemma_keys_without_push_back(ks: Seq<ComponentKey>, key: ComponentKey)
    requires
        !ks.contains(key),
    ensures
        keys_without(ks.push(key), key) == ks,
{
    assert(ks.push(key).drop_last() =~= ks);
    assert(ks.push(key).last() == key);
    lemma_keys_without_absent(ks, key);
}

/// One pass step of a component: its update hook, or its draw hook.
pub open spec fn component_pass(c: ComponentView, draw: bool) -> ComponentView {
    if draw {
        view_drawn(c)
    } else {
        view_updated(c)
    }
}

/// A slot after one dispatch pass with subscription list `ks`: its component
/// steps exactly when its identity is subscribed and behaviour-capable.
pub open spec fn slot_after_pass(sl: SlotView, eid: i64, ks: Seq<ComponentKey>, draw: bool) -> SlotView {
    if ks.contains(key_of(eid, sl.tag)) && view_is_behaviour(sl.component) {
        SlotView { tag: sl.tag, component: component_pass(sl.component, draw) }
    } else {
        sl
    }
}

/// An entity after one dispatch pass.
pub open spec fn entry_after_pass(e: EntityEntryView, ks: Seq<ComponentKey>, draw: bool) -> EntityEntryView {
    EntityEntryView {
        id: e.id,
        slots: e.slots.map_values(|sl: SlotView| slot_after_pass(sl, e.id, ks, draw)),
    }
}

/// The whole entity table after one dispatch pass.
pub open spec fn entities_after_pass(
    es: Seq<EntityEntryView>,
    ks: Seq<ComponentKey>,
    draw: bool,
) -> Seq<EntityEntryView> {
    es.map_values(|e: EntityEntryView| entry_after_pass(e, ks, draw))
}

/// A dispatch step never changes which capability a component offers.
pub proof fn lemma_pass_preserves_behaviour(c: ComponentView, draw: bool)
    ensures
        view_is_behaviour(component_pass(c, draw)) == view_is_behaviour(c),
{
}

/// A dispatch pass keeps the shape of the entity table: the entities, their
/// ids, their slot counts, their tags and their capabilities all stay as
/// they were; only dispatched components step.
pub proof fn lemma_pass_shape(es: Seq<EntityEntryView>, ks: Seq<ComponentKey>, draw: bool)
    ensures
        entities_after_pass(es, ks, draw).len() == es.len(),
        forall|a: int|
            0 <= a < es.len() ==> (#[trigger] entities_after_pass(es, ks, draw)[a]).id
                == es[a].id,
        forall|a: int|
            0 <= a < es.len() ==> (#[trigger] entities_after_pass(es, ks, draw)[a]).slots.len()
                == es[a].slots.len(),
        forall|a: int, b: int|
            0 <= a < es.len() && 0 <= b < es[a].slots.len() ==> {
                &&& (#[trigger] entities_after_pass(es, ks, draw)[a].slots[b]).tag
                    == es[a].slots[b].tag
                &&& view_is_behaviour(entities_after_pass(es, ks, draw)[a].slots[b].component)
                    == view_is_behaviour(es[a].slots[b].component)
            },
{
    assert forall|a: int, b: int|
        0 <= a < es.len() && 0 <= b < es[a].slots.len() implies {
        &&& (#[trigger] entities_after_pass(es, ks, draw)[a].slots[b]).tag == es[a].slots[b].tag
        &&& view_is_behaviour(entities_after_pass(es, ks, draw)[a].slots[b].component)
            == view_is_behaviour(es[a].slots[b].component)
    } by {
        lemma_pass_preserves_behaviour(es[a].slots[b].component, draw);
    }
}

/// Growing the subscription prefix by one key extends the reach of the pass
/// by exactly that key.
pub proof fn lemma_take_step(ks: Seq<ComponentKey>, i: int)
    requires
        0 <= i < ks.len(),
    ensures
        ks.take(i + 1).drop_last() =~= ks.take(i),
        ks.take(i + 1).last() == ks[i],
        forall|k: ComponentKey|
            #[trigger] ks.take(i + 1).contains(k) <==> (ks.take(i).contains(k) || k == ks[i]),
{
    assert(ks.take(i + 1).drop_last() =~= ks.take(i));
    assert forall|k: ComponentKey| #[trigger]
        ks.take(i + 1).contains(k) implies (ks.take(i).contains(k) || k == ks[i]) by {
        let j = choose|j: int| 0 <= j < ks.take(i + 1).len() && (#[trigger] ks.take(i + 1)[j]) == k;
        if j < i {
            assert(ks.take(i)[j] == k);
        }
    };
    assert forall|k: ComponentKey| (ks.take(i).contains(k) || k == ks[i]) implies #[trigger]
        ks.take(i + 1).contains(k) by {
        if ks.take(i).contains(k) {
            let j = choose|j: int| 0 <= j < ks.take(i).len() && (#[trigger] ks.take(i)[j]) == k;
            assert(ks.take(i + 1)[j] == k);
        } else {
            assert(ks.take(i + 1)[i] == k);
        }
    };
}

/// The reference system: it subscribes every behaviour-capable component on
/// attach, drops the component's identity on detach, and once per tick
/// dispatches the update or draw hook of every subscribed component, in
/// subscription order. A subscribed identity whose component is gone — its
/// entity was destroyed without a detach notification — is skipped.
pub struct BehaviourSystem {
    subs: Vec<ComponentKey>,
    last_dispatch: Vec<ComponentKey>,
}

impl View for BehaviourSystem {
    type V = BehaviourSystemView;

    closed spec fn view(&self) -> BehaviourSystemView {
        BehaviourSystemView { subs: self.subs@, dispatched: self.last_dispatch@ }
    }
}

impl BehaviourSystem {
    /// A system with no subscriptions.
    pub fn new() -> (s: BehaviourSystem)
        ensures
            s@.subs =~= Seq::<ComponentKey>::empty(),
            s@.dispatched =~= Seq::<ComponentKey>::empty(),
    {
        BehaviourSystem { subs: Vec::new(), last_dispatch: Vec::new() }
    }

    /// Reserves room for `size` more subscriptions; observable state is
    /// unchanged.
    pub fn reserve(&mut self, size: usize)
        ensures
            (*final(self))@ == (*old(self))@,
    {
        self.subs.reserve(size);
    }

    /// The current subscription list, in insertion order.
    pub fn subscriptions(&self) -> (r: &Vec<ComponentKey>)
        ensures
            r@ == self@.subs,
    {
        &self.subs
    }

    /// The identities dispatched by the most recent update or draw pass, in
    /// dispatch order.
    pub fn last_dispatched(&self) -> (r: &Vec<ComponentKey>)
        ensures
            r@ == self@.dispatched,
    {
        &self.last_dispatch
    }

    /// The attach hook: a behaviour-capable component is appended to the
    /// subscription list; any other component is ignored.
    pub fn notify_attached(&mut self, key: ComponentKey, component: &Component)
        ensures
            (*final(self))@.subs == if view_is_behaviour(component@) {
                (*old(self))@.subs.push(key)
            } else {
                (*old(self))@.subs
            },
            (*final(self))@.dispatched == (*old(self))@.dispatched,
    {
        if component.is_behaviour() {
            self.subs.push(key);
        }
    }

    /// The detach hook: every subscription with this identity is removed;
    /// the order of the remaining subscriptions is kept.
    pub fn notify_detached(&mut self, key: ComponentKey)
        ensures
            (*final(self))@.subs == keys_without((*old(self))@.subs, key),
            (*final(self))@.dispatched == (*old(self))@.dispatched,
    {
        let n = self.subs.len();
        let mut kept: Vec<ComponentKey> = Vec::new();
        for i in 0..n
            invariant
                n == self.subs@.len(),
                self.subs@ == (*old(self))@.subs,
                self.last_dispatch@ == (*old(self))@.dispatched,
                kept@ == keys_without(self.subs@.take(i as int), key),
        {
            let k = self.subs[i];
            proof {
                assert(self.subs@.take(i + 1).drop_last() =~= self.subs@.take(i as int));
                assert(self.subs@.take(i + 1).last() == self.subs@[i as int]);
            }
            if !(k.entity_id == key.entity_id && k.tag == key.tag) {
                kept.push(k);
            }
        }
        proof {
            assert(self.subs@.take(n as int) =~= self.subs@);
        }
        self.subs = kept;
    }

    /// One dispatch pass over the entity table: every subscribed identity is
    /// visited in subscription order; the ones that still resolve to a
    /// behaviour-capable component have that hook stepped and are recorded,
    /// the rest are skipped.
    fn dispatch_pass(&mut self, entities: &mut Vec<EntityEntry>, draw: bool)
        requires
            table_wf(entries_view(old(entities)@)),
            keys_distinct(old(self)@.subs),
        ensures
            (*final(self))@.subs == (*old(self))@.subs,
            (*final(self))@.dispatched == dispatched_keys(
                entries_view(old(entities)@),
                (*old(self))@.subs,
            ),
            entries_view(final(entities)@) == entities_after_pass(
                entries_view(old(entities)@),
                (*old(self))@.subs,
                draw,
            ),
    {
        self.last_dispatch = Vec::new();
        let ghost orig = entries_view(entities@);
        let ghost ks = (*old(self))@.subs;
        proof {
            assert forall|a: int, b: int|
                0 <= a < orig.len() && 0 <= b < orig[a].slots.len() implies slot_after_pass(
                orig[a].slots[b],
                orig[a].id,
                ks.take(0),
                draw,
            ) == orig[a].slots[b] by {
                assert(!ks.take(0).contains(key_of(orig[a].id, orig[a].slots[b].tag)));
            };
            assert(entries_view(entities@) =~~= entities_after_pass(orig, ks.take(0), draw));
        }
        let n = self.subs.len();
        for i in 0..n
            invariant
                n == self.subs@.len(),
                self.subs@ == ks,
                keys_distinct(ks),
                table_wf(orig),
                self.last_dispatch@ == dispatched_keys(orig, ks.take(i as int)),
                entries_view(entities@) =~= entities_after_pass(orig, ks.take(i as int), draw),
        {
            let key = self.subs[i];
            proof {
                lemma_take_step(ks, i as int);
                lemma_pass_shape(orig, ks.take(i as int), draw);
            }
            let found = find_entity(entities, key.entity_id);
            match found {
                None => {
                    proof {
                        assert(!has_entity(orig, key.entity_id)) by {
                            if has_entity(orig, key.entity_id) {
                                let a = choose|a: int|
                                    0 <= a < orig.len() && (#[trigger] orig[a]).id
                                        == key.entity_id;
                                assert(entries_view(entities@)[a].id == key.entity_id);
                            }
                        };
                        assert(!key_dispatchable(orig, ks[i as int]));
                        assert(entities_after_pass(orig, ks.take(i + 1), draw) =~~= entities_after_pass(
                            orig,
                            ks.take(i as int),
                            draw,
                        )) by {
                            lemma_unreachable_key_pass(orig, ks, i as int, draw);
                        };
                    }
                },
                Some(ei) => {
                    let ghost cur = entries_view(entities@);
                    proof {
                        lemma_entity_idx_unique(orig, key.entity_id, ei as int);
                    }
                    let si_opt = entities[ei].data.find_tag(key.tag);
                    match si_opt {
                        None => {
                            proof {
                                assert(!has_tag(orig[ei as int].slots, key.tag)) by {
                                    if has_tag(orig[ei as int].slots, key.tag) {
                                        let b = choose|b: int|
                                            0 <= b < orig[ei as int].slots.len() && (
                                            #[trigger] orig[ei as int].slots[b]).tag == key.tag;
                                        assert(cur[ei as int].slots[b].tag == key.tag);
                                    }
                                };
                                assert(!key_dispatchable(orig, ks[i as int]));
                                assert(entities_after_pass(orig, ks.take(i + 1), draw)
                                    =~~= entities_after_pass(orig, ks.take(i as int), draw)) by {
                                    lemma_unreachable_key_pass(orig, ks, i as int, draw);
                                };
                            }
                        },
                        Some(si) => {
                            proof {
                                lemma_tag_idx_unique(orig[ei as int].slots, key.tag, si as int);
                                assert(!ks.take(i as int).contains(ks[i as int]));
                                assert(cur[ei as int].slots[si as int] == slot_after_pass(
                                    orig[ei as int].slots[si as int],
                                    orig[ei as int].id,
                                    ks.take(i as int),
                                    draw,
                                ));
                                assert(cur[ei as int].slots[si as int]
                                    == orig[ei as int].slots[si as int]);
                            }
                            let is_b = match entities[ei].data.get(si) {
                                Some(slot) => slot.component.is_behaviour(),
                                None => false,
                            };
                            if is_b {
                                if draw {
                                    entities[ei].data.component_mut(si).draw();
                                } else {
                                    entities[ei].data.component_mut(si).update();
                                }
                                self.last_dispatch.push(key);
                                proof {
                                    assert(key_dispatchable(orig, ks[i as int]));
                                    assert(dispatched_keys(orig, ks.take(i + 1))
                                        == dispatched_keys(orig, ks.take(i as int)).push(key));
                                    lemma_dispatched_slot_pass(orig, ks, i as int, draw, ei as int, si as int);
                                    assert(entries_view(entities@) =~~= entities_after_pass(
                                        orig,
                                        ks.take(i + 1),
                                        draw,
                                    ));
                                }
                            } else {
                                proof {
                                    assert(!key_dispatchable(orig, ks[i as int]));
                                    assert(entities_after_pass(orig, ks.take(i + 1), draw)
                                        =~~= entities_after_pass(orig, ks.take(i as int), draw)) by {
                                        lemma_unreachable_key_pass(orig, ks, i as int, draw);
                                    };
                                }
                            }
                        },
                    }
                },
            }
        }
        proof {
            assert(ks.take(n as int) =~= ks);
        }
    }

    /// One update pass, in subscription order.
    pub fn run_update(&mut self, entities: &mut Vec<EntityEntry>)
        requires
            table_wf(entries_view(old(entities)@)),
            keys_distinct(old(self)@.subs),
        ensures
            (*final(self))@.subs == (*old(self))@.subs,
            (*final(self))@.dispatched == dispatched_keys(
                entries_view(old(entities)@),
                (*old(self))@.subs,
            ),
            entries_view(final(entities)@) == entities_after_pass(
                entries_view(old(entities)@),
                (*old(self))@.subs,
                false,
            ),
    {
        self.dispatch_pass(entities, false);
    }

    /// One draw pass, in subscription order.
    pub fn run_draw(&mut self, entities: &mut Vec<EntityEntry>)
        requires
            table_wf(entries_view(old(entities)@)),
            keys_distinct(old(self)@.subs),
        ensures
            (*final(self))@.subs == (*old(self))@.subs,
            (*final(self))@.dispatched == dispatched_keys(
                entries_view(old(entities)@),
                (*old(self))@.subs,
            ),
            entries_view(final(entities)@) == entities_after_pass(
                entries_view(old(entities)@),
                (*old(self))@.subs,
                true,
            ),
    {
        self.dispatch_pass(entities, true);
    }
}

impl TSystem for BehaviourSystem {
    fn get_updatable(&self) -> bool {
        true
    }

    fn get_drawable(&self) -> bool {
        true
    }

    fn on_component_added_to_entity(&mut self, key: ComponentKey, component: &Component) {
        self.notify_attached(key, component);
    }

    fn on_component_removed_from_entity(&mut self, key: ComponentKey) {
        self.notify_detached(key);
    }
}

impl TUpdateSystem for BehaviourSystem {
    open spec fn spec_update_req(&self, entities: Seq<EntityEntryView>) -> bool {
        table_wf(entities) && keys_distinct(self@.subs)
    }

    fn update(&mut self, entities: &mut Vec<EntityEntry>) {
        self.run_update(entities);
    }
}

impl TDrawSystem for BehaviourSystem {
    open spec fn spec_draw_req(&self, entities: Seq<EntityEntryView>) -> bool {
        table_wf(entities) && keys_distinct(self@.subs)
    }

    fn draw(&mut self, entities: &mut Vec<EntityEntry>) {
        self.run_draw(entities);
    }
}

/// A subscription prefix extended by a key that no longer reaches a
/// behaviour-capable component changes nothing about the pass.
pub proof fn lemma_unreachable_key_pass(
    es: Seq<EntityEntryView>,
    ks: Seq<ComponentKey>,
    i: int,
    draw: bool,
)
    requires
        0 <= i < ks.len(),
        table_wf(es),
        !key_dispatchable(es, ks[i]),
    ensures
        entities_after_pass(es, ks.take(i + 1), draw) =~~= entities_after_pass(
            es,
            ks.take(i),
            draw,
        ),
        dispatched_keys(es, ks.take(i + 1)) == dispatched_keys(es, ks.take(i)),
{
    lemma_take_step(ks, i);
    assert forall|a: int, b: int|
        0 <= a < es.len() && 0 <= b < es[a].slots.len() implies slot_after_pass(
        es[a].slots[b],
        es[a].id,
        ks.take(i + 1),
        draw,
    ) == slot_after_pass(es[a].slots[b], es[a].id, ks.take(i), draw) by {
        let k = key_of(es[a].id, es[a].slots[b].tag);
        if k == ks[i] && view_is_behaviour(es[a].slots[b].component) {
            lemma_entity_idx_unique(es, es[a].id, a);
            lemma_tag_idx_unique(es[a].slots, es[a].slots[b].tag, b);
            assert(key_dispatchable(es, ks[i]));
        }
    };
}

/// A subscription prefix extended by a key that reaches a behaviour-capable
/// component steps exactly that component.
pub proof fn lemma_dispatched_slot_pass(
    es: Seq<EntityEntryView>,
    ks: Seq<ComponentKey>,
    i: int,
    draw: bool,
    ei: int,
    si: int,
)
    requires
        0 <= i < ks.len(),
        table_wf(es),
        keys_distinct(ks),
        0 <= ei < es.len(),
        0 <= si < es[ei].slots.len(),
        es[ei].id == ks[i].entity_id,
        es[ei].slots[si].tag == ks[i].tag,
        view_is_behaviour(es[ei].slots[si].component),
    ensures
        entities_after_pass(es, ks.take(i + 1), draw) =~~= entities_after_pass(
            es,
            ks.take(i),
            draw,
        ).update(
            ei,
            EntityEntryView {
                id: es[ei].id,
                slots: entities_after_pass(es, ks.take(i), draw)[ei].slots.update(
                    si,
                    SlotView {
                        tag: es[ei].slots[si].tag,
                        component: component_pass(es[ei].slots[si].component, draw),
                    },
                ),
            },
        ),
{
    lemma_take_step(ks, i);
    assert(!ks.take(i).contains(ks[i])) by {
        if ks.take(i).contains(ks[i]) {
            let j = choose|j: int| 0 <= j < ks.take(i).len() && (#[trigger] ks.take(i)[j]) == ks[i];
            assert(ks[j] == ks[i]);
        }
    };
    assert forall|a: int, b: int|
        0 <= a < es.len() && 0 <= b < es[a].slots.len() && !(a == ei && b == si)
            implies slot_after_pass(es[a].slots[b], es[a].id, ks.take(i + 1), draw)
            == slot_after_pass(es[a].slots[b], es[a].id, ks.take(i), draw) by {
        let k = key_of(es[a].id, es[a].slots[b].tag);
        if k == ks[i] {
            if a != ei {
                assert(es[a].id != es[ei].id);
            } else {
                lemma_tag_idx_unique(es[a].slots, es[a].slots[b].tag, b);
                lemma_tag_idx_unique(es[a].slots, es[a].slots[b].tag, si);
            }
        }
    };
    assert(slot_after_pass(es[ei].slots[si], es[ei].id, ks.take(i + 1), draw) == SlotView {
        tag: es[ei].slots[si].tag,
        component: component_pass(es[ei].slots[si].component, draw),
    });
    assert(slot_after_pass(es[ei].slots[si], es[ei].id, ks.take(i), draw) == es[ei].slots[si]);
}

} // verus!

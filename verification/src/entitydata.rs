use vstd::prelude::*;

use crate::tcomponent::{Component, ComponentView};

verus! {

/// The model of one stored component: the type-slot tag it is keyed under and
/// the component value itself.
#[verifier::ext_equal]
pub struct SlotView {
    pub tag: u64,
    pub component: ComponentView,
}

/// One stored component of an entity.
pub struct Slot {
    pub tag: u64,
    pub component: Component,
}

impl View for Slot {
    type V = SlotView;

    open spec fn view(&self) -> SlotView {
        SlotView { tag: self.tag, component: self.component@ }
    }
}

/// At most one slot per type tag.
pub open spec fn slots_wf(s: Seq<SlotView>) -> bool {
    forall|i: int, j: int| 0 <= i < j < s.len() ==> s[i].tag != s[j].tag
}

/// Whether some slot is stored under `tag`.
pub open spec fn has_tag(s: Seq<SlotView>, tag: u64) -> bool {
    exists|i: int| 0 <= i < s.len() && (#[trigger] s[i]).tag == tag
}

/// The index of the slot stored under `tag`; meaningful only when `has_tag`
/// holds, and unique when `slots_wf` holds.
pub open spec fn tag_idx(s: Seq<SlotView>, tag: u64) -> int {
    choose|i: int| 0 <= i < s.len() && (#[trigger] s[i]).tag == tag
}

/// The component stored under `tag`.
pub open spec fn comp_at(s: Seq<SlotView>, tag: u64) -> ComponentView {
    s[tag_idx(s, tag)].component
}

/// With distinct tags, any index holding `tag` is the index `tag_idx` names.
pub proof fn lemma_tag_idx_unique(s: Seq<SlotView>, tag: u64, i: int)
    requires
        slots_wf(s),
        0 <= i < s.len(),
        s[i].tag == tag,
    ensures
        has_tag(s, tag),
        tag_idx(s, tag) == i,
{
    assert(has_tag(s, tag));
    let j = tag_idx(s, tag);
    if i < j {
        assert(s[i].tag != s[j].tag);
    } else if j < i {
        assert(s[j].tag != s[i].tag);
    }
}

/// The per-entity component store: an ordered set of typed slots, at most one
/// per type tag (many same-type values are bundled in a collection instead).
pub struct EntityData {
    components: Vec<Slot>,
}

impl View for EntityData {
    type V = Seq<SlotView>;

    closed spec fn view(&self) -> Seq<SlotView> {
        self.components@.map_values(|s: Slot| s@)
    }
}

impl EntityData {
    /// An empty component store.
    pub fn new() -> (d: EntityData)
        ensures
            d@ =~= Seq::<SlotView>::empty(),
    {
        EntityData { components: Vec::new() }
    }

    /// How many components are stored.
    pub fn len(&self) -> (n: usize)
        ensures
            n == self@.len(),
    {
        self.components.len()
    }

    /// The slot at `index`, if it exists.
    pub fn get(&self, index: usize) -> (r: Option<&Slot>)
        ensures
            index < self@.len() ==> match r {
                Some(s) => s@ == self@[index as int],
                None => false,
            },
            index >= self@.len() ==> r is None,
    {
        if index < self.components.len() {
            Some(&self.components[index])
        } else {
            None
        }
    }

    /// The index of the slot stored under `tag`, if any.
    pub fn find_tag(&self, tag: u64) -> (r: Option<usize>)
        ensures
            match r {
                Some(i) => {
                    &&& i < self@.len()
                    &&& self@[i as int].tag == tag
                    &&& forall|j: int| 0 <= j < i ==> self@[j].tag != tag
                },
                None => !has_tag(self@, tag),
            },
    {
        let n = self.components.len();
        for i in 0..n
            invariant
                n == self@.len(),
                forall|j: int| 0 <= j < i ==> self@[j].tag != tag,
        {
            if self.components[i].tag == tag {
                return Some(i);
            }
        }
        None
    }

    /// Appends a slot; the caller checks for a duplicate tag first.
    pub fn attach(&mut self, slot: Slot)
        ensures
            (*final(self))@ == (*old(self))@.push(slot@),
    {
        self.components.push(slot);
        proof {
            assert((*final(self))@ =~= (*old(self))@.push(slot@));
        }
    }

    /// Removes and returns the slot at `index`; later slots keep their order.
    pub fn detach_at(&mut self, index: usize) -> (s: Slot)
        requires
            index < old(self)@.len(),
        ensures
            s@ == (*old(self))@[index as int],
            (*final(self))@ == (*old(self))@.remove(index as int),
    {
        let s = self.components.remove(index);
        proof {
            assert((*final(self))@ =~= (*old(self))@.remove(index as int));
        }
        s
    }

    /// Exclusive access to the component at `index`.
    pub fn component_mut(&mut self, index: usize) -> (c: &mut Component)
        requires
            index < old(self)@.len(),
        ensures
            (*c)@ == (*old(self))@[index as int].component,
            (*final(self))@ == (*old(self))@.update(
                index as int,
                SlotView {
                    tag: (*old(self))@[index as int].tag,
                    component: (*final(c))@,
                },
            ),
    {
        let slot = &mut self.components[index];
        &mut slot.component
    }
}

/// The model of one entity: its id and its stored components.
#[verifier::ext_equal]
pub struct EntityEntryView {
    pub id: i64,
    pub slots: Seq<SlotView>,
}

/// One entity owned by the scene: its id and its component store.
pub struct EntityEntry {
    pub id: i64,
    pub data: EntityData,
}

impl View for EntityEntry {
    type V = EntityEntryView;

    open spec fn view(&self) -> EntityEntryView {
        EntityEntryView { id: self.id, slots: self.data@ }
    }
}

/// No two entities share an id.
pub open spec fn ids_distinct(es: Seq<EntityEntryView>) -> bool {
    forall|i: int, j: int| 0 <= i < j < es.len() ==> es[i].id != es[j].id
}

/// Whether an entity with this id is live.
pub open spec fn has_entity(es: Seq<EntityEntryView>, id: i64) -> bool {
    exists|i: int| 0 <= i < es.len() && (#[trigger] es[i]).id == id
}

/// The index of the entity with this id; meaningful only when `has_entity`
/// holds, and unique when `ids_distinct` holds.
pub open spec fn entity_idx(es: Seq<EntityEntryView>, id: i64) -> int {
    choose|i: int| 0 <= i < es.len() && (#[trigger] es[i]).id == id
}

/// The slots of the entity with this id.
pub open spec fn slots_of(es: Seq<EntityEntryView>, id: i64) -> Seq<SlotView> {
    es[entity_idx(es, id)].slots
}

/// The models of a table of entities.
pub open spec fn entries_view(s: Seq<EntityEntry>) -> Seq<EntityEntryView> {
    s.map_values(|e: EntityEntry| e@)
}

/// Every entity id distinct and every entity's tags distinct.
pub open spec fn table_wf(es: Seq<EntityEntryView>) -> bool {
    &&& ids_distinct(es)
    &&& forall|i: int| 0 <= i < es.len() ==> slots_wf((#[trigger] es[i]).slots)
}

/// The index of the entity with this id, if any.
pub fn find_entity(entities: &Vec<EntityEntry>, id: i64) -> (r: Option<usize>)
    ensures
        match r {
            Some(i) => {
                &&& i < entities@.len()
                &&& entries_view(entities@)[i as int].id == id
                &&& forall|j: int| 0 <= j < i ==> entries_view(entities@)[j].id != id
            },
            None => !has_entity(entries_view(entities@), id),
        },
{
    let n = entities.len();
    for i in 0..n
        invariant
            n == entities@.len(),
            forall|j: int| 0 <= j < i ==> entries_view(entities@)[j].id != id,
    {
        if entities[i].id == id {
            return Some(i);
        }
    }
    None
}

/// With distinct ids, any index holding `id` is the index `entity_idx` names.
pub proof fn lemma_entity_idx_unique(es: Seq<EntityEntryView>, id: i64, i: int)
    requires
        ids_distinct(es),
        0 <= i < es.len(),
        es[i].id == id,
    ensures
        has_entity(es, id),
        entity_idx(es, id) == i,
{
    assert(has_entity(es, id));
    let j = entity_idx(es, id);
    if i < j {
        assert(es[i].id != es[j].id);
    } else if j < i {
        assert(es[j].id != es[i].id);
    }
}

} // verus!

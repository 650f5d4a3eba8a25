use vstd::prelude::*;

use crate::tbehaviourcomponent::TBehaviourComponent;
use crate::tcomponent::{inc_sat, BehaviourComponent, DataComponent, TComponent};

verus! {

/// One member of a collection: a plain value or a behaviour-capable value.
#[derive(Clone, Copy, PartialEq, Eq, Structural, Debug)]
pub enum CollectionItem {
    Data(DataComponent),
    Behaviour(BehaviourComponent),
}

/// The mathematical model of a collection: its members in insertion order and
/// its back-reference to the owning entity.
#[verifier::ext_equal]
pub struct CollectionView {
    pub items: Seq<CollectionItem>,
    pub entity: Option<i64>,
}

/// Whether one member takes part in behaviour dispatch.
pub open spec fn item_is_behaviour(it: CollectionItem) -> bool {
    match it {
        CollectionItem::Data(_) => false,
        CollectionItem::Behaviour(_) => true,
    }
}

/// One update step of a member.
pub open spec fn item_updated(it: CollectionItem) -> CollectionItem {
    match it {
        CollectionItem::Data(d) => CollectionItem::Data(d),
        CollectionItem::Behaviour(b) => CollectionItem::Behaviour(
            BehaviourComponent { update_count: inc_sat(b.update_count), ..b },
        ),
    }
}

/// One draw step of a member.
pub open spec fn item_drawn(it: CollectionItem) -> CollectionItem {
    match it {
        CollectionItem::Data(d) => CollectionItem::Data(d),
        CollectionItem::Behaviour(b) => CollectionItem::Behaviour(
            BehaviourComponent { draw_count: inc_sat(b.draw_count), ..b },
        ),
    }
}

/// One update pass over a whole collection: every behaviour-capable member is
/// updated once, in collection order.
pub open spec fn collection_updated(cv: CollectionView) -> CollectionView {
    CollectionView { items: cv.items.map_values(|it: CollectionItem| item_updated(it)), ..cv }
}

/// One draw pass over a whole collection.
pub open spec fn collection_drawn(cv: CollectionView) -> CollectionView {
    CollectionView { items: cv.items.map_values(|it: CollectionItem| item_drawn(it)), ..cv }
}

/// A bundle of many same-slot component values. An entity stores at most one
/// component per type slot; a collection lets it hold many values under a
/// single slot, and is itself behaviour-capable: its update and draw fan out
/// to every behaviour-capable member in insertion order.
pub struct ComponentCollection {
    components: Vec<CollectionItem>,
    entity: Option<i64>,
}

impl View for ComponentCollection {
    type V = CollectionView;

    closed spec fn view(&self) -> CollectionView {
        CollectionView { items: self.components@, entity: self.entity }
    }
}

impl ComponentCollection {
    /// An empty collection with no owning entity.
    pub fn new() -> (c: ComponentCollection)
        ensures
            c@.items =~= Seq::<CollectionItem>::empty(),
            c@.entity is None,
    {
        ComponentCollection { components: Vec::new(), entity: None }
    }

    /// Appends one member.
    pub fn add(&mut self, component: CollectionItem)
        ensures
            (*final(self))@.items == (*old(self))@.items.push(component),
            (*final(self))@.entity == (*old(self))@.entity,
    {
        self.components.push(component);
    }

    /// Removes and returns the most recently added member.
    pub fn pop(&mut self) -> (r: Option<CollectionItem>)
        ensures
            (*old(self))@.items.len() == 0 ==> {
                &&& r is None
                &&& (*final(self))@ == (*old(self))@
            },
            (*old(self))@.items.len() > 0 ==> {
                &&& r == Some((*old(self))@.items.last())
                &&& (*final(self))@.items == (*old(self))@.items.drop_last()
                &&& (*final(self))@.entity == (*old(self))@.entity
            },
    {
        self.components.pop()
    }

    /// The member at `index`, if it exists.
    pub fn get(&self, index: usize) -> (r: Option<&CollectionItem>)
        ensures
            index < self@.items.len() ==> r == Some(&self@.items[index as int]),
            index >= self@.items.len() ==> r is None,
    {
        if index < self.components.len() {
            Some(&self.components[index])
        } else {
            None
        }
    }

    /// How many members the collection holds.
    pub fn size(&self) -> (n: usize)
        ensures
            n == self@.items.len(),
    {
        self.components.len()
    }

    /// Applies `callback` to each behaviour-capable member, in collection
    /// order; plain data members are skipped.
    pub fn behaviour_iterate<F: Fn(&mut BehaviourComponent)>(&mut self, callback: F)
        requires
            forall|m: &mut BehaviourComponent| #[trigger] call_requires(callback, (m,)),
        ensures
            (*final(self))@.items.len() == (*old(self))@.items.len(),
            (*final(self))@.entity == (*old(self))@.entity,
            forall|i: int|
                0 <= i < (*old(self))@.items.len() && !item_is_behaviour((*old(self))@.items[i])
                    ==> (*final(self))@.items[i] == (*old(self))@.items[i],
            forall|i: int|
                0 <= i < (*old(self))@.items.len() && item_is_behaviour((*old(self))@.items[i])
                    ==> exists|m: &mut BehaviourComponent|
                        {
                            &&& (*old(self))@.items[i] == CollectionItem::Behaviour(
                                mut_ref_current(m),
                            )
                            &&& (*final(self))@.items[i] == CollectionItem::Behaviour(
                                mut_ref_future(m),
                            )
                            &&& #[trigger] call_ensures(callback, (m,), ())
                        },
    {
        let n = self.components.len();
        let ghost orig = self@.items;
        for i in 0..n
            invariant
                n == orig.len(),
                self@.items.len() == orig.len(),
                self@.entity == (*old(self))@.entity,
                forall|m: &mut BehaviourComponent| #[trigger] call_requires(callback, (m,)),
                forall|j: int|
                    0 <= j < i && item_is_behaviour(orig[j])
                        ==> exists|m: &mut BehaviourComponent|
                            {
                                &&& orig[j] == CollectionItem::Behaviour(mut_ref_current(m))
                                &&& self@.items[j] == CollectionItem::Behaviour(mut_ref_future(m))
                                &&& #[trigger] call_ensures(callback, (m,), ())
                            },
                forall|j: int|
                    0 <= j < orig.len() && (j >= i || !item_is_behaviour(orig[j]))
                        ==> self@.items[j] == orig[j],
        {
            match &mut self.components[i] {
                CollectionItem::Data(_) => {},
                CollectionItem::Behaviour(b) => {
                    callback(b);
                },
            }
        }
    }
}

impl TComponent for ComponentCollection {
    open spec fn spec_is_behaviour(&self) -> bool {
        true
    }

    fn is_behaviour(&self) -> bool {
        true
    }
}

impl TBehaviourComponent for ComponentCollection {
    open spec fn spec_view_updated(v: CollectionView) -> CollectionView {
        collection_updated(v)
    }

    open spec fn spec_view_drawn(v: CollectionView) -> CollectionView {
        collection_drawn(v)
    }

    open spec fn spec_view_destroyed(v: CollectionView) -> CollectionView {
        v
    }

    open spec fn spec_view_entity(v: CollectionView) -> Option<i64> {
        v.entity
    }

    open spec fn spec_view_with_entity(v: CollectionView, e: Option<i64>) -> CollectionView {
        CollectionView { entity: e, ..v }
    }

    fn update(&mut self) {
        let n = self.components.len();
        let ghost orig = self@.items;
        for i in 0..n
            invariant
                n == orig.len(),
                self@.items.len() == orig.len(),
                self@.entity == (*old(self))@.entity,
                forall|j: int| 0 <= j < i ==> self@.items[j] == item_updated(orig[j]),
                forall|j: int| i <= j < orig.len() ==> self@.items[j] == orig[j],
        {
            match &mut self.components[i] {
                CollectionItem::Data(_) => {},
                CollectionItem::Behaviour(b) => {
                    b.update();
                },
            }
        }
        proof {
            assert((*final(self))@.items =~= collection_updated((*old(self))@).items);
            assert((*final(self))@ =~= Self::spec_view_updated((*old(self))@));
        }
    }

    fn draw(&mut self) {
        let n = self.components.len();
        let ghost orig = self@.items;
        for i in 0..n
            invariant
                n == orig.len(),
                self@.items.len() == orig.len(),
                self@.entity == (*old(self))@.entity,
                forall|j: int| 0 <= j < i ==> self@.items[j] == item_drawn(orig[j]),
                forall|j: int| i <= j < orig.len() ==> self@.items[j] == orig[j],
        {
            match &mut self.components[i] {
                CollectionItem::Data(_) => {},
                CollectionItem::Behaviour(b) => {
                    b.draw();
                },
            }
        }
        proof {
            assert((*final(self))@.items =~= collection_drawn((*old(self))@).items);
            assert((*final(self))@ =~= Self::spec_view_drawn((*old(self))@));
        }
    }

    fn on_destroyed(&mut self) {
    }

    fn get_entity(&self) -> Option<i64> {
        self.entity
    }

    fn set_entity(&mut self, e: Option<i64>) {
        self.entity = e;
    }
}

} // verus!

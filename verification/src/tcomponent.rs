use vstd::prelude::*;

use crate::componentcollection::{
    collection_drawn, collection_updated, CollectionView, ComponentCollection,
};
use crate::tbehaviourcomponent::TBehaviourComponent;

verus! {

/// The identity of one component attachment: the owning entity's id together
/// with the type slot under which the component is stored. Systems remember
/// attachments by this identity and resolve it through the scene's entity
/// table; a stale key of a destroyed entity simply no longer resolves.
#[derive(Clone, Copy, PartialEq, Eq, Structural, Debug)]
pub struct ComponentKey {
    pub entity_id: i64,
    pub tag: u64,
}

/// Saturating increment for the event counters carried by behaviour-capable
/// components.
pub open spec fn inc_sat(n: u64) -> u64 {
    if n < u64::MAX {
        (n + 1) as u64
    } else {
        n
    }
}

/// A plain data component: a value without per-tick behaviour.
#[derive(Clone, Copy, PartialEq, Eq, Structural, Debug)]
pub struct DataComponent {
    pub value: i64,
}

/// A behaviour-capable component: a value together with the back-reference to
/// its owning entity and the counters that record how often each of its hooks
/// has fired. The counters make the dispatch protocol observable: one update
/// pass bumps `update_count` once for every dispatched component.
#[derive(Clone, Copy, PartialEq, Eq, Structural, Debug)]
pub struct BehaviourComponent {
    pub value: i64,
    pub entity: Option<i64>,
    pub update_count: u64,
    pub draw_count: u64,
    pub destroyed_count: u64,
}

impl BehaviourComponent {
    pub fn new(value: i64) -> (c: BehaviourComponent)
        ensures
            c == (BehaviourComponent {
                value,
                entity: None,
                update_count: 0,
                draw_count: 0,
                destroyed_count: 0,
            }),
    {
        BehaviourComponent {
            value,
            entity: None,
            update_count: 0,
            draw_count: 0,
            destroyed_count: 0,
        }
    }
}

/// The mathematical model of a component value.
#[verifier::ext_equal]
pub enum ComponentView {
    Data(DataComponent),
    Behaviour(BehaviourComponent),
    Collection(CollectionView),
}

/// A type-erased component value: the sum of the component shapes the runtime
/// core stores. The slot tag kept beside it names the concrete type; matching
/// on the variant is the checked, failable downcast.
pub enum Component {
    Data(DataComponent),
    Behaviour(BehaviourComponent),
    Collection(ComponentCollection),
}

impl View for Component {
    type V = ComponentView;

    open spec fn view(&self) -> ComponentView {
        match self {
            Component::Data(d) => ComponentView::Data(*d),
            Component::Behaviour(b) => ComponentView::Behaviour(*b),
            Component::Collection(c) => ComponentView::Collection(c@),
        }
    }
}

/// Whether a component value offers the behaviour capability.
pub open spec fn view_is_behaviour(c: ComponentView) -> bool {
    match c {
        ComponentView::Data(_) => false,
        ComponentView::Behaviour(_) => true,
        ComponentView::Collection(_) => true,
    }
}

/// One update step of a component: data components are inert, behaviour
/// components bump their counter, a collection fans out to its members.
pub open spec fn view_updated(c: ComponentView) -> ComponentView {
    match c {
        ComponentView::Data(d) => ComponentView::Data(d),
        ComponentView::Behaviour(b) => ComponentView::Behaviour(
            BehaviourComponent { update_count: inc_sat(b.update_count), ..b },
        ),
        ComponentView::Collection(cv) => ComponentView::Collection(collection_updated(cv)),
    }
}

/// One draw step of a component.
pub open spec fn view_drawn(c: ComponentView) -> ComponentView {
    match c {
        ComponentView::Data(d) => ComponentView::Data(d),
        ComponentView::Behaviour(b) => ComponentView::Behaviour(
            BehaviourComponent { draw_count: inc_sat(b.draw_count), ..b },
        ),
        ComponentView::Collection(cv) => ComponentView::Collection(collection_drawn(cv)),
    }
}

/// The destruction hook: behaviour components record the teardown; a
/// collection's own hook is a no-op, and data components have no hook.
pub open spec fn view_destroyed(c: ComponentView) -> ComponentView {
    match c {
        ComponentView::Data(d) => ComponentView::Data(d),
        ComponentView::Behaviour(b) => ComponentView::Behaviour(
            BehaviourComponent { destroyed_count: inc_sat(b.destroyed_count), ..b },
        ),
        ComponentView::Collection(cv) => ComponentView::Collection(cv),
    }
}

/// Setting the back-reference to the owning entity; data components carry
/// none.
pub open spec fn view_with_entity(c: ComponentView, e: Option<i64>) -> ComponentView {
    match c {
        ComponentView::Data(d) => ComponentView::Data(d),
        ComponentView::Behaviour(b) => ComponentView::Behaviour(
            BehaviourComponent { entity: e, ..b },
        ),
        ComponentView::Collection(cv) => ComponentView::Collection(
            CollectionView { entity: e, ..cv },
        ),
    }
}

/// The back-reference a component currently holds.
pub open spec fn view_entity(c: ComponentView) -> Option<i64> {
    match c {
        ComponentView::Data(_) => None,
        ComponentView::Behaviour(b) => b.entity,
        ComponentView::Collection(cv) => cv.entity,
    }
}

/// The base capability of every component: it can say whether it takes part
/// in behaviour dispatch.
pub trait TComponent {
    spec fn spec_is_behaviour(&self) -> bool;

    fn is_behaviour(&self) -> (r: bool)
        ensures
            r == self.spec_is_behaviour(),
    ;
}

impl TComponent for DataComponent {
    open spec fn spec_is_behaviour(&self) -> bool {
        false
    }

    fn is_behaviour(&self) -> bool {
        false
    }
}

impl TComponent for BehaviourComponent {
    open spec fn spec_is_behaviour(&self) -> bool {
        true
    }

    fn is_behaviour(&self) -> bool {
        true
    }
}

impl TComponent for Component {
    open spec fn spec_is_behaviour(&self) -> bool {
        view_is_behaviour(self@)
    }

    fn is_behaviour(&self) -> bool {
        match self {
            Component::Data(_) => false,
            Component::Behaviour(_) => true,
            Component::Collection(_) => true,
        }
    }
}

impl Component {
    /// Runs the update hook of a behaviour-capable component; inert for plain
    /// data components, mirroring a skipped capability query.
    pub fn update(&mut self)
        ensures
            (*final(self))@ == view_updated((*old(self))@),
    {
        match self {
            Component::Data(_) => {},
            Component::Behaviour(b) => b.update(),
            Component::Collection(c) => c.update(),
        }
    }

    /// Runs the draw hook of a behaviour-capable component.
    pub fn draw(&mut self)
        ensures
            (*final(self))@ == view_drawn((*old(self))@),
    {
        match self {
            Component::Data(_) => {},
            Component::Behaviour(b) => b.draw(),
            Component::Collection(c) => c.draw(),
        }
    }

    /// Runs the destruction hook.
    pub fn on_destroyed(&mut self)
        ensures
            (*final(self))@ == view_destroyed((*old(self))@),
    {
        match self {
            Component::Data(_) => {},
            Component::Behaviour(b) => b.on_destroyed(),
            Component::Collection(c) => c.on_destroyed(),
        }
    }

    /// Sets the back-reference to the owning entity.
    pub fn set_entity(&mut self, e: Option<i64>)
        ensures
            (*final(self))@ == view_with_entity((*old(self))@, e),
    {
        match self {
            Component::Data(_) => {},
            Component::Behaviour(b) => b.set_entity(e),
            Component::Collection(c) => c.set_entity(e),
        }
    }

    /// The back-reference, if the component carries one.
    pub fn get_entity(&self) -> (r: Option<i64>)
        ensures
            r == view_entity(self@),
    {
        match self {
            Component::Data(_) => None,
            Component::Behaviour(b) => b.get_entity(),
            Component::Collection(c) => c.get_entity(),
        }
    }
}

impl View for BehaviourComponent {
    type V = BehaviourComponent;

    open spec fn view(&self) -> BehaviourComponent {
        *self
    }
}

impl TBehaviourComponent for BehaviourComponent {
    open spec fn spec_view_updated(v: BehaviourComponent) -> BehaviourComponent {
        BehaviourComponent { update_count: inc_sat(v.update_count), ..v }
    }

    open spec fn spec_view_drawn(v: BehaviourComponent) -> BehaviourComponent {
        BehaviourComponent { draw_count: inc_sat(v.draw_count), ..v }
    }

    open spec fn spec_view_destroyed(v: BehaviourComponent) -> BehaviourComponent {
        BehaviourComponent { destroyed_count: inc_sat(v.destroyed_count), ..v }
    }

    open spec fn spec_view_entity(v: BehaviourComponent) -> Option<i64> {
        v.entity
    }

    open spec fn spec_view_with_entity(v: BehaviourComponent, e: Option<i64>) -> BehaviourComponent {
        BehaviourComponent { entity: e, ..v }
    }

    fn update(&mut self) {
        self.update_count = if self.update_count < u64::MAX {
            self.update_count + 1
        } else {
            self.update_count
        };
    }

    fn draw(&mut self) {
        self.draw_count = if self.draw_count < u64::MAX {
            self.draw_count + 1
        } else {
            self.draw_count
        };
    }

    fn on_destroyed(&mut self) {
        self.destroyed_count = if self.destroyed_count < u64::MAX {
            self.destroyed_count + 1
        } else {
            self.destroyed_count
        };
    }

    fn get_entity(&self) -> Option<i64> {
        self.entity
    }

    fn set_entity(&mut self, e: Option<i64>) {
        self.entity = e;
    }
}

} // verus!

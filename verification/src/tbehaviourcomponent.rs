use vstd::prelude::*;

use crate::tcomponent::TComponent;

verus! {

/// The capability of components that take part in per-tick dispatch: an
/// update and a draw hook, a destruction hook that runs when the owning
/// entity is torn down, and a back-reference slot naming the owning entity.
///
/// The back-reference is an entity id, never an address: after detach it is
/// cleared, and resolving a stale id through the scene yields a defined
/// "absent" answer instead of a dangling access.
///
/// Each implementor gives a mathematical model of its hooks over its view so
/// that dispatch loops can state exactly what one pass does.
pub trait TBehaviourComponent: TComponent + View + Sized {
    /// The model of one update step.
    spec fn spec_view_updated(v: Self::V) -> Self::V;

    /// The model of one draw step.
    spec fn spec_view_drawn(v: Self::V) -> Self::V;

    /// The model of the destruction hook.
    spec fn spec_view_destroyed(v: Self::V) -> Self::V;

    /// The back-reference carried by a value.
    spec fn spec_view_entity(v: Self::V) -> Option<i64>;

    /// The model of storing a back-reference.
    spec fn spec_view_with_entity(v: Self::V, e: Option<i64>) -> Self::V;

    /// The update hook, called once per dispatched pass.
    fn update(&mut self)
        ensures
            (*final(self))@ == Self::spec_view_updated((*old(self))@),
    ;

    /// The draw hook.
    fn draw(&mut self)
        ensures
            (*final(self))@ == Self::spec_view_drawn((*old(self))@),
    ;

    /// The hook that fires when the owning entity is destroyed.
    fn on_destroyed(&mut self)
        ensures
            (*final(self))@ == Self::spec_view_destroyed((*old(self))@),
    ;

    /// Retrieves the assigned entity, if any.
    fn get_entity(&self) -> (r: Option<i64>)
        ensures
            r == Self::spec_view_entity(self@),
    ;

    /// Assigns the owning entity. The scene calls this at attach and detach
    /// time; it is not meant to be called by component code.
    fn set_entity(&mut self, e: Option<i64>)
        ensures
            (*final(self))@ == Self::spec_view_with_entity((*old(self))@, e),
    ;

    /// The id of the assigned entity, with a sentinel for "none".
    fn get_id(&self) -> (r: i64)
        ensures
            r == match Self::spec_view_entity(self@) {
                Some(i) => i,
                None => -1 as i64,
            },
    {
        match self.get_entity() {
            Some(i) => i,
            None => -1,
        }
    }
}

} // verus!

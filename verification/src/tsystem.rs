use vstd::prelude::*;

use crate::tcomponent::{Component, ComponentKey};

verus! {

/// The base capability of every system. A system lives in a scene's registry
/// and receives the attach and detach notification for every component in
/// that scene; the two queries say which optional dispatch capabilities the
/// system offers. A system that does not care about a notification inherits
/// the no-op hook.
pub trait TSystem {
    /// Capability query: whether the system takes part in update dispatch.
    fn get_updatable(&self) -> bool {
        false
    }

    /// Capability query: whether the system takes part in draw dispatch.
    fn get_drawable(&self) -> bool {
        false
    }

    /// The hook that fires when a component is attached anywhere in the
    /// scene.
    fn on_component_added_to_entity(&mut self, key: ComponentKey, component: &Component) {
    }

    /// The hook that fires when a component is detached anywhere in the
    /// scene.
    fn on_component_removed_from_entity(&mut self, key: ComponentKey) {
    }
}

} // verus!

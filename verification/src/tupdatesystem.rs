use vstd::prelude::*;

use crate::entitydata::{entries_view, EntityEntry, EntityEntryView};
use crate::tsystem::TSystem;

verus! {

/// The update-dispatch capability of a system: once per tick the scene hands
/// an updatable system the entity table to run one update pass over.
pub trait TUpdateSystem: TSystem {
    /// When an update pass may run.
    spec fn spec_update_req(&self, entities: Seq<EntityEntryView>) -> bool;

    /// One update pass over the entity table.
    fn update(&mut self, entities: &mut Vec<EntityEntry>)
        requires
            old(self).spec_update_req(entries_view(old(entities)@)),
    ;
}

} // verus!

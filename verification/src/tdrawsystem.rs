use vstd::prelude::*;

use crate::entitydata::{entries_view, EntityEntry, EntityEntryView};
use crate::tsystem::TSystem;

verus! {

/// The draw-dispatch capability of a system: once per frame the scene hands
/// a drawable system the entity table to run one draw pass over.
pub trait TDrawSystem: TSystem {
    /// When a draw pass may run.
    spec fn spec_draw_req(&self, entities: Seq<EntityEntryView>) -> bool;

    /// One draw pass over the entity table.
    fn draw(&mut self, entities: &mut Vec<EntityEntry>)
        requires
            old(self).spec_draw_req(entries_view(old(entities)@)),
    ;
}

} // verus!

//! An entity-component-system runtime core.
//!
//! A [`scene::Scene`] owns a table of entities, each an ordered set of typed
//! component slots, and a registry of systems that observe every component
//! attach and detach. The [`behavioursystem::BehaviourSystem`] keeps a
//! subscription list of the behaviour-capable components and dispatches their
//! update and draw hooks in subscription order once per tick.
//!
//! Entities are named by ids, components by an id and a type-slot tag, and
//! systems resolve those names through the scene's own table; a name whose
//! target is gone resolves to a defined "absent" answer. All state is owned
//! by the scene, so exclusive access to a component is enforced by ownership
//! itself, and every operation fails soft: a call whose target is missing
//! reports failure and changes nothing.

pub mod behavioursystem;
pub mod componentcollection;
pub mod entity;
pub mod entitydata;
pub mod scene;
pub mod tbehaviourcomponent;
pub mod tcomponent;
pub mod tdrawsystem;
pub mod tsystem;
pub mod tupdatesystem;

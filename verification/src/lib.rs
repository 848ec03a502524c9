//! An archetypal entity-component engine.
//!
//! Entities are generational handles; the component kinds an entity carries
//! form its archetype; each archetype owns a columnar table that stores one
//! type-erased byte column per kind.  A trie over sorted kind identifiers
//! resolves kind sets to archetypes and answers subset queries, and the world
//! ties allocator, archetypes and tables together behind a checked interface.

pub mod archetype;
pub mod blobvec;
pub mod component;
pub mod entity;
pub mod events;
pub mod query;
pub mod resources;
pub mod sparse_set;
pub mod table;
pub mod world;

//! What the datasets promise, said of a demo and of the rows told of it.
//!
//! The modules here hold proofs only. Each states, for one dataset, which rows there are and
//! what every field of a row is, by the fields of the entities and the keys of the events that
//! the row is told of.

pub mod basics;
pub mod blinds;
pub mod chat;
pub mod economy;
pub mod events;
pub mod items;
pub mod marks;
pub mod outcomes;
pub mod participants;
pub mod projectiles;
pub mod reading;
pub mod roster;
pub mod rounds;
pub mod segments;
pub mod states;
pub mod tables;
pub mod timeouts;
pub mod views;
pub mod wire;

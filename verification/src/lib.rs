//! Structured datasets from decoded Counter-Strike demos.
//!
//! The decoder hands over a demo as plain values ([`demo`]): frames of entities and the game
//! events between them. [`parser::Parser`] turns these into tables, one row type each:
//!
//! - [`rounds`], [`timeouts`]: what the game-rules entity goes through.
//! - [`kills`], [`damages`], [`bomb`], [`shots`], [`blinds`]: what happens to players, read in
//!   one pass ([`events`]).
//! - [`projectiles`]: thrown grenades, fires and smokes.
//! - [`players`], [`items`], [`snapshots`], [`economy`]: who plays, with what, in which state.
//! - [`chat`]: what is said.
//!
//! [`names`] holds the name tables, [`keys`] and [`resolve`] read events and entities,
//! [`anchors`], [`marks`] and [`trades`] join rows with rounds and with each other,
//! [`segments`] cuts a demo for decoding side by side, and [`display`] lays rows out as text.
//! [`laws`] says what all of them promise, and proves it.

pub mod anchors;
pub mod blinds;
pub mod bomb;
pub mod chat;
pub mod damages;
pub mod demo;
pub mod display;
pub mod economy;
pub mod events;
pub mod float;
pub mod items;
pub mod keys;
pub mod kills;
pub mod laws;
pub mod marks;
pub mod names;
pub mod order;
pub mod parser;
pub mod players;
pub mod projectiles;
pub mod resolve;
pub mod rounds;
pub mod segments;
pub mod shots;
pub mod snapshots;
pub mod text;
pub mod timeouts;
pub mod trades;
pub mod wire;

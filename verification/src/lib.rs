//! An in-memory registry of typed process values ("points").
//!
//! Every point carries a quality code next to its payload, lives in the
//! table of its primitive kind under a dense integer identifier, and can be
//! named by a link that says which table, which identifier and which host.
//!
//! - [`invalid`] and [`primitive`]: quality states, primitive kinds, and the
//!   values made of them.
//! - [`registry`]: the tags of the tables.
//! - [`table`]: one table, with allocation, reading, storing and updating.
//! - [`host`] and [`link`]: the names of points and their text.
//! - [`resolver`]: the set of tables of this host, and what a link names in
//!   it.
//! - [`store`] and [`text`]: what the tables and the texts are built on.

pub mod host;
pub mod invalid;
pub mod link;
pub mod primitive;
pub mod registry;
pub mod resolver;
pub mod store;
pub mod table;
pub mod text;

//! A verified todo-list store.
//!
//! The store keeps todo items, each with a numeric id, a text and a
//! completion flag, together with the last id that was handed out. Ids come
//! from a counter that never decreases, so an id is never reused, and the
//! items stay sorted by id. The store is persisted as a JSON document: the
//! codec renders and parses that document, and a proved round trip shows
//! that every saved store loads back exactly.
//!
//! The modules:
//! - [`store`]: the data model, the operations, and the command dispatcher;
//! - [`codec`]: the document grammar, the renderer and the parser;
//! - [`digits`]: decimal notation for the ids;
//! - [`strutil`]: small helpers between strings and character vectors.

pub mod store;
pub mod strutil;
pub mod digits;
pub mod codec;

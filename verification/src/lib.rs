//! Sorting of `.gitignore` files within their sections, and the logic of
//! the editor tooling around it: the language server that offers the sort
//! as a formatting edit, and the lookup of the server binary.
//!
//! * `text`, `lines`: characters and lines, as `str` reads them.
//! * `patterns`, `blocks`, `gitignore`: the sort itself.
//! * `fixpoint`, `roundtrip`: sorting what is sorted changes nothing.
//! * `documents`, `server`: the open documents and the edits offered.
//! * `install`: the steps that find or fetch the server binary.

pub mod text;
pub mod lines;
pub mod patterns;
pub mod blocks;
pub mod gitignore;
pub mod fixpoint;
pub mod roundtrip;
pub mod documents;
pub mod server;
pub mod install;

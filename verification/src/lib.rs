//! Readers and writers for the binary asset formats of the game: sub-flag
//! definitions, character definitions, monster catalogs and texture metadata.
//!
//! Every parser is a function on bytes whose result is stated exactly by a
//! spec-level parser over `Seq<u8>`; every writer is stated by a spec-level
//! serializer, and the laws relating the two are proved.

pub mod char_def;
pub mod char_def_laws;
pub mod error;
pub mod le;
pub mod monster_catalog;
pub mod monster_laws;
pub mod name_map;
pub mod reader;
pub mod subflags;
pub mod subflags_laws;
pub mod text;
pub mod xtexture;
pub mod xtexture_laws;

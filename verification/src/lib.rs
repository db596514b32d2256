//! Embeds a sorted key/value override table into the memory image of a
//! WebAssembly module, so that the module finds its configuration without
//! calling its host.

pub mod layout;
pub mod order;
pub mod table;
pub mod patch;
pub mod config;
pub mod module;
pub mod reader;

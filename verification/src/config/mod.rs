//! The configuration tree and everything that builds or queries it.

pub mod names;
pub mod text;
pub mod value;
pub mod meta;
pub mod model;
pub mod manager;
pub mod lookup;
pub mod search;
pub mod json;
pub mod show;
pub mod laws;

pub use names::validate_elem_name;
pub use value::ElemVal;
pub use meta::MetaTable;
pub use json::{JsonLoader, JsonValue, JsonNumber};
pub use manager::{Manager, ElemHandle, Element};
pub use lookup::ElemLookup;

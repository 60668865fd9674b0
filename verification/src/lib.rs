use vstd::prelude::*;

pub mod text;
pub mod date;
pub mod yaml;
pub mod schema;
pub mod links;
pub mod note;
pub mod order;
pub mod fields;
pub mod lint;

verus! {
} // verus!

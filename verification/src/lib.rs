//! A small verified link store: abbreviations bound to target strings,
//! kept as a sorted association list, serialized to a flat JSON object.

pub mod codec;
pub mod dispatch;
pub mod order;
pub mod store;

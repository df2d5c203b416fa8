//! An object store that keeps values of many types side by side and finds
//! them again by type, by the value of a field, or by a range of field values.
//!
//! Values are held as JSON documents (`json::JsonValue`), flattened so that
//! every nested field is reached by a dotted path, and indexed per field.

pub mod collections;
pub mod doc_buckets;
pub mod entry;
pub mod flat;
pub mod flat_laws;
pub mod index_laws;
pub mod indexer;
pub mod json;
pub mod object_entry;
pub mod object_space;
pub mod ordered;
pub mod ordered_index;
pub mod shallow_flat;
pub mod space_laws;
pub mod tree_entry;
pub mod type_box;

//! A compact, pointer-free archive of a scene tree.
//!
//! A tree of nodes, each carrying optional values of a fixed list of component
//! kinds, is flattened in pre-order into one array of records. A record stores
//! how many records after it belong to its subtree, so the shape of the tree is
//! implicit in the array. Each kind is stored either inline in every record or
//! in a table beside the array, referenced from the record by a 1-based key.
//!
//! - `text`: decimal text of small numbers, shared by the diagnostic strings.
//! - `inline`: values stored directly in the record.
//! - `ref_table`: tables, keys and the lists built from them.
//! - `entity`: the record and the errors of the archive.
//! - `tree`: the live tree, its pre-order and the proofs about both.
//! - `census`: how often each kind occurs among the nodes of a pre-order.
//! - `hierarchy`: writing a tree into records and reading it back.
//! - `scene`: the archive as a whole.
//! - `fast`: the fixed-layout material and identifier records.
//! - `handles`: identifiers for the handles of meshes, materials and images.
//! - `version`: the version tag carried in the name of an archive entry.
//! - `loader`: the order of the entries of an archive file.
//! - `proxy`: a wrapper that stores a value as it is.
pub mod text;
pub mod inline;
pub mod ref_table;
pub mod entity;
pub mod tree;
pub mod census;
pub mod hierarchy;
pub mod scene;
pub mod version;
pub mod fast;
pub mod handles;
pub mod loader;
pub mod proxy;

pub use crate::inline::Inline;
pub use crate::ref_table::Table;

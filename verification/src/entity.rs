//! The record of one node, and the errors of the archive.
use vstd::prelude::*;
use crate::inline::{InlineStorage, Inlines};
use crate::ref_table::{KeyStorage, Keys};

verus! {

/// Why an archive could not be written or read.
#[derive(Debug, Clone, Copy, PartialEq, Eq, Structural)]
pub enum Error {
    /// A table would hold more values than a key can address.
    TableFull,
    /// The tree has more nodes than a descendant count can express.
    TooManyEntities,
    /// A descendant count reaches past the end of the records it is read from.
    Truncated,
    /// A key refers to a position that its table does not have.
    DanglingKey,
    /// The records do not start with one root that covers all the others.
    MissingRoot,
}

/// The record of one node.
pub struct Entity<Ks, Is> {
    /// How many records after this one belong to its subtree.
    pub children: u32,
    pub inline_items: InlineStorage<Is>,
    pub ref_table_keys: KeyStorage<Ks>,
}

impl<Ks: Keys, Is: Inlines> Entity<Ks, Is> {
    /// The record of a node without descendants and without values.
    pub fn empty() -> (r: Self)
        ensures
            r.children == 0,
            r.inline_items.filled() == Seq::new(Is::arity(), |i: int| false),
            r.ref_table_keys.slots() == Seq::new(Ks::arity(), |i: int| 0nat),
    {
        Entity {
            children: 0,
            inline_items: InlineStorage::new(),
            ref_table_keys: KeyStorage::no_component(),
        }
    }
}

} // verus!

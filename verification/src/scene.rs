//! The archive as a whole: the records of all nodes and the tables beside them.
use vstd::prelude::*;
use crate::census::{fits, lemma_tally_concat, occurrences, tally};
use crate::entity::{Entity, Error};
use crate::hierarchy::{
    build, decodes, fault, lemma_preorder_has_no_fault, patterns, reads, record_holds, written,
    Spawn,
};
use crate::inline::{InlineStorage, Inlines};
use crate::ref_table::{in_range, Keys, Lookup, TableStorage, Tables, MAX_INDEX};
use crate::tree::{
    count, lemma_preorder_determines, lemma_preorder_len, lemma_subtree_is_contiguous, mirrors,
    node_at, preorder, slot_of, Node, Slot,
};

verus! {

/// A scene tree as one array of records and the tables that their keys refer to.
///
/// The first record stands for a root above all the trees of the scene; the
/// records of the nodes follow it in pre-order.
pub struct FastScene<Ts: Tables, Is: Inlines> {
    pub entities: Vec<Entity<Ts::Keys, Is>>,
    pub tables: TableStorage<Ts>,
}

/// The lengths of `arity` tables without values.
pub open spec fn no_values(arity: nat) -> Seq<nat> {
    Seq::new(arity, |k: int| 0nat)
}

/// Whether no table kind occurs more often among the nodes than a key can
/// address.
pub open spec fn within_capacity(patterns: Seq<Seq<bool>>, arity: nat) -> bool {
    forall|k: int| 0 <= k < arity ==> #[trigger] occurrences(patterns, k) <= MAX_INDEX
}

/// Empty tables can take the values of a forest exactly when no kind occurs too
/// often.
pub proof fn lemma_capacity(patterns: Seq<Seq<bool>>, arity: nat)
    ensures
        fits(no_values(arity), patterns) == within_capacity(patterns, arity),
{
    let lens = no_values(arity);
    if fits(lens, patterns) {
        assert forall|k: int| 0 <= k < arity implies #[trigger] occurrences(patterns, k)
            <= MAX_INDEX by {
            if occurrences(patterns, k) > 0 {
                assert(lens[k] + occurrences(patterns, k) <= MAX_INDEX);
            }
        }
    }
    if within_capacity(patterns, arity) {
        assert forall|k: int| 0 <= k < lens.len() && occurrences(patterns, k) > 0 implies lens[k]
            + #[trigger] occurrences(patterns, k) <= MAX_INDEX by {
            assert(occurrences(patterns, k) <= MAX_INDEX);
        }
    }
}

impl<Ts: Tables, Is: Inlines> FastScene<Ts, Is> {
    /// Whether this archive is what the trees below `roots` are written as.
    ///
    /// The first record counts all nodes and holds no values. The record of the
    /// node at position `i` of the pre-order follows at `i + 1`: it counts the
    /// node's descendants, holds its inline values, and for each table value a key
    /// with the number of nodes up to this one that have a value of that kind,
    /// which is where the table holds the value. Each table holds as many values
    /// as nodes have one of its kind.
    pub open spec fn archives(&self, roots: Seq<Node<(Ts::Values, InlineStorage<Is>)>>) -> bool {
        let entities = self.entities@;
        &&& entities.len() == count(roots) + 1
        &&& entities[0].children == count(roots)
        &&& entities[0].inline_items.filled() == Seq::new(Is::arity(), |i: int| false)
        &&& entities[0].ref_table_keys.slots() == no_values(Ts::Keys::arity())
        &&& self.tables.lens() == tally(
            no_values(Ts::Keys::arity()),
            patterns::<Ts, Is>(preorder(roots)),
        )
        &&& written(
            entities.subrange(1, entities.len() as int),
            self.tables,
            no_values(Ts::Keys::arity()),
            preorder(roots),
        )
    }

    /// Whether `root` is the tree that this archive holds: the tree whose
    /// pre-order, node by node, is what the records say, each node with the
    /// values that its record's keys refer to and with its record's inline
    /// values.
    pub open spec fn unfolds_to<'a>(
        &self,
        root: Node<(Ts::Refs, &'a InlineStorage<Is>)>,
    ) -> bool where Ts: Lookup<'a> {
        reads(seq![root], self.entities@, self.tables)
    }

    /// Writes the trees below `roots` into an archive.
    ///
    /// Fails, with nothing written, where the trees have more nodes than a record
    /// can count, or more values of one table kind than a key can address.
    pub fn from_tree(roots: Vec<Node<(Ts::Values, InlineStorage<Is>)>>) -> (r: Result<Self, Error>)
        ensures
            count(roots@) > u32::MAX ==> r is Err && r->Err_0 == Error::TooManyEntities,
            count(roots@) <= u32::MAX && !within_capacity(
                patterns::<Ts, Is>(preorder(roots@)),
                Ts::Keys::arity(),
            ) ==> r is Err && r->Err_0 == Error::TableFull,
            count(roots@) <= u32::MAX && within_capacity(
                patterns::<Ts, Is>(preorder(roots@)),
                Ts::Keys::arity(),
            ) ==> r is Ok,
            r is Ok ==> r->Ok_0.archives(roots@),
            r is Ok ==> r->Ok_0.entities@[0].children == count(roots@),
            r is Ok ==> forall|i: int|
                0 <= i < r->Ok_0.entities@.len() ==> in_range(
                    (#[trigger] r->Ok_0.entities@[i]).ref_table_keys.slots(),
                    r->Ok_0.tables.lens(),
                ),
    {
        let mut tables: TableStorage<Ts> = TableStorage::new();
        proof {
            lemma_capacity(patterns::<Ts, Is>(preorder(roots@)), Ts::Keys::arity());
        }
        match build(roots, &mut tables) {
            Ok(entities) => Ok(FastScene { entities, tables }),
            Err(e) => Err(e),
        }
    }

    /// Reads the archive back into a tree: the root that stands above the scene,
    /// with the trees of the scene as its children. Each node has the values that
    /// its record's keys refer to, borrowed from the tables, and the inline
    /// values of its record.
    ///
    /// Fails where the records do not hold a tree: where there is no first record
    /// that counts all the others, and else on the first record that has a key
    /// without a value or counts more descendants than records follow it.
    pub fn to_tree<'a>(&'a self) -> (r: Result<
        Node<(Ts::Refs, &'a InlineStorage<Is>)>,
        Error,
    >) where Ts: Lookup<'a>
        ensures
            self.rootless() ==> r is Err && r->Err_0 == Error::MissingRoot,
            !self.rootless() ==> match fault(self.entities@, self.tables.lens()) {
                Some(e) => r is Err && r->Err_0 == e,
                None => r is Ok && self.unfolds_to(r->Ok_0),
            },
    {
        let total: usize = self.entities.len();
        if total == 0 {
            return Err(Error::MissingRoot);
        }
        if self.entities[0].children as usize != total - 1 {
            return Err(Error::MissingRoot);
        }
        let spawn = Spawn::new(self.entities.as_slice(), &self.tables);
        let mut level = match spawn.children_of() {
            Ok(level) => level,
            Err(e) => {
                return Err(e);
            },
        };
        proof {
            let records = self.entities@;
            lemma_preorder_len(level@);
            assert(level@.len() > 0);
            lemma_preorder_len(level@[0].children@);
            lemma_preorder_len(level@.drop_first());
            assert(preorder(level@)[0] == slot_of(level@[0]));
            assert(decodes(preorder(level@)[0], records[0], self.tables));
            if level@.drop_first().len() > 0 {
                assert(count(level@.drop_first()) >= 1);
            }
            assert(level@ =~= seq![level@[0]]);
        }
        Ok(level.pop().unwrap())
    }

    /// Whether the records lack a first record that counts all the others.
    pub open spec fn rootless(&self) -> bool {
        self.entities@.len() == 0 || self.entities@[0].children != self.entities@.len() - 1
    }

    /// An archive that was written from a forest can be read: it has its root
    /// record, every key has its value, and no record counts more descendants
    /// than follow it.
    pub proof fn lemma_written_reads_back(
        &self,
        roots: Seq<Node<(Ts::Values, InlineStorage<Is>)>>,
    )
        requires
            self.archives(roots),
        ensures
            !self.rootless(),
            fault(self.entities@, self.tables.lens()) is None,
            forall|i: int|
                0 <= i < self.entities@.len() ==> in_range(
                    (#[trigger] self.entities@[i]).ref_table_keys.slots(),
                    self.tables.lens(),
                ),
    {
        let entities = self.entities@;
        let lens = self.tables.lens();
        let total = entities.len() as int;
        let records = entities.subrange(1, total);
        let none = entities.subrange(total, total);
        self.tables.lemma_lens_len();
        lemma_preorder_len(roots);
        assert(in_range(entities[0].ref_table_keys.slots(), lens));
        assert forall|i: int| 0 <= i < entities.len() implies in_range(
            (#[trigger] entities[i]).ref_table_keys.slots(),
            lens,
        ) by {
            if i > 0 {
                assert(entities[i] == records[i - 1]);
            }
        }
        assert forall|i: int| 0 <= i < records.len() implies {
            &&& (#[trigger] records[i]).children == preorder(roots)[i].descendants
            &&& in_range(records[i].ref_table_keys.slots(), lens)
        } by {
            assert(record_holds(
                records[i],
                self.tables,
                tally(
                    no_values(Ts::Keys::arity()),
                    patterns::<Ts, Is>(preorder(roots)).take(i),
                ),
                preorder(roots)[i],
            ));
        }
        lemma_preorder_has_no_fault(records, lens, roots);
        assert(fault(none, lens) is None);
    }

    /// Reading back what was written gives the trees that were written: the
    /// children of the root that is read have the shape of the forest, and each
    /// node has the values of the node in its place, present where they were
    /// present and absent where they were absent.
    pub proof fn lemma_roundtrip<'a>(
        &self,
        roots: Seq<Node<(Ts::Values, InlineStorage<Is>)>>,
        root: Node<(Ts::Refs, &'a InlineStorage<Is>)>,
    ) where Ts: Lookup<'a>
        requires
            self.archives(roots),
            self.unfolds_to(root),
        ensures
            mirrors(
                root.children@,
                roots,
                |read: (Ts::Refs, &'a InlineStorage<Is>), data: (Ts::Values, InlineStorage<Is>)|
                    Ts::seen(read.0) == data.0 && *read.1 == data.1,
            ),
    {
        let same = |read: (Ts::Refs, &'a InlineStorage<Is>), data: (Ts::Values, InlineStorage<Is>)|
            Ts::seen(read.0) == data.0 && *read.1 == data.1;
        let entities = self.entities@;
        let records = entities.subrange(1, entities.len() as int);
        let read = preorder(root.children@);
        let source = preorder(roots);
        let whole = preorder(seq![root]);
        lemma_preorder_len(root.children@);
        lemma_preorder_len(roots);
        assert(seq![root].drop_first() =~= Seq::<Node<(Ts::Refs, &'a InlineStorage<Is>)>>::empty());
        assert(preorder(seq![root].drop_first()) =~= Seq::<
            Slot<(Ts::Refs, &'a InlineStorage<Is>)>,
        >::empty());
        assert(whole =~= seq![slot_of(root)] + read);
        assert(read.len() == source.len());
        assert forall|p: int| 0 <= p < read.len() implies {
            &&& read[p].descendants == source[p].descendants
            &&& same(read[p].data, source[p].data)
        } by {
            assert(read[p] == whole[p + 1]);
            assert(decodes(whole[p + 1], entities[p + 1], self.tables));
            assert(records[p] == entities[p + 1]);
            assert(record_holds(
                records[p],
                self.tables,
                tally(no_values(Ts::Keys::arity()), patterns::<Ts, Is>(source).take(p)),
                source[p],
            ));
        }
        lemma_preorder_determines(root.children@, roots, same);
    }

    /// In an archive that was written from a forest, the records that follow the
    /// record of a node, as many as it counts, are what the children of that node
    /// are written as, and it counts as many as the node has descendants.
    pub proof fn lemma_descendants_follow(
        &self,
        roots: Seq<Node<(Ts::Values, InlineStorage<Is>)>>,
        p: int,
    )
        requires
            self.archives(roots),
            0 <= p < count(roots),
        ensures
            self.entities@[p + 1].children == count(node_at(roots, p as nat).children@),
            p + 1 + self.entities@[p + 1].children < self.entities@.len(),
            written(
                self.entities@.subrange(p + 2, p + 2 + self.entities@[p + 1].children),
                self.tables,
                tally(
                    no_values(Ts::Keys::arity()),
                    patterns::<Ts, Is>(preorder(roots)).take(p + 1),
                ),
                preorder(node_at(roots, p as nat).children@),
            ),
    {
        let entities = self.entities@;
        let records = entities.subrange(1, entities.len() as int);
        let source = preorder(roots);
        let node = node_at(roots, p as nat);
        let below = preorder(node.children@);
        let d = count(node.children@) as int;
        let lens = no_values(Ts::Keys::arity());
        let all = patterns::<Ts, Is>(source);
        lemma_subtree_is_contiguous(roots, p as nat);
        lemma_preorder_len(node.children@);
        assert(records[p] == entities[p + 1]);
        assert(record_holds(records[p], self.tables, tally(lens, all.take(p)), source[p]));
        let part = entities.subrange(p + 2, p + 2 + d);
        assert forall|q: int| 0 <= q < below.len() implies record_holds(
            #[trigger] part[q],
            self.tables,
            tally(tally(lens, all.take(p + 1)), patterns::<Ts, Is>(below).take(q)),
            below[q],
        ) by {
            assert(part[q] == records[p + 1 + q]);
            assert(source.subrange(p + 1, p + 1 + d)[q] == source[p + 1 + q]);
            assert(record_holds(
                records[p + 1 + q],
                self.tables,
                tally(lens, all.take(p + 1 + q)),
                source[p + 1 + q],
            ));
            assert(all.take(p + 1 + q) =~= all.take(p + 1) + patterns::<Ts, Is>(below).take(q)) by {
                assert forall|i: int| 0 <= i < q implies all[p + 1 + i] == patterns::<Ts, Is>(
                    below,
                )[i] by {
                    assert(source.subrange(p + 1, p + 1 + d)[i] == source[p + 1 + i]);
                }
            }
            lemma_tally_concat(lens, all.take(p + 1), patterns::<Ts, Is>(below).take(q));
        }
    }
}

} // verus!

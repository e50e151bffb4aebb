//! Writing a tree into records, and reading records back into a tree.
use vstd::prelude::*;
use crate::entity::{Entity, Error};
use crate::inline::{InlineStorage, Inlines};
use crate::census::{
    fits, lemma_fits_concat, lemma_fits_push, lemma_misfit_grows, lemma_tally_concat,
    lemma_tally_none, lemma_tally_push, tally,
};
use crate::ref_table::{in_range, issued, KeyStorage, Keys, Lookup, TableStorage, Tables};
use crate::tree::{
    count, lemma_preorder_concat, lemma_preorder_len, lemma_preorder_push, preorder, reversed,
    slot_of, Node, Slot,
};

verus! {

/// How many nodes the forest has, if they are no more than `budget`.
pub fn count_within<D>(nodes: &Vec<Node<D>>, budget: u32) -> (r: Option<u32>)
    ensures
        count(nodes@) <= budget ==> r == Some(count(nodes@) as u32),
        count(nodes@) > budget ==> r is None,
    decreases nodes,
{
    let mut used: u32 = 0;
    let mut i: usize = 0;
    while i < nodes.len()
        invariant
            i <= nodes@.len(),
            used == count(nodes@.take(i as int)),
            used <= budget,
        decreases nodes@.len() - i,
    {
        proof {
            lemma_preorder_push(nodes@.take(i as int), nodes@[i as int]);
            assert(nodes@.take(i as int).push(nodes@[i as int]) =~= nodes@.take(i + 1));
            lemma_count_prefix(nodes@, i + 1);
        }
        if used == budget {
            return None;
        }
        match count_within(&nodes[i].children, budget - used - 1) {
            None => {
                return None;
            },
            Some(below) => {
                used = used + 1 + below;
            },
        }
        i = i + 1;
    }
    assert(nodes@.take(i as int) =~= nodes@);
    Some(used)
}

/// The first trees of a forest have no more nodes than the whole forest.
pub proof fn lemma_count_prefix<D>(forest: Seq<Node<D>>, n: int)
    requires
        0 <= n <= forest.len(),
    ensures
        count(forest.take(n)) <= count(forest),
    decreases forest.len() - n,
{
    if n == forest.len() {
        assert(forest.take(n) =~= forest);
    } else {
        lemma_preorder_push(forest.take(n), forest[n]);
        assert(forest.take(n).push(forest[n]) =~= forest.take(n + 1));
        lemma_count_prefix(forest, n + 1);
    }
}

/// Which table kinds each node of a pre-order has a value for.
pub open spec fn patterns<Ts: Tables, Is>(
    pre: Seq<Slot<(Ts::Values, InlineStorage<Is>)>>,
) -> Seq<Seq<bool>> {
    Seq::new(pre.len(), |i: int| Ts::present(&pre[i].data.0))
}

/// Whether the record `e` holds what the pre-order says of one node: the number
/// of its descendants, its inline values as they are, and for its table values
/// the keys that were handed out when the tables had the lengths `lens_before`,
/// which refer to those values in `tables`.
pub open spec fn record_holds<Ts: Tables, Is: Inlines>(
    e: Entity<Ts::Keys, Is>,
    tables: TableStorage<Ts>,
    lens_before: Seq<nat>,
    slot: Slot<(Ts::Values, InlineStorage<Is>)>,
) -> bool {
    &&& e.children == slot.descendants
    &&& e.inline_items == slot.data.1
    &&& tables.resolve(&e.ref_table_keys) == slot.data.0
    &&& e.ref_table_keys.slots() == issued(lens_before, Ts::present(&slot.data.0))
    &&& in_range(e.ref_table_keys.slots(), tables.lens())
}

/// Whether `records` hold the pre-order `pre`, written one node after the other
/// into tables that had the lengths `lens` before the first.
pub open spec fn written<Ts: Tables, Is: Inlines>(
    records: Seq<Entity<Ts::Keys, Is>>,
    tables: TableStorage<Ts>,
    lens: Seq<nat>,
    pre: Seq<Slot<(Ts::Values, InlineStorage<Is>)>>,
) -> bool {
    &&& records.len() == pre.len()
    &&& forall|i: int|
        0 <= i < pre.len() ==> record_holds(
            #[trigger] records[i],
            tables,
            tally(lens, patterns::<Ts, Is>(pre).take(i)),
            pre[i],
        )
}

/// A record that holds a node still holds it after the tables received more
/// values.
proof fn lemma_record_survives<Ts: Tables, Is: Inlines>(
    e: Entity<Ts::Keys, Is>,
    tables: TableStorage<Ts>,
    later: TableStorage<Ts>,
    lens_before: Seq<nat>,
    slot: Slot<(Ts::Values, InlineStorage<Is>)>,
)
    requires
        record_holds(e, tables, lens_before, slot),
        tables.extends_to(&later),
    ensures
        record_holds(e, later, lens_before, slot),
{
    assert(later.resolve(&e.ref_table_keys) == tables.resolve(&e.ref_table_keys));
    assert forall|k: int| 0 <= k < e.ref_table_keys.slots().len() implies e.ref_table_keys.slots()[k]
        <= later.lens()[k] by {
        assert(tables.lens()[k] <= later.lens()[k]);
    }
}

/// Storing more values twice is storing more values.
proof fn lemma_extends_twice<Ts: Tables>(
    first: TableStorage<Ts>,
    second: TableStorage<Ts>,
    third: TableStorage<Ts>,
)
    requires
        first.extends_to(&second),
        second.extends_to(&third),
    ensures
        first.extends_to(&third),
{
    assert forall|k: int| 0 <= k < first.lens().len() implies first.lens()[k]
        <= #[trigger] third.lens()[k] by {
        assert(first.lens()[k] <= second.lens()[k]);
    }
    assert forall|keys: KeyStorage<Ts::Keys>|
        in_range(keys.slots(), first.lens()) implies #[trigger] third.resolve(&keys)
        == first.resolve(&keys) by {
        assert(second.resolve(&keys) == first.resolve(&keys));
        assert forall|k: int| 0 <= k < keys.slots().len() implies keys.slots()[k] <= second.lens()[k] by {
            assert(first.lens()[k] <= second.lens()[k]);
        }
        assert(in_range(keys.slots(), second.lens()));
    }
}

/// The records of a forest, then the record of one more tree, then the records
/// of that tree's children, written in this order, are the records of the forest
/// with that tree behind it.
proof fn lemma_written_tree<Ts: Tables, Is: Inlines>(
    records: Seq<Entity<Ts::Keys, Is>>,
    tables: TableStorage<Ts>,
    lens: Seq<nat>,
    done: Seq<Node<(Ts::Values, InlineStorage<Is>)>>,
    tree: Node<(Ts::Values, InlineStorage<Is>)>,
)
    requires
        records.len() == count(done) + 1 + count(tree.children@),
        written(records.subrange(0, count(done) as int), tables, lens, preorder(done)),
        record_holds(
            records[count(done) as int],
            tables,
            tally(lens, patterns::<Ts, Is>(preorder(done))),
            slot_of(tree),
        ),
        written(
            records.subrange(count(done) as int + 1, records.len() as int),
            tables,
            tally(
                lens,
                patterns::<Ts, Is>(preorder(done)).push(Ts::present(&tree.data.0)),
            ),
            preorder(tree.children@),
        ),
    ensures
        written(records, tables, lens, preorder(done.push(tree))),
{
    let pre_d = preorder(done);
    let pre_c = preorder(tree.children@);
    let pre = preorder(done.push(tree));
    let p = Ts::present(&tree.data.0);
    let n = count(done) as int;
    lemma_preorder_push(done, tree);
    lemma_preorder_len(done);
    lemma_preorder_len(tree.children@);
    let part_d = records.subrange(0, n);
    let part_c = records.subrange(n + 1, records.len() as int);
    assert forall|i: int| 0 <= i < pre.len() implies record_holds(
        #[trigger] records[i],
        tables,
        tally(lens, patterns::<Ts, Is>(pre).take(i)),
        pre[i],
    ) by {
        if i < n {
            assert(records[i] == part_d[i]);
            assert(pre[i] == pre_d[i]);
            assert(patterns::<Ts, Is>(pre).take(i) =~= patterns::<Ts, Is>(pre_d).take(i));
        } else if i == n {
            assert(pre[i] == slot_of(tree));
            assert(patterns::<Ts, Is>(pre).take(i) =~= patterns::<Ts, Is>(pre_d));
        } else {
            let j = i - n - 1;
            assert(records[i] == part_c[j]);
            assert(pre[i] == pre_c[j]);
            assert(patterns::<Ts, Is>(pre).take(i) =~= patterns::<Ts, Is>(pre_d).push(p)
                + patterns::<Ts, Is>(pre_c).take(j));
            lemma_tally_concat(
                lens,
                patterns::<Ts, Is>(pre_d).push(p),
                patterns::<Ts, Is>(pre_c).take(j),
            );
        }
    }
}

/// The patterns of a forest with one more tree behind it: those of the forest,
/// that of the tree, those of the tree's children.
proof fn lemma_patterns_push<Ts: Tables, Is: Inlines>(
    done: Seq<Node<(Ts::Values, InlineStorage<Is>)>>,
    tree: Node<(Ts::Values, InlineStorage<Is>)>,
)
    ensures
        patterns::<Ts, Is>(preorder(done.push(tree))) == patterns::<Ts, Is>(preorder(done)).push(
            Ts::present(&tree.data.0),
        ) + patterns::<Ts, Is>(preorder(tree.children@)),
{
    lemma_preorder_push(done, tree);
    assert(patterns::<Ts, Is>(preorder(done.push(tree))) =~= patterns::<Ts, Is>(
        preorder(done),
    ).push(Ts::present(&tree.data.0)) + patterns::<Ts, Is>(preorder(tree.children@)));
}

/// The patterns of a forest start with those of its first trees.
proof fn lemma_patterns_prefix<Ts: Tables, Is: Inlines>(
    forest: Seq<Node<(Ts::Values, InlineStorage<Is>)>>,
    n: int,
)
    requires
        0 <= n <= forest.len(),
    ensures
        patterns::<Ts, Is>(preorder(forest)) == patterns::<Ts, Is>(preorder(forest.take(n)))
            + patterns::<Ts, Is>(preorder(forest.skip(n))),
{
    assert(forest.take(n) + forest.skip(n) =~= forest);
    lemma_preorder_concat(forest.take(n), forest.skip(n));
    assert(patterns::<Ts, Is>(preorder(forest)) =~= patterns::<Ts, Is>(
        preorder(forest.take(n)),
    ) + patterns::<Ts, Is>(preorder(forest.skip(n))));
}

/// Writes the trees of a forest behind the records in `entities`, one record per
/// node in pre-order, and their table values into `tables`. Returns how many
/// records it wrote, or an error once a table is full.
fn write_forest<Ts: Tables, Is: Inlines>(
    nodes: Vec<Node<(Ts::Values, InlineStorage<Is>)>>,
    entities: &mut Vec<Entity<Ts::Keys, Is>>,
    tables: &mut TableStorage<Ts>,
) -> (r: Result<u32, Error>)
    requires
        count(nodes@) <= u32::MAX,
    ensures
        old(tables).extends_to(final(tables)),
        final(entities)@.len() >= old(entities)@.len(),
        final(entities)@.subrange(0, old(entities)@.len() as int) == old(entities)@,
        r is Ok <==> fits(old(tables).lens(), patterns::<Ts, Is>(preorder(nodes@))),
        r is Err ==> r == Err::<u32, Error>(Error::TableFull),
        r is Ok ==> {
            &&& r->Ok_0 == count(nodes@)
            &&& final(entities)@.len() == old(entities)@.len() + count(nodes@)
            &&& final(tables).lens() == tally(
                old(tables).lens(),
                patterns::<Ts, Is>(preorder(nodes@)),
            )
            &&& written(
                final(entities)@.subrange(
                    old(entities)@.len() as int,
                    final(entities)@.len() as int,
                ),
                *final(tables),
                old(tables).lens(),
                preorder(nodes@),
            )
        },
    decreases nodes,
{
    let ghost forest = nodes@;
    let ghost lens = tables.lens();
    let ghost base = entities@.len() as int;
    let n: usize = nodes.len();
    let mut queue = reversed(nodes);
    let mut total: u32 = 0;
    let mut j: usize = 0;
    proof {
        lemma_tally_none(lens);
        assert(forest.take(0) =~= Seq::<Node<(Ts::Values, InlineStorage<Is>)>>::empty());
        assert(patterns::<Ts, Is>(preorder(forest.take(0))) =~= Seq::<Seq<bool>>::empty());
        assert(entities@.subrange(0, base) =~= old(entities)@);
    }
    while j < n
        invariant
            forest == nodes@,
            n == forest.len(),
            lens == old(tables).lens(),
            base == old(entities)@.len(),
            count(forest) <= u32::MAX,
            j <= n,
            queue@.len() == n - j,
            forall|i: int| 0 <= i < queue@.len() ==> queue@[i] == forest[n - 1 - i],
            total == count(forest.take(j as int)),
            old(tables).extends_to(tables),
            entities@.len() == base + total,
            entities@.subrange(0, base) == old(entities)@,
            fits(lens, patterns::<Ts, Is>(preorder(forest.take(j as int)))),
            tables.lens() == tally(lens, patterns::<Ts, Is>(preorder(forest.take(j as int)))),
            written(
                entities@.subrange(base, entities@.len() as int),
                *tables,
                lens,
                preorder(forest.take(j as int)),
            ),
        decreases n - j,
    {
        let ghost done = forest.take(j as int);
        let ghost tree = forest[j as int];
        let ghost before = patterns::<Ts, Is>(preorder(done));
        let ghost pattern = Ts::present(&tree.data.0);
        let ghost below = patterns::<Ts, Is>(preorder(tree.children@));
        let ghost tables_0 = *tables;
        let ghost entities_0 = entities@;
        proof {
            assert(done.push(tree) =~= forest.take(j + 1));
            lemma_preorder_push(done, tree);
            lemma_count_prefix(forest, j + 1);
            lemma_patterns_push::<Ts, Is>(done, tree);
            lemma_patterns_prefix::<Ts, Is>(forest, j + 1);
            Ts::lemma_present_len(&tree.data.0);
            tables_0.lemma_lens_len();
            lemma_fits_push(lens, before, pattern);
            lemma_fits_concat(lens, before.push(pattern), below);
            lemma_tally_push(lens, before, pattern);
            lemma_tally_concat(lens, before.push(pattern), below);
        }
        let node = queue.pop().unwrap();
        assert(node == tree);
        let Node { data, children } = node;
        let (values, inline_items) = data;
        let ref_table_keys = match tables.insert_values(values) {
            Ok(keys) => keys,
            Err(e) => {
                proof {
                    lemma_misfit_grows(lens, before.push(pattern), below);
                    lemma_misfit_grows(
                        lens,
                        patterns::<Ts, Is>(preorder(forest.take(j + 1))),
                        patterns::<Ts, Is>(preorder(forest.skip(j + 1))),
                    );
                }
                return Err(Error::TableFull);
            },
        };
        let ghost tables_1 = *tables;
        let at: usize = entities.len();
        entities.push(Entity { children: 0, inline_items, ref_table_keys });
        let ghost entities_1 = entities@;
        proof {
            lemma_extends_twice(*old(tables), tables_0, tables_1);
        }
        let descendants = match write_forest(children, entities, tables) {
            Ok(descendants) => descendants,
            Err(e) => {
                proof {
                    lemma_extends_twice(*old(tables), tables_1, *tables);
                    lemma_misfit_grows(
                        lens,
                        patterns::<Ts, Is>(preorder(forest.take(j + 1))),
                        patterns::<Ts, Is>(preorder(forest.skip(j + 1))),
                    );
                    assert(entities@.subrange(0, base) =~= entities@.subrange(
                        0,
                        entities_1.len() as int,
                    ).subrange(0, base));
                    assert(entities_1.subrange(0, base) =~= entities_0.subrange(0, base));
                }
                return Err(Error::TableFull);
            },
        };
        let ghost entities_2 = entities@;
        entities[at].children = descendants;
        proof {
            let records = entities@.subrange(base, entities@.len() as int);
            let mid = count(done) as int;
            lemma_extends_twice(*old(tables), tables_1, *tables);
            lemma_extends_twice(tables_0, tables_1, *tables);
            assert(entities_2.subrange(0, at + 1) == entities_1);
            assert(entities@.subrange(0, base) =~= old(entities)@) by {
                assert forall|i: int| 0 <= i < base implies entities@[i] == old(entities)@[i] by {
                    assert(entities_2.subrange(0, at + 1)[i] == entities_1[i]);
                    assert(entities_0.subrange(0, base)[i] == old(entities)@[i]);
                }
            }
            assert(written(records.subrange(0, mid), *tables, lens, preorder(done))) by {
                let part = records.subrange(0, mid);
                let part_0 = entities_0.subrange(base, entities_0.len() as int);
                assert forall|i: int| 0 <= i < preorder(done).len() implies record_holds(
                    #[trigger] part[i],
                    *tables,
                    tally(lens, patterns::<Ts, Is>(preorder(done)).take(i)),
                    preorder(done)[i],
                ) by {
                    assert(part[i] == entities_2[base + i]);
                    assert(entities_2.subrange(0, at + 1)[base + i] == entities_1[base + i]);
                    assert(part[i] == part_0[i]);
                    lemma_record_survives(
                        part_0[i],
                        tables_0,
                        *tables,
                        tally(lens, patterns::<Ts, Is>(preorder(done)).take(i)),
                        preorder(done)[i],
                    );
                }
            }
            assert(record_holds(records[mid], *tables, tally(lens, before), slot_of(tree))) by {
                let e = records[mid];
                let e_1 = entities_1[at as int];
                assert(entities_2.subrange(0, at + 1)[at as int] == e_1);
                assert(e.inline_items == e_1.inline_items);
                assert(e.ref_table_keys == e_1.ref_table_keys);
                assert(in_range(e_1.ref_table_keys.slots(), tables_1.lens()));
                assert(tables.resolve(&e_1.ref_table_keys) == tables_1.resolve(
                    &e_1.ref_table_keys,
                ));
                assert forall|k: int| 0 <= k < e.ref_table_keys.slots().len() implies e.ref_table_keys.slots()[k]
                    <= tables.lens()[k] by {
                    assert(tables_1.lens()[k] <= tables.lens()[k]);
                }
            }
            assert(records.subrange(mid + 1, records.len() as int) =~= entities_2.subrange(
                at + 1,
                entities_2.len() as int,
            ));
            lemma_written_tree(records, *tables, lens, done, tree);
        }
        total = total + 1 + descendants;
        j = j + 1;
    }
    proof {
        assert(forest.take(j as int) =~= forest);
    }
    Ok(total)
}

/// Writes the trees below `roots` into records in pre-order, behind one record
/// that stands for a root above them all, and their table values into `tables`.
///
/// Each record counts all the nodes below its node, so the records that follow
/// it, as many as it counts, are its subtree. A value stored in a table gets the
/// next position of that table, in the order in which the nodes are visited.
pub fn build<Ts: Tables, Is: Inlines>(
    roots: Vec<Node<(Ts::Values, InlineStorage<Is>)>>,
    tables: &mut TableStorage<Ts>,
) -> (r: Result<Vec<Entity<Ts::Keys, Is>>, Error>)
    ensures
        old(tables).extends_to(final(tables)),
        count(roots@) > u32::MAX ==> {
            &&& r is Err
            &&& r->Err_0 == Error::TooManyEntities
            &&& *final(tables) == *old(tables)
        },
        count(roots@) <= u32::MAX && !fits(
            old(tables).lens(),
            patterns::<Ts, Is>(preorder(roots@)),
        ) ==> r is Err && r->Err_0 == Error::TableFull,
        count(roots@) <= u32::MAX && fits(
            old(tables).lens(),
            patterns::<Ts, Is>(preorder(roots@)),
        ) ==> r is Ok,
        r is Ok ==> {
            let entities = r->Ok_0@;
            &&& entities.len() == count(roots@) + 1
            &&& entities[0].children == count(roots@)
            &&& entities[0].inline_items.filled() == Seq::new(Is::arity(), |i: int| false)
            &&& entities[0].ref_table_keys.slots() == Seq::new(Ts::Keys::arity(), |i: int| 0nat)
            &&& final(tables).lens() == tally(
                old(tables).lens(),
                patterns::<Ts, Is>(preorder(roots@)),
            )
            &&& written(
                entities.subrange(1, entities.len() as int),
                *final(tables),
                old(tables).lens(),
                preorder(roots@),
            )
            &&& forall|i: int|
                0 <= i < entities.len() ==> in_range(
                    (#[trigger] entities[i]).ref_table_keys.slots(),
                    final(tables).lens(),
                )
        },
{
    proof {
        tables.lemma_lens_len();
        lemma_extends_same(*tables);
    }
    let entity_count: u32 = match count_within(&roots, u32::MAX) {
        Some(entity_count) => entity_count,
        None => {
            return Err(Error::TooManyEntities);
        },
    };
    let mut entities: Vec<Entity<Ts::Keys, Is>> = Vec::with_capacity(entity_count as usize);
    let mut root: Entity<Ts::Keys, Is> = Entity::empty();
    root.children = entity_count;
    entities.push(root);
    match write_forest(roots, &mut entities, tables) {
        Ok(written_count) => {
            proof {
                tables.lemma_lens_len();
                let records = entities@.subrange(1, entities@.len() as int);
                assert(entities@.subrange(0, 1)[0] == entities@[0]);
                assert forall|i: int| 0 <= i < entities@.len() implies in_range(
                    (#[trigger] entities@[i]).ref_table_keys.slots(),
                    tables.lens(),
                ) by {
                    if i > 0 {
                        assert(entities@[i] == records[i - 1]);
                    }
                }
            }
            Ok(entities)
        },
        Err(e) => Err(e),
    }
}

/// Tables are what they can become by storing nothing.
proof fn lemma_extends_same<Ts: Tables>(tables: TableStorage<Ts>)
    ensures
        tables.extends_to(&tables),
{
}

// -------------------------------------
//               SPAWN
// -------------------------------------
/// The first thing that is wrong with the records of one level, read front to
/// back: a record with a key that its table cannot resolve, or one that counts
/// more descendants than records follow it. A record's subtree is judged before
/// the records behind it.
pub open spec fn fault<Ks: Keys, Is>(records: Seq<Entity<Ks, Is>>, lens: Seq<nat>) -> Option<
    Error,
>
    decreases records.len(),
{
    if records.len() == 0 {
        None
    } else if !in_range(records[0].ref_table_keys.slots(), lens) {
        Some(Error::DanglingKey)
    } else if records[0].children >= records.len() {
        Some(Error::Truncated)
    } else {
        let below = records[0].children as int;
        match fault(records.subrange(1, 1 + below), lens) {
            Some(e) => Some(e),
            None => fault(records.subrange(1 + below, records.len() as int), lens),
        }
    }
}

/// Records that count the descendants of the nodes of a forest, in pre-order,
/// with keys that the tables can resolve, have nothing wrong with them.
pub proof fn lemma_preorder_has_no_fault<Ks: Keys, Is, D>(
    records: Seq<Entity<Ks, Is>>,
    lens: Seq<nat>,
    forest: Seq<Node<D>>,
)
    requires
        records.len() == count(forest),
        forall|i: int|
            0 <= i < records.len() ==> {
                &&& (#[trigger] records[i]).children == preorder(forest)[i].descendants
                &&& in_range(records[i].ref_table_keys.slots(), lens)
            },
    ensures
        fault(records, lens) is None,
    decreases forest,
{
    lemma_preorder_len(forest);
    if forest.len() > 0 {
        let below = forest[0].children@;
        let rest = forest.drop_first();
        let c = count(below) as int;
        lemma_preorder_len(below);
        lemma_preorder_len(rest);
        assert(records[0].children == c);
        let first = records.subrange(1, 1 + c);
        let second = records.subrange(1 + c, records.len() as int);
        assert forall|i: int| 0 <= i < first.len() implies {
            &&& (#[trigger] first[i]).children == preorder(below)[i].descendants
            &&& in_range(first[i].ref_table_keys.slots(), lens)
        } by {
            assert(first[i] == records[1 + i]);
            assert(preorder(forest)[1 + i] == preorder(below)[i]);
        }
        lemma_preorder_has_no_fault(first, lens, below);
        assert forall|i: int| 0 <= i < second.len() implies {
            &&& (#[trigger] second[i]).children == preorder(rest)[i].descendants
            &&& in_range(second[i].ref_table_keys.slots(), lens)
        } by {
            assert(second[i] == records[1 + c + i]);
            assert(preorder(forest)[1 + c + i] == preorder(rest)[i]);
        }
        lemma_preorder_has_no_fault(second, lens, rest);
    }
}

/// Whether `slot` is what the record `e` says of its node: as many descendants
/// as it counts, the values that its keys refer to in `tables`, and its inline
/// values.
pub open spec fn decodes<'a, Ts: Lookup<'a>, Is: Inlines>(
    slot: Slot<(Ts::Refs, &'a InlineStorage<Is>)>,
    e: Entity<Ts::Keys, Is>,
    tables: TableStorage<Ts>,
) -> bool {
    &&& slot.descendants == e.children
    &&& Ts::seen(slot.data.0) == tables.resolve(&e.ref_table_keys)
    &&& *slot.data.1 == e.inline_items
}

/// Whether `forest` is what `records` hold: the forest whose pre-order, node by
/// node, is what the records say.
pub open spec fn reads<'a, Ts: Lookup<'a>, Is: Inlines>(
    forest: Seq<Node<(Ts::Refs, &'a InlineStorage<Is>)>>,
    records: Seq<Entity<Ts::Keys, Is>>,
    tables: TableStorage<Ts>,
) -> bool {
    &&& preorder(forest).len() == records.len()
    &&& forall|i: int|
        0 <= i < records.len() ==> decodes(#[trigger] preorder(forest)[i], records[i], tables)
}

/// The records of the nodes of one level with all that is below them, and the
/// tables that their keys refer to.
pub struct Spawn<'a, Ts: Tables, Is> {
    scene: &'a [Entity<Ts::Keys, Is>],
    tables: &'a TableStorage<Ts>,
}

impl<'a, Ts: Lookup<'a>, Is: Inlines> Spawn<'a, Ts, Is> {
    /// The records that are still to be read.
    pub closed spec fn records(&self) -> Seq<Entity<Ts::Keys, Is>> {
        self.scene@
    }

    /// The tables that the keys of the records refer to.
    pub closed spec fn tables(&self) -> TableStorage<Ts> {
        *self.tables
    }

    /// The cursor over the records of one level, read with `tables`.
    pub fn new(scene: &'a [Entity<Ts::Keys, Is>], tables: &'a TableStorage<Ts>) -> (r: Self)
        ensures
            r.records() == scene@,
            r.tables() == *tables,
    {
        Spawn { scene, tables }
    }

    /// Splits off the records of the `descendants` nodes below the node that was
    /// read last: they are returned, and the records behind them stay.
    fn extract_children(&mut self, descendants: u32) -> (r: Result<Self, Error>)
        ensures
            final(self).tables() == old(self).tables(),
            descendants <= old(self).records().len() ==> {
                &&& r is Ok
                &&& r->Ok_0.tables() == old(self).tables()
                &&& r->Ok_0.records() == old(self).records().subrange(0, descendants as int)
                &&& final(self).records() == old(self).records().subrange(
                    descendants as int,
                    old(self).records().len() as int,
                )
            },
            descendants > old(self).records().len() ==> {
                &&& r is Err
                &&& r->Err_0 == Error::Truncated
                &&& final(self).records() == old(self).records()
            },
    {
        let wanted: usize = descendants as usize;
        if wanted <= self.scene.len() {
            let (childr, scene) = self.scene.split_at(wanted);
            self.scene = scene;
            Ok(Spawn { scene: childr, tables: self.tables })
        } else {
            Err(Error::Truncated)
        }
    }

    /// Takes the first record off.
    fn next(&mut self) -> (r: Option<&'a Entity<Ts::Keys, Is>>)
        ensures
            final(self).tables() == old(self).tables(),
            old(self).records().len() == 0 ==> {
                &&& r is None
                &&& final(self).records() == old(self).records()
            },
            old(self).records().len() > 0 ==> {
                &&& r == Some(&old(self).records()[0])
                &&& final(self).records() == old(self).records().subrange(
                    1,
                    old(self).records().len() as int,
                )
            },
    {
        if self.scene.len() == 0 {
            None
        } else {
            let (head, scene) = self.scene.split_at(1);
            self.scene = scene;
            Some(&head[0])
        }
    }

    /// Reads the records back into the nodes of one level, each with its
    /// children below it: the forest whose pre-order the records are. Each node
    /// has the values that its record's keys refer to, borrowed from the tables,
    /// and the inline values of its record. Fails on the first record that is
    /// wrong.
    pub fn children_of(self) -> (r: Result<Vec<Node<(Ts::Refs, &'a InlineStorage<Is>)>>, Error>)
        ensures
            match fault(self.records(), self.tables().lens()) {
                Some(e) => r is Err && r->Err_0 == e,
                None => r is Ok && reads(r->Ok_0@, self.records(), self.tables()),
            },
        decreases self.records().len(),
    {
        let ghost all = self.records();
        let ghost tables = self.tables();
        let ghost lens = tables.lens();
        let ghost mut consumed: int = 0;
        let mut cursor = self;
        let mut level: Vec<Node<(Ts::Refs, &'a InlineStorage<Is>)>> = Vec::new();
        proof {
            assert(cursor.records() =~= all.subrange(0, all.len() as int));
            assert(preorder(level@) =~= Seq::<Slot<(Ts::Refs, &'a InlineStorage<Is>)>>::empty());
        }
        loop
            invariant
                all == self.records(),
                tables == self.tables(),
                lens == tables.lens(),
                cursor.tables() == tables,
                0 <= consumed <= all.len(),
                cursor.records() == all.subrange(consumed, all.len() as int),
                fault(cursor.records(), lens) == fault(all, lens),
                reads(level@, all.take(consumed), tables),
            decreases cursor.records().len(),
        {
            let ghost rest = cursor.records();
            let ghost before = level@;
            let entity = match cursor.next() {
                Some(entity) => entity,
                None => {
                    proof {
                        assert(all.take(consumed) =~= all);
                    }
                    return Ok(level);
                },
            };
            assert(*entity == all[consumed]);
            let values = match cursor.tables.fetch(&entity.ref_table_keys) {
                Ok(values) => values,
                Err(e) => {
                    return Err(e);
                },
            };
            let sub = match cursor.extract_children(entity.children) {
                Ok(sub) => sub,
                Err(e) => {
                    return Err(e);
                },
            };
            let ghost below = sub.records();
            proof {
                assert(below =~= rest.subrange(1, 1 + entity.children));
                assert(below =~= all.subrange(consumed + 1, consumed + 1 + entity.children));
                assert(cursor.records() =~= rest.subrange(1 + entity.children, rest.len() as int));
                assert(cursor.records() =~= all.subrange(
                    consumed + 1 + entity.children,
                    all.len() as int,
                ));
            }
            let children = match sub.children_of() {
                Ok(children) => children,
                Err(e) => {
                    return Err(e);
                },
            };
            let node = Node { data: (values, &entity.inline_items), children };
            proof {
                let grown = consumed + 1 + entity.children;
                lemma_preorder_push(before, node);
                lemma_preorder_len(node.children@);
                lemma_preorder_len(before);
                let pre = preorder(before.push(node));
                let part = all.take(grown);
                assert forall|i: int| 0 <= i < part.len() implies decodes(
                    #[trigger] pre[i],
                    part[i],
                    tables,
                ) by {
                    if i < consumed {
                        assert(pre[i] == preorder(before)[i]);
                        assert(part[i] == all.take(consumed)[i]);
                    } else if i == consumed {
                        assert(pre[i] == slot_of(node));
                    } else {
                        assert(pre[i] == preorder(node.children@)[i - consumed - 1]);
                        assert(part[i] == below[i - consumed - 1]);
                    }
                }
                consumed = grown;
            }
            level.push(node);
        }
    }
}

} // verus!

use bvyfst_hollow_scene::entity::{Entity, Error};
use bvyfst_hollow_scene::hierarchy::{build, count_within, Spawn};
use bvyfst_hollow_scene::inline::InlineStorage;
use bvyfst_hollow_scene::ref_table::{Key, KeyStorage, TableStorage};
use bvyfst_hollow_scene::scene::FastScene;
use bvyfst_hollow_scene::tree::{reversed, Node};
use bvyfst_hollow_scene::{Inline, Table};

type Tables = (Table<u32>, ());
type Inlines = (Inline<u8>, ());
type Values = (Option<u32>, ());
type Data = (Values, InlineStorage<Inlines>);
type Record = Entity<(Key<u32>, ()), Inlines>;

fn node(x: Option<u8>, y: Option<u32>, children: Vec<Node<Data>>) -> Node<Data> {
    Node { data: ((y, ()), InlineStorage::query((Inline(x), ()))), children }
}

fn record(children: u32, x: Option<u8>, key: u16) -> Record {
    Entity {
        children,
        inline_items: InlineStorage::query((Inline(x), ())),
        ref_table_keys: KeyStorage((Key::from_raw(key), ())),
    }
}

fn tables_with(values: &[u32]) -> TableStorage<Tables> {
    let mut tables = TableStorage::<Tables>::new();
    for v in values {
        tables.insert_values((Some(*v), ())).unwrap();
    }
    tables
}

/// What a node that was read stands for: its inline value, its table value, and
/// the same of its children.
#[derive(Debug, PartialEq)]
struct Plain {
    x: Option<u8>,
    y: Option<u32>,
    children: Vec<Plain>,
}

fn plain_of_source(node: &Node<Data>) -> Plain {
    Plain {
        x: (node.data.1).0 .0 .0,
        y: (node.data.0).0,
        children: node.children.iter().map(plain_of_source).collect(),
    }
}

type Read<'a> = ((Option<&'a u32>, ()), &'a InlineStorage<Inlines>);

fn plain_of_read(node: &Node<Read<'_>>) -> Plain {
    Plain {
        x: (node.data.1).0 .0 .0,
        y: (node.data.0).0.copied(),
        children: node.children.iter().map(plain_of_read).collect(),
    }
}

fn sample() -> Vec<Node<Data>> {
    vec![
        node(
            Some(1),
            Some(10),
            vec![
                node(None, Some(20), vec![node(Some(3), None, vec![])]),
                node(Some(4), Some(10), vec![]),
            ],
        ),
        node(None, None, vec![node(Some(6), Some(60), vec![])]),
    ]
}

#[test]
fn scenario_single_root_without_data() {
    let scene = FastScene::<Tables, Inlines>::from_tree(vec![node(None, None, vec![])]).unwrap();
    assert_eq!(scene.entities.len(), 2);
    assert_eq!(scene.entities[0].children, 1);
    assert_eq!(scene.entities[1].children, 0);
    assert_eq!(scene.entities[0].inline_items.occupancy(), "_");
    assert_eq!(scene.entities[0].ref_table_keys.occupancy(), "K__");
    assert_eq!(scene.entities[1].inline_items.occupancy(), "_");
    assert_eq!(scene.entities[1].ref_table_keys.occupancy(), "K__");
    assert_eq!(scene.tables.component_count(), 1);
    assert_eq!(scene.tables.component_count_of(0), 0);
}

#[test]
fn scenario_two_children_with_inline_and_table_values() {
    let roots = vec![node(Some(7), Some(70), vec![]), node(Some(8), Some(80), vec![])];
    let scene = FastScene::<Tables, Inlines>::from_tree(roots).unwrap();
    assert_eq!(scene.entities.len(), 3);
    assert_eq!(scene.entities[0].children, 2);
    assert_eq!(scene.tables.component_count_of(0), 2);
    assert_eq!(scene.entities[1].ref_table_keys.0 .0.raw(), 1);
    assert_eq!(scene.entities[2].ref_table_keys.0 .0.raw(), 2);
    assert_eq!(scene.entities[1].ref_table_keys.occupancy(), "K#1");
    assert_eq!(scene.entities[2].ref_table_keys.occupancy(), "K#2");
    assert_eq!(scene.entities[1].inline_items.occupancy(), "#");
    assert_eq!(scene.entities[1].inline_items.0 .0 .0, Some(7));
    assert_eq!(scene.entities[2].inline_items.0 .0 .0, Some(8));
    assert_eq!(scene.tables.tables().0.get(&Key::from_raw(1)).unwrap(), Some(&70));
    assert_eq!(scene.tables.tables().0.get(&Key::from_raw(2)).unwrap(), Some(&80));
}

#[test]
fn scenario_chain_of_three() {
    let roots = vec![node(None, None, vec![node(None, None, vec![])])];
    let scene = FastScene::<Tables, Inlines>::from_tree(roots).unwrap();
    assert_eq!(scene.entities.len(), 3);
    assert_eq!(scene.entities[0].children, 2);
    assert_eq!(scene.entities[1].children, 1);
    assert_eq!(scene.entities[2].children, 0);
}

#[test]
fn scenario_position_zero_is_absent() {
    let scene = FastScene::<Tables, Inlines> {
        entities: vec![record(1, None, 0), record(0, None, 0)],
        tables: tables_with(&[99]),
    };
    let root = scene.to_tree().unwrap();
    let read = &root.children[0];
    assert_eq!((read.data.0).0, None);
    let key = &scene.entities[1].ref_table_keys;
    assert_eq!(key.0 .0.raw(), 0);
    assert_eq!(scene.tables.tables().0.get(&key.0 .0).unwrap(), None);
    assert_eq!(scene.tables.fetch(key).unwrap(), (None, ()));
    assert_eq!(key.occupancy(), "K__");
}

#[test]
fn roundtrip_keeps_shape_and_data() {
    let expected: Vec<Plain> = sample().iter().map(plain_of_source).collect();
    let scene = FastScene::<Tables, Inlines>::from_tree(sample()).unwrap();
    let root = scene.to_tree().unwrap();
    assert_eq!(plain_of_read(&root).x, None);
    assert_eq!(plain_of_read(&root).y, None);
    let read: Vec<Plain> = root.children.iter().map(plain_of_read).collect();
    assert_eq!(read, expected);
}

#[test]
fn records_are_in_preorder_with_descendant_counts() {
    let scene = FastScene::<Tables, Inlines>::from_tree(sample()).unwrap();
    let counts: Vec<u32> = scene.entities.iter().map(|e| e.children).collect();
    assert_eq!(counts, vec![6, 3, 1, 0, 0, 1, 0]);
    let inline: Vec<Option<u8>> = scene.entities.iter().map(|e| e.inline_items.0 .0 .0).collect();
    assert_eq!(inline, vec![None, Some(1), None, Some(3), Some(4), None, Some(6)]);
    let keys: Vec<u16> = scene.entities.iter().map(|e| e.ref_table_keys.0 .0.raw()).collect();
    assert_eq!(keys, vec![0, 1, 2, 0, 3, 0, 4]);
    assert_eq!(scene.tables.component_count_of(0), 4);
    let stored: Vec<u32> = (1..=4u16)
        .map(|k| *scene.tables.tables().0.get(&Key::from_raw(k)).unwrap().unwrap())
        .collect();
    assert_eq!(stored, vec![10, 20, 10, 60]);
}

#[test]
fn descendants_follow_their_node() {
    let scene = FastScene::<Tables, Inlines>::from_tree(sample()).unwrap();
    let spawn = Spawn::new(&scene.entities[2..4], &scene.tables);
    let level = spawn.children_of().unwrap();
    assert_eq!(level.len(), 1);
    assert_eq!((level[0].data.0).0, Some(&20));
    assert_eq!(level[0].children.len(), 1);
    assert_eq!((level[0].children[0].data.1).0 .0 .0, Some(3));
    assert!(level[0].children[0].children.is_empty());
    let below_first = Spawn::new(&scene.entities[2..5], &scene.tables).children_of().unwrap();
    assert_eq!(below_first.len(), 2);
}

#[test]
fn root_counts_all_nodes() {
    let scene = FastScene::<Tables, Inlines>::from_tree(sample()).unwrap();
    assert_eq!(scene.entities[0].children as usize, scene.entities.len() - 1);
    assert_eq!(count_within(&sample(), 100), Some(6));
}

#[test]
fn keys_stay_within_their_table() {
    let scene = FastScene::<Tables, Inlines>::from_tree(sample()).unwrap();
    let len = scene.tables.component_count_of(0);
    for e in &scene.entities {
        assert!(scene.tables.holds(&e.ref_table_keys));
        assert!((e.ref_table_keys.0 .0.raw() as usize) <= len);
    }
}

#[test]
fn capacity_boundary() {
    let full: Vec<Node<Data>> = (0..65535u32).map(|i| node(None, Some(i), vec![])).collect();
    let scene = FastScene::<Tables, Inlines>::from_tree(full).unwrap();
    assert_eq!(scene.tables.component_count_of(0), 65535);
    assert_eq!(scene.entities[65535].ref_table_keys.0 .0.raw(), 65535);
    assert!(scene.to_tree().is_ok());
    let over: Vec<Node<Data>> = (0..65536u32).map(|i| node(None, Some(i), vec![])).collect();
    assert!(matches!(FastScene::<Tables, Inlines>::from_tree(over), Err(Error::TableFull)));
}

#[test]
fn many_nodes_without_table_values_fit() {
    let many: Vec<Node<Data>> = (0..70000u32).map(|_| node(Some(1), None, vec![])).collect();
    let scene = FastScene::<Tables, Inlines>::from_tree(many).unwrap();
    assert_eq!(scene.entities.len(), 70001);
    assert_eq!(scene.entities[0].children, 70000);
    assert_eq!(scene.tables.component_count_of(0), 0);
}

#[test]
fn empty_forest() {
    let scene = FastScene::<Tables, Inlines>::from_tree(vec![]).unwrap();
    assert_eq!(scene.entities.len(), 1);
    assert_eq!(scene.entities[0].children, 0);
    let root = scene.to_tree().unwrap();
    assert!(root.children.is_empty());
}

#[test]
fn full_table_leaves_the_tables_alone() {
    let mut tables = TableStorage::<Tables>::new();
    for i in 0..65535u32 {
        tables.insert_values((Some(i), ())).unwrap();
    }
    assert!(tables.insert_values((None, ())).is_ok());
    assert!(matches!(tables.insert_values((Some(1), ())), Err(Error::TableFull)));
    assert_eq!(tables.component_count_of(0), 65535);
}

#[test]
fn build_continues_after_stored_values() {
    let mut tables = tables_with(&[5, 6]);
    let entities =
        build::<Tables, Inlines>(vec![node(None, Some(7), vec![])], &mut tables).unwrap();
    assert_eq!(entities.len(), 2);
    assert_eq!(entities[1].ref_table_keys.0 .0.raw(), 3);
    assert_eq!(tables.component_count_of(0), 3);
    assert_eq!(tables.tables().0.get(&Key::from_raw(1)).unwrap(), Some(&5));
    assert_eq!(tables.tables().0.get(&Key::from_raw(3)).unwrap(), Some(&7));
}

#[test]
fn missing_root_is_reported() {
    let none = FastScene::<Tables, Inlines> { entities: vec![], tables: tables_with(&[]) };
    assert!(matches!(none.to_tree(), Err(Error::MissingRoot)));
    let short = FastScene::<Tables, Inlines> {
        entities: vec![record(0, None, 0), record(0, None, 0)],
        tables: tables_with(&[]),
    };
    assert!(matches!(short.to_tree(), Err(Error::MissingRoot)));
    let long = FastScene::<Tables, Inlines> {
        entities: vec![record(5, None, 0), record(0, None, 0)],
        tables: tables_with(&[]),
    };
    assert!(matches!(long.to_tree(), Err(Error::MissingRoot)));
}

#[test]
fn truncated_subtree_is_reported() {
    let scene = FastScene::<Tables, Inlines> {
        entities: vec![record(2, None, 0), record(2, None, 0), record(0, None, 0)],
        tables: tables_with(&[]),
    };
    assert!(matches!(scene.to_tree(), Err(Error::Truncated)));
    let level = [record(1, None, 0)];
    let tables = tables_with(&[]);
    assert!(matches!(Spawn::new(&level, &tables).children_of(), Err(Error::Truncated)));
}

#[test]
fn dangling_key_is_reported() {
    let scene = FastScene::<Tables, Inlines> {
        entities: vec![record(1, None, 0), record(0, None, 2)],
        tables: tables_with(&[99]),
    };
    assert!(matches!(scene.to_tree(), Err(Error::DanglingKey)));
    assert!(matches!(
        scene.tables.tables().0.get(&Key::from_raw(2)),
        Err(Error::DanglingKey)
    ));
    let first_wins = FastScene::<Tables, Inlines> {
        entities: vec![record(2, None, 0), record(0, None, 7), record(4, None, 0)],
        tables: tables_with(&[99]),
    };
    assert!(matches!(first_wins.to_tree(), Err(Error::DanglingKey)));
}

#[test]
fn values_are_fetched_through_keys() {
    let tables = tables_with(&[10, 20]);
    assert_eq!(tables.fetch(&KeyStorage((Key::from_raw(2), ()))).unwrap(), (Some(&20), ()));
    assert_eq!(tables.fetch(&KeyStorage((Key::from_raw(1), ()))).unwrap(), (Some(&10), ()));
    assert_eq!(tables.fetch(&KeyStorage((Key::from_raw(0), ()))).unwrap(), (None, ()));
    assert!(matches!(
        tables.fetch(&KeyStorage((Key::from_raw(3), ()))),
        Err(Error::DanglingKey)
    ));
    assert!(tables.holds(&KeyStorage((Key::from_raw(2), ()))));
    assert!(!tables.holds(&KeyStorage((Key::from_raw(3), ()))));
}

#[test]
fn no_records_are_no_nodes() {
    let tables = tables_with(&[]);
    let none: [Record; 0] = [];
    assert!(Spawn::new(&none, &tables).children_of().unwrap().is_empty());
}

#[test]
fn key_from_index() {
    assert_eq!(Key::<u32>::from_index(None).unwrap().raw(), 0);
    assert_eq!(Key::<u32>::from_index(Some(1)).unwrap().raw(), 1);
    assert_eq!(Key::<u32>::from_index(Some(65535)).unwrap().raw(), 65535);
    assert!(matches!(Key::<u32>::from_index(Some(65536)), Err(Error::TableFull)));
    assert_eq!(Key::<u32>::absent().raw(), 0);
}

#[test]
fn table_positions_count_from_one() {
    let mut table = Table::<u32>::new();
    assert_eq!(table.len(), 0);
    assert_eq!(table.store(40), 1);
    assert_eq!(table.store(41), 2);
    assert_eq!(table.len(), 2);
    assert_eq!(table.get(&Key::from_raw(2)).unwrap(), Some(&41));
}

#[test]
fn occupancy_texts() {
    type Three = (Inline<u8>, (Inline<u8>, (Inline<u8>, ())));
    let storage: InlineStorage<Three> =
        InlineStorage::query((Inline(Some(1)), (Inline(None), (Inline(Some(3)), ()))));
    assert_eq!(storage.occupancy(), "#_#");
    assert_eq!(InlineStorage::<Three>::new().occupancy(), "___");
    assert_eq!(InlineStorage::<()>::new().occupancy(), "");
    type Keys = (Key<u8>, (Key<u32>, (Key<u8>, ())));
    let keys: KeyStorage<Keys> =
        KeyStorage((Key::from_raw(12), (Key::from_raw(0), (Key::from_raw(65535), ()))));
    assert_eq!(keys.occupancy(), "K#12K__K#65535");
    assert_eq!(KeyStorage::<Keys>::no_component().occupancy(), "K__K__K__");
    assert_eq!(KeyStorage::<()>::no_component().occupancy(), "");
}

#[test]
fn empty_record() {
    let e = Record::empty();
    assert_eq!(e.children, 0);
    assert_eq!(e.inline_items.occupancy(), "_");
    assert_eq!(e.ref_table_keys.occupancy(), "K__");
}

#[test]
fn counting_stops_at_the_budget() {
    assert_eq!(count_within(&sample(), 6), Some(6));
    assert_eq!(count_within(&sample(), 5), None);
    assert_eq!(count_within(&Vec::<Node<Data>>::new(), 0), Some(0));
}

#[test]
fn reversed_turns_the_order() {
    assert_eq!(reversed(vec![1, 2, 3]), vec![3, 2, 1]);
    assert_eq!(reversed(Vec::<u8>::new()), Vec::<u8>::new());
}

#[test]
fn several_tables_are_counted_apart() {
    type Two = (Table<u32>, (Table<char>, ()));
    type Vals = (Option<u32>, (Option<char>, ()));
    let n = |v: Vals| Node { data: (v, InlineStorage::<()>::new()), children: vec![] };
    let roots = vec![
        n((Some(1), (None, ()))),
        n((None, (Some('a'), ()))),
        n((Some(2), (Some('b'), ()))),
    ];
    let scene = FastScene::<Two, ()>::from_tree(roots).unwrap();
    assert_eq!(scene.tables.component_count(), 2);
    assert_eq!(scene.tables.component_count_of(0), 2);
    assert_eq!(scene.tables.component_count_of(1), 2);
    assert_eq!(scene.tables.component_count_of(2), 0);
    assert_eq!(scene.entities[1].ref_table_keys.occupancy(), "K#1K__");
    assert_eq!(scene.entities[2].ref_table_keys.occupancy(), "K__K#1");
    assert_eq!(scene.entities[3].ref_table_keys.occupancy(), "K#2K#2");
    let keys = &scene.entities[3].ref_table_keys.0;
    assert_eq!(scene.tables.tables().1 .0.get(&keys.1 .0).unwrap(), Some(&'b'));
}

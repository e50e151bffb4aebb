use bvyfst_hollow_scene::inline::InlineStorage;
use bvyfst_hollow_scene::proxy::Id;
use bvyfst_hollow_scene::scene::FastScene;
use bvyfst_hollow_scene::tree::Node;
use bvyfst_hollow_scene::{Inline, Table};

#[derive(Debug, Default, Clone, PartialEq, PartialOrd, Eq, Ord)]
struct A1;

#[derive(Debug, Default, Clone, PartialEq, PartialOrd, Eq, Ord)]
struct B1;

#[derive(Debug, Default, Clone, PartialEq, PartialOrd, Eq, Ord)]
struct C1(u32);

#[derive(Debug, Default, Clone, PartialEq, PartialOrd, Eq, Ord)]
struct A2;

#[derive(Debug, Default, Clone, PartialEq, PartialOrd, Eq, Ord)]
struct B2;

#[derive(Debug, Default, Clone, PartialEq, PartialOrd, Eq, Ord)]
struct C2(u32);

type Tables = (Table<Id<A1>>, (Table<Id<B1>>, (Table<Id<C1>>, ())));
type Values = (Option<Id<A1>>, (Option<Id<B1>>, (Option<Id<C1>>, ())));
type Inlines = (Inline<Id<A2>>, (Inline<Id<B2>>, (Inline<Id<C2>>, ())));
type AnyOf = (Option<A1>, Option<B1>, Option<C1>, Option<A2>, Option<B2>, Option<C2>);

fn spawn(components: &AnyOf) -> Node<(Values, InlineStorage<Inlines>)> {
    let (a1, b1, c1, a2, b2, c2) = components.clone();
    let tabled: Values = (a1.map(Id), (b1.map(Id), (c1.map(Id), ())));
    let inline: Inlines = (Inline(a2.map(Id)), (Inline(b2.map(Id)), (Inline(c2.map(Id)), ())));
    Node { data: (tabled, InlineStorage::query(inline)), children: Vec::new() }
}

type Refs<'a> = (Option<&'a Id<A1>>, (Option<&'a Id<B1>>, (Option<&'a Id<C1>>, ())));

fn read(data: &(Refs<'_>, &InlineStorage<Inlines>)) -> AnyOf {
    let (a1, (b1, (c1, ()))) = data.0;
    let is = &data.1 .0;
    (
        a1.map(|v| v.0.clone()),
        b1.map(|v| v.0.clone()),
        c1.map(|v| v.0.clone()),
        is.0 .0.as_ref().map(|v| v.0.clone()),
        is.1 .0 .0.as_ref().map(|v| v.0.clone()),
        is.1 .1 .0 .0.as_ref().map(|v| v.0.clone()),
    )
}

fn has_any(c: &AnyOf) -> bool {
    c.0.is_some()
        || c.1.is_some()
        || c.2.is_some()
        || c.3.is_some()
        || c.4.is_some()
        || c.5.is_some()
}

#[test]
fn roundtrip_just_entities() {
    let old_world: Vec<AnyOf> = vec![
        (Some(A1), None, None, None, None, None),
        (None, None, None, Some(A2), Some(B2), Some(C2(7))),
        (Some(A1), None, None, Some(A2), None, None),
        (None, None, Some(C1(6)), None, None, Some(C2(5))),
        (Some(A1), Some(B1), Some(C1(3)), Some(A2), Some(B2), Some(C2(3))),
        (Some(A1), Some(B1), None, None, None, None),
        (None, None, None, Some(A2), Some(B2), None),
        (Some(A1), Some(B1), Some(C1(2)), None, None, None),
        (Some(A1), None, Some(C1(0)), None, None, None),
        (None, None, Some(C1(3)), None, None, Some(C2(4))),
        (None, None, None, None, None, None),
    ];

    let fast_scene =
        FastScene::<Tables, Inlines>::from_tree(old_world.iter().map(spawn).collect()).unwrap();
    println!("created scene\nsize: {}", fast_scene.entities.len());
    for i in 0..fast_scene.tables.component_count() {
        let count = fast_scene.tables.component_count_of(i);
        println!("\t{i}: {count}")
    }
    for entity in &fast_scene.entities {
        println!(
            "\tinline {:?} || keys: {:?}",
            entity.inline_items.occupancy(),
            entity.ref_table_keys.occupancy()
        );
    }
    assert_eq!(fast_scene.entities.len(), 12);
    assert_eq!(fast_scene.tables.component_count(), 3);
    assert_eq!(fast_scene.tables.component_count_of(0), 6);
    assert_eq!(fast_scene.tables.component_count_of(1), 3);
    assert_eq!(fast_scene.tables.component_count_of(2), 5);
    assert_eq!(fast_scene.entities[5].inline_items.occupancy(), "###");
    assert_eq!(fast_scene.entities[5].ref_table_keys.occupancy(), "K#3K#1K#2");
    assert_eq!(fast_scene.entities[11].ref_table_keys.occupancy(), "K__K__K__");

    let root = fast_scene.to_tree().unwrap();
    println!("new_world entities: {}", root.children.len());
    assert_eq!(root.children.len(), 11);

    let mut new_entities: Vec<AnyOf> = root
        .children
        .iter()
        .map(|node| read(&node.data))
        .filter(has_any)
        .collect();
    let mut old_entities: Vec<AnyOf> = old_world.iter().filter(|c| has_any(c)).cloned().collect();

    new_entities.sort();
    old_entities.sort();

    let new_printed = new_entities.iter().fold(String::new(), |acc, value| {
        format!("{acc}{value:?}\n")
    });
    let old_printed = old_entities.iter().fold(String::new(), |acc, value| {
        format!("{acc}{value:?}\n")
    });

    assert_eq!(
        old_entities, new_entities,
        "\n==== old ====\n{old_printed}\n==== new ====\n{new_printed}"
    );
}

use bevy_color::ColorToPacked;
use entity_hierarchy::debug_entity_hierarchy;
use entity_hierarchy::store::ComponentInfo;
use entity_hierarchy::store::EntityId;
use entity_hierarchy::store::Node;
use entity_hierarchy::store::Store;
use entity_hierarchy::Options;
use entity_hierarchy::WorldExt;

fn id(index: u32) -> EntityId {
    EntityId { index, generation: 0 }
}

fn comp(short: &str) -> ComponentInfo {
    ComponentInfo {
        full_name: format!("bevy_ecs::prelude::{}", short),
        short_name: short.to_string(),
    }
}

fn comps(shorts: &[&str]) -> Vec<ComponentInfo> {
    shorts.iter().map(|s| comp(s)).collect()
}

/// The seven-node hierarchy: "root" with children "child_a" (children
/// "child_c" and "child_d", the latter with "child_f") and "child_b"
/// (with "child_e").
fn sample_store() -> Store {
    let mut store = Store::new();
    store.add_node(Node {
        id: id(0),
        label: Some("root".to_string()),
        components: comps(&["Name", "Children"]),
        children: Some(vec![id(1), id(5)]),
    });
    store.add_node(Node {
        id: id(1),
        label: Some("child_a".to_string()),
        components: comps(&["Name", "ChildOf", "Children"]),
        children: Some(vec![id(2), id(3)]),
    });
    store.add_node(Node {
        id: id(2),
        label: Some("child_c".to_string()),
        components: comps(&["Name", "ChildOf"]),
        children: None,
    });
    store.add_node(Node {
        id: id(3),
        label: Some("child_d".to_string()),
        components: comps(&["Name", "ChildOf", "Children"]),
        children: Some(vec![id(4)]),
    });
    store.add_node(Node {
        id: id(4),
        label: Some("child_f".to_string()),
        components: comps(&["Name", "ChildOf"]),
        children: None,
    });
    store.add_node(Node {
        id: id(5),
        label: Some("child_b".to_string()),
        components: comps(&["Name", "ChildOf", "Children"]),
        children: Some(vec![id(6)]),
    });
    store.add_node(Node {
        id: id(6),
        label: Some("child_e".to_string()),
        components: comps(&["Name", "ChildOf"]),
        children: None,
    });
    store
}

#[test]
fn test_debug_entity_hierarchy() {
    let store = sample_store();

    let displayed = store.inspect_entity_hierarchy(id(0)).render(&Options { color: false });

    let expected = r#""root" (0v0): [Name, Children]
 ├"child_a" (1v0): [Name, ChildOf, Children]
 │├"child_c" (2v0): [Name, ChildOf]
 │└"child_d" (3v0): [Name, ChildOf, Children]
 │ └"child_f" (4v0): [Name, ChildOf]
 └"child_b" (5v0): [Name, ChildOf, Children]
  └"child_e" (6v0): [Name, ChildOf]
"#;

    assert_eq!(displayed, expected);
}

#[test]
fn rendering_twice_is_byte_identical() {
    let store = sample_store();
    let options = Options { color: true };
    let first = store.inspect_entity_hierarchy(id(0)).render(&options);
    let second = debug_entity_hierarchy(id(0), &store).render(&options);
    assert_eq!(first, second);
}

#[test]
fn childless_leaf_has_no_connector_and_no_suffix() {
    let mut store = Store::new();
    store.add_node(Node {
        id: EntityId { index: 5, generation: 3 },
        label: None,
        components: Vec::new(),
        children: None,
    });
    let line = store
        .inspect_entity_hierarchy(EntityId { index: 5, generation: 3 })
        .render(&Options { color: false });
    assert_eq!(line, "5v3\n");
}

#[test]
fn labeled_leaf_with_one_component() {
    let mut store = Store::new();
    store.add_node(Node {
        id: id(0),
        label: Some("solo".to_string()),
        components: comps(&["Name"]),
        children: None,
    });
    let line = store.inspect_entity_hierarchy(id(0)).render(&Options { color: false });
    assert_eq!(line, "\"solo\" (0v0): [Name]\n");
}

#[test]
fn large_index_and_generation_print_in_decimal() {
    let mut store = Store::new();
    let eid = EntityId { index: 4294967295, generation: 1048576 };
    store.add_node(Node { id: eid, label: None, components: Vec::new(), children: None });
    let line = store.inspect_entity_hierarchy(eid).render(&Options { color: false });
    assert_eq!(line, "4294967295v1048576\n");
}

#[test]
fn colorized_line_wraps_label_only() {
    let mut store = Store::new();
    store.add_node(Node {
        id: id(0),
        label: Some("x".to_string()),
        components: comps(&["Name"]),
        children: None,
    });
    let line = store.inspect_entity_hierarchy(id(0)).render(&Options { color: true });

    let [r, g, b] = bevy_color::LinearRgba::from(bevy_color::Oklcha::sequential_dispersed(0))
        .to_u8_array_no_alpha();
    let style = nu_ansi_term::Color::Rgb(r, g, b);
    let expected = format!("{}\"x\" (0v0){}: [Name]\n", style.prefix(), style.suffix());
    assert_eq!(line, expected);
}

#[test]
fn colorize_is_on_by_default() {
    let options = Options::default();
    assert!(options.color);
}

#[test]
fn color_depends_on_index_alone() {
    let young = entity_hierarchy::color::color_from_entity(EntityId { index: 3, generation: 0 });
    let old = entity_hierarchy::color::color_from_entity(EntityId { index: 3, generation: 9 });
    assert_eq!(young, old);
}

#[test]
fn adjacent_indices_get_different_colors() {
    let here = entity_hierarchy::color::color_from_entity(id(1));
    let there = entity_hierarchy::color::color_from_entity(id(2));
    assert_ne!(here, there);
}

#[test]
fn store_interface_reads_back_what_was_added() {
    let store = sample_store();
    assert_eq!(store.label_of(id(1)).map(|s| s.as_str()), Some("child_a"));
    assert_eq!(store.children_of(id(1)), Some(&vec![id(2), id(3)]));
    assert!(store.children_of(id(2)).is_none());
    let shorts: Vec<&str> = store
        .components_of(id(2))
        .iter()
        .map(|c| c.short_name.as_str())
        .collect();
    assert_eq!(shorts, vec!["Name", "ChildOf"]);
    assert!(store.find(id(99)).is_none());
    assert_eq!(store.find(id(4)).map(|n| n.id), Some(id(4)));
}

#[test]
fn sibling_order_follows_store_enumeration() {
    let mut store = Store::new();
    store.add_node(Node {
        id: id(0),
        label: Some("p".to_string()),
        components: Vec::new(),
        children: Some(vec![id(9), id(7), id(8)]),
    });
    for index in [7u32, 8, 9] {
        store.add_node(Node {
            id: id(index),
            label: None,
            components: Vec::new(),
            children: None,
        });
    }
    let text = store.inspect_entity_hierarchy(id(0)).render(&Options { color: false });
    assert_eq!(text, "\"p\" (0v0)\n ├9v0\n ├7v0\n └8v0\n");
}

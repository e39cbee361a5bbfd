use fivem_gps::network::{attribute_map, guid_to_node, node_to_links, VehicleLink};
use fivem_gps::scene::{
    Attribute, Attributes, InnerObject, Node, Objects, Position, Ref, References, Scene,
    TopLevelObject, Transform,
};

fn pos(x: f32, y: f32, z: f32) -> Position {
    Position { x: x.to_bits(), y: y.to_bits(), z: z.to_bits() }
}

fn transform(p: Position) -> Transform {
    Transform { object: InnerObject { position: p }, node: Node { position: p } }
}

fn attrs(pairs: &[(&str, &str)]) -> Option<Attributes> {
    Some(Attributes {
        attribute: Some(
            pairs
                .iter()
                .map(|(n, v)| Attribute { name: n.to_string(), value: v.to_string() })
                .collect(),
        ),
    })
}

fn node(guid: &str, p: Position, a: Option<Attributes>) -> TopLevelObject {
    TopLevelObject {
        guid: guid.to_string(),
        class: "vehiclenode".to_string(),
        transform: transform(p),
        references: None,
        attributes: a,
    }
}

fn link(guid: &str, refs: &[&str]) -> TopLevelObject {
    TopLevelObject {
        guid: guid.to_string(),
        class: "vehiclelink".to_string(),
        transform: transform(pos(0.0, 0.0, 0.0)),
        references: Some(References {
            reference: refs.iter().map(|r| Ref { guid: r.to_string() }).collect(),
        }),
        attributes: None,
    }
}

fn other(guid: &str) -> TopLevelObject {
    TopLevelObject {
        guid: guid.to_string(),
        class: "prop".to_string(),
        transform: transform(pos(9.0, 9.0, 9.0)),
        references: None,
        attributes: None,
    }
}

fn link_guids(v: &Vec<VehicleLink>) -> Vec<String> {
    v.iter().map(|l| l.guid.clone()).collect()
}

#[test]
fn guid_to_node_keeps_only_vehicle_nodes() {
    let objects = vec![
        node("A", pos(1.0, 2.0, 3.0), attrs(&[("Speed", "2")])),
        link("L1", &["A", "B"]),
        other("P"),
        node("B", pos(4.0, 5.0, 6.0), None),
    ];
    let map = guid_to_node(objects);
    assert_eq!(map.len(), 2);
    assert!(map.contains_key("A"));
    assert!(map.contains_key("B"));
    assert!(!map.contains_key("L1"));
    assert!(!map.contains_key("P"));
    let a = map.get("A").unwrap();
    assert_eq!(a.guid, "A");
    assert_eq!(a.position, pos(1.0, 2.0, 3.0));
    assert_eq!(a.attributes.get("Speed").unwrap(), "2");
    let b = map.get("B").unwrap();
    assert_eq!(b.attributes.len(), 0);
}

#[test]
fn guid_to_node_later_node_replaces_earlier() {
    let objects = vec![
        node("A", pos(1.0, 0.0, 0.0), None),
        node("A", pos(2.0, 0.0, 0.0), attrs(&[("Flag", "x")])),
    ];
    let map = guid_to_node(objects);
    assert_eq!(map.len(), 1);
    let a = map.get("A").unwrap();
    assert_eq!(a.position, pos(2.0, 0.0, 0.0));
    assert_eq!(a.attributes.get("Flag").unwrap(), "x");
}

#[test]
fn guid_to_node_of_nothing_is_empty() {
    let map = guid_to_node(Vec::new());
    assert_eq!(map.len(), 0);
}

#[test]
fn attribute_map_last_value_wins() {
    let o = node("A", pos(0.0, 0.0, 0.0), attrs(&[("Speed", "1"), ("Lanes", "2"), ("Speed", "3")]));
    let m = attribute_map(&o);
    assert_eq!(m.len(), 2);
    assert_eq!(m.get("Speed").unwrap(), "3");
    assert_eq!(m.get("Lanes").unwrap(), "2");
    assert_eq!(m.key_at(0), "Speed");
    assert_eq!(m.key_at(1), "Lanes");
}

#[test]
fn attribute_map_of_absent_lists_is_empty() {
    let none = node("A", pos(0.0, 0.0, 0.0), None);
    assert_eq!(attribute_map(&none).len(), 0);
    let empty_list = node("A", pos(0.0, 0.0, 0.0), Some(Attributes { attribute: None }));
    assert_eq!(attribute_map(&empty_list).len(), 0);
}

#[test]
fn node_to_links_groups_links_by_node() {
    let objects = vec![
        node("A", pos(0.0, 0.0, 0.0), None),
        node("B", pos(1.0, 0.0, 0.0), None),
        node("C", pos(2.0, 0.0, 0.0), None),
        link("L1", &["A", "B"]),
        link("L2", &["B", "C"]),
        other("P"),
        link("L3", &["C", "Z"]),
    ];
    let map = node_to_links(objects);
    assert_eq!(map.len(), 3);
    assert_eq!(link_guids(map.get("A").unwrap()), vec!["L1"]);
    assert_eq!(link_guids(map.get("B").unwrap()), vec!["L1", "L2"]);
    assert_eq!(link_guids(map.get("C").unwrap()), vec!["L2", "L3"]);
    assert!(!map.contains_key("Z"));
    let l1 = &map.get("A").unwrap()[0];
    assert_eq!(l1.refs, vec!["A".to_string(), "B".to_string()]);
}

#[test]
fn node_to_links_lists_a_link_once_per_mention() {
    let objects = vec![node("A", pos(0.0, 0.0, 0.0), None), link("L1", &["A", "A"])];
    let map = node_to_links(objects);
    assert_eq!(link_guids(map.get("A").unwrap()), vec!["L1", "L1"]);
}

#[test]
fn node_to_links_node_without_links_gets_empty_list() {
    let objects = vec![node("A", pos(0.0, 0.0, 0.0), None), link("L1", &["B"])];
    let map = node_to_links(objects);
    assert_eq!(map.len(), 1);
    assert_eq!(map.get("A").unwrap().len(), 0);
}

#[test]
fn node_to_links_repeated_node_guid_gets_empty_list() {
    let objects = vec![
        node("A", pos(0.0, 0.0, 0.0), None),
        link("L1", &["A"]),
        node("A", pos(1.0, 0.0, 0.0), None),
    ];
    let map = node_to_links(objects);
    assert_eq!(map.len(), 1);
    assert_eq!(map.get("A").unwrap().len(), 0);
}

#[test]
fn node_and_link_maps_share_keys() {
    let make = || {
        vec![
            node("A", pos(0.0, 0.0, 0.0), None),
            link("L1", &["A", "B", "Q"]),
            node("B", pos(1.0, 0.0, 0.0), None),
            other("Q"),
        ]
    };
    let nodes = guid_to_node(make());
    let links = node_to_links(make());
    assert_eq!(nodes.len(), links.len());
    for i in 0..nodes.len() {
        assert!(links.contains_key(nodes.key_at(i)));
        assert_eq!(&nodes.value_at(i).guid, nodes.key_at(i));
    }
}

#[test]
fn link_clone_is_equal() {
    let objects = vec![node("A", pos(0.0, 0.0, 0.0), None), link("L1", &["A"])];
    let map = node_to_links(objects);
    let l = &map.get("A").unwrap()[0];
    let c = l.clone();
    assert_eq!(c.guid, l.guid);
    assert_eq!(c.refs, l.refs);
    assert_eq!(c.position, l.position);
    assert_eq!(c.attributes.len(), l.attributes.len());
}

#[test]
fn scene_holds_its_objects() {
    let scene = Scene {
        objects: Objects { object: vec![node("A", pos(0.0, 0.0, 0.0), None)] },
        version: "1".to_string(),
        filename: "paths.xml".to_string(),
        timestamp: "0".to_string(),
        user: "u".to_string(),
    };
    let nodes = guid_to_node(scene.objects.object);
    assert!(nodes.contains_key("A"));
}

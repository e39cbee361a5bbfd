use fivem_gps::display::{marker_color, MarkerColor};
use fivem_gps::network::{guid_to_node, node_to_links, VehicleLink, VehicleNode};
use fivem_gps::strmap::StrMap;
use fivem_gps::route::{
    get_next, links_name_nothing, named_route, pathfind, route_graph, route_ready, successor_positions,
    successors_known, PathfindingData,
};
use fivem_gps::scene::{
    Attribute, Attributes, InnerObject, Node, Position, Ref, References, TopLevelObject, Transform,
};
use fivem_gps::search::RouteGraph;

fn pos(x: f32, y: f32) -> Position {
    Position { x: x.to_bits(), y: y.to_bits(), z: 0f32.to_bits() }
}

fn dist(a: &Position, b: &Position) -> i32 {
    let dx = f32::from_bits(a.x) - f32::from_bits(b.x);
    let dy = f32::from_bits(a.y) - f32::from_bits(b.y);
    let dz = f32::from_bits(a.z) - f32::from_bits(b.z);
    (dx * dx + dy * dy + dz * dz).sqrt() as i32
}

fn node(guid: &str, p: Position) -> TopLevelObject {
    node_with(guid, p, None)
}

fn node_with(guid: &str, p: Position, speed: Option<&str>) -> TopLevelObject {
    TopLevelObject {
        guid: guid.to_string(),
        class: "vehiclenode".to_string(),
        transform: Transform { object: InnerObject { position: p }, node: Node { position: p } },
        references: None,
        attributes: speed.map(|s| Attributes {
            attribute: Some(vec![Attribute { name: "Speed".to_string(), value: s.to_string() }]),
        }),
    }
}

fn link(guid: &str, refs: &[&str]) -> TopLevelObject {
    let p = pos(0.0, 0.0);
    TopLevelObject {
        guid: guid.to_string(),
        class: "vehiclelink".to_string(),
        transform: Transform { object: InnerObject { position: p }, node: Node { position: p } },
        references: Some(References {
            reference: refs.iter().map(|r| Ref { guid: r.to_string() }).collect(),
        }),
        attributes: None,
    }
}

/// A square A(0,0) B(10,0) C(10,10) D(0,10), with a long detour E(50,50)
/// between A and C, and an island F.
fn square() -> Vec<TopLevelObject> {
    vec![
        node("A", pos(0.0, 0.0)),
        node("B", pos(10.0, 0.0)),
        node("C", pos(10.0, 10.0)),
        node("D", pos(0.0, 10.0)),
        node("E", pos(50.0, 50.0)),
        node("F", pos(100.0, 100.0)),
        link("AB", &["A", "B"]),
        link("BC", &["B", "C"]),
        link("CD", &["C", "D"]),
        link("DA", &["D", "A"]),
        link("AE", &["A", "E"]),
        link("EC", &["E", "C"]),
    ]
}

#[test]
fn pathfind_finds_shortest_route() {
    let nodes = guid_to_node(square());
    let links = node_to_links(square());
    assert!(route_ready(&nodes, &links, &"A".to_string(), &"C".to_string()));
    let (path, cost) = pathfind(&nodes, &links, "C".to_string(), "A".to_string(), dist).unwrap();
    assert_eq!(path.first().unwrap(), "A");
    assert_eq!(path.last().unwrap(), "C");
    assert_eq!(path.len(), 3);
    assert_eq!(cost, 20);
}

#[test]
fn pathfind_to_itself_is_one_node() {
    let nodes = guid_to_node(square());
    let links = node_to_links(square());
    let (path, cost) = pathfind(&nodes, &links, "B".to_string(), "B".to_string(), dist).unwrap();
    assert_eq!(path, vec!["B".to_string()]);
    assert_eq!(cost, 0);
}

#[test]
fn pathfind_unreachable_is_none() {
    let nodes = guid_to_node(square());
    let links = node_to_links(square());
    assert!(route_ready(&nodes, &links, &"A".to_string(), &"F".to_string()));
    assert!(pathfind(&nodes, &links, "F".to_string(), "A".to_string(), dist).is_none());
}

#[test]
fn pathfind_route_follows_links() {
    let nodes = guid_to_node(square());
    let links = node_to_links(square());
    let (path, _) = pathfind(&nodes, &links, "E".to_string(), "B".to_string(), dist).unwrap();
    assert_eq!(path.first().unwrap(), "B");
    assert_eq!(path.last().unwrap(), "E");
    for w in path.windows(2) {
        let next = get_next(&w[0], &links, &nodes, &dist);
        assert!(next.iter().any(|(g, _)| *g == w[1]));
    }
    let mut seen = path.clone();
    seen.sort();
    seen.dedup();
    assert_eq!(seen.len(), path.len());
}

#[test]
fn get_next_lists_links_in_order_with_distances() {
    let nodes = guid_to_node(square());
    let links = node_to_links(square());
    let next = get_next(&"A".to_string(), &links, &nodes, &dist);
    let names: Vec<&str> = next.iter().map(|(g, _)| g.as_str()).collect();
    assert_eq!(names, vec!["A", "B", "D", "A", "A", "E"]);
    let weights: Vec<i32> = next.iter().map(|(_, w)| *w).collect();
    assert_eq!(weights, vec![0, 10, 10, 0, 0, 70]);
}

#[test]
fn successor_positions_match_get_next() {
    let nodes = guid_to_node(square());
    let links = node_to_links(square());
    let a = "A".to_string();
    let next = get_next(&a, &links, &nodes, &dist);
    let positions = successor_positions(&a, &links, &nodes);
    assert_eq!(positions.len(), next.len());
    for (p, (g, _)) in positions.iter().zip(next.iter()) {
        assert_eq!(nodes.key_at(*p), g);
    }
}

#[test]
fn route_ready_rejects_unknown_reference() {
    let mut objects = square();
    objects.push(link("BX", &["B", "X"]));
    let nodes = guid_to_node(objects);
    let mut objects = square();
    objects.push(link("BX", &["B", "X"]));
    let links = node_to_links(objects);
    assert!(!successors_known("B", &links, &nodes));
    assert!(successors_known("A", &links, &nodes));
    assert!(!route_ready(&nodes, &links, &"A".to_string(), &"C".to_string()));
    assert!(route_ready(&nodes, &links, &"F".to_string(), &"C".to_string()));
    assert!(!route_ready(&nodes, &links, &"Q".to_string(), &"C".to_string()));
    // F's links name nothing, so a search from F ends at once, whatever the goal
    assert!(route_ready(&nodes, &links, &"F".to_string(), &"Q".to_string()));
    assert!(pathfind(&nodes, &links, "Q".to_string(), "F".to_string(), dist).is_none());
    assert!(!route_ready(&nodes, &links, &"A".to_string(), &"Q".to_string()));
}

#[test]
fn route_graph_numbers_nodes_by_position() {
    let nodes = guid_to_node(square());
    let links = node_to_links(square());
    let g = route_graph(&nodes, &links, &"C".to_string(), &dist);
    assert_eq!(g.node_count(), nodes.len());
    let a = nodes.position("A").unwrap();
    let c = nodes.position("C").unwrap();
    assert_eq!(g.estimate(c), 0);
    assert_eq!(g.estimate(a), 14);
    assert_eq!(g.out_degree(a), 6);
}

#[test]
fn search_returns_cheapest_walk_and_its_cost() {
    // 0 -> 1 (5), 0 -> 2 (1), 2 -> 1 (1), 1 -> 3 (1)
    let g = RouteGraph::new(
        vec![vec![(1, 5), (2, 1)], vec![(3, 1)], vec![(1, 1)], vec![]],
        vec![0, 0, 0, 0],
    )
    .unwrap();
    let (p, c) = g.search(0, 3).unwrap();
    assert_eq!(p, vec![0, 2, 1, 3]);
    assert_eq!(c, 3);
    assert!(g.search(3, 0).is_none());
    let (p, c) = g.search(2, 2).unwrap();
    assert_eq!(p, vec![2]);
    assert_eq!(c, 0);
}

#[test]
fn marker_colors_follow_speed() {
    let objects = vec![
        node_with("N", pos(0.0, 0.0), None),
        node_with("Z", pos(0.0, 0.0), Some("0")),
        node_with("T", pos(0.0, 0.0), Some("2")),
        node_with("O", pos(0.0, 0.0), Some("5")),
    ];
    let nodes = guid_to_node(objects);
    assert_eq!(marker_color(nodes.get("N").unwrap()), MarkerColor::Yellow);
    assert_eq!(marker_color(nodes.get("Z").unwrap()), MarkerColor::White);
    assert_eq!(marker_color(nodes.get("T").unwrap()), MarkerColor::Orange);
    assert_eq!(marker_color(nodes.get("O").unwrap()), MarkerColor::Red);
}

#[test]
fn clicks_move_route_ends() {
    let mut data = PathfindingData {
        nodes: guid_to_node(square()),
        links: node_to_links(square()),
        start_node: "A".to_string(),
        end_node: "C".to_string(),
    };
    assert!(!data.apply_clicks(false, false, None));
    assert_eq!(data.start_node, "A");
    assert!(data.apply_clicks(true, false, Some("B".to_string())));
    assert_eq!(data.start_node, "B");
    assert_eq!(data.end_node, "C");
    assert!(data.apply_clicks(false, true, Some("D".to_string())));
    assert_eq!(data.end_node, "D");
    assert!(data.apply_clicks(true, true, Some("E".to_string())));
    assert_eq!(data.start_node, "E");
    assert_eq!(data.end_node, "E");
}

#[test]
fn named_route_translates_positions_to_guids() {
    let nodes = guid_to_node(square());
    assert!(named_route(&nodes, None).is_none());
    let a = nodes.position("A").unwrap();
    let c = nodes.position("C").unwrap();
    let (path, cost) = named_route(&nodes, Some((vec![a, c], 42))).unwrap();
    assert_eq!(path, vec!["A".to_string(), "C".to_string()]);
    assert_eq!(cost, 42);
    let (_, big) = named_route(&nodes, Some((vec![a], 1i128 << 40))).unwrap();
    assert_eq!(big, i32::MAX);
}

#[test]
fn listed_links_name_their_node() {
    let links = node_to_links(square());
    for i in 0..links.len() {
        let guid = links.key_at(i);
        for l in links.value_at(i) {
            assert!(l.refs.contains(guid));
        }
    }
}

#[test]
fn search_with_overestimate_still_reaches_goal() {
    // the estimate at 2 is far too high; a route is still found
    let g = RouteGraph::new(
        vec![vec![(1, 5), (2, 1)], vec![(3, 1)], vec![(1, 1)], vec![]],
        vec![0, 0, 1000, 0],
    )
    .unwrap();
    let (p, c) = g.search(0, 3).unwrap();
    assert_eq!(*p.first().unwrap(), 0);
    assert_eq!(*p.last().unwrap(), 3);
    // the cost returned is what the walk returned costs, not the least cost
    assert_eq!(p, vec![0, 1, 3]);
    assert_eq!(c, 6);
}

/// A(0,0) - B(3,4) - C(6,8), one link per step.
fn line() -> Vec<TopLevelObject> {
    vec![
        node("A", pos(0.0, 0.0)),
        node("B", pos(3.0, 4.0)),
        node("C", pos(6.0, 8.0)),
        link("L1", &["A", "B"]),
        link("L2", &["B", "C"]),
    ]
}

#[test]
fn pathfind_same_node_needs_no_network() {
    let nodes: StrMap<VehicleNode> = StrMap::new();
    let links: StrMap<Vec<VehicleLink>> = StrMap::new();
    assert!(route_ready(&nodes, &links, &"A".to_string(), &"A".to_string()));
    let r = pathfind(&nodes, &links, "A".to_string(), "A".to_string(), dist);
    assert_eq!(r, Some((vec!["A".to_string()], 0)));
}

#[test]
fn pathfind_three_nodes_forward() {
    let nodes = guid_to_node(line());
    let links = node_to_links(line());
    let r = pathfind(&nodes, &links, "C".to_string(), "A".to_string(), dist);
    assert_eq!(r, Some((vec!["A".to_string(), "B".to_string(), "C".to_string()], 10)));
}

#[test]
fn pathfind_three_nodes_backward() {
    let nodes = guid_to_node(line());
    let links = node_to_links(line());
    let r = pathfind(&nodes, &links, "A".to_string(), "C".to_string(), dist);
    assert_eq!(r, Some((vec!["C".to_string(), "B".to_string(), "A".to_string()], 10)));
}

#[test]
fn pathfind_cost_is_sum_of_steps() {
    let nodes = guid_to_node(square());
    let links = node_to_links(square());
    let (path, cost) = pathfind(&nodes, &links, "C".to_string(), "A".to_string(), dist).unwrap();
    let mut total = 0;
    for w in path.windows(2) {
        let next = get_next(&w[0], &links, &nodes, &dist);
        total += next.iter().find(|(g, _)| *g == w[1]).unwrap().1;
    }
    assert_eq!(cost, total);
}

#[test]
fn pathfind_goal_with_dangling_link_is_reached() {
    let mut objects = line();
    objects.push(link("CX", &["C", "X"]));
    let nodes = guid_to_node(objects.clone());
    let links = node_to_links(objects);
    assert!(route_ready(&nodes, &links, &"A".to_string(), &"C".to_string()));
    assert!(!route_ready(&nodes, &links, &"C".to_string(), &"A".to_string()));
    let r = pathfind(&nodes, &links, "C".to_string(), "A".to_string(), dist);
    assert_eq!(r, Some((vec!["A".to_string(), "B".to_string(), "C".to_string()], 10)));
}

#[test]
fn get_next_of_unknown_node_without_references() {
    let nodes: StrMap<VehicleNode> = StrMap::new();
    let mut links: StrMap<Vec<VehicleLink>> = StrMap::new();
    links.insert(
        "Z".to_string(),
        vec![VehicleLink {
            position: pos(0.0, 0.0),
            guid: "LZ".to_string(),
            refs: vec![],
            attributes: StrMap::new(),
        }],
    );
    assert!(get_next(&"Z".to_string(), &links, &nodes, &dist).is_empty());
}

#[test]
fn routes_run_both_ways_on_square() {
    let nodes = guid_to_node(square());
    let links = node_to_links(square());
    let guids = ["A", "B", "C", "D", "E", "F"];
    for a in guids {
        for b in guids {
            let ab = pathfind(&nodes, &links, b.to_string(), a.to_string(), dist).is_some();
            let ba = pathfind(&nodes, &links, a.to_string(), b.to_string(), dist).is_some();
            assert_eq!(ab, ba);
            assert_eq!(ab, a == b || (a != "F" && b != "F"));
        }
    }
}

#[test]
fn pathfind_from_node_whose_links_name_nothing() {
    let nodes: StrMap<VehicleNode> = StrMap::new();
    let mut links: StrMap<Vec<VehicleLink>> = StrMap::new();
    links.insert(
        "Z".to_string(),
        vec![VehicleLink {
            position: pos(0.0, 0.0),
            guid: "LZ".to_string(),
            refs: vec![],
            attributes: StrMap::new(),
        }],
    );
    assert!(links_name_nothing(&links, &"Z".to_string()));
    assert!(!links_name_nothing(&links, &"Y".to_string()));
    assert!(route_ready(&nodes, &links, &"Z".to_string(), &"Y".to_string()));
    assert!(!route_ready(&nodes, &links, &"Y".to_string(), &"Z".to_string()));
    assert!(pathfind(&nodes, &links, "Y".to_string(), "Z".to_string(), dist).is_none());
}

#[test]
fn links_name_nothing_on_network() {
    let nodes_objs = line();
    let links = node_to_links(nodes_objs);
    assert!(!links_name_nothing(&links, &"A".to_string()));
    assert!(!links_name_nothing(&links, &"Q".to_string()));
}

#[test]
fn pathfind_cost_with_overestimating_distance_is_route_total() {
    // every estimate towards C(10,10) is far too high; the cost is still
    // what the route costs
    fn far(a: &Position, b: &Position) -> i32 {
        if a == b {
            0
        } else if *b == pos(10.0, 10.0) {
            1000
        } else {
            dist(a, b)
        }
    }
    let nodes = guid_to_node(square());
    let links = node_to_links(square());
    let (path, cost) = pathfind(&nodes, &links, "C".to_string(), "A".to_string(), far).unwrap();
    let mut total = 0;
    for w in path.windows(2) {
        let next = get_next(&w[0], &links, &nodes, &far);
        total += next.iter().find(|(g, _)| *g == w[1]).unwrap().1;
    }
    assert_eq!(cost, total);
}

#[test]
fn route_graph_new_refuses_ill_formed_graphs() {
    assert!(RouteGraph::new(vec![vec![(1, 1)], vec![]], vec![0, 0]).is_some());
    // an edge to a node that does not exist
    assert!(RouteGraph::new(vec![vec![(2, 1)], vec![]], vec![0, 0]).is_none());
    // a negative weight, a weight beyond i32::MAX
    assert!(RouteGraph::new(vec![vec![(1, -1)], vec![]], vec![0, 0]).is_none());
    assert!(RouteGraph::new(vec![vec![(1, 1i128 << 31)], vec![]], vec![0, 0]).is_none());
    // one estimate too few, a negative estimate
    assert!(RouteGraph::new(vec![vec![(1, 1)], vec![]], vec![0]).is_none());
    assert!(RouteGraph::new(vec![vec![(1, 1)], vec![]], vec![0, -3]).is_none());
    let g = RouteGraph::new(vec![vec![(1, 2), (0, 3)], vec![]], vec![7, 0]).unwrap();
    assert_eq!(g.node_count(), 2);
    assert_eq!(g.out_degree(0), 2);
    assert_eq!(g.out_degree(1), 0);
    assert_eq!(g.estimate(0), 7);
}

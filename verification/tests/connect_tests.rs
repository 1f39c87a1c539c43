use gdsverify::geometry::{Bbox, GeometryStore};
use gdsverify::lvs::connect::{build_conductor_nodes, can_join_exec, joining_pairs, segment_nodes, JoinRules, Node};

const POLY: u32 = 1;
const DIFF: u32 = 2;
const M1: u32 = 3;
const CONT: u32 = 4;
const M2: u32 = 5;

fn rules(vias: Vec<(u32, Vec<u32>)>, cut_required: bool) -> JoinRules {
    JoinRules { gate_layers: vec![POLY], channel_layers: vec![DIFF], vias, cut_required, intra_layer_touch: false }
}

fn node(layer: u32, is_diff_seg: bool) -> Node {
    let b = Bbox { xmin: 0, ymin: 0, xmax: 10, ymax: 10 };
    Node { bbox: b, layer, is_diff_seg, poly: 0, clip: b }
}

#[test]
fn gate_never_joins_a_channel_segment() {
    let r = rules(vec![], false);
    assert!(!can_join_exec(&r, &node(POLY, false), &node(DIFF, true)));
    assert!(!can_join_exec(&r, &node(DIFF, true), &node(POLY, false)));
}

#[test]
fn same_layer_and_via_reach_join() {
    let r = rules(vec![(CONT, vec![M1, POLY])], true);
    assert!(can_join_exec(&r, &node(M1, false), &node(M1, false)));
    assert!(can_join_exec(&r, &node(CONT, false), &node(M1, false)));
    assert!(can_join_exec(&r, &node(POLY, false), &node(CONT, false)));
    assert!(!can_join_exec(&r, &node(CONT, false), &node(M2, false)));
}

#[test]
fn via_listing_a_channel_layer_reaches_segments() {
    let r = rules(vec![(CONT, vec![M1, DIFF])], true);
    assert!(can_join_exec(&r, &node(CONT, false), &node(DIFF, true)));
}

#[test]
fn cutless_joins_follow_the_via_declarations() {
    let r = rules(vec![(CONT, vec![M1, M2])], false);
    assert!(can_join_exec(&r, &node(M1, false), &node(M2, false)));
    assert!(!can_join_exec(&r, &node(M1, false), &node(POLY, false)));
    assert!(!can_join_exec(&rules(vec![(CONT, vec![M1, M2])], true), &node(M1, false), &node(M2, false)));
    assert!(can_join_exec(&rules(vec![], false), &node(M1, false), &node(POLY, false)));
}

#[test]
fn joining_pairs_keep_touching_joinable_candidates_in_order() {
    let mut s = GeometryStore::new();
    s.add_rect(M1, 0, 0, 10, 10);
    s.add_rect(CONT, 5, 5, 10, 10);
    s.add_rect(M2, 100, 100, 10, 10);
    s.add_rect(M1, 10, 0, 10, 10);
    let nodes: Vec<Node> = (0..4)
        .map(|p| Node { bbox: s.poly_bbox[p], layer: s.poly_layer[p], is_diff_seg: false, poly: p, clip: s.poly_bbox[p] })
        .collect();
    let r = rules(vec![(CONT, vec![M1])], true);
    let pairs = joining_pairs(&s, &r, &nodes, &vec![(0, 1), (0, 2), (0, 3), (1, 3)]);
    assert_eq!(pairs, vec![(0, 1), (1, 3)]);
    let touching = JoinRules { intra_layer_touch: true, ..rules(vec![(CONT, vec![M1])], true) };
    assert_eq!(joining_pairs(&s, &touching, &nodes, &vec![(0, 3)]), vec![(0, 3)]);
}

#[test]
fn conductor_and_via_polygons_outside_channels_become_nodes() {
    let mut s = GeometryStore::new();
    s.add_rect(M1, 0, 0, 10, 10);
    s.add_rect(DIFF, 0, 0, 10, 10);
    s.add_rect(99, 0, 0, 10, 10);
    s.add_rect(CONT, 2, 2, 2, 2);
    let (nodes, node_of_poly) = build_conductor_nodes(&s, &vec![DIFF], &vec![M1, DIFF], &vec![CONT]);
    assert_eq!(node_of_poly, vec![0, u32::MAX, u32::MAX, 1]);
    let polys: Vec<usize> = nodes.iter().map(|n| n.poly).collect();
    assert_eq!(polys, vec![0, 3]);
    assert_eq!(nodes[1].layer, CONT);
    assert!(!nodes[1].is_diff_seg);
}

#[test]
fn segments_become_nodes_cut_from_the_channel_box() {
    let mut s = GeometryStore::new();
    s.add_rect(DIFF, 0, 0, 100, 20);
    let nodes = segment_nodes(&s, 0, DIFF, true, &vec![(0, 40), (50, 100)]);
    assert_eq!(nodes.len(), 2);
    assert_eq!(nodes[1].bbox, Bbox { xmin: 50, ymin: 0, xmax: 100, ymax: 20 });
    assert!(nodes[1].is_diff_seg);
    let tall = segment_nodes(&s, 0, DIFF, false, &vec![(5, 7)]);
    assert_eq!(tall[0].clip, Bbox { xmin: 0, ymin: 5, xmax: 100, ymax: 7 });
}

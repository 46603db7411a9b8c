use topic_index::collect::build_index;
use topic_index::collect::BuildError;
use topic_index::collect::CourseData;
use topic_index::collect::Index;
use topic_index::table::floyd_warshall;

fn course(docs: Vec<&str>, edges: Option<&str>) -> CourseData {
    CourseData {
        topic_docs: docs.into_iter().map(|s| s.to_string()).collect(),
        edges_text: edges.map(|s| s.to_string()),
    }
}

fn dist(idx: &Index, a: &str, b: &str) -> Option<u32> {
    idx.dist.distance(&a.to_string(), &b.to_string())
}

#[test]
fn two_directories_chain() {
    // First directory declares A-B and B-C, the second C-D.
    let courses = vec![
        course(vec![], Some("src,dst\nA,B\nB,C\n")),
        course(vec![], Some("src,dst\nC,D\n")),
    ];
    let idx = build_index(&courses).unwrap();
    assert_eq!(dist(&idx, "A", "D"), Some(3));
    assert_eq!(dist(&idx, "A", "C"), Some(2));
    assert_eq!(dist(&idx, "A", "B"), Some(1));
}

#[test]
fn descriptor_with_both_fields_counts() {
    let courses = vec![course(
        vec![r#"{"id": "T1", "ass": ["x", "y", "x"]}"#],
        None,
    )];
    let idx = build_index(&courses).unwrap();
    assert_eq!(idx.assignment_count(&"T1".to_string()), Some(3));
}

#[test]
fn descriptor_missing_id_is_ignored() {
    let courses = vec![course(vec![r#"{"ass": ["x", "y"]}"#], None)];
    let idx = build_index(&courses).unwrap();
    assert_eq!(idx.assignment_count(&"T1".to_string()), None);
    assert_eq!(idx.counts.len(), 0);
}

#[test]
fn descriptor_with_mistyped_fields_is_ignored() {
    let courses = vec![course(
        vec![r#"{"id": 7, "ass": ["x"]}"#, r#"{"id": "T2", "ass": "nope"}"#],
        None,
    )];
    let idx = build_index(&courses).unwrap();
    assert_eq!(idx.counts.len(), 0);
}

#[test]
fn header_only_edge_file_yields_empty_table() {
    let courses = vec![course(vec![], Some("src,dst"))];
    let idx = build_index(&courses).unwrap();
    assert_eq!(idx.dist.node_list().len(), 0);
    assert_eq!(dist(&idx, "A", "A"), None);
}

#[test]
fn duplicate_edges_and_self_loop_do_not_disturb_distances() {
    let courses = vec![course(vec![], Some("src,dst\nA,B\nA,B\nA,A\n"))];
    let idx = build_index(&courses).unwrap();
    assert_eq!(dist(&idx, "A", "B"), Some(1));
    assert_eq!(dist(&idx, "A", "A"), Some(0));
}

#[test]
fn disjoint_components_have_no_distance() {
    let courses = vec![course(vec![], Some("src,dst\nA,B\nC,D\n"))];
    let idx = build_index(&courses).unwrap();
    assert_eq!(dist(&idx, "A", "B"), Some(1));
    assert_eq!(dist(&idx, "C", "D"), Some(1));
    assert_eq!(dist(&idx, "A", "C"), None);
    assert_eq!(dist(&idx, "A", "D"), None);
}

#[test]
fn node_without_edges_is_not_in_table_even_with_count() {
    let courses = vec![course(
        vec![r#"{"id": "Lonely", "ass": ["a", "b"]}"#],
        Some("src,dst\nA,B\n"),
    )];
    let idx = build_index(&courses).unwrap();
    assert_eq!(idx.assignment_count(&"Lonely".to_string()), Some(2));
    assert!(!idx.dist.node_list().contains(&"Lonely".to_string()));
    assert_eq!(dist(&idx, "Lonely", "Lonely"), None);
    assert_eq!(dist(&idx, "Lonely", "A"), None);
}

#[test]
fn malformed_descriptor_fails_with_position() {
    let courses = vec![
        course(vec![r#"{"id": "T1", "ass": []}"#], None),
        course(vec![r#"{"ok": true}"#, "this is not a structured document"], None),
    ];
    let err = build_index(&courses).unwrap_err();
    assert_eq!(err, BuildError::MalformedDescriptor { course: 1, doc: 1 });
}

#[test]
fn later_directory_overrides_assignment_count() {
    let courses = vec![
        course(vec![r#"{"id": "T1", "ass": ["a"]}"#], None),
        course(vec![r#"{"id": "T1", "ass": ["a", "b", "c", "d"]}"#], None),
    ];
    let idx = build_index(&courses).unwrap();
    assert_eq!(idx.assignment_count(&"T1".to_string()), Some(4));
    assert_eq!(idx.counts.len(), 1);
}

#[test]
fn empty_directory_contributes_nothing() {
    let courses = vec![course(vec![], None)];
    let idx = build_index(&courses).unwrap();
    assert_eq!(idx.dist.node_list().len(), 0);
    assert_eq!(idx.counts.len(), 0);
}

#[test]
fn build_index_is_deterministic() {
    let make = || {
        vec![
            course(
                vec![r#"{"id": "T1", "ass": ["x"]}"#, r#"{"id": "T2", "ass": []}"#],
                Some("src,dst\nA,B\nB,C\n"),
            ),
            course(vec![], Some("src,dst\nC,D\nE,E\n")),
        ]
    };
    let one = build_index(&make()).unwrap();
    let two = build_index(&make()).unwrap();
    assert_eq!(one.dist.node_list(), two.dist.node_list());
    assert_eq!(one.counts, two.counts);
    for a in one.dist.node_list() {
        for b in one.dist.node_list() {
            assert_eq!(one.dist.distance(a, b), two.dist.distance(a, b));
        }
    }
}

#[test]
fn self_distance_zero_symmetry_and_triangle_hold() {
    let courses = vec![course(
        vec![],
        Some("src,dst\nA,B\nB,C\nC,D\nD,A\nE,F\n"),
    )];
    let idx = build_index(&courses).unwrap();
    let nodes = idx.dist.node_list().clone();
    for x in &nodes {
        assert_eq!(idx.dist.distance(x, x), Some(0));
        for y in &nodes {
            assert_eq!(idx.dist.distance(x, y), idx.dist.distance(y, x));
            for k in &nodes {
                if let (Some(dxy), Some(dxk), Some(dky)) = (
                    idx.dist.distance(x, y),
                    idx.dist.distance(x, k),
                    idx.dist.distance(k, y),
                ) {
                    assert!(dxy as u64 <= dxk as u64 + dky as u64);
                }
            }
        }
    }
}

#[test]
fn floyd_warshall_direct_small_graph() {
    let nodes: Vec<String> = vec!["a".to_string(), "b".to_string(), "c".to_string()];
    let edges = vec![
        ("a".to_string(), "b".to_string()),
        ("b".to_string(), "c".to_string()),
    ];
    let t = floyd_warshall(&nodes, &edges);
    assert_eq!(t.distance(&"a".to_string(), &"c".to_string()), Some(2));
    assert_eq!(t.distance(&"a".to_string(), &"a".to_string()), Some(0));
    assert_eq!(t.distance(&"c".to_string(), &"a".to_string()), Some(2));
}

#[test]
fn floyd_warshall_ignores_edges_with_unknown_endpoints() {
    let nodes: Vec<String> = vec!["a".to_string(), "b".to_string()];
    let edges = vec![
        ("a".to_string(), "z".to_string()),
        ("a".to_string(), "b".to_string()),
    ];
    let t = floyd_warshall(&nodes, &edges);
    assert_eq!(t.distance(&"a".to_string(), &"b".to_string()), Some(1));
    assert_eq!(t.distance(&"a".to_string(), &"z".to_string()), None);
}

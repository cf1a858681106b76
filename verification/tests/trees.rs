use treeterminus::bipart::BipartTable;
use treeterminus::engine::{select_edge, CollapseEdge, CollapseForest};
use treeterminus::ids::{parse_id_list, GroupId};
use treeterminus::newick::parse_newick_line;
use treeterminus::tree::{get_binary_rooted_newick_string, newick_line, MergeTree};

fn leaf(v: u64) -> MergeTree {
    MergeTree::Leaf(v)
}

fn node(l: MergeTree, r: MergeTree) -> MergeTree {
    MergeTree::Node(Box::new(l), Box::new(r))
}

#[test]
fn newick_of_single_merge() {
    let t = node(leaf(3), leaf(7));
    assert_eq!(get_binary_rooted_newick_string(&t), "(3,7)");
    assert_eq!(newick_line(&t), "(3,7);");
    assert_eq!(t.canonical_id(), "3_7");
}

#[test]
fn canonical_id_ignores_child_order() {
    let t1 = node(leaf(1), leaf(2));
    let t2 = node(leaf(2), leaf(1));
    assert_eq!(t1.canonical_id(), t2.canonical_id());
    assert_eq!(t1.canonical_id(), "1_2");
    let big1 = node(node(leaf(5), leaf(3)), leaf(4));
    let big2 = node(leaf(4), node(leaf(3), leaf(5)));
    assert_eq!(big1.canonical_id(), big2.canonical_id());
    assert_eq!(big1.canonical_id(), "3_4_5");
}

#[test]
fn newick_round_trips() {
    let t = node(node(leaf(1), leaf(2)), leaf(30));
    let line = newick_line(&t);
    assert_eq!(line, "((1,2),30);");
    let back = parse_newick_line(&line).expect("round trip");
    assert!(back.same_tree(&t));
    let single = leaf(0);
    let back = parse_newick_line(&newick_line(&single)).expect("round trip");
    assert!(back.same_tree(&single));
}

#[test]
fn newick_rejects_malformed_lines() {
    assert!(parse_newick_line("").is_none());
    assert!(parse_newick_line("(1,2)").is_none());
    assert!(parse_newick_line("(1,2;").is_none());
    assert!(parse_newick_line("(1,2));").is_none());
    assert!(parse_newick_line("01;").is_none());
    assert!(parse_newick_line("(1,);").is_none());
    assert!(parse_newick_line("1;x").is_none());
    assert!(parse_newick_line("();").is_none());
}

#[test]
fn parse_id_list_reads_canonical_lists() {
    assert_eq!(parse_id_list("3_7"), Some(vec![3, 7]));
    assert_eq!(parse_id_list("0"), Some(vec![0]));
    assert_eq!(parse_id_list("10_2_5"), Some(vec![10, 2, 5]));
    assert_eq!(parse_id_list(""), None);
    assert_eq!(parse_id_list("3__7"), None);
    assert_eq!(parse_id_list("07"), None);
    assert_eq!(parse_id_list("3_"), None);
    assert_eq!(parse_id_list("18446744073709551615"), Some(vec![u64::MAX]));
    assert_eq!(parse_id_list("18446744073709551616"), None);
}

#[test]
fn collapsing_two_transcripts_yields_their_group() {
    // Transcripts 3 and 7 pass the tie test: they merge into group 3_7
    // with the tree (3,7);.
    let mut forest = CollapseForest::new(8);
    let merged = forest.merge_targets(3, 7);
    assert!(merged);
    let tree = forest.group_tree(3);
    assert_eq!(tree.canonical_id(), "3_7");
    assert_eq!(newick_line(tree), "(3,7);");
    assert_eq!(forest.find(3), forest.find(7));
    // A second attempt at the same pair does nothing.
    let merged_again = forest.merge_targets(7, 3);
    assert!(!merged_again);
}

#[test]
fn collapsing_builds_nested_merge_history() {
    let mut forest = CollapseForest::new(4);
    assert!(forest.merge_targets(0, 1));
    assert!(forest.merge_targets(0, 2));
    let tree = forest.group_tree(2);
    assert_eq!(tree.canonical_id(), "0_1_2");
    assert_eq!(newick_line(tree), "((0,1),2);");
}

#[test]
fn group_listing_partitions_the_universe() {
    let mut forest = CollapseForest::new(5);
    assert!(forest.merge_targets(1, 3));
    assert!(forest.merge_targets(0, 4));
    let groups = forest.groups_of();
    let mut ids: Vec<String> = groups.iter().map(|g| g.to_string()).collect();
    ids.sort();
    assert_eq!(ids, vec!["0_4".to_string(), "1_3".to_string(), "2".to_string()]);
}

#[test]
fn edge_selection_is_deterministic() {
    let forest = CollapseForest::new(4);
    let edges = vec![
        CollapseEdge { u: 0, v: 1, score_key: 5 },
        CollapseEdge { u: 2, v: 3, score_key: 3 },
        CollapseEdge { u: 1, v: 2, score_key: 3 },
    ];
    // Lowest score first; ties broken by the lower first endpoint.
    assert_eq!(select_edge(&edges, &forest), Some(2));
    let mut forest = forest;
    forest.merge_targets(1, 2);
    // The chosen edge must still be active.
    assert_eq!(select_edge(&edges, &forest), Some(1));
    forest.merge_targets(2, 3);
    forest.merge_targets(0, 1);
    assert_eq!(select_edge(&edges, &forest), None);
}

#[test]
fn bipartition_tally_counts_every_inner_node() {
    let t = node(node(leaf(1), leaf(2)), leaf(3));
    let mut overall = BipartTable::new();
    let mut per_sample = BipartTable::new();
    treeterminus::bipart::compute_bipart_count2(&t, &mut overall, &mut per_sample);
    let key = |m: &[u64]| GroupId { members: m.to_vec() };
    assert_eq!(overall.get_count(&key(&[1, 2])), 1);
    assert_eq!(overall.get_count(&key(&[1])), 1);
    assert_eq!(overall.get_count(&key(&[2])), 1);
    assert_eq!(overall.get_count(&key(&[3])), 1);
    assert_eq!(overall.get_count(&key(&[1, 2, 3])), 0);
    assert_eq!(per_sample.get_count(&key(&[1, 2])), 1);
    // Tallying a second sample's identical tree doubles the shared counts
    // in the cross-sample table only.
    let mut per_sample2 = BipartTable::new();
    treeterminus::bipart::compute_bipart_count2(&t, &mut overall, &mut per_sample2);
    assert_eq!(overall.get_count(&key(&[1, 2])), 2);
    assert_eq!(per_sample2.get_count(&key(&[1, 2])), 1);
}

#[test]
fn newick_round_trips_deep_trees() {
    let mut t = leaf(0);
    for i in 1..100 {
        t = node(t, leaf(i));
    }
    let line = newick_line(&t);
    let back = parse_newick_line(&line).expect("round trip");
    assert!(back.same_tree(&t));
}

#[test]
fn tables_saturate_instead_of_wrapping() {
    let mut t = BipartTable::new();
    let k = GroupId { members: vec![1] };
    t.add_count(&k, u32::MAX);
    t.add_count(&k, 5);
    assert_eq!(t.get_count(&k), u32::MAX);
}

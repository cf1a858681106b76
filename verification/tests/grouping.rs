use treeterminus::bipart::BipartTable;
use treeterminus::consensus_prep::{comp_diff, find_groups_in_merged, get_group_trees, SampleTrees};
use treeterminus::aggregate::merge_groups;
use treeterminus::ids::GroupId;

fn gid(members: &[u64]) -> GroupId {
    GroupId { members: members.to_vec() }
}

#[test]
fn group_id_renders_sorted_members() {
    let g = gid(&[3, 7]);
    assert_eq!(g.to_string(), "3_7");
    let g = gid(&[0]);
    assert_eq!(g.to_string(), "0");
    let g = gid(&[1, 2, 3]);
    assert_eq!(g.to_string(), "1_2_3");
}

#[test]
fn group_id_contains_and_anchor() {
    let g = gid(&[1, 5, 9]);
    assert!(g.contains(5));
    assert!(!g.contains(4));
    assert_eq!(g.anchor(), 1);
}

#[test]
fn merge_groups_unites_overlapping_groups() {
    // Three samples report groups {1,2}, {2,3}, {1,2,3}: one merged
    // super-group 1_2_3.
    let input = vec![
        (gid(&[1, 2]), BipartTable::new()),
        (gid(&[2, 3]), BipartTable::new()),
        (gid(&[1, 2, 3]), BipartTable::new()),
    ];
    let merged = merge_groups(&input, 4);
    assert_eq!(merged.len(), 1);
    assert_eq!(merged[0].0.to_string(), "1_2_3");
}

#[test]
fn merge_groups_keeps_unrelated_groups_apart() {
    let input = vec![
        (gid(&[0, 1]), BipartTable::new()),
        (gid(&[2, 3]), BipartTable::new()),
    ];
    let merged = merge_groups(&input, 4);
    assert_eq!(merged.len(), 2);
    assert_eq!(merged[0].0.to_string(), "0_1");
    assert_eq!(merged[1].0.to_string(), "2_3");
}

#[test]
fn merge_groups_sums_bipartition_counts() {
    let mut t1 = BipartTable::new();
    t1.add_count(&gid(&[1]), 1);
    let mut t2 = BipartTable::new();
    t2.add_count(&gid(&[1]), 2);
    t2.add_count(&gid(&[2]), 5);
    let input = vec![(gid(&[1, 2]), t1), (gid(&[2, 3]), t2)];
    let merged = merge_groups(&input, 4);
    assert_eq!(merged.len(), 1);
    assert_eq!(merged[0].0.to_string(), "1_2_3");
    let table = &merged[0].1;
    assert_eq!(table.get_count(&gid(&[1])), 3);
    assert_eq!(table.get_count(&gid(&[2])), 5);
    assert_eq!(table.get_count(&gid(&[9])), 0);
    // Monotonicity: the merged count dominates each constituent's count.
    assert!(table.get_count(&gid(&[1])) >= 1);
    assert!(table.get_count(&gid(&[1])) >= 2);
}

#[test]
fn saturated_merged_counts_still_dominate() {
    let mut t1 = BipartTable::new();
    t1.add_count(&gid(&[1]), u32::MAX);
    let mut t2 = BipartTable::new();
    t2.add_count(&gid(&[1]), 5);
    let input = vec![(gid(&[1, 2]), t1), (gid(&[2, 3]), t2)];
    let merged = merge_groups(&input, 4);
    assert_eq!(merged.len(), 1);
    let c = merged[0].1.get_count(&gid(&[1]));
    assert_eq!(c, u32::MAX);
    assert!(c >= 5);
}

#[test]
fn merge_groups_is_order_independent() {
    let a = vec![
        (gid(&[1, 2]), BipartTable::new()),
        (gid(&[2, 3]), BipartTable::new()),
        (gid(&[5, 6]), BipartTable::new()),
    ];
    let b = vec![
        (gid(&[5, 6]), BipartTable::new()),
        (gid(&[2, 3]), BipartTable::new()),
        (gid(&[1, 2]), BipartTable::new()),
    ];
    let ma = merge_groups(&a, 8);
    let mb = merge_groups(&b, 8);
    let mut keys_a: Vec<String> = ma.iter().map(|e| e.0.to_string()).collect();
    let mut keys_b: Vec<String> = mb.iter().map(|e| e.0.to_string()).collect();
    keys_a.sort();
    keys_b.sort();
    assert_eq!(keys_a, keys_b);
    assert_eq!(keys_a, vec!["1_2_3".to_string(), "5_6".to_string()]);
}

#[test]
fn merge_groups_is_deterministic() {
    let build = || {
        vec![
            (gid(&[1, 2]), BipartTable::new()),
            (gid(&[2, 3]), BipartTable::new()),
            (gid(&[5, 6]), BipartTable::new()),
        ]
    };
    let r1 = merge_groups(&build(), 8);
    let r2 = merge_groups(&build(), 8);
    let k1: Vec<String> = r1.iter().map(|e| e.0.to_string()).collect();
    let k2: Vec<String> = r2.iter().map(|e| e.0.to_string()).collect();
    assert_eq!(k1, k2);
}

#[test]
fn find_groups_in_merged_collects_constituents() {
    let groups = vec![gid(&[1, 2]), gid(&[2, 3]), gid(&[1, 2, 3]), gid(&[5, 6])];
    let merged = find_groups_in_merged(&groups, 8);
    assert_eq!(merged.len(), 2);
    assert_eq!(merged[0].0.to_string(), "1_2_3");
    let olds: Vec<String> = merged[0].1.iter().map(|g| g.to_string()).collect();
    assert_eq!(olds, vec!["1_2".to_string(), "2_3".to_string(), "1_2_3".to_string()]);
    assert_eq!(merged[1].0.to_string(), "5_6");
}

#[test]
fn comp_diff_finds_split_out_members() {
    let merged = gid(&[1, 2, 3]);
    let others = vec![gid(&[1, 2])];
    assert_eq!(comp_diff(&merged, &others), vec![3]);
    let none: Vec<GroupId> = Vec::new();
    assert_eq!(comp_diff(&merged, &none), vec![1, 2, 3]);
    let all = vec![gid(&[1, 2]), gid(&[2, 3])];
    assert_eq!(comp_diff(&merged, &all), Vec::<u64>::new());
}

fn leaf(v: u64) -> treeterminus::tree::MergeTree {
    treeterminus::tree::MergeTree::Leaf(v)
}

fn node(l: treeterminus::tree::MergeTree, r: treeterminus::tree::MergeTree) -> treeterminus::tree::MergeTree {
    treeterminus::tree::MergeTree::Node(Box::new(l), Box::new(r))
}

#[test]
fn representative_trees_pad_split_out_members() {
    // Sample 0 grouped {1,2}, sample 1 grouped {2,3}, sample 2 grouped
    // {1,2,3}: every representative tree covers the full merged leaf set.
    let merged = gid(&[1, 2, 3]);
    let groups = vec![gid(&[1, 2]), gid(&[2, 3]), gid(&[1, 2, 3])];
    let mut s0 = SampleTrees::new();
    s0.push(gid(&[1, 2]), node(leaf(1), leaf(2)));
    let mut s1 = SampleTrees::new();
    s1.push(gid(&[2, 3]), node(leaf(2), leaf(3)));
    let mut s2 = SampleTrees::new();
    s2.push(gid(&[1, 2, 3]), node(node(leaf(1), leaf(2)), leaf(3)));
    let samples = vec![s0, s1, s2];
    let (inf, lines) = get_group_trees(&merged, &groups, &samples);
    assert_eq!(lines.len(), 3);
    assert_eq!(lines[0], "((1,2),3);");
    assert_eq!(lines[1], "((2,3),1);");
    assert_eq!(lines[2], "((1,2),3);");
    assert_eq!(inf, "1_2_3\t0\t1_2\t1\t2_3\t2\t1_2_3");
}

#[test]
fn absent_sample_gets_placeholder_tree() {
    // A group absent entirely from one sample yields the empty placeholder.
    let merged = gid(&[3, 7]);
    let groups = vec![gid(&[3, 7])];
    let mut s0 = SampleTrees::new();
    s0.push(gid(&[3, 7]), node(leaf(3), leaf(7)));
    let s1 = SampleTrees::new();
    let samples = vec![s0, s1];
    let (_, lines) = get_group_trees(&merged, &groups, &samples);
    assert_eq!(lines[0], "(3,7);");
    assert_eq!(lines[1], "();");
}

#[test]
fn multiple_present_groups_join_under_one_root() {
    let merged = gid(&[1, 2, 3, 4]);
    let groups = vec![gid(&[1, 2]), gid(&[3, 4])];
    let mut s0 = SampleTrees::new();
    s0.push(gid(&[1, 2]), node(leaf(1), leaf(2)));
    s0.push(gid(&[3, 4]), node(leaf(3), leaf(4)));
    let samples = vec![s0];
    let (_, lines) = get_group_trees(&merged, &groups, &samples);
    assert_eq!(lines[0], "((1,2),(3,4));");
}

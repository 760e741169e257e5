//! The namespace tree: grouping, natural order, aggregates, flattening,
//! toggling, and record merging.

use safetensors_explorer::explorer::{Explorer, SelectionAction};
use safetensors_explorer::natsort::{name_le_exec, natural_sort_key, NaturalSortItem};
use safetensors_explorer::tree::{
    dedup_records, MetadataInfo, RowNode, TensorInfo, TreeBuilder, TreeNode,
};

fn rec(name: &str, size_bytes: usize, num_elements: usize) -> TensorInfo {
    TensorInfo {
        name: name.to_string(),
        dtype: "F32".to_string(),
        shape: vec![num_elements],
        size_bytes,
        num_elements,
    }
}

#[test]
fn build_tree_groups_and_orders() {
    let records = vec![rec("a.w", 8, 2), rec("a.b", 4, 1), rec("c", 16, 4)];
    let tree = TreeBuilder::build_tree(&records);
    assert_eq!(tree.len(), 2);
    match &tree[0] {
        TreeNode::Group { name, children, expanded, tensor_count, total_size } => {
            assert_eq!(name, "a");
            assert!(*expanded, "top-level groups start expanded");
            assert_eq!(*tensor_count, 2);
            assert_eq!(*total_size, 12);
            assert_eq!(children.len(), 2);
            assert_eq!(children[0].name(), "a.b");
            assert_eq!(children[1].name(), "a.w");
        }
        other => panic!("expected group, got {:?}", other),
    }
    match &tree[1] {
        TreeNode::Tensor { info } => assert_eq!(info.name, "c"),
        other => panic!("expected tensor leaf, got {:?}", other),
    }
}

#[test]
fn natural_sort_orders_layer_numbers() {
    let records = vec![
        rec("layer2.weight", 1, 1),
        rec("layer10.weight", 1, 1),
        rec("layer1.weight", 1, 1),
    ];
    let tree = TreeBuilder::build_tree(&records);
    let names: Vec<&str> = tree.iter().map(|n| n.name()).collect();
    assert_eq!(names, vec!["layer1", "layer2", "layer10"]);
    assert!(name_le_exec("layer1.weight", "layer2.weight"));
    assert!(name_le_exec("layer2.weight", "layer10.weight"));
    assert!(!name_le_exec("layer10.weight", "layer2.weight"));
}

#[test]
fn natural_sort_key_tokenizes_runs() {
    let key = natural_sort_key("layer10.weight");
    assert_eq!(
        key,
        vec![
            NaturalSortItem::Text("layer".to_string()),
            NaturalSortItem::Number(10),
            NaturalSortItem::Text(".weight".to_string()),
        ]
    );
    // A digit run too large for 32 bits stays text, as the original name
    // spells it.
    let big = natural_sort_key("x99999999999");
    assert_eq!(
        big,
        vec![
            NaturalSortItem::Text("x".to_string()),
            NaturalSortItem::Text("99999999999".to_string()),
        ]
    );
}

#[test]
fn aggregates_sum_over_all_depths() {
    let records = vec![
        rec("m.a.x", 10, 5),
        rec("m.a.y", 20, 6),
        rec("m.b", 30, 7),
        rec("n", 40, 8),
    ];
    let tree = TreeBuilder::build_tree(&records);
    match &tree[0] {
        TreeNode::Group { name, children, tensor_count, total_size, .. } => {
            assert_eq!(name, "m");
            assert_eq!(*tensor_count, 3);
            assert_eq!(*total_size, 60, "sums leaves at every depth beneath");
            match &children[0] {
                TreeNode::Group { name, tensor_count, total_size, expanded, .. } => {
                    assert_eq!(name, "a");
                    assert_eq!(*tensor_count, 2);
                    assert_eq!(*total_size, 30);
                    assert!(!*expanded, "nested groups start collapsed");
                }
                other => panic!("expected nested group, got {:?}", other),
            }
        }
        other => panic!("expected group, got {:?}", other),
    }
}

#[test]
fn collapsed_group_is_one_row_toggling_reveals_six() {
    let mut forest = vec![TreeNode::Group {
        name: "g".to_string(),
        children: (0..5).map(|i| TreeNode::Tensor { info: rec(&format!("g.t{}", i), 1, 1) }).collect(),
        expanded: false,
        tensor_count: 5,
        total_size: 5,
    }];
    assert_eq!(TreeBuilder::flatten_tree(&forest).len(), 1);
    let toggled = TreeBuilder::toggle_node_by_index(0, &mut forest);
    assert!(toggled);
    assert_eq!(TreeBuilder::flatten_tree(&forest).len(), 6);
}

#[test]
fn toggling_a_leaf_row_is_a_no_op() {
    let mut forest = vec![TreeNode::Tensor { info: rec("t", 1, 1) }];
    let toggled = TreeBuilder::toggle_node_by_index(0, &mut forest);
    assert!(!toggled);
    assert_eq!(TreeBuilder::flatten_tree(&forest).len(), 1);
    assert!(!TreeBuilder::toggle_node_by_index(7, &mut forest));
}

#[test]
fn toggle_by_index_counts_collapsed_groups_as_one_row() {
    let records = vec![rec("a.x", 1, 1), rec("b.y", 1, 1)];
    let mut tree = TreeBuilder::build_tree(&records);
    // Rows: a, a.x, b, b.y — collapse group b at row 2.
    assert!(TreeBuilder::toggle_node_by_index(2, &mut tree));
    let rows = TreeBuilder::flatten_tree(&tree);
    assert_eq!(rows.len(), 3);
    match &rows[2].0 {
        RowNode::Group { name, expanded, .. } => {
            assert_eq!(name, "b");
            assert!(!expanded);
        }
        other => panic!("expected group row, got {:?}", other),
    }
}

#[test]
fn toggle_by_name_first_match_wins() {
    let records = vec![rec("a.x", 1, 1), rec("b.y", 1, 1)];
    let mut tree = TreeBuilder::build_tree(&records);
    assert!(TreeBuilder::toggle_node_by_name("b", &mut tree));
    let rows = TreeBuilder::flatten_tree(&tree);
    assert_eq!(rows.len(), 3, "b collapsed, its leaf hidden");
    assert!(!TreeBuilder::toggle_node_by_name("missing", &mut tree));
}

#[test]
fn flatten_reports_depths() {
    let records = vec![rec("m.a.x", 1, 1)];
    let mut tree = TreeBuilder::build_tree(&records);
    // Expand the nested group "a" (row 1) to reveal the leaf.
    assert!(TreeBuilder::toggle_node_by_index(1, &mut tree));
    let rows = TreeBuilder::flatten_tree(&tree);
    let depths: Vec<usize> = rows.iter().map(|r| r.1).collect();
    assert_eq!(depths, vec![0, 1, 2]);
}

#[test]
fn metadata_entries_form_a_collapsed_front_group() {
    let records = vec![rec("w", 1, 1)];
    let metadata = vec![
        MetadataInfo {
            name: "b.key".to_string(),
            value: "2".to_string(),
            value_type: "u32".to_string(),
        },
        MetadataInfo {
            name: "a.key".to_string(),
            value: "1".to_string(),
            value_type: "u32".to_string(),
        },
    ];
    let tree = TreeBuilder::build_tree_mixed(&records, &metadata);
    assert_eq!(tree.len(), 2);
    match &tree[0] {
        TreeNode::Group { name, children, expanded, tensor_count, total_size } => {
            assert_eq!(name, "\u{1F527} Metadata", "the fixed label");
            assert!(!expanded, "the metadata group starts collapsed");
            assert_eq!(*tensor_count, 0, "metadata adds nothing to tensor counts");
            assert_eq!(*total_size, 0);
            assert_eq!(children.len(), 2);
            assert_eq!(children[0].name(), "a.key");
            assert_eq!(children[1].name(), "b.key");
        }
        other => panic!("expected metadata group, got {:?}", other),
    }
}

#[test]
fn empty_records_build_an_empty_forest() {
    let tree = TreeBuilder::build_tree(&Vec::new());
    assert!(tree.is_empty());
    let mixed = TreeBuilder::build_tree_mixed(&Vec::new(), &Vec::new());
    assert!(mixed.is_empty());
}

#[test]
fn dedup_keeps_first_seen() {
    let from_a = rec("x", 111, 1);
    let from_b = rec("x", 222, 2);
    let merged = dedup_records(vec![from_a, from_b, rec("y", 3, 3)]);
    assert_eq!(merged.len(), 2);
    assert_eq!(merged[0].name, "x");
    assert_eq!(merged[0].size_bytes, 111, "first-seen record wins");
    assert_eq!(merged[1].name, "y");
}

#[test]
fn explorer_loads_merges_and_flattens() {
    let mut e = Explorer::new(vec!["model-a".to_string(), "model-b".to_string()]);
    let tensors = vec![
        rec("layer10.w", 4, 10),
        rec("layer2.w", 4, 20),
        rec("layer2.w", 4, 999),
        rec("solo", 4, 30),
    ];
    e.load_records(tensors, Vec::new());
    assert_eq!(e.tensors.len(), 3, "duplicate by name dropped");
    assert_eq!(e.total_parameters, 60, "summed after first-seen dedup");
    let names: Vec<String> = e.tensors.iter().map(|t| t.name.clone()).collect();
    assert_eq!(names, vec!["layer2.w", "layer10.w", "solo"]);
    // Rows: layer2 (expanded), its leaf, layer10 (expanded), its leaf, solo.
    assert_eq!(e.flattened_tree.len(), 5);
}

#[test]
fn explorer_selection_moves_and_toggles() {
    let mut e = Explorer::new(Vec::new());
    e.load_records(vec![rec("g.a", 1, 1), rec("g.b", 1, 1)], Vec::new());
    assert_eq!(e.flattened_tree.len(), 3);
    e.move_selection(10);
    assert_eq!(e.selected_idx, 2, "clamped to the last row");
    e.move_selection(-10);
    assert_eq!(e.selected_idx, 0, "clamped to the first row");
    match e.handle_selection() {
        SelectionAction::Toggled => {}
        other => panic!("expected a toggle, got {:?}", other),
    }
    assert_eq!(e.flattened_tree.len(), 1, "group collapsed to one row");
    e.move_selection(0);
    assert_eq!(e.selected_idx, 0);
    // Selecting the same row again re-expands it.
    match e.handle_selection() {
        SelectionAction::Toggled => {}
        other => panic!("expected a toggle, got {:?}", other),
    }
    assert_eq!(e.flattened_tree.len(), 3);
    e.move_selection(1);
    match e.handle_selection() {
        SelectionAction::ShowTensor(info) => assert_eq!(info.name, "g.a"),
        other => panic!("expected a tensor, got {:?}", other),
    }
}

#[test]
fn text_tokens_sort_before_number_tokens() {
    // At the same position a non-digit run sorts before a digit run.
    assert!(name_le_exec("ax", "1x"));
    assert!(!name_le_exec("1x", "ax"));
    // A name that runs out of tokens sorts before one with more.
    assert!(name_le_exec("a", "a1"));
    assert!(name_le_exec("a", "ab"));
}

#[test]
fn empty_segments_group_like_any_other() {
    // "a..b" has an empty middle segment, as the name spells it.
    let records = vec![rec("a..b", 1, 1)];
    let tree = TreeBuilder::build_tree(&records);
    assert_eq!(tree.len(), 1);
    match &tree[0] {
        TreeNode::Group { name, children, .. } => {
            assert_eq!(name, "a");
            match &children[0] {
                TreeNode::Group { name, children, .. } => {
                    assert_eq!(name, "");
                    assert_eq!(children[0].name(), "a..b");
                }
                other => panic!("expected the empty-named group, got {:?}", other),
            }
        }
        other => panic!("expected group, got {:?}", other),
    }
}

#[test]
fn explorer_shows_metadata_rows_when_present() {
    let mut e = Explorer::new(Vec::new());
    let metadata = vec![MetadataInfo {
        name: "general.name".to_string(),
        value: "\"m\"".to_string(),
        value_type: "string".to_string(),
    }];
    e.load_records(vec![rec("w", 1, 1)], metadata);
    // Rows: the collapsed metadata group, then the root-level leaf.
    assert_eq!(e.flattened_tree.len(), 2);
    e.move_selection(0);
    match e.handle_selection() {
        SelectionAction::Toggled => {}
        other => panic!("expected a toggle, got {:?}", other),
    }
    assert_eq!(e.flattened_tree.len(), 3, "metadata leaf revealed");
    e.move_selection(1);
    match e.handle_selection() {
        SelectionAction::ShowMetadata(info) => {
            assert_eq!(info.name, "general.name");
            assert_eq!(info.value_type, "string");
        }
        other => panic!("expected metadata, got {:?}", other),
    }
}

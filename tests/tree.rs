use spideog::data::tree::{merge_all, parse_tree, IndentedTaxon, Tree};
use spideog::errors::{SpideogError, TaxRankParsingError};
use spideog::kraken::{adapt_records, parse_ident_organism_name, Taxon};
use spideog::newick::{to_newick, write_children_recursively, write_newick};
use spideog::taxonomy::Rank;

fn node(indent: usize, rank: Rank, name: &str, id: u64) -> IndentedTaxon {
    IndentedTaxon {
        indent,
        taxon: Taxon { taxonomy_level: rank, name: name.to_string(), taxonomy_id: id },
    }
}

fn record(rank: &str, id: u64, name: &str) -> (String, u64, u64, String, u64, String) {
    ("0.50".to_string(), 10, 5, rank.to_string(), id, name.to_string())
}

fn weights(tree: &Tree) -> Vec<u32> {
    (0..tree.edge_count()).map(|k| tree.edge(k).unwrap().2).collect()
}

#[test]
fn tree_test_new() {
    let origin = node(0, Rank::Root(0), "root", 0);
    let mut tree = Tree::new();
    tree.with_origin(origin.clone()).unwrap();
    assert_eq!(tree.edge_count(), 0);
    assert_eq!(tree.node_count(), 1);
    assert_eq!(tree.node(0), Some(&origin));
}

#[test]
fn tree_test_child() {
    let origin = node(0, Rank::Root(0), "root", 0);
    let child = node(0, Rank::Root(1), "child", 1);
    let grand_child = node(2, Rank::Root(1), "grand child", 2);

    let mut tree = Tree::new();
    tree.with_origin(origin.clone()).unwrap();
    tree.child(0, child.clone());
    tree.child(1, grand_child);

    assert_eq!(tree.edge_count(), 2);
    assert_eq!(tree.node_count(), 3);
    assert_eq!(tree.node(0), Some(&origin));
    assert_eq!(tree.node(1), Some(&child));
    assert!(tree.find_edge(0, 1).is_some());
    assert!(tree.find_edge(1, 2).is_some());
    assert_eq!(tree.parent_of(2), Some(1));
}

#[test]
fn tree_test_find_valid_parent() {
    let origin = node(0, Rank::Root(0), "root", 0);
    let child = node(1, Rank::Root(1), "child", 1);
    let grand_child = node(2, Rank::Root(1), "grand child", 2);
    let new_child = node(2, Rank::Root(3), "new_child", 3);
    let new_child_child = node(3, Rank::Root(3), "new_child_child", 4);

    let mut tree = Tree::new();
    tree.with_origin(origin).unwrap();
    tree.child(0, child);
    tree.child(1, grand_child);

    let parent = tree.find_valid_parent_for(&new_child).unwrap();
    assert_eq!(parent, 1);
    tree.child(parent, new_child);

    let parent = tree.find_valid_parent_for(&new_child_child).unwrap();
    tree.child(parent, new_child_child);

    assert_eq!(parent, 3);
}

#[test]
fn tree_test_try_combine_with() {
    let origin = node(0, Rank::Root(0), "root", 0);
    let child = node(1, Rank::Root(1), "child", 1);
    let second_child = node(1, Rank::Root(1), "second child", 2);
    let grand_child = node(2, Rank::Root(2), "grand child", 3);

    let mut tree_1 = Tree::new();
    tree_1.with_origin(origin.clone()).unwrap();
    tree_1.child(0, child.clone());
    tree_1.child(0, second_child.clone());

    let mut tree_2 = Tree::new();
    tree_2.with_origin(origin.clone()).unwrap();
    tree_2.child(0, child.clone());
    tree_2.child(1, grand_child.clone());

    let mut expected_tree = Tree::new();
    expected_tree.with_origin(origin).unwrap();
    expected_tree.child_with_weight(0, child, 2);
    expected_tree.child(0, second_child);
    expected_tree.child(1, grand_child);

    let combined_tree = tree_1.try_combine_with(tree_2).unwrap();

    assert_eq!(combined_tree.edge_count(), expected_tree.edge_count());
    assert_eq!(combined_tree.node_count(), expected_tree.node_count());
    assert_eq!(weights(&combined_tree), weights(&expected_tree));
}

#[test]
fn counts_of_a_built_tree() {
    let records = vec![
        record("R", 1, "root"),
        record("D", 2, "  Bacteria"),
        record("P", 3, "    Proteobacteria"),
        record("D", 4, "  Archaea"),
        record("P", 5, "    Euryarchaeota"),
    ];
    let tree = parse_tree(&records).unwrap();
    assert_eq!(tree.node_count(), 5);
    assert_eq!(tree.edge_count(), 4);
    assert_eq!(tree.origin(), Some(0));
    assert_eq!(tree.last_added(), Some(4));
}

#[test]
fn increasing_indents_make_a_chain() {
    let records = vec![
        record("R", 1, "root"),
        record("D", 2, "  a"),
        record("P", 3, "    b"),
        record("C", 4, "      c"),
    ];
    let tree = parse_tree(&records).unwrap();
    assert_eq!(tree.parent_of(1), Some(0));
    assert_eq!(tree.parent_of(2), Some(1));
    assert_eq!(tree.parent_of(3), Some(2));
}

#[test]
fn ancestor_walk_skips_deeper_nodes() {
    let records = vec![
        record("R", 1, "root"),
        record("D", 2, "  a"),
        record("P", 3, "    b"),
        record("D", 4, "  c"),
    ];
    let tree = parse_tree(&records).unwrap();
    assert_eq!(tree.parent_of(3), Some(0));
    assert_eq!(tree.children(0), vec![3, 1]);
}

#[test]
fn unindented_node_falls_back_to_the_root_from_domain_down() {
    let records = vec![record("R", 1, "root"), record("D", 2, "  a"), record("D", 3, "b")];
    let tree = parse_tree(&records).unwrap();
    assert_eq!(tree.parent_of(2), Some(0));

    let records = vec![record("U", 0, "unclassified"), record("R", 1, "root"), record("R1", 2, "  a")];
    let tree = parse_tree(&records).unwrap();
    assert_eq!(tree.parent_of(1), Some(0));
    assert_eq!(tree.parent_of(2), Some(1));

    let records = vec![record("R", 1, "root"), record("D", 2, "  a"), record("P", 3, "b")];
    assert!(matches!(
        parse_tree(&records),
        Err(SpideogError::NoSuitableParent(name, 0, Rank::Phylum(0))) if name == "b"
    ));
}

#[test]
fn build_errors() {
    assert!(matches!(parse_tree(&vec![]), Err(SpideogError::EmptyFile)));
    assert!(matches!(
        parse_tree(&vec![record("R", 1, "    root")]),
        Err(SpideogError::NonZeroIndentRoot(2))
    ));
    assert!(matches!(
        parse_tree(&vec![record("-", 1, "root")]),
        Err(SpideogError::RankParsing(TaxRankParsingError::TaxRankParsingCannotInferRank(_)))
    ));
    let mut tree = Tree::new();
    assert!(matches!(
        tree.insert(node(1, Rank::Domain(0), "a", 1)),
        Err(SpideogError::TreeNotInitialized)
    ));
    assert!(matches!(
        tree.with_origin(node(1, Rank::Root(0), "root", 1)),
        Err(SpideogError::NonZeroIndentRoot(1))
    ));
    assert_eq!(tree.node_count(), 0);
    assert_eq!(tree.origin(), None);
    assert!(matches!(to_newick(&tree), Err(SpideogError::TreeNotInitialized)));
    let mut out = String::from("kept");
    assert!(write_newick(&mut out, &tree).is_err());
    assert_eq!(out, "kept");
}

#[test]
fn the_first_failing_record_gives_the_error() {
    let records = vec![record("R", 1, "  root"), record("Q", 2, "  a")];
    assert!(matches!(parse_tree(&records), Err(SpideogError::NonZeroIndentRoot(1))));
    let records = vec![record("R", 1, "root"), record("Q", 2, "  a"), record("P", 3, "b")];
    assert!(matches!(
        parse_tree(&records),
        Err(SpideogError::RankParsing(TaxRankParsingError::InvalidRankCode(_, 'Q')))
    ));
}

#[test]
fn merge_all_folds_from_an_empty_tree() {
    let merged = merge_all(vec![sample_tree(), sample_tree(), sample_tree()]).unwrap();
    assert_eq!(weights(&merged), vec![3, 3, 3]);
    assert_eq!(merge_all(vec![]).unwrap().node_count(), 0);
    let unrelated = parse_tree(&vec![record("R", 9, "x"), record("D", 8, "  y")]).unwrap();
    assert!(matches!(merge_all(vec![sample_tree(), unrelated]), Err(SpideogError::NodeNotFound)));
}

#[test]
fn continuation_codes_follow_the_previous_record() {
    let records = vec![
        record("R", 1, "root"),
        record("-", 2, "  sub root"),
        record("-", 3, "    sub sub root"),
    ];
    let nodes = adapt_records(&records).unwrap();
    assert_eq!(nodes[1].taxon.taxonomy_level, Rank::Root(1));
    assert_eq!(nodes[2].taxon.taxonomy_level, Rank::Root(2));
    assert_eq!(nodes[2].indent, 2);
    assert_eq!(nodes[2].taxon.name, "sub sub root");
}

#[test]
fn indentation_and_trimmed_name() {
    assert_eq!(parse_ident_organism_name("    Homo sapiens  "), (2, "Homo sapiens".to_string()));
    assert_eq!(parse_ident_organism_name("   odd"), (1, "odd".to_string()));
    assert_eq!(parse_ident_organism_name("root"), (0, "root".to_string()));
    assert_eq!(parse_ident_organism_name("\t x"), (0, "x".to_string()));
}

fn sample_tree() -> Tree {
    let records = vec![
        record("R", 1, "root"),
        record("D", 2, "  a"),
        record("P", 3, "    b"),
        record("D", 4, "  c"),
    ];
    parse_tree(&records).unwrap()
}

#[test]
fn merging_an_empty_tree_changes_nothing() {
    let merged = sample_tree().try_combine_with(Tree::new()).unwrap();
    let tree = sample_tree();
    assert_eq!(merged.node_count(), tree.node_count());
    assert_eq!(merged.edge_count(), tree.edge_count());
    for k in 0..tree.edge_count() {
        assert_eq!(merged.edge(k), tree.edge(k));
    }
    for i in 0..tree.node_count() {
        assert_eq!(merged.node(i), tree.node(i));
    }
    let from_empty = Tree::new().try_combine_with(sample_tree()).unwrap();
    assert_eq!(from_empty.edge_count(), 3);
}

#[test]
fn merging_a_tree_with_itself_doubles_weights() {
    let merged = sample_tree().try_combine_with(sample_tree()).unwrap();
    let tree = sample_tree();
    assert_eq!(merged.node_count(), tree.node_count());
    assert_eq!(merged.edge_count(), tree.edge_count());
    for k in 0..tree.edge_count() {
        let (s, t, _) = tree.edge(k).unwrap();
        assert_eq!(merged.edge(k), Some((s, t, 2)));
    }
    let again = merged.try_combine_with(sample_tree()).unwrap();
    assert_eq!(weights(&again), vec![3, 3, 3]);
}

#[test]
fn merge_failures() {
    let other_root = parse_tree(&vec![record("R", 9, "other"), record("D", 2, "  a")]).unwrap();
    assert!(matches!(
        sample_tree().try_combine_with(other_root),
        Err(SpideogError::ParentNotFound(n)) if n.taxon.name == "a"
    ));
    let unrelated = parse_tree(&vec![record("R", 9, "x"), record("D", 8, "  y")]).unwrap();
    assert!(matches!(sample_tree().try_combine_with(unrelated), Err(SpideogError::NodeNotFound)));
    let moved = parse_tree(&vec![record("R", 1, "root"), record("D", 4, "  c"), record("P", 3, "    b")])
        .unwrap();
    assert!(matches!(
        sample_tree().try_combine_with(moved),
        Err(SpideogError::EdgeNotFound(a, b)) if a.taxon.name == "c" && b.taxon.name == "b"
    ));
}

#[test]
fn newick_rejects_a_child_less_indented_than_its_parent() {
    let mut tree = Tree::new();
    tree.with_origin(node(0, Rank::Root(0), "root", 0)).unwrap();
    tree.child(0, node(2, Rank::Domain(0), "a", 1));
    tree.child(1, node(0, Rank::Phylum(0), "b", 2));
    assert!(matches!(to_newick(&tree), Err(SpideogError::InvalidDistance(0, 2))));
    let mut out = String::new();
    assert!(write_children_recursively(&mut out, &tree, 2, 2).is_err());
    assert_eq!(out, "");
    assert!(tree.node(3).is_none());
    assert!(tree.edge(2).is_none());
    assert_eq!(tree.find_edge(0, 1), Some(1));
    assert_eq!(tree.find_edge(1, 0), None);
    assert_eq!(tree.position(&node(0, Rank::Phylum(0), "b", 2)), Some(2));
    assert!(node(0, Rank::Phylum(0), "b", 2).inferior_indent(&node(2, Rank::Domain(0), "a", 1)));
}

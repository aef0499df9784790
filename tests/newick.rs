use spideog::data::tree::parse_tree;
use spideog::newick::{clean_name, format_name_distance, to_newick, write_end, write_name_distance};
use spideog::text::push_decimal;

fn record(rank: &str, id: u64, name: &str) -> (String, u64, u64, String, u64, String) {
    ("1.00".to_string(), 1, 1, rank.to_string(), id, name.to_string())
}

#[test]
fn test_format_name_distance() {
    assert_eq!(format_name_distance("Homo sapiens", 2), "Homo_sapiens:2");
    assert_eq!(
        format_name_distance("Bacteroidetes/Chlorobi group", 1),
        "Bacteroidetes_Chlorobi_group:1"
    );
}

#[test]
fn clean_name_replaces_and_drops() {
    assert_eq!(clean_name("a b-c/d:e"), "a_b_c_d_e");
    assert_eq!(clean_name("x.y,z=[q](r)'s\"t"), "xyzqrst");
    assert_eq!(clean_name("Escherichia-coli"), "Escherichia_coli");
    assert_eq!(clean_name(""), "");
    assert_eq!(clean_name("plain"), "plain");
}

#[test]
fn write_helpers_append() {
    let mut out = String::from("(");
    write_name_distance(&mut out, "Homo sapiens", 12);
    write_end(&mut out);
    assert_eq!(out, "(Homo_sapiens:12;\n");
    let mut n = String::new();
    push_decimal(&mut n, 0);
    push_decimal(&mut n, 1234567890);
    assert_eq!(n, "01234567890");
}

#[test]
fn newick_of_a_small_tree() {
    let records = vec![
        record("R", 1, "root"),
        record("D", 2, "  A"),
        record("P", 3, "    B b"),
        record("D", 4, "  C"),
    ];
    let tree = parse_tree(&records).unwrap();
    assert_eq!(to_newick(&tree).unwrap(), "(C:1,(B_b:1)A:1)root:0;\n");
}

#[test]
fn newick_of_a_single_node() {
    let tree = parse_tree(&vec![record("R", 1, "root")]).unwrap();
    assert_eq!(to_newick(&tree).unwrap(), "root:0;\n");
}

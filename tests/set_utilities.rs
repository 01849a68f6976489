use oidfed_metadata_policy::sets::{
    get_hashset_from_values, get_ordered_array, intersection_of, is_subset_of, is_superset_of,
};
use oidfed_metadata_policy::value::{Item, MetadataValue};

fn t(x: &str) -> Item {
    Item::Text(format!("\"{}\"", x))
}

fn list(xs: &[&str]) -> Vec<Item> {
    xs.iter().map(|x| t(x)).collect()
}

#[test]
fn ordered_array_keeps_superior_members_then_new_issuer_members() {
    let r = get_ordered_array(&list(&["c", "a", "x", "c"]), &list(&["b", "a", "y", "b"]), &list(&["a", "b", "c"]));
    assert_eq!(r, list(&["c", "a", "c", "b"]));
}

#[test]
fn ordered_array_keeps_superior_repeats() {
    assert_eq!(get_ordered_array(&list(&["a", "a"]), &list(&[]), &list(&["a"])), list(&["a", "a"]));
}

#[test]
fn hashset_of_scalar_and_array() {
    assert_eq!(get_hashset_from_values(&MetadataValue::Single(Item::Null)), vec![Item::Null]);
    assert_eq!(get_hashset_from_values(&MetadataValue::Array(list(&["a", "b", "a"]))), list(&["a", "b"]));
}

#[test]
fn subset_and_superset_tests() {
    let ab = MetadataValue::Array(list(&["a", "b"]));
    let a = MetadataValue::Single(t("a"));
    assert!(is_subset_of(&a, &ab));
    assert!(!is_subset_of(&ab, &a));
    assert!(is_superset_of(&ab, &a));
    assert!(!is_superset_of(&a, &ab));
    assert!(is_subset_of(&MetadataValue::Array(vec![]), &a));
}

#[test]
fn intersection_keeps_first_order() {
    let x = MetadataValue::Array(list(&["c", "b", "a", "c"]));
    let y = MetadataValue::Array(list(&["a", "c", "d"]));
    assert_eq!(intersection_of(&x, &y), list(&["c", "a"]));
}

#[test]
fn items_differ_by_kind() {
    let a = MetadataValue::Array(vec![Item::Bool(true), Item::Null, Item::Text("1".to_string())]);
    let b = MetadataValue::Array(vec![Item::Text("true".to_string())]);
    assert!(!is_subset_of(&b, &a));
    assert!(is_subset_of(&MetadataValue::Single(Item::Text("1".to_string())), &a));
}

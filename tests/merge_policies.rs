use oidfed_metadata_policy::merge::{merge_operator_sets, merge_policies, PolicyConflict};
use oidfed_metadata_policy::policy::{OperatorSet, OtherOperator, PolicyEntry};
use oidfed_metadata_policy::value::{Item, MetadataValue};

fn t(x: &str) -> Item {
    Item::Text(format!("\"{}\"", x))
}

fn list(xs: &[&str]) -> Vec<Item> {
    xs.iter().map(|x| t(x)).collect()
}

fn entry(name: &str, ops: OperatorSet) -> PolicyEntry {
    PolicyEntry { name: name.to_string(), operators: ops }
}

fn with_add(xs: &[&str]) -> OperatorSet {
    let mut o = OperatorSet::new();
    o.add = Some(list(xs));
    o
}

fn with_one_of(xs: &[&str]) -> OperatorSet {
    let mut o = OperatorSet::new();
    o.one_of = Some(list(xs));
    o
}

fn with_superset_of(xs: &[&str]) -> OperatorSet {
    let mut o = OperatorSet::new();
    o.superset_of = Some(list(xs));
    o
}

fn with_value(v: MetadataValue) -> OperatorSet {
    let mut o = OperatorSet::new();
    o.value = Some(v);
    o
}

#[test]
fn end_to_end_merge_add_and_subset_of() {
    let mut ta_ops = with_add(&["a", "b"]);
    ta_ops.subset_of = Some(list(&["a", "b", "c"]));
    let ta = vec![entry("grant_types", ta_ops)];
    let ia = vec![entry("grant_types", with_add(&["b", "c"]))];
    let merged = merge_policies(&ta, &ia).unwrap();
    let mut expected = with_add(&["a", "b", "c"]);
    expected.subset_of = Some(list(&["a", "b", "c"]));
    assert_eq!(merged, vec![entry("grant_types", expected)]);
}

#[test]
fn end_to_end_one_of_extra_items_fails() {
    let ta = vec![entry("x", with_one_of(&["a", "b"]))];
    let ia = vec![entry("x", with_one_of(&["c"]))];
    assert_eq!(merge_policies(&ta, &ia), Err(PolicyConflict::OneOfExtraItems));
}

#[test]
fn equal_values_merge_unchanged() {
    let v = MetadataValue::Array(list(&["x", "y"]));
    let r = merge_operator_sets(&with_value(v.copy_value()), &with_value(v.copy_value())).unwrap();
    assert_eq!(r, with_value(v));
}

#[test]
fn equal_defaults_merge_unchanged() {
    let mut a = OperatorSet::new();
    a.default = Some(MetadataValue::Single(t("d")));
    let r = merge_operator_sets(&a, &a.copy_set()).unwrap();
    assert_eq!(r, a);
}

#[test]
fn different_values_conflict() {
    let a = with_value(MetadataValue::Single(t("x")));
    let b = with_value(MetadataValue::Single(t("y")));
    assert_eq!(merge_operator_sets(&a, &b), Err(PolicyConflict::ValueMismatch));
}

#[test]
fn different_defaults_conflict() {
    let mut a = OperatorSet::new();
    a.default = Some(MetadataValue::Single(t("x")));
    let mut b = OperatorSet::new();
    b.default = Some(MetadataValue::Single(t("y")));
    assert_eq!(merge_operator_sets(&a, &b), Err(PolicyConflict::DefaultMismatch));
}

#[test]
fn add_is_ordered_union_without_repeats() {
    let r = merge_operator_sets(&with_add(&["a", "b", "a"]), &with_add(&["c", "b", "d", "c"])).unwrap();
    assert_eq!(r.add, Some(list(&["a", "b", "c", "d"])));
    let again = merge_operator_sets(&r, &r.copy_set()).unwrap();
    assert_eq!(again, r);
}

#[test]
fn one_of_narrows_to_issuer_items() {
    let r = merge_operator_sets(&with_one_of(&["a", "b", "c"]), &with_one_of(&["c", "a"])).unwrap();
    assert_eq!(r.one_of, Some(list(&["a", "c"])));
}

#[test]
fn one_of_empty_superior_fails() {
    assert_eq!(
        merge_operator_sets(&with_one_of(&[]), &with_one_of(&["a"])),
        Err(PolicyConflict::EmptyOneOfSuperior)
    );
}

#[test]
fn one_of_empty_issuer_fails() {
    assert_eq!(
        merge_operator_sets(&with_one_of(&["a"]), &with_one_of(&[])),
        Err(PolicyConflict::EmptyOneOfIssuer)
    );
}

#[test]
fn superset_of_widens_to_union() {
    let r = merge_operator_sets(&with_superset_of(&["b", "a"]), &with_superset_of(&["c", "a", "b"])).unwrap();
    assert_eq!(r.superset_of, Some(list(&["b", "a", "c"])));
}

#[test]
fn superset_of_missing_item_fails() {
    assert_eq!(
        merge_operator_sets(&with_superset_of(&["a", "z"]), &with_superset_of(&["a"])),
        Err(PolicyConflict::SupersetOfExtraItems)
    );
}

#[test]
fn subset_of_is_plain_intersection() {
    let mut a = OperatorSet::new();
    a.subset_of = Some(list(&["a", "b", "c"]));
    let mut b = OperatorSet::new();
    b.subset_of = Some(list(&["c", "d", "a"]));
    let r = merge_operator_sets(&a, &b).unwrap();
    assert_eq!(r.subset_of, Some(list(&["a", "c"])));
}

#[test]
fn essential_true_wins() {
    let mut a = OperatorSet::new();
    a.essential = Some(true);
    let mut b = OperatorSet::new();
    b.essential = Some(false);
    assert_eq!(merge_operator_sets(&a, &b).unwrap().essential, Some(true));
    assert_eq!(merge_operator_sets(&b, &a).unwrap().essential, Some(true));
    assert_eq!(merge_operator_sets(&a, &OperatorSet::new()).unwrap().essential, Some(true));
    assert_eq!(merge_operator_sets(&b, &b.copy_set()).unwrap().essential, Some(false));
}

#[test]
fn value_and_add_conflict() {
    let a = with_value(MetadataValue::Array(list(&["a"])));
    let b = with_add(&["b"]);
    assert_eq!(merge_operator_sets(&a, &b), Err(PolicyConflict::ValueAndAdd));
}

#[test]
fn null_value_and_default_conflict() {
    let a = with_value(MetadataValue::Single(Item::Null));
    let mut b = OperatorSet::new();
    b.default = Some(MetadataValue::Single(t("d")));
    assert_eq!(merge_operator_sets(&a, &b), Err(PolicyConflict::ValueAndDefault));
}

#[test]
fn value_outside_one_of_conflicts() {
    let a = with_value(MetadataValue::Single(t("z")));
    assert_eq!(merge_operator_sets(&a, &with_one_of(&["a"])), Err(PolicyConflict::ValueAndOneOf));
}

#[test]
fn value_not_superset_conflicts() {
    let a = with_value(MetadataValue::Array(list(&["a"])));
    assert_eq!(
        merge_operator_sets(&a, &with_superset_of(&["a", "b"])),
        Err(PolicyConflict::ValueAndSupersetOf)
    );
}

#[test]
fn value_outside_subset_of_conflicts() {
    let a = with_value(MetadataValue::Array(list(&["a", "q"])));
    let mut b = OperatorSet::new();
    b.subset_of = Some(list(&["a"]));
    assert_eq!(merge_operator_sets(&a, &b), Err(PolicyConflict::ValueAndSubsetOf));
}

#[test]
fn null_value_and_essential_conflict() {
    let a = with_value(MetadataValue::Single(Item::Null));
    let mut b = OperatorSet::new();
    b.essential = Some(true);
    assert_eq!(merge_operator_sets(&a, &b), Err(PolicyConflict::ValueAndEssential));
}

#[test]
fn add_outside_subset_of_conflicts() {
    let mut b = OperatorSet::new();
    b.subset_of = Some(list(&["a"]));
    assert_eq!(merge_operator_sets(&with_add(&["a", "b"]), &b), Err(PolicyConflict::AddAndSubsetOf));
}

#[test]
fn superset_of_outside_subset_of_conflicts() {
    let mut b = OperatorSet::new();
    b.subset_of = Some(list(&["a"]));
    assert_eq!(
        merge_operator_sets(&with_superset_of(&["a", "b"]), &b),
        Err(PolicyConflict::SubsetOfAndSupersetOf)
    );
}

#[test]
fn parameters_of_one_side_are_copied() {
    let ta = vec![entry("a", with_add(&["1"])), entry("both", with_add(&["x"]))];
    let ia = vec![entry("both", with_add(&["y"])), entry("b", with_one_of(&["2"]))];
    let merged = merge_policies(&ta, &ia).unwrap();
    assert_eq!(
        merged,
        vec![entry("a", with_add(&["1"])), entry("both", with_add(&["x", "y"])), entry("b", with_one_of(&["2"]))]
    );
}

#[test]
fn unknown_operators_of_one_side_kept_of_both_dropped() {
    let mut a = OperatorSet::new();
    a.others = vec![
        OtherOperator { name: "regexp".to_string(), value: MetadataValue::Single(t("^a")) },
        OtherOperator { name: "shared".to_string(), value: MetadataValue::Single(Item::Bool(true)) },
    ];
    let mut b = OperatorSet::new();
    b.others = vec![OtherOperator { name: "shared".to_string(), value: MetadataValue::Single(Item::Bool(false)) }];
    let r = merge_operator_sets(&a, &b).unwrap();
    assert_eq!(
        r.others,
        vec![OtherOperator { name: "regexp".to_string(), value: MetadataValue::Single(t("^a")) }]
    );
}

#[test]
fn one_of_keeps_superior_repeats() {
    let r = merge_operator_sets(&with_one_of(&["a", "a"]), &with_one_of(&["a"])).unwrap();
    assert_eq!(r.one_of, Some(list(&["a", "a"])));
}

#[test]
fn superset_of_keeps_superior_repeats() {
    let r = merge_operator_sets(&with_superset_of(&["a", "a"]), &with_superset_of(&["a", "b", "b"])).unwrap();
    assert_eq!(r.superset_of, Some(list(&["a", "a", "b"])));
}

#[test]
fn essential_true_on_issuer_only_parameter_survives_document_merge() {
    let mut e = OperatorSet::new();
    e.essential = Some(true);
    let ta = vec![entry("a", with_add(&["1"]))];
    let ia = vec![entry("b", e)];
    let merged = merge_policies(&ta, &ia).unwrap();
    assert_eq!(merged[1].name, "b");
    assert_eq!(merged[1].operators.essential, Some(true));
}

use oidfed_metadata_policy::compare::{check_equal, get_hashset_from_only_names};
use oidfed_metadata_policy::merge::merge_policies;
use oidfed_metadata_policy::policy::{MetadataEntry, OperatorSet, PolicyEntry};
use oidfed_metadata_policy::resolve::{
    resolve_absent_value, resolve_metadata_policy, resolve_present_value, PolicyViolation,
};
use oidfed_metadata_policy::value::{Item, MetadataValue};

fn t(x: &str) -> Item {
    Item::Text(format!("\"{}\"", x))
}

fn list(xs: &[&str]) -> Vec<Item> {
    xs.iter().map(|x| t(x)).collect()
}

fn arr(xs: &[&str]) -> MetadataValue {
    MetadataValue::Array(list(xs))
}

fn meta(name: &str, v: MetadataValue) -> MetadataEntry {
    MetadataEntry { name: name.to_string(), value: v }
}

fn pol(name: &str, ops: OperatorSet) -> PolicyEntry {
    PolicyEntry { name: name.to_string(), operators: ops }
}

#[test]
fn end_to_end_resolve_after_merge() {
    let mut ta_ops = OperatorSet::new();
    ta_ops.add = Some(list(&["a", "b"]));
    ta_ops.subset_of = Some(list(&["a", "b", "c"]));
    let mut ia_ops = OperatorSet::new();
    ia_ops.add = Some(list(&["b", "c"]));
    let merged = merge_policies(&vec![pol("grant_types", ta_ops)], &vec![pol("grant_types", ia_ops)]).unwrap();
    let metadata = vec![meta("grant_types", arr(&["a"]))];
    let resolved = resolve_metadata_policy(&merged, &metadata).unwrap();
    assert_eq!(resolved, vec![meta("grant_types", arr(&["a", "b", "c"]))]);
}

#[test]
fn value_takes_precedence_over_metadata_and_operators() {
    let mut p = OperatorSet::new();
    p.value = Some(arr(&["v"]));
    p.add = Some(list(&["w"]));
    p.one_of = Some(list(&["q"]));
    assert_eq!(resolve_present_value(&p, &MetadataValue::Single(t("z"))), Ok(Some(arr(&["v"]))));
    assert_eq!(resolve_absent_value(&p), Ok(Some(arr(&["v"]))));
}

#[test]
fn null_value_removes_parameter() {
    let mut p = OperatorSet::new();
    p.value = Some(MetadataValue::Single(Item::Null));
    let policy = vec![pol("gone", p.copy_set()), pol("absent", p)];
    let metadata = vec![meta("gone", arr(&["x"])), meta("kept", MetadataValue::Single(Item::Bool(true)))];
    let resolved = resolve_metadata_policy(&policy, &metadata).unwrap();
    assert_eq!(resolved, vec![meta("kept", MetadataValue::Single(Item::Bool(true)))]);
}

#[test]
fn one_of_member_is_kept() {
    let mut p = OperatorSet::new();
    p.one_of = Some(list(&["x", "y"]));
    assert_eq!(resolve_present_value(&p, &MetadataValue::Single(t("y"))), Ok(Some(MetadataValue::Single(t("y")))));
}

#[test]
fn one_of_non_member_fails() {
    let mut p = OperatorSet::new();
    p.one_of = Some(list(&["x", "y"]));
    assert_eq!(resolve_present_value(&p, &MetadataValue::Single(t("z"))), Err(PolicyViolation::NotInOneOf));
}

#[test]
fn add_appends_new_items_after_metadata() {
    let mut p = OperatorSet::new();
    p.add = Some(list(&["b", "c", "c"]));
    assert_eq!(resolve_present_value(&p, &arr(&["c", "a"])), Ok(Some(arr(&["c", "a", "b"]))));
}

#[test]
fn default_leaves_supplied_value() {
    let mut p = OperatorSet::new();
    p.default = Some(arr(&["d"]));
    assert_eq!(resolve_present_value(&p, &arr(&["m"])), Ok(Some(arr(&["m"]))));
}

#[test]
fn subset_of_narrows_supplied_value() {
    let mut p = OperatorSet::new();
    p.subset_of = Some(list(&["a", "c"]));
    assert_eq!(resolve_present_value(&p, &arr(&["c", "b", "a"])), Ok(Some(arr(&["c", "a"]))));
    assert_eq!(resolve_present_value(&p, &arr(&["b"])), Ok(Some(arr(&[]))));
}

#[test]
fn superset_of_unmet_by_metadata_fails() {
    let mut p = OperatorSet::new();
    p.superset_of = Some(list(&["a", "b"]));
    assert_eq!(resolve_present_value(&p, &arr(&["a"])), Err(PolicyViolation::SupersetOfFailed));
    assert_eq!(resolve_present_value(&p, &arr(&["b", "a", "c"])), Ok(Some(arr(&["b", "a", "c"]))));
}

#[test]
fn absent_parameter_takes_add_then_default() {
    let mut p = OperatorSet::new();
    p.add = Some(list(&["a"]));
    p.default = Some(arr(&["d"]));
    assert_eq!(resolve_absent_value(&p), Ok(Some(arr(&["a"]))));
    let mut q = OperatorSet::new();
    q.default = Some(MetadataValue::Single(t("d")));
    assert_eq!(resolve_absent_value(&q), Ok(Some(MetadataValue::Single(t("d")))));
}

#[test]
fn absent_parameter_narrowed_by_subset_of() {
    let mut p = OperatorSet::new();
    p.default = Some(arr(&["a", "b", "c"]));
    p.subset_of = Some(list(&["c", "a"]));
    assert_eq!(resolve_absent_value(&p), Ok(Some(arr(&["a", "c"]))));
}

#[test]
fn absent_parameter_not_superset_fails() {
    let mut p = OperatorSet::new();
    p.add = Some(list(&["a"]));
    p.superset_of = Some(list(&["a", "b"]));
    assert_eq!(resolve_absent_value(&p), Err(PolicyViolation::SynthesizedNotSuperset));
}

#[test]
fn absent_parameter_subset_of_alone_passes_superset_check() {
    let mut p = OperatorSet::new();
    p.subset_of = Some(list(&["a"]));
    p.superset_of = Some(list(&["b"]));
    assert_eq!(resolve_absent_value(&p), Ok(None));
}

#[test]
fn absent_essential_with_empty_subset_fails() {
    let mut p = OperatorSet::new();
    p.subset_of = Some(list(&["a"]));
    p.essential = Some(true);
    assert_eq!(resolve_absent_value(&p), Err(PolicyViolation::EssentialEmptySubset));
}

#[test]
fn absent_essential_without_value_fails() {
    let mut p = OperatorSet::new();
    p.essential = Some(true);
    assert_eq!(resolve_absent_value(&p), Err(PolicyViolation::EssentialMissing));
    p.essential = Some(false);
    assert_eq!(resolve_absent_value(&p), Ok(None));
}

#[test]
fn supplied_parameter_without_policy_is_copied() {
    let policy = vec![];
    let metadata = vec![meta("a", arr(&["x"]))];
    assert_eq!(resolve_metadata_policy(&policy, &metadata), Ok(vec![meta("a", arr(&["x"]))]));
}

#[test]
fn resolution_stops_at_first_violation() {
    let mut p = OperatorSet::new();
    p.one_of = Some(list(&["x"]));
    let mut q = OperatorSet::new();
    q.essential = Some(true);
    let policy = vec![pol("a", p), pol("b", q)];
    let metadata = vec![meta("a", MetadataValue::Single(t("y")))];
    assert_eq!(resolve_metadata_policy(&policy, &metadata), Err(PolicyViolation::NotInOneOf));
}

#[test]
fn check_equal_ignores_order_and_repeats() {
    let a = vec![meta("x", arr(&["a", "b", "a"])), meta("y", MetadataValue::Single(t("s")))];
    let b = vec![meta("y", arr(&["s"])), meta("x", arr(&["b", "a"]))];
    assert!(check_equal(&a, &b));
    let c = vec![meta("y", arr(&["s"])), meta("x", arr(&["b"]))];
    assert!(!check_equal(&a, &c));
    let d = vec![meta("x", arr(&["a", "b"]))];
    assert!(!check_equal(&a, &d));
    assert!(!check_equal(&d, &a));
}

#[test]
fn names_listed_once() {
    let a = vec![meta("x", arr(&[])), meta("y", arr(&[])), meta("x", arr(&["1"]))];
    assert_eq!(get_hashset_from_only_names(&a), vec!["x".to_string(), "y".to_string()]);
}

#[test]
fn value_in_resolved_document_whether_supplied_or_not() {
    let mut p = OperatorSet::new();
    p.value = Some(MetadataValue::Single(t("fixed")));
    p.default = Some(MetadataValue::Single(t("other")));
    let policy = vec![pol("given", p.copy_set()), pol("missing", p)];
    let metadata = vec![meta("given", arr(&["mine"]))];
    let resolved = oidfed_metadata_policy::resolve_metadata_policy(&policy, &metadata).unwrap();
    assert_eq!(
        resolved,
        vec![meta("given", MetadataValue::Single(t("fixed"))), meta("missing", MetadataValue::Single(t("fixed")))]
    );
}

#[test]
fn one_of_accepts_array_equal_to_member() {
    let mut p = OperatorSet::new();
    p.one_of = Some(vec![Item::Text("[\"a\",null,true,1]".to_string()), t("b")]);
    let m = MetadataValue::Array(vec![t("a"), Item::Null, Item::Bool(true), Item::Text("1".to_string())]);
    assert_eq!(resolve_present_value(&p, &m), Ok(Some(m.copy_value())));
    let other = MetadataValue::Array(vec![t("a")]);
    assert_eq!(resolve_present_value(&p, &other), Err(PolicyViolation::NotInOneOf));
}

#[test]
fn check_equal_is_reflexive_on_distinct_names() {
    let a = vec![meta("x", arr(&["a", "b"])), meta("y", MetadataValue::Single(Item::Null))];
    assert!(check_equal(&a, &a));
}

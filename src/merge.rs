use vstd::prelude::*;

use crate::policy::{
    copy_opt_items, copy_opt_value, find_entry, find_policy_entry, lemma_find_entry,
    opt_items_view, opt_value_view, others_view, policy_view, OperatorSet, OperatorSetView,
    OtherOperator, PolicyEntry,
};
use crate::sets::{
    concat_items, get_ordered_array, intersect_items, intersection, items_subset, ordered_merge, ordered_union,
    subset, union_items,
};
use crate::value::{items_of, is_null, Item, ItemView, MetadataValue, ValueView};

verus! {

/// Why two policies cannot be merged.
#[derive(Debug, Clone, Copy, PartialEq, Eq, Structural)]
pub enum PolicyConflict {
    /// Both sides give `value`, and the two differ.
    ValueMismatch,
    /// Both sides give `default`, and the two differ.
    DefaultMismatch,
    /// The superior's `one_of` is empty.
    EmptyOneOfSuperior,
    /// The issuer's `one_of` is empty.
    EmptyOneOfIssuer,
    /// The issuer's `one_of` holds an item that the superior's does not.
    OneOfExtraItems,
    /// The superior's `superset_of` holds an item that the issuer's does not.
    SupersetOfExtraItems,
    /// `add` holds an item that `value` does not.
    ValueAndAdd,
    /// `default` beside a null `value`.
    ValueAndDefault,
    /// `value` holds an item that `one_of` does not.
    ValueAndOneOf,
    /// `superset_of` holds an item that `value` does not.
    ValueAndSupersetOf,
    /// `value` holds an item that `subset_of` does not.
    ValueAndSubsetOf,
    /// `essential` is true beside a null `value`.
    ValueAndEssential,
    /// `add` holds an item that `subset_of` does not.
    AddAndSubsetOf,
    /// `superset_of` holds an item that `subset_of` does not.
    SubsetOfAndSupersetOf,
}

/// `value` and `default`: both sides must agree.
pub open spec fn merge_exact(ta: Option<ValueView>, ia: Option<ValueView>, e: PolicyConflict) -> Result<
    Option<ValueView>,
    PolicyConflict,
> {
    match (ta, ia) {
        (Some(a), Some(b)) => if a == b {
            Ok(Some(a))
        } else {
            Err(e)
        },
        (Some(a), None) => Ok(Some(a)),
        (None, b) => Ok(b),
    }
}

pub open spec fn merge_add(ta: Option<Seq<ItemView>>, ia: Option<Seq<ItemView>>) -> Option<
    Seq<ItemView>,
> {
    match (ta, ia) {
        (Some(a), Some(b)) => Some(ordered_union(a, b)),
        (Some(a), None) => Some(a),
        (None, b) => b,
    }
}

pub open spec fn merge_one_of(ta: Option<Seq<ItemView>>, ia: Option<Seq<ItemView>>) -> Result<
    Option<Seq<ItemView>>,
    PolicyConflict,
> {
    match (ta, ia) {
        (Some(a), Some(b)) => if a.len() == 0 {
            Err(PolicyConflict::EmptyOneOfSuperior)
        } else if b.len() == 0 {
            Err(PolicyConflict::EmptyOneOfIssuer)
        } else if !subset(b, a) {
            Err(PolicyConflict::OneOfExtraItems)
        } else {
            Ok(Some(ordered_merge(a, b, intersection(a, b))))
        },
        (Some(a), None) => Ok(Some(a)),
        (None, b) => Ok(b),
    }
}

pub open spec fn merge_subset_of(ta: Option<Seq<ItemView>>, ia: Option<Seq<ItemView>>) -> Option<
    Seq<ItemView>,
> {
    match (ta, ia) {
        (Some(a), Some(b)) => Some(intersection(a, b)),
        (Some(a), None) => Some(a),
        (None, b) => b,
    }
}

pub open spec fn merge_superset_of(ta: Option<Seq<ItemView>>, ia: Option<Seq<ItemView>>) -> Result<
    Option<Seq<ItemView>>,
    PolicyConflict,
> {
    match (ta, ia) {
        (Some(a), Some(b)) => if !subset(a, b) {
            Err(PolicyConflict::SupersetOfExtraItems)
        } else {
            Ok(Some(ordered_merge(a, b, a + b)))
        },
        (Some(a), None) => Ok(Some(a)),
        (None, b) => Ok(b),
    }
}

pub open spec fn merge_essential(ta: Option<bool>, ia: Option<bool>) -> Option<bool> {
    match (ta, ia) {
        (Some(a), Some(b)) => Some(a || b),
        (Some(a), None) => Some(a),
        (None, b) => b,
    }
}

pub open spec fn has_name(s: Seq<(Seq<char>, ValueView)>, name: Seq<char>) -> bool {
    exists|i: int| 0 <= i < s.len() && s[i].0 == name
}

/// The operators of `xs` whose names `ys` does not use, in order.
pub open spec fn unmatched(xs: Seq<(Seq<char>, ValueView)>, ys: Seq<(Seq<char>, ValueView)>) -> Seq<
    (Seq<char>, ValueView),
>
    decreases xs.len(),
{
    if xs.len() == 0 {
        xs
    } else {
        let prev = unmatched(xs.drop_last(), ys);
        if has_name(ys, xs.last().0) {
            prev
        } else {
            prev.push(xs.last())
        }
    }
}

/// Uninterpreted operators: those of one side only are kept, those of both dropped.
pub open spec fn merge_others(ta: Seq<(Seq<char>, ValueView)>, ia: Seq<(Seq<char>, ValueView)>) -> Seq<
    (Seq<char>, ValueView),
> {
    unmatched(ta, ia) + unmatched(ia, ta)
}

/// The operator-by-operator combination of two operator sets.
pub open spec fn combine_operators(ta: OperatorSetView, ia: OperatorSetView) -> Result<
    OperatorSetView,
    PolicyConflict,
> {
    match merge_exact(ta.value, ia.value, PolicyConflict::ValueMismatch) {
        Err(e) => Err(e),
        Ok(value) => match merge_exact(ta.default, ia.default, PolicyConflict::DefaultMismatch) {
            Err(e) => Err(e),
            Ok(default) => match merge_one_of(ta.one_of, ia.one_of) {
                Err(e) => Err(e),
                Ok(one_of) => match merge_superset_of(ta.superset_of, ia.superset_of) {
                    Err(e) => Err(e),
                    Ok(superset_of) => Ok(
                        OperatorSetView {
                            value,
                            default,
                            add: merge_add(ta.add, ia.add),
                            one_of,
                            subset_of: merge_subset_of(ta.subset_of, ia.subset_of),
                            superset_of,
                            essential: merge_essential(ta.essential, ia.essential),
                            others: merge_others(ta.others, ia.others),
                        },
                    ),
                },
            },
        },
    }
}

/// The first legality rule that `value` and another operator of `m` break.
pub open spec fn value_violation(m: OperatorSetView) -> Option<PolicyConflict> {
    match m.value {
        None => None,
        Some(v) => {
            let vi = items_of(v);
            if m.add is Some && !subset(m.add.unwrap(), vi) {
                Some(PolicyConflict::ValueAndAdd)
            } else if m.default is Some && is_null(v) {
                Some(PolicyConflict::ValueAndDefault)
            } else if m.one_of is Some && !subset(vi, m.one_of.unwrap()) {
                Some(PolicyConflict::ValueAndOneOf)
            } else if m.superset_of is Some && !subset(m.superset_of.unwrap(), vi) {
                Some(PolicyConflict::ValueAndSupersetOf)
            } else if m.subset_of is Some && !subset(vi, m.subset_of.unwrap()) {
                Some(PolicyConflict::ValueAndSubsetOf)
            } else if m.essential == Some(true) && is_null(v) {
                Some(PolicyConflict::ValueAndEssential)
            } else {
                None
            }
        },
    }
}

/// The first legality rule between operators that `m` breaks, if any.
pub open spec fn violation(m: OperatorSetView) -> Option<PolicyConflict> {
    if value_violation(m) is Some {
        value_violation(m)
    } else if m.add is Some && m.subset_of is Some && !subset(
        m.add.unwrap(),
        m.subset_of.unwrap(),
    ) {
        Some(PolicyConflict::AddAndSubsetOf)
    } else if m.subset_of is Some && m.superset_of is Some && !subset(
        m.superset_of.unwrap(),
        m.subset_of.unwrap(),
    ) {
        Some(PolicyConflict::SubsetOfAndSupersetOf)
    } else {
        None
    }
}

/// The merge of the operators that a superior (`ta`) and an issuer (`ia`)
/// attach to one parameter.
pub open spec fn merge_operators(ta: OperatorSetView, ia: OperatorSetView) -> Result<
    OperatorSetView,
    PolicyConflict,
> {
    match combine_operators(ta, ia) {
        Err(e) => Err(e),
        Ok(m) => match violation(m) {
            Some(e) => Err(e),
            None => Ok(m),
        },
    }
}

fn merge_exact_values(
    ta: &Option<MetadataValue>,
    ia: &Option<MetadataValue>,
    e: PolicyConflict,
) -> (r: Result<Option<MetadataValue>, PolicyConflict>)
    ensures
        match r {
            Ok(v) => merge_exact(opt_value_view(*ta), opt_value_view(*ia), e) == Ok::<
                Option<ValueView>,
                PolicyConflict,
            >(opt_value_view(v)),
            Err(x) => merge_exact(opt_value_view(*ta), opt_value_view(*ia), e) == Err::<
                Option<ValueView>,
                PolicyConflict,
            >(x),
        },
{
    match (ta, ia) {
        (Some(a), Some(b)) => {
            if a.same_as(b) {
                Ok(Some(a.copy_value()))
            } else {
                Err(e)
            }
        },
        (Some(a), None) => Ok(Some(a.copy_value())),
        (None, b) => Ok(copy_opt_value(b)),
    }
}

fn merge_add_items(ta: &Option<Vec<Item>>, ia: &Option<Vec<Item>>) -> (r: Option<Vec<Item>>)
    ensures
        opt_items_view(r) == merge_add(opt_items_view(*ta), opt_items_view(*ia)),
{
    match (ta, ia) {
        (Some(a), Some(b)) => Some(union_items(a, b)),
        (Some(a), None) => Some(crate::value::copy_items(a)),
        (None, b) => copy_opt_items(b),
    }
}

fn merge_one_of_items(ta: &Option<Vec<Item>>, ia: &Option<Vec<Item>>) -> (r: Result<
    Option<Vec<Item>>,
    PolicyConflict,
>)
    ensures
        match r {
            Ok(v) => merge_one_of(opt_items_view(*ta), opt_items_view(*ia)) == Ok::<
                Option<Seq<ItemView>>,
                PolicyConflict,
            >(opt_items_view(v)),
            Err(x) => merge_one_of(opt_items_view(*ta), opt_items_view(*ia)) == Err::<
                Option<Seq<ItemView>>,
                PolicyConflict,
            >(x),
        },
{
    match (ta, ia) {
        (Some(a), Some(b)) => {
            if a.len() == 0 {
                Err(PolicyConflict::EmptyOneOfSuperior)
            } else if b.len() == 0 {
                Err(PolicyConflict::EmptyOneOfIssuer)
            } else if !items_subset(b, a) {
                Err(PolicyConflict::OneOfExtraItems)
            } else {
                let common = intersect_items(a, b);
                Ok(Some(get_ordered_array(a, b, &common)))
            }
        },
        (Some(a), None) => Ok(Some(crate::value::copy_items(a))),
        (None, b) => Ok(copy_opt_items(b)),
    }
}

fn merge_subset_of_items(ta: &Option<Vec<Item>>, ia: &Option<Vec<Item>>) -> (r: Option<Vec<Item>>)
    ensures
        opt_items_view(r) == merge_subset_of(opt_items_view(*ta), opt_items_view(*ia)),
{
    match (ta, ia) {
        (Some(a), Some(b)) => Some(intersect_items(a, b)),
        (Some(a), None) => Some(crate::value::copy_items(a)),
        (None, b) => copy_opt_items(b),
    }
}

fn merge_superset_of_items(ta: &Option<Vec<Item>>, ia: &Option<Vec<Item>>) -> (r: Result<
    Option<Vec<Item>>,
    PolicyConflict,
>)
    ensures
        match r {
            Ok(v) => merge_superset_of(opt_items_view(*ta), opt_items_view(*ia)) == Ok::<
                Option<Seq<ItemView>>,
                PolicyConflict,
            >(opt_items_view(v)),
            Err(x) => merge_superset_of(opt_items_view(*ta), opt_items_view(*ia)) == Err::<
                Option<Seq<ItemView>>,
                PolicyConflict,
            >(x),
        },
{
    match (ta, ia) {
        (Some(a), Some(b)) => {
            if !items_subset(a, b) {
                Err(PolicyConflict::SupersetOfExtraItems)
            } else {
                let all = concat_items(a, b);
                Ok(Some(get_ordered_array(a, b, &all)))
            }
        },
        (Some(a), None) => Ok(Some(crate::value::copy_items(a))),
        (None, b) => Ok(copy_opt_items(b)),
    }
}

fn has_other(v: &Vec<OtherOperator>, name: &String) -> (r: bool)
    ensures
        r == has_name(others_view(v@), name@),
{
    let mut i: usize = 0;
    while i < v.len()
        invariant
            0 <= i <= v.len(),
            forall|j: int| 0 <= j < i ==> #[trigger] others_view(v@)[j].0 != name@,
        decreases v.len() - i,
    {
        if v[i].name.eq(name) {
            proof {
                assert(others_view(v@)[i as int].0 == name@);
            }
            return true;
        }
        proof {
            assert(others_view(v@)[i as int].0 != name@);
        }
        i += 1;
    }
    false
}

/// Appends to `out` the operators of `xs` whose names `ys` does not use.
fn unmatched_into(out: &mut Vec<OtherOperator>, xs: &Vec<OtherOperator>, ys: &Vec<OtherOperator>)
    ensures
        others_view(final(out)@) == others_view(old(out)@) + unmatched(
            others_view(xs@),
            others_view(ys@),
        ),
{
    let ghost acc = others_view(out@);
    let mut i: usize = 0;
    proof {
        assert(acc + unmatched(others_view(xs@).take(0), others_view(ys@)) =~= acc);
    }
    while i < xs.len()
        invariant
            0 <= i <= xs.len(),
            others_view(out@) == acc + unmatched(others_view(xs@).take(i as int), others_view(ys@)),
        decreases xs.len() - i,
    {
        proof {
            assert(others_view(xs@).take(i + 1).drop_last() =~= others_view(xs@).take(i as int));
        }
        if !has_other(ys, &xs[i].name) {
            let ghost before = out@;
            out.push(xs[i].copy_operator());
            proof {
                let p = unmatched(others_view(xs@).take(i as int), others_view(ys@));
                assert(others_view(out@) =~= others_view(before).push(xs@[i as int]@));
                assert((acc + p).push(xs@[i as int]@) =~= acc + p.push(xs@[i as int]@));
            }
        }
        i += 1;
    }
    proof {
        assert(others_view(xs@).take(xs.len() as int) =~= others_view(xs@));
    }
}

fn merge_other_operators(ta: &Vec<OtherOperator>, ia: &Vec<OtherOperator>) -> (r: Vec<
    OtherOperator,
>)
    ensures
        others_view(r@) == merge_others(others_view(ta@), others_view(ia@)),
{
    let mut r: Vec<OtherOperator> = Vec::new();
    proof {
        assert(others_view(r@) =~= Seq::<(Seq<char>, ValueView)>::empty());
    }
    unmatched_into(&mut r, ta, ia);
    unmatched_into(&mut r, ia, ta);
    proof {
        let e = Seq::<(Seq<char>, ValueView)>::empty();
        assert(e + unmatched(others_view(ta@), others_view(ia@)) =~= unmatched(
            others_view(ta@),
            others_view(ia@),
        ));
    }
    r
}

/// The first legality rule between the operators of `m` that it breaks.
pub fn find_violation(m: &OperatorSet) -> (r: Option<PolicyConflict>)
    ensures
        r == violation(m@),
{
    if let Some(v) = &m.value {
        let vi = v.items();
        if let Some(add) = &m.add {
            if !items_subset(add, &vi) {
                return Some(PolicyConflict::ValueAndAdd);
            }
        }
        if m.default.is_some() && v.is_null() {
            return Some(PolicyConflict::ValueAndDefault);
        }
        if let Some(one_of) = &m.one_of {
            if !items_subset(&vi, one_of) {
                return Some(PolicyConflict::ValueAndOneOf);
            }
        }
        if let Some(superset_of) = &m.superset_of {
            if !items_subset(superset_of, &vi) {
                return Some(PolicyConflict::ValueAndSupersetOf);
            }
        }
        if let Some(subset_of) = &m.subset_of {
            if !items_subset(&vi, subset_of) {
                return Some(PolicyConflict::ValueAndSubsetOf);
            }
        }
        if m.essential == Some(true) && v.is_null() {
            return Some(PolicyConflict::ValueAndEssential);
        }
    }
    if let (Some(add), Some(subset_of)) = (&m.add, &m.subset_of) {
        if !items_subset(add, subset_of) {
            return Some(PolicyConflict::AddAndSubsetOf);
        }
    }
    if let (Some(subset_of), Some(superset_of)) = (&m.subset_of, &m.superset_of) {
        if !items_subset(superset_of, subset_of) {
            return Some(PolicyConflict::SubsetOfAndSupersetOf);
        }
    }
    None
}

/// Merges the operators that a superior (`ta`) and an issuer (`ia`) attach
/// to one parameter, and checks the legality rules on the result.
pub fn merge_operator_sets(ta: &OperatorSet, ia: &OperatorSet) -> (r: Result<
    OperatorSet,
    PolicyConflict,
>)
    ensures
        match r {
            Ok(m) => merge_operators(ta@, ia@) == Ok::<OperatorSetView, PolicyConflict>(m@),
            Err(e) => merge_operators(ta@, ia@) == Err::<OperatorSetView, PolicyConflict>(e),
        },
{
    let value = merge_exact_values(&ta.value, &ia.value, PolicyConflict::ValueMismatch)?;
    let default = merge_exact_values(&ta.default, &ia.default, PolicyConflict::DefaultMismatch)?;
    let one_of = merge_one_of_items(&ta.one_of, &ia.one_of)?;
    let superset_of = merge_superset_of_items(&ta.superset_of, &ia.superset_of)?;
    let essential = match (ta.essential, ia.essential) {
        (Some(a), Some(b)) => Some(a || b),
        (Some(a), None) => Some(a),
        (None, b) => b,
    };
    let m = OperatorSet {
        value,
        default,
        add: merge_add_items(&ta.add, &ia.add),
        one_of,
        subset_of: merge_subset_of_items(&ta.subset_of, &ia.subset_of),
        superset_of,
        essential,
        others: merge_other_operators(&ta.others, &ia.others),
    };
    match find_violation(&m) {
        Some(e) => Err(e),
        None => Ok(m),
    }
}

/// The superior's parameters in its order: each one the issuer also names is
/// merged, each other one copied; this stops at the first conflict.
pub open spec fn merge_superior_prefix(
    ta: Seq<(Seq<char>, OperatorSetView)>,
    ia: Seq<(Seq<char>, OperatorSetView)>,
    n: nat,
) -> Result<Seq<(Seq<char>, OperatorSetView)>, PolicyConflict>
    decreases n,
{
    if n == 0 {
        Ok(Seq::empty())
    } else {
        match merge_superior_prefix(ta, ia, (n - 1) as nat) {
            Err(e) => Err(e),
            Ok(acc) => {
                let entry = ta[n - 1];
                let k = find_entry(ia, entry.0);
                if k < 0 {
                    Ok(acc.push(entry))
                } else {
                    match merge_operators(entry.1, ia[k].1) {
                        Err(e) => Err(e),
                        Ok(m) => Ok(acc.push((entry.0, m))),
                    }
                }
            },
        }
    }
}

/// The first `n` parameters of the issuer that the superior does not name.
pub open spec fn issuer_only(
    ta: Seq<(Seq<char>, OperatorSetView)>,
    ia: Seq<(Seq<char>, OperatorSetView)>,
    n: nat,
) -> Seq<(Seq<char>, OperatorSetView)>
    decreases n,
{
    if n == 0 {
        Seq::empty()
    } else {
        let prev = issuer_only(ta, ia, (n - 1) as nat);
        if find_entry(ta, ia[n - 1].0) < 0 {
            prev.push(ia[n - 1])
        } else {
            prev
        }
    }
}

/// The merge of a superior's policy document with an issuer's: the
/// superior's parameters first (merged where the issuer names them too),
/// then those that only the issuer names.
pub open spec fn merge_documents(
    ta: Seq<(Seq<char>, OperatorSetView)>,
    ia: Seq<(Seq<char>, OperatorSetView)>,
) -> Result<Seq<(Seq<char>, OperatorSetView)>, PolicyConflict> {
    match merge_superior_prefix(ta, ia, ta.len()) {
        Err(e) => Err(e),
        Ok(s) => Ok(s + issuer_only(ta, ia, ia.len())),
    }
}

proof fn lemma_prefix_error_stays(
    ta: Seq<(Seq<char>, OperatorSetView)>,
    ia: Seq<(Seq<char>, OperatorSetView)>,
    k: nat,
    n: nat,
    e: PolicyConflict,
)
    requires
        k <= n,
        merge_superior_prefix(ta, ia, k) == Err::<Seq<(Seq<char>, OperatorSetView)>, PolicyConflict>(
            e,
        ),
    ensures
        merge_superior_prefix(ta, ia, n) == Err::<Seq<(Seq<char>, OperatorSetView)>, PolicyConflict>(
            e,
        ),
    decreases n - k,
{
    if k < n {
        lemma_prefix_error_stays(ta, ia, k, (n - 1) as nat, e);
    }
}

/// Merges the policy document of a superior authority (`ta_policies_in`)
/// with that of an immediate issuer (`ia_policies_in`).
pub fn merge_policies(ta_policies_in: &Vec<PolicyEntry>, ia_policies_in: &Vec<PolicyEntry>) -> (r:
    Result<Vec<PolicyEntry>, PolicyConflict>)
    ensures
        match r {
            Ok(m) => merge_documents(policy_view(ta_policies_in@), policy_view(ia_policies_in@))
                == Ok::<Seq<(Seq<char>, OperatorSetView)>, PolicyConflict>(policy_view(m@)),
            Err(e) => merge_documents(policy_view(ta_policies_in@), policy_view(ia_policies_in@))
                == Err::<Seq<(Seq<char>, OperatorSetView)>, PolicyConflict>(e),
        },
{
    let ghost tv = policy_view(ta_policies_in@);
    let ghost iv = policy_view(ia_policies_in@);
    let mut merged: Vec<PolicyEntry> = Vec::new();
    let mut i: usize = 0;
    proof {
        assert(policy_view(merged@) =~= Seq::<(Seq<char>, OperatorSetView)>::empty());
    }
    while i < ta_policies_in.len()
        invariant
            0 <= i <= ta_policies_in.len(),
            tv == policy_view(ta_policies_in@),
            iv == policy_view(ia_policies_in@),
            merge_superior_prefix(tv, iv, i as nat) == Ok::<
                Seq<(Seq<char>, OperatorSetView)>,
                PolicyConflict,
            >(policy_view(merged@)),
        decreases ta_policies_in.len() - i,
    {
        let entry = &ta_policies_in[i];
        let ghost before = merged@;
        match find_policy_entry(ia_policies_in, &entry.name) {
            None => {
                merged.push(entry.copy_entry());
                proof {
                    assert(policy_view(merged@) =~= policy_view(before).push(tv[i as int]));
                }
            },
            Some(k) => {
                proof {
                    lemma_find_entry(iv, entry.name@);
                }
                match merge_operator_sets(&entry.operators, &ia_policies_in[k].operators) {
                    Err(e) => {
                        proof {
                            lemma_prefix_error_stays(tv, iv, (i + 1) as nat, tv.len(), e);
                        }
                        return Err(e);
                    },
                    Ok(m) => {
                        merged.push(PolicyEntry { name: entry.name.clone(), operators: m });
                        proof {
                            assert(policy_view(merged@) =~= policy_view(before).push(
                                (tv[i as int].0, merged@.last().operators@),
                            ));
                        }
                    },
                }
            },
        }
        i += 1;
    }
    let ghost head = policy_view(merged@);
    let mut j: usize = 0;
    proof {
        assert(head + issuer_only(tv, iv, 0) =~= head);
    }
    while j < ia_policies_in.len()
        invariant
            0 <= j <= ia_policies_in.len(),
            tv == policy_view(ta_policies_in@),
            iv == policy_view(ia_policies_in@),
            policy_view(merged@) == head + issuer_only(tv, iv, j as nat),
        decreases ia_policies_in.len() - j,
    {
        let entry = &ia_policies_in[j];
        if find_policy_entry(ta_policies_in, &entry.name).is_none() {
            let ghost before = merged@;
            merged.push(entry.copy_entry());
            proof {
                let p = issuer_only(tv, iv, j as nat);
                assert(policy_view(merged@) =~= policy_view(before).push(iv[j as int]));
                assert((head + p).push(iv[j as int]) =~= head + p.push(iv[j as int]));
            }
        }
        j += 1;
    }
    Ok(merged)
}

} // verus!

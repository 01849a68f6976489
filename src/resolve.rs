use vstd::prelude::*;

use crate::policy::{
    find_entry, find_metadata_entry, find_policy_entry, lemma_find_entry, metadata_view,
    policy_view, MetadataEntry, OperatorSet, OperatorSetView, PolicyEntry,
};
use crate::sets::{intersect_items, intersection, items_subset, keep_first, keep_first_into, subset};
use crate::value::{array_text, array_text_of, copy_items, items_of, is_null, Item, ItemView, MetadataValue, ValueView};

verus! {

/// Why metadata cannot satisfy a policy.
#[derive(Debug, Clone, Copy, PartialEq, Eq, Structural)]
pub enum PolicyViolation {
    /// The metadata value is not one of the `one_of` items.
    NotInOneOf,
    /// The metadata value lacks an item of `superset_of`.
    SupersetOfFailed,
    /// The value made from `add` or `default` lacks an item of `superset_of`.
    SynthesizedNotSuperset,
    /// `essential` is true, and `subset_of` left nothing to use.
    EssentialEmptySubset,
    /// `essential` is true, and there is neither metadata nor a value to make.
    EssentialMissing,
}

/// Whether a metadata value is one of the items of a `one_of` list; an
/// array is compared by its compact JSON text.
pub open spec fn in_one_of(m: ValueView, o: Seq<ItemView>) -> bool {
    match m {
        ValueView::Single(i) => o.contains(i),
        ValueView::Array(s) => o.contains(ItemView::Text(array_text(s))),
    }
}

/// What `value` makes of a parameter: a null `value` removes it.
pub open spec fn from_value(v: ValueView) -> Option<ValueView> {
    if is_null(v) {
        None
    } else {
        Some(v)
    }
}

/// The metadata's items, then those of `add` not among them.
pub open spec fn with_added(p: OperatorSetView, m: ValueView) -> ValueView {
    match p.add {
        Some(a) => ValueView::Array(keep_first(items_of(m), a, a)),
        None => m,
    }
}

/// A working value narrowed to the items of `subset_of`, where there is one.
pub open spec fn narrowed(p: OperatorSetView, w: ValueView) -> ValueView {
    match p.subset_of {
        Some(s) => ValueView::Array(intersection(items_of(w), s)),
        None => w,
    }
}

/// The final value of a parameter that the metadata supplies as `m`
/// (`None`: the parameter is left out).
pub open spec fn resolve_present(p: OperatorSetView, m: ValueView) -> Result<
    Option<ValueView>,
    PolicyViolation,
> {
    match p.value {
        Some(v) => Ok(from_value(v)),
        None => match p.one_of {
            Some(o) => if in_one_of(m, o) {
                Ok(Some(m))
            } else {
                Err(PolicyViolation::NotInOneOf)
            },
            None => {
                let w = narrowed(p, with_added(p, m));
                match p.superset_of {
                    Some(s) => if subset(s, items_of(w)) {
                        Ok(Some(w))
                    } else {
                        Err(PolicyViolation::SupersetOfFailed)
                    },
                    None => Ok(Some(w)),
                }
            },
        },
    }
}

/// The value that `add`, or else `default`, supplies.
pub open spec fn synthesized(p: OperatorSetView) -> Option<ValueView> {
    match p.add {
        Some(a) => Some(ValueView::Array(a)),
        None => p.default,
    }
}

/// The synthesized value narrowed by `subset_of`.
pub open spec fn synthesized_narrowed(p: OperatorSetView) -> Option<ValueView> {
    match (p.subset_of, synthesized(p)) {
        (Some(b), Some(x)) => Some(ValueView::Array(intersection(items_of(x), b))),
        _ => synthesized(p),
    }
}

/// The final value of a parameter that the policy names and the metadata
/// does not (`None`: the parameter stays absent).
pub open spec fn resolve_absent(p: OperatorSetView) -> Result<Option<ValueView>, PolicyViolation> {
    match p.value {
        Some(v) => Ok(from_value(v)),
        None => {
            let s = synthesized_narrowed(p);
            let empty_subset = p.subset_of is Some && synthesized(p) is None;
            if p.superset_of is Some && s is Some && !subset(
                p.superset_of.unwrap(),
                items_of(s.unwrap()),
            ) {
                Err(PolicyViolation::SynthesizedNotSuperset)
            } else if p.essential == Some(true) && empty_subset {
                Err(PolicyViolation::EssentialEmptySubset)
            } else if p.essential == Some(true) && synthesized(p) is None {
                Err(PolicyViolation::EssentialMissing)
            } else {
                Ok(s)
            }
        },
    }
}

/// Applies the operators `p` to the value `m` that the metadata supplies.
pub fn resolve_present_value(p: &OperatorSet, m: &MetadataValue) -> (r: Result<
    Option<MetadataValue>,
    PolicyViolation,
>)
    ensures
        match r {
            Ok(Some(v)) => resolve_present(p@, m@) == Ok::<Option<ValueView>, PolicyViolation>(
                Some(v@),
            ),
            Ok(None) => resolve_present(p@, m@) == Ok::<Option<ValueView>, PolicyViolation>(None),
            Err(e) => resolve_present(p@, m@) == Err::<Option<ValueView>, PolicyViolation>(e),
        },
{
    if let Some(v) = &p.value {
        if v.is_null() {
            return Ok(None);
        }
        return Ok(Some(v.copy_value()));
    }
    if let Some(o) = &p.one_of {
        let found = match m {
            MetadataValue::Single(i) => crate::sets::contains_item(o, i),
            MetadataValue::Array(a) => crate::sets::contains_item(o, &Item::Text(array_text_of(a))),
        };
        if found {
            return Ok(Some(m.copy_value()));
        }
        return Err(PolicyViolation::NotInOneOf);
    }
    let working = match &p.add {
        Some(a) => {
            let mut out = m.items();
            keep_first_into(&mut out, a, a);
            MetadataValue::Array(out)
        },
        None => m.copy_value(),
    };
    let w = match &p.subset_of {
        Some(s) => MetadataValue::Array(intersect_items(&working.items(), s)),
        None => working,
    };
    if let Some(s) = &p.superset_of {
        if !items_subset(s, &w.items()) {
            return Err(PolicyViolation::SupersetOfFailed);
        }
    }
    Ok(Some(w))
}

/// Builds the value of a parameter that the policy names and the metadata
/// does not.
pub fn resolve_absent_value(p: &OperatorSet) -> (r: Result<Option<MetadataValue>, PolicyViolation>)
    ensures
        match r {
            Ok(Some(v)) => resolve_absent(p@) == Ok::<Option<ValueView>, PolicyViolation>(
                Some(v@),
            ),
            Ok(None) => resolve_absent(p@) == Ok::<Option<ValueView>, PolicyViolation>(None),
            Err(e) => resolve_absent(p@) == Err::<Option<ValueView>, PolicyViolation>(e),
        },
{
    if let Some(v) = &p.value {
        if v.is_null() {
            return Ok(None);
        }
        return Ok(Some(v.copy_value()));
    }
    let made: Option<MetadataValue> = match &p.add {
        Some(a) => Some(MetadataValue::Array(copy_items(a))),
        None => crate::policy::copy_opt_value(&p.default),
    };
    let empty_subset = p.subset_of.is_some() && made.is_none();
    let made_is_none = made.is_none();
    let s: Option<MetadataValue> = match (&p.subset_of, made) {
        (Some(b), Some(x)) => Some(MetadataValue::Array(intersect_items(&x.items(), b))),
        (_, x) => x,
    };
    if let (Some(sup), Some(v)) = (&p.superset_of, &s) {
        if !items_subset(sup, &v.items()) {
            return Err(PolicyViolation::SynthesizedNotSuperset);
        }
    }
    if p.essential == Some(true) && empty_subset {
        return Err(PolicyViolation::EssentialEmptySubset);
    }
    if p.essential == Some(true) && made_is_none {
        return Err(PolicyViolation::EssentialMissing);
    }
    Ok(s)
}

/// The metadata's parameters in order: each one the policy names is resolved
/// against its operators, each other one copied; this stops at the first
/// violation.
pub open spec fn resolve_metadata_prefix(
    policy: Seq<(Seq<char>, OperatorSetView)>,
    metadata: Seq<(Seq<char>, ValueView)>,
    n: nat,
) -> Result<Seq<(Seq<char>, ValueView)>, PolicyViolation>
    decreases n,
{
    if n == 0 {
        Ok(Seq::empty())
    } else {
        match resolve_metadata_prefix(policy, metadata, (n - 1) as nat) {
            Err(e) => Err(e),
            Ok(acc) => {
                let entry = metadata[n - 1];
                let k = find_entry(policy, entry.0);
                if k < 0 {
                    Ok(acc.push(entry))
                } else {
                    match resolve_present(policy[k].1, entry.1) {
                        Err(e) => Err(e),
                        Ok(None) => Ok(acc),
                        Ok(Some(v)) => Ok(acc.push((entry.0, v))),
                    }
                }
            },
        }
    }
}

/// After `start`, the policy's parameters that the metadata does not name,
/// in the policy's order; this stops at the first violation.
pub open spec fn resolve_policy_prefix(
    policy: Seq<(Seq<char>, OperatorSetView)>,
    metadata: Seq<(Seq<char>, ValueView)>,
    start: Seq<(Seq<char>, ValueView)>,
    n: nat,
) -> Result<Seq<(Seq<char>, ValueView)>, PolicyViolation>
    decreases n,
{
    if n == 0 {
        Ok(start)
    } else {
        match resolve_policy_prefix(policy, metadata, start, (n - 1) as nat) {
            Err(e) => Err(e),
            Ok(acc) => {
                let entry = policy[n - 1];
                if find_entry(metadata, entry.0) >= 0 {
                    Ok(acc)
                } else {
                    match resolve_absent(entry.1) {
                        Err(e) => Err(e),
                        Ok(None) => Ok(acc),
                        Ok(Some(v)) => Ok(acc.push((entry.0, v))),
                    }
                }
            },
        }
    }
}

/// The metadata that results from applying `policy` to `metadata`.
pub open spec fn resolve_documents(
    policy: Seq<(Seq<char>, OperatorSetView)>,
    metadata: Seq<(Seq<char>, ValueView)>,
) -> Result<Seq<(Seq<char>, ValueView)>, PolicyViolation> {
    match resolve_metadata_prefix(policy, metadata, metadata.len()) {
        Err(e) => Err(e),
        Ok(s) => resolve_policy_prefix(policy, metadata, s, policy.len()),
    }
}

proof fn lemma_metadata_error_stays(
    policy: Seq<(Seq<char>, OperatorSetView)>,
    metadata: Seq<(Seq<char>, ValueView)>,
    k: nat,
    n: nat,
    e: PolicyViolation,
)
    requires
        k <= n,
        resolve_metadata_prefix(policy, metadata, k) == Err::<
            Seq<(Seq<char>, ValueView)>,
            PolicyViolation,
        >(e),
    ensures
        resolve_metadata_prefix(policy, metadata, n) == Err::<
            Seq<(Seq<char>, ValueView)>,
            PolicyViolation,
        >(e),
    decreases n - k,
{
    if k < n {
        lemma_metadata_error_stays(policy, metadata, k, (n - 1) as nat, e);
    }
}

proof fn lemma_policy_error_stays(
    policy: Seq<(Seq<char>, OperatorSetView)>,
    metadata: Seq<(Seq<char>, ValueView)>,
    start: Seq<(Seq<char>, ValueView)>,
    k: nat,
    n: nat,
    e: PolicyViolation,
)
    requires
        k <= n,
        resolve_policy_prefix(policy, metadata, start, k) == Err::<
            Seq<(Seq<char>, ValueView)>,
            PolicyViolation,
        >(e),
    ensures
        resolve_policy_prefix(policy, metadata, start, n) == Err::<
            Seq<(Seq<char>, ValueView)>,
            PolicyViolation,
        >(e),
    decreases n - k,
{
    if k < n {
        lemma_policy_error_stays(policy, metadata, start, k, (n - 1) as nat, e);
    }
}

/// Applies a merged policy document to a metadata document.
pub fn resolve_metadata_policy(policy: &Vec<PolicyEntry>, metadata: &Vec<MetadataEntry>) -> (r:
    Result<Vec<MetadataEntry>, PolicyViolation>)
    ensures
        match r {
            Ok(out) => resolve_documents(policy_view(policy@), metadata_view(metadata@)) == Ok::<
                Seq<(Seq<char>, ValueView)>,
                PolicyViolation,
            >(metadata_view(out@)),
            Err(e) => resolve_documents(policy_view(policy@), metadata_view(metadata@)) == Err::<
                Seq<(Seq<char>, ValueView)>,
                PolicyViolation,
            >(e),
        },
{
    let ghost pv = policy_view(policy@);
    let ghost mv = metadata_view(metadata@);
    let mut result: Vec<MetadataEntry> = Vec::new();
    proof {
        assert(metadata_view(result@) =~= Seq::<(Seq<char>, ValueView)>::empty());
    }
    let mut i: usize = 0;
    while i < metadata.len()
        invariant
            0 <= i <= metadata.len(),
            pv == policy_view(policy@),
            mv == metadata_view(metadata@),
            resolve_metadata_prefix(pv, mv, i as nat) == Ok::<
                Seq<(Seq<char>, ValueView)>,
                PolicyViolation,
            >(metadata_view(result@)),
        decreases metadata.len() - i,
    {
        let entry = &metadata[i];
        let ghost before = result@;
        match find_policy_entry(policy, &entry.name) {
            None => {
                result.push(entry.copy_entry());
                proof {
                    assert(metadata_view(result@) =~= metadata_view(before).push(mv[i as int]));
                }
            },
            Some(k) => {
                proof {
                    lemma_find_entry(pv, entry.name@);
                }
                match resolve_present_value(&policy[k].operators, &entry.value) {
                    Err(e) => {
                        proof {
                            lemma_metadata_error_stays(pv, mv, (i + 1) as nat, mv.len(), e);
                        }
                        return Err(e);
                    },
                    Ok(None) => {},
                    Ok(Some(v)) => {
                        result.push(MetadataEntry { name: entry.name.clone(), value: v });
                        proof {
                            assert(metadata_view(result@) =~= metadata_view(before).push(
                                (mv[i as int].0, result@.last().value@),
                            ));
                        }
                    },
                }
            },
        }
        i += 1;
    }
    let ghost head = metadata_view(result@);
    let mut j: usize = 0;
    while j < policy.len()
        invariant
            0 <= j <= policy.len(),
            pv == policy_view(policy@),
            mv == metadata_view(metadata@),
            resolve_metadata_prefix(pv, mv, mv.len()) == Ok::<
                Seq<(Seq<char>, ValueView)>,
                PolicyViolation,
            >(head),
            resolve_policy_prefix(pv, mv, head, j as nat) == Ok::<
                Seq<(Seq<char>, ValueView)>,
                PolicyViolation,
            >(metadata_view(result@)),
        decreases policy.len() - j,
    {
        let entry = &policy[j];
        if find_metadata_entry(metadata, &entry.name).is_none() {
            let ghost before = result@;
            match resolve_absent_value(&entry.operators) {
                Err(e) => {
                    proof {
                        lemma_policy_error_stays(pv, mv, head, (j + 1) as nat, pv.len(), e);
                    }
                    return Err(e);
                },
                Ok(None) => {},
                Ok(Some(v)) => {
                    result.push(MetadataEntry { name: entry.name.clone(), value: v });
                    proof {
                        assert(metadata_view(result@) =~= metadata_view(before).push(
                            (pv[j as int].0, result@.last().value@),
                        ));
                    }
                },
            }
        }
        j += 1;
    }
    Ok(result)
}

} // verus!

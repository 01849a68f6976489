use vstd::prelude::*;

use crate::compare::equivalent;
use crate::merge::{
    issuer_only, merge_documents, merge_operators, merge_superior_prefix, PolicyConflict,
};
use crate::policy::OperatorSetView;
use crate::policy::{find_entry, lemma_find_entry, lemma_find_entry_distinct, names_distinct};
use crate::resolve::{
    resolve_absent, resolve_documents, resolve_metadata_prefix, resolve_policy_prefix,
    resolve_present, PolicyViolation,
};
use crate::sets::{
    distinct, intersection, keep_first, lemma_keep_first_absorbs, lemma_keep_first_allowed,
    lemma_keep_first_concat, lemma_keep_first_contains, lemma_keep_first_identity,
    lemma_keep_first_no_duplicates, lemma_ordered_merge_set, ordered_union, subset,
};
use crate::value::{is_null, ItemView, ValueView};

verus! {

/// An operator set with nothing but the given operators.
pub open spec fn operators(
    value: Option<ValueView>,
    default: Option<ValueView>,
    add: Option<Seq<ItemView>>,
    one_of: Option<Seq<ItemView>>,
    superset_of: Option<Seq<ItemView>>,
) -> OperatorSetView {
    OperatorSetView {
        value,
        default,
        add,
        one_of,
        subset_of: None,
        superset_of,
        essential: None,
        others: Seq::empty(),
    }
}

/// Two sides that give the same `value` never conflict over it, and the
/// merge keeps that value.
pub proof fn law_equal_value_kept(ta: OperatorSetView, ia: OperatorSetView, v: ValueView)
    requires
        ta.value == Some(v),
        ia.value == Some(v),
    ensures
        merge_operators(ta, ia) != Err::<OperatorSetView, PolicyConflict>(
            PolicyConflict::ValueMismatch,
        ),
        merge_operators(ta, ia) is Ok ==> merge_operators(ta, ia).unwrap().value == Some(v),
{
}

/// Two sides that give the same `default` never conflict over it, and the
/// merge keeps that default.
pub proof fn law_equal_default_kept(ta: OperatorSetView, ia: OperatorSetView, v: ValueView)
    requires
        ta.default == Some(v),
        ia.default == Some(v),
    ensures
        merge_operators(ta, ia) != Err::<OperatorSetView, PolicyConflict>(
            PolicyConflict::DefaultMismatch,
        ),
        merge_operators(ta, ia) is Ok ==> merge_operators(ta, ia).unwrap().default == Some(v),
{
}

/// Merging a lone `value` (or a lone `default`) with itself succeeds and
/// gives it back unchanged.
pub proof fn law_lone_value_idempotent(v: ValueView)
    ensures
        merge_operators(operators(Some(v), None, None, None, None), operators(Some(v), None, None, None, None))
            == Ok::<OperatorSetView, PolicyConflict>(operators(Some(v), None, None, None, None)),
        merge_operators(operators(None, Some(v), None, None, None), operators(None, Some(v), None, None, None))
            == Ok::<OperatorSetView, PolicyConflict>(operators(None, Some(v), None, None, None)),
{
    let e = Seq::<(Seq<char>, ValueView)>::empty();
    assert(crate::merge::unmatched(e, e) =~= e);
    assert(e + e =~= e);
}

/// Merging `add` lists gives their union without repeats: the items of the
/// first in its order, then the new items of the second in its order; and
/// merging that result with itself changes nothing.
pub proof fn law_add_union(a: Seq<ItemView>, b: Seq<ItemView>)
    ensures
        merge_operators(operators(None, None, Some(a), None, None), operators(None, None, Some(b), None, None))
            == Ok::<OperatorSetView, PolicyConflict>(operators(None, None, Some(ordered_union(a, b)), None, None)),
        ordered_union(a, b).to_set() == a.to_set().union(b.to_set()),
        ordered_union(a, b).no_duplicates(),
        ordered_union(a, b) == keep_first(distinct(a), b, b),
        ordered_union(ordered_union(a, b), ordered_union(a, b)) == ordered_union(a, b),
        merge_operators(
            operators(None, None, Some(ordered_union(a, b)), None, None),
            operators(None, None, Some(ordered_union(a, b)), None, None),
        ) == Ok::<OperatorSetView, PolicyConflict>(operators(None, None, Some(ordered_union(a, b)), None, None)),
{
    let e = Seq::<(Seq<char>, ValueView)>::empty();
    assert(crate::merge::unmatched(e, e) =~= e);
    assert(e + e =~= e);
    let u = ordered_union(a, b);
    let ab = a + b;
    assert forall|x: ItemView| u.to_set().contains(x) <==> a.to_set().union(b.to_set()).contains(x)
        by {
        lemma_keep_first_contains(Seq::empty(), ab, ab, x);
        if a.contains(x) {
            let i = choose|i: int| 0 <= i < a.len() && a[i] == x;
            assert(ab[i] == x);
        }
        if b.contains(x) {
            let i = choose|i: int| 0 <= i < b.len() && b[i] == x;
            assert(ab[a.len() + i] == x);
        }
        if ab.contains(x) {
            let i = choose|i: int| 0 <= i < ab.len() && ab[i] == x;
            if i < a.len() {
                assert(a[i] == x);
            } else {
                assert(b[i - a.len()] == x);
            }
        }
    }
    assert(u.to_set() =~= a.to_set().union(b.to_set()));
    lemma_keep_first_no_duplicates(Seq::empty(), ab, ab);
    lemma_keep_first_concat(Seq::empty(), a, b, ab);
    assert forall|i: int| 0 <= i < a.len() implies (ab.contains(a[i]) <==> a.contains(a[i])) by {
        assert(ab[i] == a[i]);
    }
    lemma_keep_first_allowed(Seq::empty(), a, ab, a);
    assert forall|i: int| 0 <= i < b.len() implies (ab.contains(b[i]) <==> b.contains(b[i])) by {
        assert(ab[a.len() + i] == b[i]);
    }
    lemma_keep_first_allowed(distinct(a), b, ab, b);
    // merging the result with itself
    let uu = u + u;
    lemma_keep_first_concat(Seq::empty(), u, u, uu);
    assert(subset(u, uu)) by {
        assert forall|i: int| 0 <= i < u.len() implies uu.contains(u[i]) by {
            assert(uu[i] == u[i]);
        }
    }
    lemma_keep_first_identity(u, uu);
    assert(subset(u, u));
    lemma_keep_first_absorbs(u, u, uu);
}

/// Merging `one_of` lists fails exactly when one is empty or the issuer's
/// holds an item that the superior's does not; otherwise the result holds
/// the members common to both.
pub proof fn law_one_of_narrows(a: Seq<ItemView>, b: Seq<ItemView>)
    ensures
        merge_operators(operators(None, None, None, Some(a), None), operators(None, None, None, Some(b), None)) is Err
            <==> (a.len() == 0 || b.len() == 0 || !subset(b, a)),
        merge_operators(operators(None, None, None, Some(a), None), operators(None, None, None, Some(b), None)) is Ok
            ==> merge_operators(
            operators(None, None, None, Some(a), None),
            operators(None, None, None, Some(b), None),
        ).unwrap().one_of.unwrap().to_set() == a.to_set().intersect(b.to_set()),
{
    let m = intersection(a, b);
    lemma_ordered_merge_set(a, b, m);
    assert forall|x: ItemView| m.to_set().contains(x) <==> (a.contains(x) && b.contains(x)) by {
        lemma_keep_first_contains(Seq::empty(), a, b, x);
    }
    assert(a.to_set().union(b.to_set()).intersect(m.to_set()) =~= a.to_set().intersect(b.to_set()));
}

/// Merging `superset_of` lists fails exactly when the superior's holds an
/// item that the issuer's does not; otherwise the result holds the members
/// of either.
pub proof fn law_superset_of_widens(a: Seq<ItemView>, b: Seq<ItemView>)
    ensures
        merge_operators(operators(None, None, None, None, Some(a)), operators(None, None, None, None, Some(b))) is Err
            <==> !subset(a, b),
        merge_operators(operators(None, None, None, None, Some(a)), operators(None, None, None, None, Some(b))) is Ok
            ==> merge_operators(
            operators(None, None, None, None, Some(a)),
            operators(None, None, None, None, Some(b)),
        ).unwrap().superset_of.unwrap().to_set() == a.to_set().union(b.to_set()),
{
    lemma_ordered_merge_set(a, b, a + b);
    assert forall|x: ItemView| a.to_set().union(b.to_set()).contains(x) implies (a + b).contains(x) by {
        if a.contains(x) {
            let i = choose|i: int| 0 <= i < a.len() && a[i] == x;
            assert((a + b)[i] == x);
        } else {
            let i = choose|i: int| 0 <= i < b.len() && b[i] == x;
            assert((a + b)[a.len() + i] == x);
        }
    }
    assert(a.to_set().union(b.to_set()).intersect((a + b).to_set()) =~= a.to_set().union(b.to_set()));
}

/// `essential` set to true on either side stays true in every successful merge.
pub proof fn law_essential_or(ta: OperatorSetView, ia: OperatorSetView)
    requires
        ta.essential == Some(true) || ia.essential == Some(true),
    ensures
        merge_operators(ta, ia) is Ok ==> merge_operators(ta, ia).unwrap().essential == Some(true),
{
}

/// A non-null `value` is the resolved value, whatever the other operators and
/// whatever the metadata supplies.
pub proof fn law_value_precedence(p: OperatorSetView, v: ValueView, m: ValueView)
    requires
        p.value == Some(v),
        !is_null(v),
    ensures
        resolve_present(p, m) == Ok::<Option<ValueView>, PolicyViolation>(Some(v)),
        resolve_absent(p) == Ok::<Option<ValueView>, PolicyViolation>(Some(v)),
{
}

/// Under `one_of` (and no `value`), a supplied scalar outside the list is a
/// violation, and one inside it is the resolved value.
pub proof fn law_one_of_membership(p: OperatorSetView, o: Seq<ItemView>, z: ItemView)
    requires
        p.value is None,
        p.one_of == Some(o),
    ensures
        !o.contains(z) ==> resolve_present(p, ValueView::Single(z)) == Err::<
            Option<ValueView>,
            PolicyViolation,
        >(PolicyViolation::NotInOneOf),
        o.contains(z) ==> resolve_present(p, ValueView::Single(z)) == Ok::<
            Option<ValueView>,
            PolicyViolation,
        >(Some(ValueView::Single(z))),
{
}

pub open spec fn is_prefix<T>(a: Seq<T>, b: Seq<T>) -> bool {
    a.len() <= b.len() && forall|j: int| 0 <= j < a.len() ==> a[j] == b[j]
}

proof fn lemma_metadata_prefix_grows(
    policy: Seq<(Seq<char>, OperatorSetView)>,
    metadata: Seq<(Seq<char>, ValueView)>,
    m: nat,
    n: nat,
)
    requires
        m <= n,
        resolve_metadata_prefix(policy, metadata, n) is Ok,
    ensures
        resolve_metadata_prefix(policy, metadata, m) is Ok,
        is_prefix(
            resolve_metadata_prefix(policy, metadata, m).unwrap(),
            resolve_metadata_prefix(policy, metadata, n).unwrap(),
        ),
    decreases n - m,
{
    if m < n {
        let prev = resolve_metadata_prefix(policy, metadata, (n - 1) as nat);
        assert(prev is Ok);
        lemma_metadata_prefix_grows(policy, metadata, m, (n - 1) as nat);
    }
}

proof fn lemma_policy_prefix_grows(
    policy: Seq<(Seq<char>, OperatorSetView)>,
    metadata: Seq<(Seq<char>, ValueView)>,
    start: Seq<(Seq<char>, ValueView)>,
    m: nat,
    n: nat,
)
    requires
        m <= n,
        resolve_policy_prefix(policy, metadata, start, n) is Ok,
    ensures
        resolve_policy_prefix(policy, metadata, start, m) is Ok,
        is_prefix(
            resolve_policy_prefix(policy, metadata, start, m).unwrap(),
            resolve_policy_prefix(policy, metadata, start, n).unwrap(),
        ),
    decreases n - m,
{
    if m < n {
        let prev = resolve_policy_prefix(policy, metadata, start, (n - 1) as nat);
        assert(prev is Ok);
        lemma_policy_prefix_grows(policy, metadata, start, m, (n - 1) as nat);
    }
}

/// In every successful resolution of a document, a parameter whose policy
/// entry gives a non-null `value` is present with exactly that value.
pub proof fn law_value_in_resolved_document(
    policy: Seq<(Seq<char>, OperatorSetView)>,
    metadata: Seq<(Seq<char>, ValueView)>,
    k: int,
    v: ValueView,
)
    requires
        names_distinct(policy),
        0 <= k < policy.len(),
        policy[k].1.value == Some(v),
        !is_null(v),
        resolve_documents(policy, metadata) is Ok,
    ensures
        resolve_documents(policy, metadata).unwrap().contains((policy[k].0, v)),
{
    let name = policy[k].0;
    lemma_find_entry_distinct(policy, k);
    let out = resolve_documents(policy, metadata).unwrap();
    let head_r = resolve_metadata_prefix(policy, metadata, metadata.len());
    assert(head_r is Ok);
    let head = head_r.unwrap();
    lemma_policy_prefix_grows(policy, metadata, head, 0, policy.len());
    let i = find_entry(metadata, name);
    crate::policy::lemma_find_entry(metadata, name);
    if i >= 0 {
        lemma_metadata_prefix_grows(policy, metadata, (i + 1) as nat, metadata.len());
        let before = resolve_metadata_prefix(policy, metadata, i as nat);
        lemma_metadata_prefix_grows(policy, metadata, i as nat, (i + 1) as nat);
        let after = resolve_metadata_prefix(policy, metadata, (i + 1) as nat).unwrap();
        law_value_precedence(policy[k].1, v, metadata[i].1);
        assert(after == before.unwrap().push((name, v)));
        assert(after[after.len() - 1] == (name, v));
        assert(head[after.len() - 1] == (name, v));
        assert(out[after.len() - 1] == (name, v));
    } else {
        lemma_policy_prefix_grows(policy, metadata, head, (k + 1) as nat, policy.len());
        let before = resolve_policy_prefix(policy, metadata, head, k as nat);
        lemma_policy_prefix_grows(policy, metadata, head, k as nat, (k + 1) as nat);
        let after = resolve_policy_prefix(policy, metadata, head, (k + 1) as nat).unwrap();
        law_value_precedence(policy[k].1, v, v);
        assert(after == before.unwrap().push((name, v)));
        assert(after[after.len() - 1] == (name, v));
        assert(out[after.len() - 1] == (name, v));
    }
}

/// What the merge makes of the superior's entry `k`.
pub open spec fn merged_entry(
    ta: Seq<(Seq<char>, OperatorSetView)>,
    ia: Seq<(Seq<char>, OperatorSetView)>,
    k: int,
) -> Result<(Seq<char>, OperatorSetView), PolicyConflict> {
    let entry = ta[k];
    let j = find_entry(ia, entry.0);
    if j < 0 {
        Ok(entry)
    } else {
        match merge_operators(entry.1, ia[j].1) {
            Err(e) => Err(e),
            Ok(m) => Ok((entry.0, m)),
        }
    }
}

proof fn lemma_superior_prefix_entries(
    ta: Seq<(Seq<char>, OperatorSetView)>,
    ia: Seq<(Seq<char>, OperatorSetView)>,
    n: nat,
)
    requires
        n <= ta.len(),
        merge_superior_prefix(ta, ia, n) is Ok,
    ensures
        merge_superior_prefix(ta, ia, n).unwrap().len() == n,
        forall|k: int|
            0 <= k < n ==> merged_entry(ta, ia, k) == Ok::<
                (Seq<char>, OperatorSetView),
                PolicyConflict,
            >(#[trigger] merge_superior_prefix(ta, ia, n).unwrap()[k]),
    decreases n,
{
    if n > 0 {
        let prev = merge_superior_prefix(ta, ia, (n - 1) as nat);
        assert(prev is Ok);
        lemma_superior_prefix_entries(ta, ia, (n - 1) as nat);
        let s = merge_superior_prefix(ta, ia, n).unwrap();
        assert forall|k: int| 0 <= k < n implies merged_entry(ta, ia, k) == Ok::<
            (Seq<char>, OperatorSetView),
            PolicyConflict,
        >(#[trigger] s[k]) by {
            if k < n - 1 {
                assert(s[k] == prev.unwrap()[k]);
            }
        }
    }
}

/// `x` is an entry of the issuer, among its first `n`, whose name the superior does not use.
pub open spec fn from_issuer(
    ta: Seq<(Seq<char>, OperatorSetView)>,
    ia: Seq<(Seq<char>, OperatorSetView)>,
    n: int,
    x: (Seq<char>, OperatorSetView),
) -> bool {
    exists|j: int| 0 <= j < n && x == ia[j] && find_entry(ta, ia[j].0) < 0
}

proof fn lemma_issuer_only_entries(
    ta: Seq<(Seq<char>, OperatorSetView)>,
    ia: Seq<(Seq<char>, OperatorSetView)>,
    n: nat,
)
    requires
        n <= ia.len(),
    ensures
        forall|i: int|
            0 <= i < issuer_only(ta, ia, n).len() ==> from_issuer(
                ta,
                ia,
                n as int,
                #[trigger] issuer_only(ta, ia, n)[i],
            ),
        forall|j: int|
            0 <= j < n && find_entry(ta, #[trigger] ia[j].0) < 0 ==> issuer_only(
                ta,
                ia,
                n,
            ).contains(ia[j]),
        names_distinct(ia) ==> names_distinct(issuer_only(ta, ia, n)),
    decreases n,
{
    if n > 0 {
        lemma_issuer_only_entries(ta, ia, (n - 1) as nat);
        let prev = issuer_only(ta, ia, (n - 1) as nat);
        let s = issuer_only(ta, ia, n);
        if find_entry(ta, ia[n - 1].0) < 0 {
            assert(s == prev.push(ia[n - 1]));
            assert forall|i: int| 0 <= i < s.len() implies from_issuer(ta, ia, n as int, #[trigger] s[i]) by {
                if i < prev.len() {
                    assert(from_issuer(ta, ia, n - 1, prev[i]));
                    let j = choose|j: int|
                        0 <= j < n - 1 && prev[i] == ia[j] && find_entry(ta, ia[j].0) < 0;
                    assert(s[i] == prev[i]);
                    assert(0 <= j < n && s[i] == ia[j] && find_entry(ta, ia[j].0) < 0);
                } else {
                    assert(s[i] == ia[n - 1]);
                    assert(0 <= n - 1 < n && s[i] == ia[n - 1] && find_entry(ta, ia[n - 1].0) < 0);
                }
            }
            assert forall|j: int| 0 <= j < n && find_entry(ta, #[trigger] ia[j].0) < 0 implies s.contains(
                ia[j],
            ) by {
                if j < n - 1 {
                    let i = choose|i: int| 0 <= i < prev.len() && prev[i] == ia[j];
                    assert(s[i] == ia[j]);
                } else {
                    assert(s[prev.len() as int] == ia[j]);
                }
            }
            if names_distinct(ia) {
                assert forall|a: int, b: int| 0 <= a < b < s.len() implies s[a].0 != s[b].0 by {
                    if b < prev.len() {
                        assert(s[a] == prev[a] && s[b] == prev[b]);
                    } else {
                        assert(s[a] == prev[a]);
                        assert(from_issuer(ta, ia, n - 1, prev[a]));
                        let j = choose|j: int|
                            0 <= j < n - 1 && prev[a] == ia[j] && find_entry(ta, ia[j].0) < 0;
                        assert(ia[j].0 != ia[n - 1].0);
                    }
                }
            }
        } else {
            assert forall|j: int| 0 <= j < n && find_entry(ta, #[trigger] ia[j].0) < 0 implies s.contains(
                ia[j],
            ) by {
                assert(s == prev);
                if j == n - 1 {
                    assert(false);
                }
            }
            assert forall|i: int| 0 <= i < s.len() implies from_issuer(ta, ia, n as int, #[trigger] s[i]) by {
                assert(s == prev);
                assert(from_issuer(ta, ia, n - 1, prev[i]));
                let j = choose|j: int| 0 <= j < n - 1 && prev[i] == ia[j] && find_entry(ta, ia[j].0) < 0;
                assert(0 <= j < n && s[i] == ia[j] && find_entry(ta, ia[j].0) < 0);
            }
        }
    }
}

/// Merging two documents whose names are distinct gives a document whose
/// names are distinct.
pub proof fn law_merge_keeps_names_distinct(
    ta: Seq<(Seq<char>, OperatorSetView)>,
    ia: Seq<(Seq<char>, OperatorSetView)>,
)
    requires
        names_distinct(ta),
        names_distinct(ia),
        merge_documents(ta, ia) is Ok,
    ensures
        names_distinct(merge_documents(ta, ia).unwrap()),
{
    let p = merge_superior_prefix(ta, ia, ta.len());
    assert(p is Ok);
    lemma_superior_prefix_entries(ta, ia, ta.len());
    lemma_issuer_only_entries(ta, ia, ia.len());
    let s = p.unwrap();
    let io = issuer_only(ta, ia, ia.len());
    let out = s + io;
    assert(out == merge_documents(ta, ia).unwrap());
    assert forall|k: int| 0 <= k < s.len() implies #[trigger] s[k].0 == ta[k].0 by {
        assert(merged_entry(ta, ia, k) == Ok::<(Seq<char>, OperatorSetView), PolicyConflict>(s[k]));
    }
    assert forall|a: int, b: int| 0 <= a < b < out.len() implies out[a].0 != out[b].0 by {
        if b < s.len() {
            assert(out[a] == s[a] && out[b] == s[b]);
        } else if a >= s.len() {
            assert(out[a] == io[a - s.len()] && out[b] == io[b - s.len()]);
        } else {
            assert(out[a] == s[a] && out[b] == io[b - s.len()]);
            assert(from_issuer(ta, ia, ia.len() as int, io[b - s.len()]));
            let j = choose|j: int|
                0 <= j < ia.len() && io[b - s.len()] == ia[j] && find_entry(ta, ia[j].0) < 0;
            lemma_find_entry(ta, ia[j].0);
            assert(ta[a].0 != ia[j].0);
        }
    }
}

/// In every successful merge of documents, a parameter to which either side
/// attaches `essential` set to true has `essential` set to true.
pub proof fn law_essential_in_merged_document(
    ta: Seq<(Seq<char>, OperatorSetView)>,
    ia: Seq<(Seq<char>, OperatorSetView)>,
    name: Seq<char>,
)
    requires
        merge_documents(ta, ia) is Ok,
        (find_entry(ta, name) >= 0 && ta[find_entry(ta, name)].1.essential == Some(true)) || (
        find_entry(ia, name) >= 0 && ia[find_entry(ia, name)].1.essential == Some(true)),
    ensures
        exists|i: int|
            0 <= i < merge_documents(ta, ia).unwrap().len() && #[trigger] merge_documents(
                ta,
                ia,
            ).unwrap()[i].0 == name && merge_documents(ta, ia).unwrap()[i].1.essential == Some(
                true,
            ),
{
    let p = merge_superior_prefix(ta, ia, ta.len());
    assert(p is Ok);
    lemma_superior_prefix_entries(ta, ia, ta.len());
    lemma_issuer_only_entries(ta, ia, ia.len());
    lemma_find_entry(ta, name);
    lemma_find_entry(ia, name);
    let s = p.unwrap();
    let io = issuer_only(ta, ia, ia.len());
    let out = merge_documents(ta, ia).unwrap();
    assert(out == s + io);
    let k = find_entry(ta, name);
    let j = find_entry(ia, name);
    if k >= 0 {
        assert(merged_entry(ta, ia, k) == Ok::<(Seq<char>, OperatorSetView), PolicyConflict>(s[k]));
        if j >= 0 {
            law_essential_or(ta[k].1, ia[j].1);
        }
        assert(out[k] == s[k]);
        assert(0 <= k < out.len() && out[k].0 == name && out[k].1.essential == Some(true));
    } else {
        assert(io.contains(ia[j]));
        let i = choose|i: int| 0 <= i < io.len() && io[i] == ia[j];
        assert(out[s.len() + i] == io[i]);
        assert(0 <= s.len() + i < out.len() && out[s.len() + i].0 == name && out[s.len()
            + i].1.essential == Some(true));
    }
}

/// `x` is named like one of the first `n` entries of the metadata.
pub open spec fn named_in_metadata(
    metadata: Seq<(Seq<char>, ValueView)>,
    n: int,
    x: (Seq<char>, ValueView),
) -> bool {
    exists|j: int| 0 <= j < n && x.0 == metadata[j].0
}

/// `x` is named like one of the first `n` entries of the policy, which the
/// metadata does not name.
pub open spec fn named_in_policy_only(
    policy: Seq<(Seq<char>, OperatorSetView)>,
    metadata: Seq<(Seq<char>, ValueView)>,
    n: int,
    x: (Seq<char>, ValueView),
) -> bool {
    exists|j: int| 0 <= j < n && x.0 == policy[j].0 && find_entry(metadata, policy[j].0) < 0
}

proof fn lemma_metadata_prefix_names(
    policy: Seq<(Seq<char>, OperatorSetView)>,
    metadata: Seq<(Seq<char>, ValueView)>,
    n: nat,
)
    requires
        n <= metadata.len(),
        resolve_metadata_prefix(policy, metadata, n) is Ok,
    ensures
        forall|i: int|
            0 <= i < resolve_metadata_prefix(policy, metadata, n).unwrap().len() ==> named_in_metadata(
                metadata,
                n as int,
                #[trigger] resolve_metadata_prefix(policy, metadata, n).unwrap()[i],
            ),
        names_distinct(metadata) ==> names_distinct(
            resolve_metadata_prefix(policy, metadata, n).unwrap(),
        ),
    decreases n,
{
    if n > 0 {
        let prev_r = resolve_metadata_prefix(policy, metadata, (n - 1) as nat);
        assert(prev_r is Ok);
        lemma_metadata_prefix_names(policy, metadata, (n - 1) as nat);
        let prev = prev_r.unwrap();
        let s = resolve_metadata_prefix(policy, metadata, n).unwrap();
        assert(s == prev || s == prev.push((metadata[n - 1].0, s.last().1)));
        assert forall|i: int| 0 <= i < s.len() implies named_in_metadata(metadata, n as int, #[trigger] s[i]) by {
            if i < prev.len() {
                assert(s[i] == prev[i]);
                assert(named_in_metadata(metadata, n - 1, prev[i]));
                let j = choose|j: int| 0 <= j < n - 1 && prev[i].0 == metadata[j].0;
                assert(0 <= j < n && s[i].0 == metadata[j].0);
            } else {
                assert(0 <= n - 1 < n && s[i].0 == metadata[n - 1].0);
            }
        }
        if names_distinct(metadata) {
            assert forall|a: int, b: int| 0 <= a < b < s.len() implies s[a].0 != s[b].0 by {
                assert(s[a] == prev[a]);
                if b < prev.len() {
                    assert(s[b] == prev[b]);
                } else {
                    assert(named_in_metadata(metadata, n - 1, prev[a]));
                    let j = choose|j: int| 0 <= j < n - 1 && prev[a].0 == metadata[j].0;
                    assert(metadata[j].0 != metadata[n - 1].0);
                }
            }
        }
    }
}

proof fn lemma_policy_prefix_names(
    policy: Seq<(Seq<char>, OperatorSetView)>,
    metadata: Seq<(Seq<char>, ValueView)>,
    start: Seq<(Seq<char>, ValueView)>,
    n: nat,
)
    requires
        n <= policy.len(),
        resolve_policy_prefix(policy, metadata, start, n) is Ok,
    ensures
        ({
            let s = resolve_policy_prefix(policy, metadata, start, n).unwrap();
            &&& s.len() >= start.len()
            &&& forall|i: int| 0 <= i < start.len() ==> s[i] == start[i]
            &&& forall|i: int|
                start.len() <= i < s.len() ==> named_in_policy_only(
                    policy,
                    metadata,
                    n as int,
                    #[trigger] s[i],
                )
            &&& (names_distinct(start) && names_distinct(policy) && (forall|i: int|
                0 <= i < start.len() ==> find_entry(metadata, #[trigger] start[i].0) >= 0))
                ==> names_distinct(s)
        }),
    decreases n,
{
    let s = resolve_policy_prefix(policy, metadata, start, n).unwrap();
    if n > 0 {
        let prev_r = resolve_policy_prefix(policy, metadata, start, (n - 1) as nat);
        assert(prev_r is Ok);
        lemma_policy_prefix_names(policy, metadata, start, (n - 1) as nat);
        let prev = prev_r.unwrap();
        assert(s == prev || (s == prev.push((policy[n - 1].0, s.last().1)) && find_entry(
            metadata,
            policy[n - 1].0,
        ) < 0));
        assert forall|i: int| start.len() <= i < s.len() implies named_in_policy_only(
            policy,
            metadata,
            n as int,
            #[trigger] s[i],
        ) by {
            if i < prev.len() {
                assert(s[i] == prev[i]);
                assert(named_in_policy_only(policy, metadata, n - 1, prev[i]));
                let j = choose|j: int|
                    0 <= j < n - 1 && prev[i].0 == policy[j].0 && find_entry(metadata, policy[j].0)
                        < 0;
                assert(0 <= j < n && s[i].0 == policy[j].0 && find_entry(metadata, policy[j].0) < 0);
            } else {
                assert(0 <= n - 1 < n && s[i].0 == policy[n - 1].0);
            }
        }
        assert forall|i: int| 0 <= i < start.len() implies s[i] == start[i] by {
            assert(s[i] == prev[i]);
        }
        if names_distinct(start) && names_distinct(policy) && (forall|i: int|
            0 <= i < start.len() ==> find_entry(metadata, #[trigger] start[i].0) >= 0) {
            assert forall|a: int, b: int| 0 <= a < b < s.len() implies s[a].0 != s[b].0 by {
                assert(s[a] == prev[a]);
                if b < prev.len() {
                    assert(s[b] == prev[b]);
                } else if a < start.len() {
                    assert(find_entry(metadata, start[a].0) >= 0);
                } else {
                    assert(named_in_policy_only(policy, metadata, n - 1, prev[a]));
                    let j = choose|j: int|
                        0 <= j < n - 1 && prev[a].0 == policy[j].0 && find_entry(
                            metadata,
                            policy[j].0,
                        ) < 0;
                    assert(policy[j].0 != policy[n - 1].0);
                }
            }
        }
    } else {
        assert(s == start);
    }
}

/// Resolving a metadata document whose names are distinct against a policy
/// whose names are distinct gives a document whose names are distinct.
pub proof fn law_resolve_keeps_names_distinct(
    policy: Seq<(Seq<char>, OperatorSetView)>,
    metadata: Seq<(Seq<char>, ValueView)>,
)
    requires
        names_distinct(policy),
        names_distinct(metadata),
        resolve_documents(policy, metadata) is Ok,
    ensures
        names_distinct(resolve_documents(policy, metadata).unwrap()),
{
    let head_r = resolve_metadata_prefix(policy, metadata, metadata.len());
    assert(head_r is Ok);
    let head = head_r.unwrap();
    lemma_metadata_prefix_names(policy, metadata, metadata.len());
    assert forall|i: int| 0 <= i < head.len() implies find_entry(metadata, #[trigger] head[i].0) >= 0 by {
        assert(named_in_metadata(metadata, metadata.len() as int, head[i]));
        let j = choose|j: int| 0 <= j < metadata.len() && head[i].0 == metadata[j].0;
        lemma_find_entry(metadata, head[i].0);
        assert(metadata[j].0 == head[i].0);
    }
    lemma_policy_prefix_names(policy, metadata, head, policy.len());
}

/// A metadata document whose names are distinct is equivalent to itself.
pub proof fn law_equivalent_reflexive(d: Seq<(Seq<char>, ValueView)>)
    requires
        names_distinct(d),
    ensures
        equivalent(d, d),
{
    assert forall|i: int| 0 <= i < d.len() implies find_entry(d, #[trigger] d[i].0) == i by {
        lemma_find_entry_distinct(d, i);
    }
}

} // verus!

use vstd::prelude::*;

use crate::value::{copy_items, items_view, Item, ItemView, MetadataValue, ValueView};

verus! {

/// An operator whose name this library does not interpret; it is carried
/// through a merge untouched.
#[derive(Debug, PartialEq, Eq)]
pub struct OtherOperator {
    pub name: String,
    pub value: MetadataValue,
}

impl View for OtherOperator {
    type V = (Seq<char>, ValueView);

    open spec fn view(&self) -> (Seq<char>, ValueView) {
        (self.name@, self.value@)
    }
}

/// The operators that one policy source attaches to one metadata parameter.
/// Each recognised operator is a field of its own; `None` means absent.
#[derive(Debug, PartialEq, Eq)]
pub struct OperatorSet {
    pub value: Option<MetadataValue>,
    pub default: Option<MetadataValue>,
    pub add: Option<Vec<Item>>,
    pub one_of: Option<Vec<Item>>,
    pub subset_of: Option<Vec<Item>>,
    pub superset_of: Option<Vec<Item>>,
    pub essential: Option<bool>,
    pub others: Vec<OtherOperator>,
}

/// The mathematical form of an [`OperatorSet`].
pub struct OperatorSetView {
    pub value: Option<ValueView>,
    pub default: Option<ValueView>,
    pub add: Option<Seq<ItemView>>,
    pub one_of: Option<Seq<ItemView>>,
    pub subset_of: Option<Seq<ItemView>>,
    pub superset_of: Option<Seq<ItemView>>,
    pub essential: Option<bool>,
    pub others: Seq<(Seq<char>, ValueView)>,
}

pub open spec fn opt_value_view(o: Option<MetadataValue>) -> Option<ValueView> {
    match o {
        Some(v) => Some(v@),
        None => None,
    }
}

pub open spec fn opt_items_view(o: Option<Vec<Item>>) -> Option<Seq<ItemView>> {
    match o {
        Some(v) => Some(items_view(v@)),
        None => None,
    }
}

pub open spec fn others_view(s: Seq<OtherOperator>) -> Seq<(Seq<char>, ValueView)> {
    s.map_values(|o: OtherOperator| o@)
}

impl View for OperatorSet {
    type V = OperatorSetView;

    open spec fn view(&self) -> OperatorSetView {
        OperatorSetView {
            value: opt_value_view(self.value),
            default: opt_value_view(self.default),
            add: opt_items_view(self.add),
            one_of: opt_items_view(self.one_of),
            subset_of: opt_items_view(self.subset_of),
            superset_of: opt_items_view(self.superset_of),
            essential: self.essential,
            others: others_view(self.others@),
        }
    }
}

/// The operators of one metadata parameter in a policy document.
#[derive(Debug, PartialEq, Eq)]
pub struct PolicyEntry {
    pub name: String,
    pub operators: OperatorSet,
}

impl View for PolicyEntry {
    type V = (Seq<char>, OperatorSetView);

    open spec fn view(&self) -> (Seq<char>, OperatorSetView) {
        (self.name@, self.operators@)
    }
}

pub open spec fn policy_view(d: Seq<PolicyEntry>) -> Seq<(Seq<char>, OperatorSetView)> {
    d.map_values(|e: PolicyEntry| e@)
}

/// One parameter of a metadata document.
#[derive(Debug, PartialEq, Eq)]
pub struct MetadataEntry {
    pub name: String,
    pub value: MetadataValue,
}

impl View for MetadataEntry {
    type V = (Seq<char>, ValueView);

    open spec fn view(&self) -> (Seq<char>, ValueView) {
        (self.name@, self.value@)
    }
}

pub open spec fn metadata_view(d: Seq<MetadataEntry>) -> Seq<(Seq<char>, ValueView)> {
    d.map_values(|e: MetadataEntry| e@)
}

/// The index of the last entry named `name`, or -1 where there is none.
pub open spec fn find_entry<V>(d: Seq<(Seq<char>, V)>, name: Seq<char>) -> int
    decreases d.len(),
{
    if d.len() == 0 {
        -1
    } else if d.last().0 == name {
        d.len() - 1
    } else {
        find_entry(d.drop_last(), name)
    }
}

pub proof fn lemma_find_entry<V>(d: Seq<(Seq<char>, V)>, name: Seq<char>)
    ensures
        -1 <= find_entry(d, name) < d.len(),
        find_entry(d, name) >= 0 ==> d[find_entry(d, name)].0 == name,
        find_entry(d, name) < 0 <==> forall|i: int| 0 <= i < d.len() ==> d[i].0 != name,
    decreases d.len(),
{
    if d.len() > 0 {
        lemma_find_entry(d.drop_last(), name);
        if find_entry(d, name) < 0 {
            assert forall|i: int| 0 <= i < d.len() implies d[i].0 != name by {
                if i < d.len() - 1 {
                    assert(d.drop_last()[i] == d[i]);
                }
            }
        }
    }
}

/// No two entries of the document share a name.
pub open spec fn names_distinct<V>(d: Seq<(Seq<char>, V)>) -> bool {
    forall|i: int, j: int| 0 <= i < j < d.len() ==> d[i].0 != d[j].0
}

/// In a document whose names are distinct, an entry is the one found by its name.
pub proof fn lemma_find_entry_distinct<V>(d: Seq<(Seq<char>, V)>, k: int)
    requires
        names_distinct(d),
        0 <= k < d.len(),
    ensures
        find_entry(d, d[k].0) == k,
{
    lemma_find_entry(d, d[k].0);
    let f = find_entry(d, d[k].0);
    if f != k {
        if f < k {
            assert(d[f].0 != d[k].0);
        } else {
            assert(d[k].0 != d[f].0);
        }
    }
}

impl OtherOperator {
    pub fn copy_operator(&self) -> (r: OtherOperator)
        ensures
            r@ == self@,
    {
        OtherOperator { name: self.name.clone(), value: self.value.copy_value() }
    }
}

pub fn copy_opt_value(o: &Option<MetadataValue>) -> (r: Option<MetadataValue>)
    ensures
        opt_value_view(r) == opt_value_view(*o),
{
    match o {
        Some(v) => Some(v.copy_value()),
        None => None,
    }
}

pub fn copy_opt_items(o: &Option<Vec<Item>>) -> (r: Option<Vec<Item>>)
    ensures
        opt_items_view(r) == opt_items_view(*o),
{
    match o {
        Some(v) => Some(copy_items(v)),
        None => None,
    }
}

pub fn copy_others(v: &Vec<OtherOperator>) -> (r: Vec<OtherOperator>)
    ensures
        others_view(r@) == others_view(v@),
{
    let mut r: Vec<OtherOperator> = Vec::new();
    let mut i: usize = 0;
    while i < v.len()
        invariant
            0 <= i <= v.len(),
            others_view(r@) == others_view(v@).take(i as int),
        decreases v.len() - i,
    {
        let ghost before = r@;
        r.push(v[i].copy_operator());
        proof {
            assert(others_view(r@) =~= others_view(before).push(v@[i as int]@));
            assert(others_view(v@).take(i + 1) =~= others_view(v@).take(i as int).push(
                v@[i as int]@,
            ));
        }
        i += 1;
    }
    proof {
        assert(others_view(v@).take(v.len() as int) =~= others_view(v@));
    }
    r
}

impl OperatorSet {
    /// An operator set with no operator.
    pub fn new() -> (r: OperatorSet)
        ensures
            r@.value is None,
            r@.default is None,
            r@.add is None,
            r@.one_of is None,
            r@.subset_of is None,
            r@.superset_of is None,
            r@.essential is None,
            r@.others.len() == 0,
    {
        OperatorSet {
            value: None,
            default: None,
            add: None,
            one_of: None,
            subset_of: None,
            superset_of: None,
            essential: None,
            others: Vec::new(),
        }
    }

    /// An independent copy of this operator set.
    pub fn copy_set(&self) -> (r: OperatorSet)
        ensures
            r@ == self@,
    {
        OperatorSet {
            value: copy_opt_value(&self.value),
            default: copy_opt_value(&self.default),
            add: copy_opt_items(&self.add),
            one_of: copy_opt_items(&self.one_of),
            subset_of: copy_opt_items(&self.subset_of),
            superset_of: copy_opt_items(&self.superset_of),
            essential: self.essential,
            others: copy_others(&self.others),
        }
    }
}

impl PolicyEntry {
    pub fn copy_entry(&self) -> (r: PolicyEntry)
        ensures
            r@ == self@,
    {
        PolicyEntry { name: self.name.clone(), operators: self.operators.copy_set() }
    }
}

impl MetadataEntry {
    pub fn copy_entry(&self) -> (r: MetadataEntry)
        ensures
            r@ == self@,
    {
        MetadataEntry { name: self.name.clone(), value: self.value.copy_value() }
    }
}

/// The index of the last entry of `d` named `name`.
pub fn find_policy_entry(d: &Vec<PolicyEntry>, name: &String) -> (r: Option<usize>)
    ensures
        match r {
            Some(i) => i as int == find_entry(policy_view(d@), name@) && i < d.len(),
            None => find_entry(policy_view(d@), name@) == -1,
        },
{
    let mut found: Option<usize> = None;
    let mut i: usize = 0;
    while i < d.len()
        invariant
            0 <= i <= d.len(),
            match found {
                Some(k) => k as int == find_entry(policy_view(d@).take(i as int), name@) && k < i,
                None => find_entry(policy_view(d@).take(i as int), name@) == -1,
            },
        decreases d.len() - i,
    {
        proof {
            assert(policy_view(d@).take(i + 1).drop_last() =~= policy_view(d@).take(i as int));
        }
        if d[i].name.eq(name) {
            found = Some(i);
        }
        i += 1;
    }
    proof {
        assert(policy_view(d@).take(d.len() as int) =~= policy_view(d@));
    }
    found
}

/// The index of the last entry of `d` named `name`.
pub fn find_metadata_entry(d: &Vec<MetadataEntry>, name: &String) -> (r: Option<usize>)
    ensures
        match r {
            Some(i) => i as int == find_entry(metadata_view(d@), name@) && i < d.len(),
            None => find_entry(metadata_view(d@), name@) == -1,
        },
{
    let mut found: Option<usize> = None;
    let mut i: usize = 0;
    while i < d.len()
        invariant
            0 <= i <= d.len(),
            match found {
                Some(k) => k as int == find_entry(metadata_view(d@).take(i as int), name@) && k < i,
                None => find_entry(metadata_view(d@).take(i as int), name@) == -1,
            },
        decreases d.len() - i,
    {
        proof {
            assert(metadata_view(d@).take(i + 1).drop_last() =~= metadata_view(d@).take(i as int));
        }
        if d[i].name.eq(name) {
            found = Some(i);
        }
        i += 1;
    }
    proof {
        assert(metadata_view(d@).take(d.len() as int) =~= metadata_view(d@));
    }
    found
}

} // verus!

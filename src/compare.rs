use vstd::prelude::*;

use crate::policy::{find_entry, find_metadata_entry, lemma_find_entry, metadata_view, MetadataEntry};
use crate::sets::{items_subset, subset};
use crate::value::{items_of, ItemView, ValueView};

verus! {

/// Two item lists hold the same members, whatever their order and repeats.
pub open spec fn same_members(a: Seq<ItemView>, b: Seq<ItemView>) -> bool {
    subset(a, b) && subset(b, a)
}

/// Each parameter name of `a` is a parameter name of `b`.
pub open spec fn names_within(a: Seq<(Seq<char>, ValueView)>, b: Seq<(Seq<char>, ValueView)>) -> bool {
    forall|i: int| 0 <= i < a.len() ==> find_entry(b, #[trigger] a[i].0) >= 0
}

/// Two metadata documents name the same parameters, and give each the same
/// members (array order and repeats do not count).
pub open spec fn equivalent(a: Seq<(Seq<char>, ValueView)>, b: Seq<(Seq<char>, ValueView)>) -> bool {
    &&& names_within(a, b)
    &&& names_within(b, a)
    &&& forall|i: int|
        0 <= i < a.len() ==> same_members(
            items_of(#[trigger] a[i].1),
            items_of(b[find_entry(b, a[i].0)].1),
        )
}

/// The parameter names of a document, each once, in order of first occurrence.
pub open spec fn distinct_names(d: Seq<(Seq<char>, ValueView)>) -> Seq<Seq<char>>
    decreases d.len(),
{
    if d.len() == 0 {
        Seq::empty()
    } else {
        let prev = distinct_names(d.drop_last());
        if prev.contains(d.last().0) {
            prev
        } else {
            prev.push(d.last().0)
        }
    }
}

pub open spec fn names_view(s: Seq<String>) -> Seq<Seq<char>> {
    s.map_values(|n: String| n@)
}

fn contains_name(v: &Vec<String>, name: &String) -> (r: bool)
    ensures
        r == names_view(v@).contains(name@),
{
    let mut i: usize = 0;
    while i < v.len()
        invariant
            0 <= i <= v.len(),
            forall|j: int| 0 <= j < i ==> #[trigger] names_view(v@)[j] != name@,
        decreases v.len() - i,
    {
        if v[i].eq(name) {
            proof {
                assert(names_view(v@)[i as int] == name@);
            }
            return true;
        }
        proof {
            assert(names_view(v@)[i as int] != name@);
        }
        i += 1;
    }
    false
}

/// The parameter names of a metadata document, each once.
pub fn get_hashset_from_only_names(values: &Vec<MetadataEntry>) -> (r: Vec<String>)
    ensures
        names_view(r@) == distinct_names(metadata_view(values@)),
{
    let mut r: Vec<String> = Vec::new();
    let mut i: usize = 0;
    proof {
        assert(names_view(r@) =~= Seq::<Seq<char>>::empty());
    }
    while i < values.len()
        invariant
            0 <= i <= values.len(),
            names_view(r@) == distinct_names(metadata_view(values@).take(i as int)),
        decreases values.len() - i,
    {
        proof {
            assert(metadata_view(values@).take(i + 1).drop_last() =~= metadata_view(values@).take(
                i as int,
            ));
        }
        if !contains_name(&r, &values[i].name) {
            let ghost before = r@;
            r.push(values[i].name.clone());
            proof {
                assert(names_view(r@) =~= names_view(before).push(values@[i as int].name@));
            }
        }
        i += 1;
    }
    proof {
        assert(metadata_view(values@).take(values.len() as int) =~= metadata_view(values@));
    }
    r
}

/// Whether two metadata documents are equal when each array is read as a set.
pub fn check_equal(v1: &Vec<MetadataEntry>, v2: &Vec<MetadataEntry>) -> (r: bool)
    ensures
        r == equivalent(metadata_view(v1@), metadata_view(v2@)),
{
    let ghost a = metadata_view(v1@);
    let ghost b = metadata_view(v2@);
    let mut i: usize = 0;
    while i < v1.len()
        invariant
            0 <= i <= v1.len(),
            a == metadata_view(v1@),
            b == metadata_view(v2@),
            forall|k: int| 0 <= k < i ==> find_entry(b, #[trigger] a[k].0) >= 0,
            forall|k: int|
                0 <= k < i ==> same_members(
                    items_of(#[trigger] a[k].1),
                    items_of(b[find_entry(b, a[k].0)].1),
                ),
        decreases v1.len() - i,
    {
        proof {
            lemma_find_entry(b, a[i as int].0);
        }
        match find_metadata_entry(v2, &v1[i].name) {
            None => {
                proof {
                    assert(find_entry(b, a[i as int].0) < 0);
                }
                return false;
            },
            Some(k) => {
                let x = v1[i].value.items();
                let y = v2[k].value.items();
                if !(items_subset(&x, &y) && items_subset(&y, &x)) {
                    proof {
                        assert(!same_members(items_of(a[i as int].1), items_of(b[k as int].1)));
                    }
                    return false;
                }
            },
        }
        i += 1;
    }
    let mut j: usize = 0;
    while j < v2.len()
        invariant
            0 <= j <= v2.len(),
            a == metadata_view(v1@),
            b == metadata_view(v2@),
            names_within(a, b),
            forall|k: int|
                0 <= k < a.len() ==> same_members(
                    items_of(#[trigger] a[k].1),
                    items_of(b[find_entry(b, a[k].0)].1),
                ),
            forall|k: int| 0 <= k < j ==> find_entry(a, #[trigger] b[k].0) >= 0,
        decreases v2.len() - j,
    {
        if find_metadata_entry(v1, &v2[j].name).is_none() {
            proof {
                assert(find_entry(a, b[j as int].0) < 0);
            }
            return false;
        }
        j += 1;
    }
    true
}

} // verus!

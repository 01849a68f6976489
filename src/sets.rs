use vstd::prelude::*;

use crate::value::{copy_items, items_of, items_view, Item, ItemView, MetadataValue};

verus! {

/// Every member of `a` is a member of `b`.
pub open spec fn subset(a: Seq<ItemView>, b: Seq<ItemView>) -> bool {
    forall|i: int| 0 <= i < a.len() ==> b.contains(a[i])
}

/// Appends to `acc`, in the order of `s`, each item of `s` that `allowed`
/// holds and that is not yet in the sequence built so far.
pub open spec fn keep_first(acc: Seq<ItemView>, s: Seq<ItemView>, allowed: Seq<ItemView>) -> Seq<
    ItemView,
>
    decreases s.len(),
{
    if s.len() == 0 {
        acc
    } else {
        let prev = keep_first(acc, s.drop_last(), allowed);
        let x = s.last();
        if allowed.contains(x) && !prev.contains(x) {
            prev.push(x)
        } else {
            prev
        }
    }
}

/// The items of `s` that `allowed` holds, in order, repeats included.
pub open spec fn filter_members(s: Seq<ItemView>, allowed: Seq<ItemView>) -> Seq<ItemView>
    decreases s.len(),
{
    if s.len() == 0 {
        s
    } else {
        let prev = filter_members(s.drop_last(), allowed);
        if allowed.contains(s.last()) {
            prev.push(s.last())
        } else {
            prev
        }
    }
}

/// Every item of `a` that `members` holds, in `a`'s order and with its
/// repeats; then each item of `b` that `members` holds and that is not yet
/// present, in `b`'s order.
pub open spec fn ordered_merge(a: Seq<ItemView>, b: Seq<ItemView>, members: Seq<ItemView>) -> Seq<
    ItemView,
> {
    keep_first(filter_members(a, members), b, members)
}

/// The union of `a` and `b` without repeats: `a`'s items first, then `b`'s
/// new ones, each once, in order of first occurrence.
pub open spec fn ordered_union(a: Seq<ItemView>, b: Seq<ItemView>) -> Seq<ItemView> {
    distinct(a + b)
}

/// The items of `a` that `b` holds, each once, in `a`'s order.
pub open spec fn intersection(a: Seq<ItemView>, b: Seq<ItemView>) -> Seq<ItemView> {
    keep_first(Seq::empty(), a, b)
}

/// The items of `s`, each once, in order of first occurrence.
pub open spec fn distinct(s: Seq<ItemView>) -> Seq<ItemView> {
    keep_first(Seq::empty(), s, s)
}

pub proof fn lemma_keep_first_contains(
    acc: Seq<ItemView>,
    s: Seq<ItemView>,
    allowed: Seq<ItemView>,
    x: ItemView,
)
    ensures
        keep_first(acc, s, allowed).contains(x) <==> (acc.contains(x) || (s.contains(x)
            && allowed.contains(x))),
    decreases s.len(),
{
    if s.len() > 0 {
        let d = s.drop_last();
        let x0 = s.last();
        lemma_keep_first_contains(acc, d, allowed, x);
        let prev = keep_first(acc, d, allowed);
        assert(s.contains(x) <==> (d.contains(x) || x == x0)) by {
            if s.contains(x) {
                let i = choose|i: int| 0 <= i < s.len() && s[i] == x;
                if i < s.len() - 1 {
                    assert(d[i] == x);
                }
            }
            if d.contains(x) {
                let i = choose|i: int| 0 <= i < d.len() && d[i] == x;
                assert(s[i] == x);
            }
            if x == x0 {
                assert(s[s.len() - 1] == x);
            }
        }
        if allowed.contains(x0) && !prev.contains(x0) {
            let r = prev.push(x0);
            assert(r.contains(x) <==> (prev.contains(x) || x == x0)) by {
                if r.contains(x) {
                    let i = choose|i: int| 0 <= i < r.len() && r[i] == x;
                    if i < prev.len() {
                        assert(prev[i] == x);
                    }
                }
                if prev.contains(x) {
                    let i = choose|i: int| 0 <= i < prev.len() && prev[i] == x;
                    assert(r[i] == x);
                }
                if x == x0 {
                    assert(r[prev.len() as int] == x0);
                }
            }
        }
    }
}

pub proof fn lemma_keep_first_no_duplicates(
    acc: Seq<ItemView>,
    s: Seq<ItemView>,
    allowed: Seq<ItemView>,
)
    requires
        acc.no_duplicates(),
    ensures
        keep_first(acc, s, allowed).no_duplicates(),
    decreases s.len(),
{
    if s.len() > 0 {
        lemma_keep_first_no_duplicates(acc, s.drop_last(), allowed);
        let prev = keep_first(acc, s.drop_last(), allowed);
        let x = s.last();
        if allowed.contains(x) && !prev.contains(x) {
            let r = prev.push(x);
            assert forall|i: int, j: int| 0 <= i < r.len() && 0 <= j < r.len() && i != j implies r[i]
                != r[j] by {
                if i == prev.len() {
                    assert(r[j] == prev[j]);
                } else if j == prev.len() {
                    assert(r[i] == prev[i]);
                }
            }
        }
    }
}

/// Already present items are not added again.
pub proof fn lemma_keep_first_absorbs(acc: Seq<ItemView>, s: Seq<ItemView>, allowed: Seq<ItemView>)
    requires
        subset(s, acc),
    ensures
        keep_first(acc, s, allowed) == acc,
    decreases s.len(),
{
    if s.len() > 0 {
        assert(subset(s.drop_last(), acc)) by {
            assert forall|i: int| 0 <= i < s.drop_last().len() implies acc.contains(
                s.drop_last()[i],
            ) by {
                assert(s.drop_last()[i] == s[i]);
            }
        }
        lemma_keep_first_absorbs(acc, s.drop_last(), allowed);
        assert(acc.contains(s[s.len() - 1]));
    }
}

/// A duplicate-free sequence whose items are all allowed is kept as it is.
pub proof fn lemma_keep_first_identity(s: Seq<ItemView>, allowed: Seq<ItemView>)
    requires
        s.no_duplicates(),
        subset(s, allowed),
    ensures
        keep_first(Seq::empty(), s, allowed) == s,
    decreases s.len(),
{
    if s.len() > 0 {
        let d = s.drop_last();
        assert(d.no_duplicates());
        assert(subset(d, allowed)) by {
            assert forall|i: int| 0 <= i < d.len() implies allowed.contains(d[i]) by {
                assert(d[i] == s[i]);
            }
        }
        lemma_keep_first_identity(d, allowed);
        assert(allowed.contains(s[s.len() - 1]));
        if d.contains(s.last()) {
            let i = choose|i: int| 0 <= i < d.len() && d[i] == s.last();
            assert(s[i] == s[s.len() - 1]);
        }
        assert(s =~= d.push(s.last()));
    }
}

/// Only membership in `allowed` matters, and only for the items of `s`.
pub proof fn lemma_keep_first_allowed(
    acc: Seq<ItemView>,
    s: Seq<ItemView>,
    al1: Seq<ItemView>,
    al2: Seq<ItemView>,
)
    requires
        forall|i: int| 0 <= i < s.len() ==> (al1.contains(s[i]) <==> al2.contains(s[i])),
    ensures
        keep_first(acc, s, al1) == keep_first(acc, s, al2),
    decreases s.len(),
{
    if s.len() > 0 {
        let d = s.drop_last();
        assert forall|i: int| 0 <= i < d.len() implies (al1.contains(d[i]) <==> al2.contains(
            d[i],
        )) by {
            assert(d[i] == s[i]);
        }
        lemma_keep_first_allowed(acc, d, al1, al2);
        assert(s.last() == s[s.len() - 1]);
    }
}

pub proof fn lemma_filter_members_contains(s: Seq<ItemView>, allowed: Seq<ItemView>, x: ItemView)
    ensures
        filter_members(s, allowed).contains(x) <==> (s.contains(x) && allowed.contains(x)),
    decreases s.len(),
{
    if s.len() > 0 {
        let d = s.drop_last();
        let x0 = s.last();
        lemma_filter_members_contains(d, allowed, x);
        let prev = filter_members(d, allowed);
        assert(s.contains(x) <==> (d.contains(x) || x == x0)) by {
            if s.contains(x) {
                let i = choose|i: int| 0 <= i < s.len() && s[i] == x;
                if i < s.len() - 1 {
                    assert(d[i] == x);
                }
            }
            if d.contains(x) {
                let i = choose|i: int| 0 <= i < d.len() && d[i] == x;
                assert(s[i] == x);
            }
            if x == x0 {
                assert(s[s.len() - 1] == x);
            }
        }
        if allowed.contains(x0) {
            let r = prev.push(x0);
            assert(r.contains(x) <==> (prev.contains(x) || x == x0)) by {
                if r.contains(x) {
                    let i = choose|i: int| 0 <= i < r.len() && r[i] == x;
                    if i < prev.len() {
                        assert(prev[i] == x);
                    }
                }
                if prev.contains(x) {
                    let i = choose|i: int| 0 <= i < prev.len() && prev[i] == x;
                    assert(r[i] == x);
                }
                if x == x0 {
                    assert(r[prev.len() as int] == x0);
                }
            }
        }
    }
}

/// Going through `a + b` is going through `a`, then through `b`.
pub proof fn lemma_keep_first_concat(
    acc: Seq<ItemView>,
    a: Seq<ItemView>,
    b: Seq<ItemView>,
    allowed: Seq<ItemView>,
)
    ensures
        keep_first(acc, a + b, allowed) == keep_first(keep_first(acc, a, allowed), b, allowed),
    decreases b.len(),
{
    if b.len() == 0 {
        assert(a + b =~= a);
    } else {
        assert((a + b).drop_last() =~= a + b.drop_last());
        assert((a + b).last() == b.last());
        lemma_keep_first_concat(acc, a, b.drop_last(), allowed);
    }
}

/// The members of an ordered merge, as a set.
pub proof fn lemma_ordered_merge_set(a: Seq<ItemView>, b: Seq<ItemView>, m: Seq<ItemView>)
    ensures
        ordered_merge(a, b, m).to_set() == a.to_set().union(b.to_set()).intersect(m.to_set()),
{
    let first = filter_members(a, m);
    assert forall|x: ItemView| ordered_merge(a, b, m).to_set().contains(x) <==> a.to_set().union(
        b.to_set(),
    ).intersect(m.to_set()).contains(x) by {
        lemma_filter_members_contains(a, m, x);
        lemma_keep_first_contains(first, b, m, x);
    }
    assert(ordered_merge(a, b, m).to_set() =~= a.to_set().union(b.to_set()).intersect(m.to_set()));
}

/// Whether `x` is one of the items of `v`.
pub fn contains_item(v: &Vec<Item>, x: &Item) -> (r: bool)
    ensures
        r == items_view(v@).contains(x@),
{
    let mut i: usize = 0;
    while i < v.len()
        invariant
            0 <= i <= v.len(),
            forall|j: int| 0 <= j < i ==> v@[j]@ != x@,
        decreases v.len() - i,
    {
        if v[i].same_as(x) {
            proof {
                assert(items_view(v@)[i as int] == x@);
            }
            return true;
        }
        i += 1;
    }
    proof {
        if items_view(v@).contains(x@) {
            let j = choose|j: int| 0 <= j < v.len() && items_view(v@)[j] == x@;
            assert(v@[j]@ == x@);
        }
    }
    false
}

/// Appends to `out` each item of `s` that `allowed` holds and `out` does not.
pub fn keep_first_into(out: &mut Vec<Item>, s: &Vec<Item>, allowed: &Vec<Item>)
    ensures
        items_view(final(out)@) == keep_first(
            items_view(old(out)@),
            items_view(s@),
            items_view(allowed@),
        ),
{
    let ghost acc = items_view(out@);
    let mut i: usize = 0;
    while i < s.len()
        invariant
            0 <= i <= s.len(),
            items_view(out@) == keep_first(acc, items_view(s@).take(i as int), items_view(allowed@)),
        decreases s.len() - i,
    {
        proof {
            assert(items_view(s@).take(i + 1).drop_last() =~= items_view(s@).take(i as int));
            assert(items_view(s@).take(i + 1).last() == s@[i as int]@);
        }
        let keep = contains_item(allowed, &s[i]) && !contains_item(out, &s[i]);
        if keep {
            let ghost before = out@;
            out.push(s[i].copy_item());
            proof {
                assert(items_view(out@) =~= items_view(before).push(s@[i as int]@));
            }
        }
        i += 1;
    }
    proof {
        assert(items_view(s@).take(s.len() as int) =~= items_view(s@));
    }
}

/// Appends to `out` each item of `s` that `allowed` holds, repeats included.
pub fn filter_into(out: &mut Vec<Item>, s: &Vec<Item>, allowed: &Vec<Item>)
    ensures
        items_view(final(out)@) == items_view(old(out)@) + filter_members(
            items_view(s@),
            items_view(allowed@),
        ),
{
    let ghost acc = items_view(out@);
    let mut i: usize = 0;
    proof {
        assert(acc + filter_members(items_view(s@).take(0), items_view(allowed@)) =~= acc);
    }
    while i < s.len()
        invariant
            0 <= i <= s.len(),
            items_view(out@) == acc + filter_members(items_view(s@).take(i as int), items_view(allowed@)),
        decreases s.len() - i,
    {
        proof {
            assert(items_view(s@).take(i + 1).drop_last() =~= items_view(s@).take(i as int));
            assert(items_view(s@).take(i + 1).last() == s@[i as int]@);
        }
        if contains_item(allowed, &s[i]) {
            let ghost before = out@;
            out.push(s[i].copy_item());
            proof {
                let p = filter_members(items_view(s@).take(i as int), items_view(allowed@));
                assert(items_view(out@) =~= items_view(before).push(s@[i as int]@));
                assert((acc + p).push(s@[i as int]@) =~= acc + p.push(s@[i as int]@));
            }
        }
        i += 1;
    }
    proof {
        assert(items_view(s@).take(s.len() as int) =~= items_view(s@));
    }
}

/// Whether every item of `a` is also an item of `b`.
pub fn items_subset(a: &Vec<Item>, b: &Vec<Item>) -> (r: bool)
    ensures
        r == subset(items_view(a@), items_view(b@)),
{
    let mut i: usize = 0;
    while i < a.len()
        invariant
            0 <= i <= a.len(),
            forall|j: int| 0 <= j < i ==> items_view(b@).contains(#[trigger] items_view(a@)[j]),
        decreases a.len() - i,
    {
        if !contains_item(b, &a[i]) {
            proof {
                assert(items_view(a@)[i as int] == a@[i as int]@);
            }
            return false;
        }
        i += 1;
    }
    true
}

/// Every item of `ta_orderd_items` that `added_items` holds, repeats
/// included; then each item of `ia_orderd_items` that `added_items` holds
/// and that is not yet present.
pub fn get_ordered_array(
    ta_orderd_items: &Vec<Item>,
    ia_orderd_items: &Vec<Item>,
    added_items: &Vec<Item>,
) -> (r: Vec<Item>)
    ensures
        items_view(r@) == ordered_merge(
            items_view(ta_orderd_items@),
            items_view(ia_orderd_items@),
            items_view(added_items@),
        ),
{
    let mut r: Vec<Item> = Vec::new();
    proof {
        assert(items_view(r@) =~= Seq::<ItemView>::empty());
    }
    filter_into(&mut r, ta_orderd_items, added_items);
    proof {
        let f = filter_members(items_view(ta_orderd_items@), items_view(added_items@));
        assert(Seq::<ItemView>::empty() + f =~= f);
    }
    keep_first_into(&mut r, ia_orderd_items, added_items);
    r
}

/// The items of `a` followed by those of `b`.
pub fn concat_items(a: &Vec<Item>, b: &Vec<Item>) -> (r: Vec<Item>)
    ensures
        items_view(r@) == items_view(a@) + items_view(b@),
{
    let mut all = copy_items(a);
    let ghost av = items_view(all@);
    let mut i: usize = 0;
    while i < b.len()
        invariant
            0 <= i <= b.len(),
            items_view(all@) == av + items_view(b@).take(i as int),
            av == items_view(a@),
        decreases b.len() - i,
    {
        let ghost before = all@;
        all.push(b[i].copy_item());
        proof {
            assert(items_view(all@) =~= items_view(before).push(b@[i as int]@));
            assert(items_view(b@).take(i + 1) =~= items_view(b@).take(i as int).push(b@[i as int]@));
        }
        i += 1;
    }
    proof {
        assert(items_view(b@).take(b.len() as int) =~= items_view(b@));
    }
    all
}

/// `a`'s items, then those of `b` not met before, each once.
pub fn union_items(a: &Vec<Item>, b: &Vec<Item>) -> (r: Vec<Item>)
    ensures
        items_view(r@) == ordered_union(items_view(a@), items_view(b@)),
{
    let all = concat_items(a, b);
    intersect_items(&all, &all)
}

/// The items of `a` that `b` holds, each once, in `a`'s order.
pub fn intersect_items(a: &Vec<Item>, b: &Vec<Item>) -> (r: Vec<Item>)
    ensures
        items_view(r@) == intersection(items_view(a@), items_view(b@)),
{
    let mut r: Vec<Item> = Vec::new();
    proof {
        assert(items_view(r@) =~= Seq::<ItemView>::empty());
    }
    keep_first_into(&mut r, a, b);
    r
}

/// The members of a value, each once, in order of first occurrence (a scalar
/// gives a list of one).
pub fn get_hashset_from_values(values: &MetadataValue) -> (r: Vec<Item>)
    ensures
        items_view(r@) == distinct(items_of(values@)),
{
    let all = values.items();
    intersect_items(&all, &all)
}

/// Whether every member of `val` is a member of `val2`.
pub fn is_subset_of(val: &MetadataValue, val2: &MetadataValue) -> (r: bool)
    ensures
        r == subset(items_of(val@), items_of(val2@)),
{
    items_subset(&val.items(), &val2.items())
}

/// Whether every member of `val2` is a member of `val`.
pub fn is_superset_of(val: &MetadataValue, val2: &MetadataValue) -> (r: bool)
    ensures
        r == subset(items_of(val2@), items_of(val@)),
{
    items_subset(&val2.items(), &val.items())
}

/// The members of `val` that `val2` holds, each once, in `val`'s order.
pub fn intersection_of(val: &MetadataValue, val2: &MetadataValue) -> (r: Vec<Item>)
    ensures
        items_view(r@) == intersection(items_of(val@), items_of(val2@)),
{
    intersect_items(&val.items(), &val2.items())
}

} // verus!

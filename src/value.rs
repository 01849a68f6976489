use vstd::prelude::*;
use vstd::string::StringExecFns;

verus! {

/// One member of a JSON array, or a JSON scalar. `Text` holds the compact
/// JSON text, without spaces and with object keys in sorted order, of any
/// value that is neither `null` nor a boolean (a number, a string, an object,
/// or a nested array).
#[derive(Debug, PartialEq, Eq)]
pub enum Item {
    Null,
    Bool(bool),
    Text(String),
}

/// The mathematical form of an [`Item`].
pub enum ItemView {
    Null,
    Bool(bool),
    Text(Seq<char>),
}

impl View for Item {
    type V = ItemView;

    open spec fn view(&self) -> ItemView {
        match self {
            Item::Null => ItemView::Null,
            Item::Bool(b) => ItemView::Bool(*b),
            Item::Text(s) => ItemView::Text(s@),
        }
    }
}

impl Item {
    /// An independent copy of this item.
    pub fn copy_item(&self) -> (r: Item)
        ensures
            r@ == self@,
    {
        match self {
            Item::Null => Item::Null,
            Item::Bool(b) => Item::Bool(*b),
            Item::Text(s) => Item::Text(s.clone()),
        }
    }

    /// Whether two items denote the same JSON value.
    pub fn same_as(&self, other: &Item) -> (r: bool)
        ensures
            r == (self@ == other@),
    {
        match (self, other) {
            (Item::Null, Item::Null) => true,
            (Item::Bool(a), Item::Bool(b)) => *a == *b,
            (Item::Text(a), Item::Text(b)) => a.eq(b),
            _ => false,
        }
    }
}


/// A metadata parameter's content: one scalar, or an array of items.
#[derive(Debug, PartialEq, Eq)]
pub enum MetadataValue {
    Single(Item),
    Array(Vec<Item>),
}

/// The mathematical form of a [`MetadataValue`].
pub enum ValueView {
    Single(ItemView),
    Array(Seq<ItemView>),
}

pub open spec fn items_view(s: Seq<Item>) -> Seq<ItemView> {
    s.map_values(|i: Item| i@)
}

impl View for MetadataValue {
    type V = ValueView;

    open spec fn view(&self) -> ValueView {
        match self {
            MetadataValue::Single(i) => ValueView::Single(i@),
            MetadataValue::Array(v) => ValueView::Array(items_view(v@)),
        }
    }
}

/// The members of a value seen as a set: a scalar stands for itself alone.
pub open spec fn items_of(v: ValueView) -> Seq<ItemView> {
    match v {
        ValueView::Single(i) => seq![i],
        ValueView::Array(s) => s,
    }
}

pub open spec fn is_null(v: ValueView) -> bool {
    v == ValueView::Single(ItemView::Null)
}

/// An independent copy of a list of items.
pub fn copy_items(v: &Vec<Item>) -> (r: Vec<Item>)
    ensures
        items_view(r@) == items_view(v@),
{
    let mut r: Vec<Item> = Vec::new();
    let mut i: usize = 0;
    while i < v.len()
        invariant
            0 <= i <= v.len(),
            items_view(r@) == items_view(v@).take(i as int),
        decreases v.len() - i,
    {
        let ghost before = r@;
        r.push(v[i].copy_item());
        proof {
            assert(items_view(r@) =~= items_view(before).push(v@[i as int]@));
            assert(items_view(v@).take(i + 1) =~= items_view(v@).take(i as int).push(v@[i as int]@));
        }
        i += 1;
    }
    proof {
        assert(items_view(v@).take(v.len() as int) =~= items_view(v@));
    }
    r
}

/// Whether two lists hold the same items in the same order.
pub fn items_equal(a: &Vec<Item>, b: &Vec<Item>) -> (r: bool)
    ensures
        r == (items_view(a@) == items_view(b@)),
{
    if a.len() != b.len() {
        proof {
            assert(items_view(a@).len() != items_view(b@).len());
        }
        return false;
    }
    let mut i: usize = 0;
    while i < a.len()
        invariant
            0 <= i <= a.len(),
            a.len() == b.len(),
            forall|j: int| 0 <= j < i ==> a@[j]@ == b@[j]@,
        decreases a.len() - i,
    {
        if !a[i].same_as(&b[i]) {
            proof {
                assert(items_view(a@)[i as int] != items_view(b@)[i as int]);
            }
            return false;
        }
        i += 1;
    }
    proof {
        assert(items_view(a@) =~= items_view(b@));
    }
    true
}

impl MetadataValue {
    /// An independent copy of this value.
    pub fn copy_value(&self) -> (r: MetadataValue)
        ensures
            r@ == self@,
    {
        match self {
            MetadataValue::Single(i) => MetadataValue::Single(i.copy_item()),
            MetadataValue::Array(v) => MetadataValue::Array(copy_items(v)),
        }
    }

    pub fn is_null(&self) -> (r: bool)
        ensures
            r == is_null(self@),
    {
        match self {
            MetadataValue::Single(Item::Null) => true,
            _ => false,
        }
    }

    /// Whether two values are literally equal: same shape, and for arrays the
    /// same items in the same order.
    pub fn same_as(&self, other: &MetadataValue) -> (r: bool)
        ensures
            r == (self@ == other@),
    {
        match (self, other) {
            (MetadataValue::Single(a), MetadataValue::Single(b)) => a.same_as(b),
            (MetadataValue::Array(a), MetadataValue::Array(b)) => items_equal(a, b),
            _ => false,
        }
    }

    /// The members of this value as a list (a scalar gives a list of one).
    pub fn items(&self) -> (r: Vec<Item>)
        ensures
            items_view(r@) == items_of(self@),
    {
        match self {
            MetadataValue::Single(i) => {
                let mut r: Vec<Item> = Vec::new();
                r.push(i.copy_item());
                proof {
                    assert(items_view(r@) =~= seq![i@]);
                }
                r
            },
            MetadataValue::Array(v) => copy_items(v),
        }
    }
}

/// The compact JSON text of an item.
pub open spec fn item_text(i: ItemView) -> Seq<char> {
    match i {
        ItemView::Null => "null"@,
        ItemView::Bool(b) => if b {
            "true"@
        } else {
            "false"@
        },
        ItemView::Text(t) => t,
    }
}

/// The texts of the items, separated by commas.
pub open spec fn joined_text(s: Seq<ItemView>) -> Seq<char>
    decreases s.len(),
{
    if s.len() == 0 {
        Seq::empty()
    } else if s.len() == 1 {
        item_text(s[0])
    } else {
        joined_text(s.drop_last()) + ","@ + item_text(s.last())
    }
}

/// The compact JSON text of an array of items.
pub open spec fn array_text(s: Seq<ItemView>) -> Seq<char> {
    "["@ + joined_text(s) + "]"@
}

impl Item {
    /// The compact JSON text of this item.
    pub fn text(&self) -> (r: String)
        ensures
            r@ == item_text(self@),
    {
        match self {
            Item::Null => String::from_str("null"),
            Item::Bool(true) => String::from_str("true"),
            Item::Bool(false) => String::from_str("false"),
            Item::Text(t) => t.clone(),
        }
    }
}

/// The compact JSON text of an array of items.
pub fn array_text_of(v: &Vec<Item>) -> (r: String)
    ensures
        r@ == array_text(items_view(v@)),
{
    let mut body = String::new();
    let mut i: usize = 0;
    while i < v.len()
        invariant
            0 <= i <= v.len(),
            body@ == joined_text(items_view(v@).take(i as int)),
        decreases v.len() - i,
    {
        proof {
            assert(items_view(v@).take(i + 1).drop_last() =~= items_view(v@).take(i as int));
            assert(items_view(v@).take(i + 1).last() == v@[i as int]@);
        }
        if i > 0 {
            body.append(",");
        }
        let t = v[i].text();
        body.append(t.as_str());
        proof {
            if i == 0 {
                assert(body@ =~= item_text(items_view(v@).take(1)[0]));
            }
        }
        i += 1;
    }
    proof {
        assert(items_view(v@).take(v.len() as int) =~= items_view(v@));
    }
    let mut r = String::from_str("[");
    r.append(body.as_str());
    r.append("]");
    r
}

} // verus!

use crate::data::json::{Json, JsonView};
use crate::fake::lorem::is_paragraph;
use crate::json::{JsonPathItem, JsonValue};
use fake::Fake;
use vstd::prelude::*;

verus! {

/// A found scalar together with the kind of fake value chosen for it.
#[derive(Debug)]
pub struct ItemWithFaker {
    pub item: JsonPathItem,
    pub faker_type: FakerType,
}

/// The kind of fake value to put in place of a value.
#[derive(Debug, Clone, Copy, PartialEq, Eq)]
pub enum FakerType {
    /// Keeps the value as it is
    Ignore,
    Boolean,
    LoremIpsum,
    Integer(FakerIntegerType),
    Float(FakerFloatType),
    Ip(FakerIpType),
    Name(FakerNameType),
    DateTime(FakerDateTimeType),
    User(FakerUserType),
    File(FakerFileType),
}

#[derive(Debug, Clone, Copy, PartialEq, Eq)]
pub enum FakerFileType {
    FileName,
    FileExtension,
    FilePath,
}

#[derive(Debug, Clone, Copy, PartialEq, Eq)]
pub enum FakerDateTimeType {
    Date,
    DateTime,
    Duration,
}

#[derive(Debug, Clone, Copy, PartialEq, Eq)]
pub enum FakerUserType {
    Email,
    Username,
    Password,
    PhoneNumber,
    Address,
}

#[derive(Debug, Clone, Copy, PartialEq, Eq)]
pub enum FakerNameType {
    FirstName,
    LastName,
    Name,
    NameWithTitle,
    Suffix,
    Title,
}

#[derive(Debug, Clone, Copy, PartialEq, Eq)]
pub enum FakerIpType {
    Ipv4,
    Ipv6,
}

#[derive(Debug, Clone, Copy, PartialEq, Eq)]
pub enum FakerIntegerType {
    I8,
    U8,
    I16,
    U16,
    I32,
    U32,
    I64,
    U64,
}

#[derive(Debug, Clone, Copy, PartialEq, Eq)]
pub enum FakerFloatType {
    F32,
    F64,
}

/// The kinds of value a fake value kind suits.
#[derive(Debug, Clone, Copy, PartialEq, Eq, Structural)]
pub enum FakerTypeFilter {
    Number,
    String,
    Boolean,
}

/// `fake::faker::boolean::en::Boolean(1)`: a random boolean, true with a
/// chance of one in a hundred.
#[verifier::external_body]
fn fake_boolean() -> (r: bool) {
    fake::faker::boolean::en::Boolean(1).fake()
}

/// `fake::faker::lorem::zh_tw::Paragraph(0..50)`: a random paragraph of up
/// to 49 sentences, each of four to nine words.
#[verifier::external_body]
fn fake_paragraph() -> (r: String)
    ensures
        is_paragraph(r@, 0, 50),
{
    fake::faker::lorem::zh_tw::Paragraph(0..50).fake()
}

/// Whether a fake value of this kind can be made.
pub open spec fn can_fake(t: FakerType) -> bool {
    t is Ignore || t is Boolean || t is LoremIpsum
}

impl FakerType {
    /// A fake value of this kind in place of `original_value`: the value
    /// itself for `Ignore`, a random boolean or a random paragraph.
    pub fn fake(&self, original_value: &Json) -> (r: Json)
        requires
            can_fake(*self),
        ensures
            *self is Ignore ==> r@ == original_value@,
            *self is Boolean ==> r@ is Bool,
            *self is LoremIpsum ==> (r@ matches JsonView::String(t) && is_paragraph(t, 0, 50)),
    {
        match self {
            FakerType::Ignore => original_value.deep_clone(),
            FakerType::Boolean => Json::Bool(fake_boolean()),
            _ => Json::String(fake_paragraph()),
        }
    }
}

/// A kind of fake value as offered for a choice: its name, the kinds of
/// value it suits, and the kind itself.
#[derive(Debug)]
pub struct FakerItem {
    pub name: &'static str,
    pub filter: Vec<FakerTypeFilter>,
    pub ty: FakerType,
}

/// The name, suited kinds and kind of each offered item, in order.
pub open spec fn faker_type_items_spec() -> Seq<(Seq<char>, Seq<FakerTypeFilter>, FakerType)> {
    seq![
        ("Ignore"@, seq![FakerTypeFilter::Number, FakerTypeFilter::String, FakerTypeFilter::Boolean], FakerType::Ignore),
        ("Boolean"@, seq![FakerTypeFilter::Boolean], FakerType::Boolean),
        ("Lorem Ipsum"@, seq![FakerTypeFilter::String], FakerType::LoremIpsum),
        ("Integer (64bit)"@, seq![FakerTypeFilter::Number], FakerType::Integer(FakerIntegerType::I64)),
    ]
}

/// Offered items as seen by specifications.
pub open spec fn faker_items_view(s: Seq<FakerItem>) -> Seq<(Seq<char>, Seq<FakerTypeFilter>, FakerType)> {
    s.map_values(|it: FakerItem| (it.name@, it.filter@, it.ty))
}

/// Every kind of fake value that is offered, in order.
pub fn faker_type_items() -> (r: Vec<FakerItem>)
    ensures
        faker_items_view(r@) == faker_type_items_spec(),
{
    let all = vec![FakerTypeFilter::Number, FakerTypeFilter::String, FakerTypeFilter::Boolean];
    let r = vec![
        FakerItem { name: "Ignore", filter: all, ty: FakerType::Ignore },
        FakerItem {
            name: "Boolean",
            filter: vec![FakerTypeFilter::Boolean],
            ty: FakerType::Boolean,
        },
        FakerItem {
            name: "Lorem Ipsum",
            filter: vec![FakerTypeFilter::String],
            ty: FakerType::LoremIpsum,
        },
        FakerItem {
            name: "Integer (64bit)",
            filter: vec![FakerTypeFilter::Number],
            ty: FakerType::Integer(FakerIntegerType::I64),
        },
    ];
    assert(r@[0].filter@ =~= seq![FakerTypeFilter::Number, FakerTypeFilter::String, FakerTypeFilter::Boolean]);
    assert(r@[1].filter@ =~= seq![FakerTypeFilter::Boolean]);
    assert(r@[2].filter@ =~= seq![FakerTypeFilter::String]);
    assert(r@[3].filter@ =~= seq![FakerTypeFilter::Number]);
    assert(faker_items_view(r@) =~= faker_type_items_spec());
    r
}

/// The kind of value a found scalar is, none for null.
pub open spec fn value_filter(v: JsonView) -> Option<FakerTypeFilter> {
    match v {
        JsonView::Number(_) => Some(FakerTypeFilter::Number),
        JsonView::String(_) => Some(FakerTypeFilter::String),
        JsonView::Bool(_) => Some(FakerTypeFilter::Boolean),
        _ => None,
    }
}

/// Whether an offered item suits a value of the kind `f` (any item suits a
/// null value).
pub open spec fn item_suits(item: (Seq<char>, Seq<FakerTypeFilter>, FakerType), f: Option<FakerTypeFilter>) -> bool {
    match f {
        None => true,
        Some(k) => item.1.contains(k),
    }
}

/// The items suiting a value of kind `f`, in order.
pub open spec fn suiting_items(
    items: Seq<(Seq<char>, Seq<FakerTypeFilter>, FakerType)>,
    f: Option<FakerTypeFilter>,
) -> Seq<(Seq<char>, Seq<FakerTypeFilter>, FakerType)>
    decreases items.len(),
{
    if items.len() == 0 {
        seq![]
    } else {
        let rest = suiting_items(items.drop_last(), f);
        if item_suits(items.last(), f) {
            rest.push(items.last())
        } else {
            rest
        }
    }
}

fn filter_of(value: &JsonValue) -> (r: Option<FakerTypeFilter>)
    ensures
        r == value_filter(value@),
{
    match value {
        JsonValue::Number(_) => Some(FakerTypeFilter::Number),
        JsonValue::String(_) => Some(FakerTypeFilter::String),
        JsonValue::Boolean(_) => Some(FakerTypeFilter::Boolean),
        JsonValue::Null => None,
    }
}

fn filter_contains(filter: &Vec<FakerTypeFilter>, f: FakerTypeFilter) -> (r: bool)
    ensures
        r == filter@.contains(f),
{
    let mut i: usize = 0;
    while i < filter.len()
        invariant
            0 <= i <= filter@.len(),
            forall|j: int| 0 <= j < i ==> filter@[j] != f,
        decreases filter@.len() - i,
    {
        if filter[i] == f {
            assert(filter@[i as int] == f);
            return true;
        }
        i = i + 1;
    }
    false
}

/// The kinds of fake value offered for a found scalar: those suiting the
/// kind of its value, all of them for a null value, in order.
pub fn faker_items_for(item: &JsonPathItem) -> (r: Vec<FakerItem>)
    ensures
        faker_items_view(r@) == suiting_items(faker_type_items_spec(), value_filter(item.value@)),
{
    let f = filter_of(&item.value);
    let mut rest = faker_type_items();
    let ghost spec_items = faker_items_view(rest@);
    let mut out: Vec<FakerItem> = Vec::new();
    let ghost mut k: int = 0;
    assert(spec_items.take(0) =~= Seq::<(Seq<char>, Seq<FakerTypeFilter>, FakerType)>::empty());
    assert(faker_items_view(out@) =~= Seq::<(Seq<char>, Seq<FakerTypeFilter>, FakerType)>::empty());
    assert(spec_items.skip(0) =~= spec_items);
    while rest.len() > 0
        invariant
            0 <= k <= spec_items.len(),
            rest@.len() == spec_items.len() - k,
            faker_items_view(rest@) == spec_items.skip(k),
            faker_items_view(out@) == suiting_items(spec_items.take(k), f),
        decreases rest@.len(),
    {
        let ghost before_rest = faker_items_view(rest@);
        let it = rest.remove(0);
        proof {
            assert(before_rest[0] == spec_items[k]);
            assert(faker_items_view(rest@) =~= before_rest.drop_first());
            assert(spec_items.skip(k + 1) =~= spec_items.skip(k).drop_first());
            assert(spec_items.take(k + 1).drop_last() =~= spec_items.take(k));
            assert(spec_items.take(k + 1).last() == spec_items[k]);
        }
        let keep = match f {
            None => true,
            Some(kind) => filter_contains(&it.filter, kind),
        };
        if keep {
            let ghost before_out = faker_items_view(out@);
            out.push(it);
            assert(faker_items_view(out@) =~= before_out.push((it.name@, it.filter@, it.ty)));
        }
        proof {
            k = k + 1;
        }
    }
    assert(spec_items.take(k) =~= spec_items);
    out
}

} // verus!

use crate::config::Config;
use crate::data::key::{share_key, share_parent, PathItem, PathKey, PathKeyItem};
use crate::data::UpdateStructureData;
use crate::fake::{FakeDataError, FakeDataProducer, FakeDataProducerData};
use crate::data::value::{
    DataValue, DataValueItem, DataValueNumber, DataValueNumberRef, DataValueRef, Scalar,
};
use std::str::FromStr;
use std::sync::Arc;
use vstd::prelude::*;

verus! {

broadcast use vstd::std_specs::vec::group_vec_axioms;

/// A JSON document. Objects keep their members in the order in which they
/// are walked, and numbers keep their exact text.
#[derive(Debug, PartialEq, Eq)]
pub enum Json {
    Null,
    Bool(bool),
    Number(String),
    String(String),
    Array(Vec<Json>),
    Object(Vec<JsonMember>),
}

/// One member of a JSON object.
#[derive(Debug, PartialEq, Eq)]
pub struct JsonMember {
    pub key: String,
    pub value: Json,
}

/// A JSON document as seen by specifications.
pub enum JsonView {
    Null,
    Bool(bool),
    Number(Seq<char>),
    String(Seq<char>),
    Array(Seq<JsonView>),
    Object(Seq<(Seq<char>, JsonView)>),
}

pub open spec fn json_view(j: Json) -> JsonView
    decreases j, 1nat,
{
    match j {
        Json::Null => JsonView::Null,
        Json::Bool(b) => JsonView::Bool(b),
        Json::Number(n) => JsonView::Number(n@),
        Json::String(s) => JsonView::String(s@),
        Json::Array(items) => JsonView::Array(json_views(items@)),
        Json::Object(members) => JsonView::Object(member_views(members@)),
    }
}

pub open spec fn json_views(s: Seq<Json>) -> Seq<JsonView>
    decreases s, 0nat,
{
    if s.len() == 0 {
        seq![]
    } else {
        seq![json_view(s[0])] + json_views(s.drop_first())
    }
}

pub open spec fn member_views(s: Seq<JsonMember>) -> Seq<(Seq<char>, JsonView)>
    decreases s, 0nat,
{
    if s.len() == 0 {
        seq![]
    } else {
        seq![(s[0].key@, json_view(s[0].value))] + member_views(s.drop_first())
    }
}

impl View for Json {
    type V = JsonView;

    open spec fn view(&self) -> JsonView {
        json_view(*self)
    }
}

impl Json {
    /// A copy of the document.
    pub fn deep_clone(&self) -> (r: Json)
        ensures
            r@ == self@,
        decreases self,
    {
        match self {
            Json::Null => Json::Null,
            Json::Bool(b) => Json::Bool(*b),
            Json::Number(n) => Json::Number(n.clone()),
            Json::String(s) => Json::String(s.clone()),
            Json::Array(items) => {
                let mut out: Vec<Json> = Vec::new();
                let mut i: usize = 0;
                assert(decreases_to!(*self => *items));
                while i < items.len()
                    invariant
                        decreases_to!(*self => *items),
                        0 <= i <= items@.len(),
                        json_views(out@) == json_views(items@.take(i as int)),
                    decreases items@.len() - i,
                {
                    proof {
                        assert(decreases_to!(*items => items[i as int]));
                        assert(decreases_to!(*self => items[i as int]));
                    }
                    let c = items[i].deep_clone();
                    proof {
                        lemma_json_views_push(out@, c);
                        lemma_json_views_push(items@.take(i as int), items@[i as int]);
                        assert(items@.take(i + 1) =~= items@.take(i as int).push(items@[i as int]));
                    }
                    out.push(c);
                    i = i + 1;
                }
                assert(items@.take(items@.len() as int) =~= items@);
                Json::Array(out)
            },
            Json::Object(members) => {
                let mut out: Vec<JsonMember> = Vec::new();
                let mut i: usize = 0;
                assert(decreases_to!(*self => *members));
                while i < members.len()
                    invariant
                        decreases_to!(*self => *members),
                        0 <= i <= members@.len(),
                        member_views(out@) == member_views(members@.take(i as int)),
                    decreases members@.len() - i,
                {
                    let m = &members[i];
                    proof {
                        assert(decreases_to!(*members => members[i as int]));
                        assert(decreases_to!(members[i as int] => members[i as int].value));
                        assert(decreases_to!(*self => members[i as int].value));
                    }
                    let c = JsonMember { key: m.key.clone(), value: m.value.deep_clone() };
                    proof {
                        lemma_member_views_push(out@, c);
                        lemma_member_views_push(members@.take(i as int), members@[i as int]);
                        assert(members@.take(i + 1) =~= members@.take(i as int).push(
                            members@[i as int],
                        ));
                    }
                    out.push(c);
                    i = i + 1;
                }
                assert(members@.take(members@.len() as int) =~= members@);
                Json::Object(out)
            },
        }
    }
}

impl Clone for Json {
    fn clone(&self) -> (r: Self) {
        self.deep_clone()
    }
}

impl Clone for JsonMember {
    fn clone(&self) -> (r: Self) {
        JsonMember { key: self.key.clone(), value: self.value.deep_clone() }
    }
}

pub proof fn lemma_json_views_push(s: Seq<Json>, x: Json)
    ensures
        json_views(s.push(x)) == json_views(s).push(json_view(x)),
        json_views(s).len() == s.len(),
    decreases s.len(),
{
    if s.len() == 0 {
        assert(s.push(x).drop_first() =~= Seq::<Json>::empty());
        assert(json_views(Seq::<Json>::empty()) =~= Seq::<JsonView>::empty());
        assert(s.push(x)[0] == x);
        assert(json_views(s.push(x)) =~= seq![json_view(x)]);
    } else {
        lemma_json_views_push(s.drop_first(), x);
        assert(s.push(x).drop_first() =~= s.drop_first().push(x));
        assert(json_views(s.push(x)) =~= json_views(s).push(json_view(x)));
    }
}

pub proof fn lemma_member_views_push(s: Seq<JsonMember>, x: JsonMember)
    ensures
        member_views(s.push(x)) == member_views(s).push((x.key@, json_view(x.value))),
        member_views(s).len() == s.len(),
    decreases s.len(),
{
    if s.len() == 0 {
        assert(s.push(x).drop_first() =~= Seq::<JsonMember>::empty());
        assert(member_views(Seq::<JsonMember>::empty()) =~= Seq::<(Seq<char>, JsonView)>::empty());
        assert(s.push(x)[0] == x);
        assert(member_views(s.push(x)) =~= seq![(x.key@, json_view(x.value))]);
    } else {
        lemma_member_views_push(s.drop_first(), x);
        assert(s.push(x).drop_first() =~= s.drop_first().push(x));
        assert(member_views(s.push(x)) =~= member_views(s).push((x.key@, json_view(x.value))));
    }
}

/// Whether a document is an array or an object.
pub open spec fn is_container(v: JsonView) -> bool {
    v is Array || v is Object
}

/// The scalar a leaf of a document holds.
pub open spec fn scalar_of(v: JsonView) -> Scalar {
    match v {
        JsonView::Null => Scalar::Null,
        JsonView::Bool(b) => Scalar::Boolean(b),
        JsonView::Number(n) => Scalar::Number(n),
        JsonView::String(s) => Scalar::String(s),
        _ => Scalar::Null,
    }
}

/// The document that holds a scalar.
pub open spec fn json_of_scalar(s: Scalar) -> JsonView {
    match s {
        Scalar::Null => JsonView::Null,
        Scalar::Boolean(b) => JsonView::Bool(b),
        Scalar::Number(n) => JsonView::Number(n),
        Scalar::String(t) => JsonView::String(t),
    }
}

/// The leaves (scalar values) of a document with their paths, in the order
/// of a depth-first walk that visits array elements and object members in
/// order; `path` is the path of the document itself.
pub open spec fn leaves(v: JsonView, path: Seq<PathItem>) -> Seq<(Seq<PathItem>, JsonView)>
    decreases v, 1nat,
{
    match v {
        JsonView::Array(items) => array_leaves(items, path),
        JsonView::Object(members) => object_leaves(members, path),
        _ => seq![(path, v)],
    }
}

pub open spec fn array_leaves(items: Seq<JsonView>, path: Seq<PathItem>) -> Seq<
    (Seq<PathItem>, JsonView),
>
    decreases items, 0nat,
{
    if items.len() == 0 {
        seq![]
    } else {
        leaves(items[0], path.push(PathItem::Index)) + array_leaves(items.drop_first(), path)
    }
}

pub open spec fn object_leaves(members: Seq<(Seq<char>, JsonView)>, path: Seq<PathItem>) -> Seq<
    (Seq<PathItem>, JsonView),
>
    decreases members, 0nat,
{
    if members.len() == 0 {
        seq![]
    } else {
        leaves(members[0].1, path.push(PathItem::Key(members[0].0))) + object_leaves(
            members.drop_first(),
            path,
        )
    }
}

/// The path of a key that may be absent (the root).
pub open spec fn path_of(key: Option<Arc<PathKey>>) -> Seq<PathItem> {
    match key {
        Some(k) => k@,
        None => seq![],
    }
}

/// The leaves of a document, each with the values found under its path,
/// grouped by path in the order in which each path first occurs.
pub open spec fn group_leaves(ls: Seq<(Seq<PathItem>, JsonView)>) -> Seq<(Seq<PathItem>, Seq<Scalar>)>
    decreases ls.len(),
{
    if ls.len() == 0 {
        seq![]
    } else {
        add_to_group(group_leaves(ls.drop_last()), ls.last().0, scalar_of(ls.last().1))
    }
}

/// Adds one value under a path: to the group of that path if there is one,
/// else as a new group at the end.
pub open spec fn add_to_group(
    groups: Seq<(Seq<PathItem>, Seq<Scalar>)>,
    path: Seq<PathItem>,
    value: Scalar,
) -> Seq<(Seq<PathItem>, Seq<Scalar>)> {
    if exists|j: int| 0 <= j < groups.len() && (#[trigger] groups[j]).0 == path {
        let j = choose|j: int| 0 <= j < groups.len() && (#[trigger] groups[j]).0 == path;
        groups.update(j, (path, groups[j].1.push(value)))
    } else {
        groups.push((path, seq![value]))
    }
}

/// No path occurs in two groups.
pub open spec fn distinct_paths(groups: Seq<(Seq<PathItem>, Seq<Scalar>)>) -> bool {
    forall|i: int, j: int|
        0 <= i < groups.len() && 0 <= j < groups.len() && i != j ==> (#[trigger] groups[i]).0
            != (#[trigger] groups[j]).0
}

/// Grouping leaves by path gives every path one group only.
pub proof fn lemma_group_distinct(ls: Seq<(Seq<PathItem>, JsonView)>)
    ensures
        distinct_paths(group_leaves(ls)),
    decreases ls.len(),
{
    if ls.len() > 0 {
        lemma_group_distinct(ls.drop_last());
    }
}

proof fn lemma_array_leaves_push(items: Seq<JsonView>, x: JsonView, path: Seq<PathItem>)
    ensures
        array_leaves(items.push(x), path) == array_leaves(items, path) + leaves(
            x,
            path.push(PathItem::Index),
        ),
    decreases items.len(),
{
    if items.len() == 0 {
        assert(items.push(x).drop_first() =~= items);
        assert(items.push(x)[0] == x);
        assert(array_leaves(items, path) =~= Seq::<(Seq<PathItem>, JsonView)>::empty());
        assert(leaves(x, path.push(PathItem::Index)) + array_leaves(items, path) =~= leaves(
            x,
            path.push(PathItem::Index),
        ));
    } else {
        lemma_array_leaves_push(items.drop_first(), x, path);
        assert(items.push(x).drop_first() =~= items.drop_first().push(x));
        assert(items.push(x)[0] == items[0]);
        assert(array_leaves(items.push(x), path) =~= array_leaves(items, path) + leaves(
            x,
            path.push(PathItem::Index),
        ));
    }
}

proof fn lemma_object_leaves_push(
    members: Seq<(Seq<char>, JsonView)>,
    x: (Seq<char>, JsonView),
    path: Seq<PathItem>,
)
    ensures
        object_leaves(members.push(x), path) == object_leaves(members, path) + leaves(
            x.1,
            path.push(PathItem::Key(x.0)),
        ),
    decreases members.len(),
{
    if members.len() == 0 {
        assert(members.push(x).drop_first() =~= members);
        assert(members.push(x)[0] == x);
        assert(object_leaves(members, path) =~= Seq::<(Seq<PathItem>, JsonView)>::empty());
        assert(leaves(x.1, path.push(PathItem::Key(x.0))) + object_leaves(members, path) =~= leaves(
            x.1,
            path.push(PathItem::Key(x.0)),
        ));
    } else {
        lemma_object_leaves_push(members.drop_first(), x, path);
        assert(members.push(x).drop_first() =~= members.drop_first().push(x));
        assert(members.push(x)[0] == members[0]);
        assert(object_leaves(members.push(x), path) =~= object_leaves(members, path) + leaves(
            x.1,
            path.push(PathItem::Key(x.0)),
        ));
    }
}

proof fn lemma_json_views_index(s: Seq<Json>, i: int)
    requires
        0 <= i < s.len(),
    ensures
        json_views(s).len() == s.len(),
        json_views(s)[i] == json_view(s[i]),
    decreases s.len(),
{
    if i > 0 {
        lemma_json_views_index(s.drop_first(), i - 1);
    } else {
        lemma_json_views_len(s.drop_first());
    }
}

proof fn lemma_json_views_len(s: Seq<Json>)
    ensures
        json_views(s).len() == s.len(),
    decreases s.len(),
{
    if s.len() > 0 {
        lemma_json_views_len(s.drop_first());
    }
}

proof fn lemma_member_views_len(s: Seq<JsonMember>)
    ensures
        member_views(s).len() == s.len(),
    decreases s.len(),
{
    if s.len() > 0 {
        lemma_member_views_len(s.drop_first());
    }
}

proof fn lemma_member_views_index(s: Seq<JsonMember>, i: int)
    requires
        0 <= i < s.len(),
    ensures
        member_views(s).len() == s.len(),
        member_views(s)[i] == (s[i].key@, json_view(s[i].value)),
    decreases s.len(),
{
    if i > 0 {
        lemma_member_views_index(s.drop_first(), i - 1);
    } else {
        lemma_member_views_len(s.drop_first());
    }
}

/// A leaf found while walking a document: its key and where its value is.
pub struct LeafRef<'a> {
    pub key: Arc<PathKey>,
    pub value: &'a Json,
}

pub open spec fn leaf_refs_view<'a>(s: Seq<LeafRef<'a>>) -> Seq<(Seq<PathItem>, JsonView)> {
    s.map_values(|l: LeafRef<'a>| (l.key@, l.value@))
}

/// Appends the leaves of `value`, whose path is `key`, to `out`.
pub(crate) fn collect_leaves<'a>(value: &'a Json, key: Option<Arc<PathKey>>, out: &mut Vec<LeafRef<'a>>)
    requires
        key is None ==> is_container(value@),
    ensures
        leaf_refs_view(final(out)@) == leaf_refs_view(old(out)@) + leaves(value@, path_of(key)),
    decreases value,
{
    match value {
        Json::Array(items) => {
            let mut i: usize = 0;
            let ghost start = leaf_refs_view(out@);
            assert(decreases_to!(*value => *items));
            assert(items@.take(0) =~= Seq::<Json>::empty());
            while i < items.len()
                invariant
                    decreases_to!(*value => *items),
                    0 <= i <= items@.len(),
                    value@ == JsonView::Array(json_views(items@)),
                    leaf_refs_view(out@) == start + array_leaves(
                        json_views(items@.take(i as int)),
                        path_of(key),
                    ),
                decreases items@.len() - i,
            {
                proof {
                    assert(decreases_to!(*items => items[i as int]));
                }
                let child_key = PathKey::new(share_parent(&key), PathKeyItem::Index);
                let ghost before = leaf_refs_view(out@);
                collect_leaves(&items[i], Some(Arc::new(child_key)), out);
                proof {
                    assert(items@.take(i + 1) =~= items@.take(i as int).push(items@[i as int]));
                    lemma_json_views_push(items@.take(i as int), items@[i as int]);
                    lemma_array_leaves_push(
                        json_views(items@.take(i as int)),
                        json_view(items@[i as int]),
                        path_of(key),
                    );
                    assert(path_of(key).push(PathItem::Index) == child_key@);
                }
                i = i + 1;
            }
            assert(items@.take(items@.len() as int) =~= items@);
        },
        Json::Object(members) => {
            let mut i: usize = 0;
            let ghost start = leaf_refs_view(out@);
            assert(decreases_to!(*value => *members));
            assert(members@.take(0) =~= Seq::<JsonMember>::empty());
            while i < members.len()
                invariant
                    decreases_to!(*value => *members),
                    0 <= i <= members@.len(),
                    value@ == JsonView::Object(member_views(members@)),
                    leaf_refs_view(out@) == start + object_leaves(
                        member_views(members@.take(i as int)),
                        path_of(key),
                    ),
                decreases members@.len() - i,
            {
                let m = &members[i];
                proof {
                    assert(decreases_to!(*members => members[i as int]));
                    assert(decreases_to!(members[i as int] => members[i as int].value));
                }
                let child_key = PathKey::new(share_parent(&key), PathKeyItem::Key(m.key.clone()));
                collect_leaves(&m.value, Some(Arc::new(child_key)), out);
                proof {
                    assert(members@.take(i + 1) =~= members@.take(i as int).push(
                        members@[i as int],
                    ));
                    lemma_member_views_push(members@.take(i as int), members@[i as int]);
                    lemma_object_leaves_push(
                        member_views(members@.take(i as int)),
                        (m.key@, json_view(m.value)),
                        path_of(key),
                    );
                    assert(path_of(key).push(PathItem::Key(m.key@)) == child_key@);
                }
                i = i + 1;
            }
            assert(members@.take(members@.len() as int) =~= members@);
        },
        _ => {
            let k = match key {
                Some(k) => k,
                None => {
                    proof {
                        assert(false);
                    }
                    return;
                },
            };
            let ghost before = out@;
            out.push(LeafRef { key: k, value });
            assert(leaf_refs_view(out@) =~= leaf_refs_view(before) + leaves(value@, path_of(key)));
        },
    }
}

pub(crate) proof fn lemma_leaves_scalar(v: JsonView, path: Seq<PathItem>)
    ensures
        forall|i: int|
            0 <= i < leaves(v, path).len() ==> !is_container(#[trigger] leaves(v, path)[i].1),
    decreases v, 1nat,
{
    match v {
        JsonView::Array(items) => {
            lemma_array_leaves_scalar(items, path);
            assert(leaves(v, path) == array_leaves(items, path));
        },
        JsonView::Object(members) => {
            lemma_object_leaves_scalar(members, path);
            assert(leaves(v, path) == object_leaves(members, path));
        },
        _ => {},
    }
}

proof fn lemma_array_leaves_scalar(items: Seq<JsonView>, path: Seq<PathItem>)
    ensures
        forall|i: int|
            0 <= i < array_leaves(items, path).len() ==> !is_container(
                #[trigger] array_leaves(items, path)[i].1,
            ),
    decreases items, 0nat,
{
    if items.len() > 0 {
        lemma_leaves_scalar(items[0], path.push(PathItem::Index));
        lemma_array_leaves_scalar(items.drop_first(), path);
        let a = leaves(items[0], path.push(PathItem::Index));
        let b = array_leaves(items.drop_first(), path);
        assert forall|i: int| 0 <= i < (a + b).len() implies !is_container(#[trigger] (a + b)[i].1) by {
            if i < a.len() {
                assert((a + b)[i] == a[i]);
            } else {
                assert((a + b)[i] == b[i - a.len()]);
            }
        }
    }
}

proof fn lemma_object_leaves_scalar(members: Seq<(Seq<char>, JsonView)>, path: Seq<PathItem>)
    ensures
        forall|i: int|
            0 <= i < object_leaves(members, path).len() ==> !is_container(
                #[trigger] object_leaves(members, path)[i].1,
            ),
    decreases members, 0nat,
{
    if members.len() > 0 {
        lemma_leaves_scalar(members[0].1, path.push(PathItem::Key(members[0].0)));
        lemma_object_leaves_scalar(members.drop_first(), path);
        let a = leaves(members[0].1, path.push(PathItem::Key(members[0].0)));
        let b = object_leaves(members.drop_first(), path);
        assert forall|i: int| 0 <= i < (a + b).len() implies !is_container(#[trigger] (a + b)[i].1) by {
            if i < a.len() {
                assert((a + b)[i] == a[i]);
            } else {
                assert((a + b)[i] == b[i - a.len()]);
            }
        }
    }
}

/// A JSON value that is not a scalar.
#[derive(Debug, Clone, PartialEq, Eq)]
pub struct UnsupportedJsonDataValue;

/// The walk of a document was asked to start from a scalar.
#[derive(Debug, Clone, PartialEq, Eq)]
pub struct RootNotContainer;

impl<'a> DataValueRef<'a> {
    /// The scalar held by a JSON value; arrays and objects are refused.
    pub fn try_from_json(value: &'a Json) -> (r: Result<DataValueRef<'a>, UnsupportedJsonDataValue>)
        ensures
            is_container(value@) <==> r is Err,
            r matches Ok(d) ==> d@ == scalar_of(value@),
    {
        match value {
            Json::Null => Ok(DataValueRef::Null),
            Json::Bool(b) => Ok(DataValueRef::Boolean(*b)),
            Json::Number(n) => Ok(DataValueRef::Number(DataValueNumberRef::new(n.as_str()))),
            Json::String(s) => Ok(DataValueRef::String(s.as_str())),
            _ => Err(UnsupportedJsonDataValue),
        }
    }
}

impl DataValue {
    /// The scalar held by a JSON value; arrays and objects are refused.
    pub fn try_from_json(value: Json) -> (r: Result<DataValue, UnsupportedJsonDataValue>)
        ensures
            is_container(value@) <==> r is Err,
            r matches Ok(d) ==> d@ == scalar_of(value@),
    {
        match value {
            Json::Null => Ok(DataValue::Null),
            Json::Bool(b) => Ok(DataValue::Boolean(b)),
            Json::Number(n) => Ok(DataValue::Number(DataValueNumber::new(n))),
            Json::String(s) => Ok(DataValue::String(s)),
            _ => Err(UnsupportedJsonDataValue),
        }
    }
}

/// Items of a walk as seen by specifications: each path with its values.
pub open spec fn items_view<'a>(s: Seq<DataValueItem<'a>>) -> Seq<(Seq<PathItem>, Seq<Scalar>)> {
    s.map_values(|it: DataValueItem<'a>| (it.key@, it.value_views()))
}

/// A walk over the scalar leaves of a document that is an array or an
/// object: each leaf once, with its path, in depth-first order (array
/// elements and object members in their order); arrays and objects
/// themselves are not given.
pub struct JsonWalkIter<'a> {
    found: Vec<LeafRef<'a>>,
    at: usize,
}

impl<'a> JsonWalkIter<'a> {
    #[verifier::type_invariant]
    spec fn wf(&self) -> bool {
        self.at <= self.found@.len()
    }

    /// Every leaf of the walk, with its path, in walking order.
    pub closed spec fn all_leaves(&self) -> Seq<(Seq<PathItem>, JsonView)> {
        leaf_refs_view(self.found@)
    }

    /// How many leaves the walk has given so far.
    pub closed spec fn given(&self) -> int {
        self.at as int
    }

    /// The walk over the leaves of `value`; refused where `value` is neither
    /// an array nor an object.
    pub fn new(value: &'a Json) -> (r: Result<JsonWalkIter<'a>, RootNotContainer>)
        ensures
            r is Err <==> !is_container(value@),
            r matches Ok(it) ==> it.all_leaves() == leaves(value@, seq![]) && it.given() == 0,
    {
        match value {
            Json::Array(_) | Json::Object(_) => {},
            _ => return Err(RootNotContainer),
        }
        let mut found: Vec<LeafRef<'a>> = Vec::new();
        collect_leaves(value, None, &mut found);
        proof {
            assert(leaf_refs_view(Seq::<LeafRef<'a>>::empty()) =~= Seq::<(Seq<PathItem>, JsonView)>::empty());
            assert(path_of(None::<Arc<PathKey>>) =~= Seq::<PathItem>::empty());
            assert(leaf_refs_view(found@) =~= leaves(value@, seq![]));
        }
        Ok(JsonWalkIter { found, at: 0 })
    }

    /// The next leaf of the walk with its path, or none when every leaf has
    /// been given.
    pub fn next(&mut self) -> (r: Option<LeafRef<'a>>)
        ensures
            final(self).all_leaves() == old(self).all_leaves(),
            old(self).given() < old(self).all_leaves().len() ==> (r matches Some(l) && (l.key@,
                l.value@) == old(self).all_leaves()[old(self).given()] && final(self).given() == old(
                self,
            ).given() + 1),
            old(self).given() >= old(self).all_leaves().len() ==> r is None && final(self).given()
                == old(self).given(),
    {
        proof {
            use_type_invariant(&*self);
        }
        if self.at < self.found.len() {
            let leaf = &self.found[self.at];
            let r = LeafRef { key: share_key(&leaf.key), value: leaf.value };
            proof {
                assert(leaf_refs_view(self.found@)[self.at as int] == (leaf.key@, leaf.value@));
            }
            self.at = self.at + 1;
            Some(r)
        } else {
            None
        }
    }
}

impl<'a> JsonWalkIter<'a> {
    /// Takes every leaf the walk has not given yet, in walking order; the
    /// walk is then done, so that `next` gives none.
    pub fn collect_rest(&mut self) -> (r: Vec<LeafRef<'a>>)
        ensures
            final(self).all_leaves() == old(self).all_leaves(),
            leaf_refs_view(r@) == old(self).all_leaves().skip(old(self).given()),
            final(self).given() == final(self).all_leaves().len(),
    {
        proof {
            use_type_invariant(&*self);
        }
        let ghost all = self.all_leaves();
        let ghost start = self.given();
        let mut out: Vec<LeafRef<'a>> = Vec::new();
        assert(all.skip(start).take(0) =~= leaf_refs_view(out@));
        loop
            invariant
                self.all_leaves() == all,
                0 <= start <= self.given() <= all.len(),
                leaf_refs_view(out@) == all.skip(start).take(self.given() - start),
            ensures
                self.all_leaves() == all,
                self.given() == all.len(),
                leaf_refs_view(out@) == all.skip(start).take(self.given() - start),
            decreases all.len() - self.given(),
        {
            proof {
                use_type_invariant(&*self);
            }
            let ghost before = self.given();
            let ghost seen = out@;
            match self.next() {
                Some(l) => {
                    out.push(l);
                    proof {
                        assert(leaf_refs_view(out@) =~= leaf_refs_view(seen).push((l.key@, l.value@)));
                        assert(all.skip(start).take(before + 1 - start) =~= all.skip(start).take(
                            before - start,
                        ).push(all[before]));
                    }
                },
                None => {
                    break;
                },
            }
        }
        assert(all.skip(start).take(all.len() - start) =~= all.skip(start));
        out
    }
}

/// Walking a document to its end gives each of its leaves once, with its
/// path, in walking order, and nothing more.
pub fn json_walk_leaves<'a>(value: &'a Json) -> (r: Result<Vec<LeafRef<'a>>, RootNotContainer>)
    ensures
        r is Err <==> !is_container(value@),
        r matches Ok(found) ==> leaf_refs_view(found@) == leaves(value@, seq![]),
{
    let mut walk = JsonWalkIter::new(value)?;
    let found = walk.collect_rest();
    proof {
        assert(leaves(value@, seq![]).skip(0) =~= leaves(value@, seq![]));
    }
    Ok(found)
}

/// The leaves of a document are scalars.
pub proof fn lemma_walk_gives_scalars(v: JsonView, i: int)
    requires
        0 <= i < leaves(v, seq![]).len(),
    ensures
        !is_container(leaves(v, seq![])[i].1),
{
    lemma_leaves_scalar(v, seq![]);
}

/// Walks the document giving each path of a scalar with every value found
/// under it, in the order in which the paths are first reached. All the
/// elements of an array share one path.
pub fn json_data_value_items<'a>(value: &'a Json) -> (r: Result<
    Vec<DataValueItem<'a>>,
    RootNotContainer,
>)
    ensures
        r is Err <==> !is_container(value@),
        r matches Ok(items) ==> items_view(items@) == group_leaves(leaves(value@, seq![])),
{
    match value {
        Json::Array(_) | Json::Object(_) => {},
        _ => return Err(RootNotContainer),
    }
    let mut found: Vec<LeafRef<'a>> = Vec::new();
    collect_leaves(value, None, &mut found);
    let ghost ls = leaves(value@, seq![]);
    proof {
        lemma_leaves_scalar(value@, seq![]);
        assert(leaf_refs_view(found@) =~= ls);
    }
    let mut output: Vec<DataValueItem<'a>> = Vec::new();
    let mut i: usize = 0;
    assert(ls.take(0) =~= Seq::<(Seq<PathItem>, JsonView)>::empty());
    assert(items_view(output@) =~= Seq::<(Seq<PathItem>, Seq<Scalar>)>::empty());
    while i < found.len()
        invariant
            0 <= i <= found@.len(),
            leaf_refs_view(found@) == ls,
            forall|k: int| 0 <= k < ls.len() ==> !is_container(#[trigger] ls[k].1),
            items_view(output@) == group_leaves(ls.take(i as int)),
        decreases found@.len() - i,
    {
        let leaf = &found[i];
        assert(leaf_refs_view(found@)[i as int] == (leaf.key@, leaf.value@));
        let dv = match DataValueRef::try_from_json(leaf.value) {
            Ok(dv) => dv,
            Err(_) => {
                proof {
                    assert(!is_container(ls[i as int].1));
                }
                return Err(RootNotContainer);
            },
        };
        let ghost prev = items_view(output@);
        proof {
            lemma_group_distinct(ls.take(i as int));
            assert(ls.take(i + 1).drop_last() =~= ls.take(i as int));
            assert(ls.take(i + 1).last() == ls[i as int]);
        }
        let mut j: usize = 0;
        let mut found_at: Option<usize> = None;
        while j < output.len() && found_at.is_none()
            invariant
                0 <= j <= output@.len(),
                prev == items_view(output@),
                found_at is None ==> forall|t: int| 0 <= t < j ==> (#[trigger] prev[t]).0 != leaf.key@,
                found_at matches Some(t) ==> t < output@.len() && prev[t as int].0 == leaf.key@,
            decreases output@.len() - j + (if found_at is None { 1int } else { 0int }),
        {
            if output[j].key.same_path(&leaf.key) {
                found_at = Some(j);
            } else {
                j = j + 1;
            }
        }
        match found_at {
            Some(t) => {
                output[t].values.push(dv);
                proof {
                    let g = prev;
                    assert(exists|x: int| 0 <= x < g.len() && (#[trigger] g[x]).0 == leaf.key@) by {
                        assert(g[t as int].0 == leaf.key@);
                    }
                    let c = choose|x: int| 0 <= x < g.len() && (#[trigger] g[x]).0 == leaf.key@;
                    assert(c == t as int);
                    assert(output@[t as int].value_views() =~= g[t as int].1.push(dv@));
                    assert(items_view(output@) =~= g.update(t as int, (leaf.key@, g[t as int].1.push(dv@))));
                }
            },
            None => {
                output.push(DataValueItem::new(share_key(&leaf.key), dv));
                proof {
                    let g = prev;
                    assert(!exists|x: int| 0 <= x < g.len() && (#[trigger] g[x]).0 == leaf.key@);
                    assert(output@.last().value_views() =~= seq![dv@]);
                    assert(items_view(output@) =~= g.push((leaf.key@, seq![dv@])));
                }
            },
        }
        i = i + 1;
    }
    assert(ls.take(found@.len() as int) =~= ls);
    Ok(output)
}

/// Whether two documents are equal: same kind, same scalars, same elements
/// and same members in the same order.
pub fn json_eq(a: &Json, b: &Json) -> (r: bool)
    ensures
        r == (a@ == b@),
    decreases a,
{
    match (a, b) {
        (Json::Null, Json::Null) => true,
        (Json::Bool(x), Json::Bool(y)) => *x == *y,
        (Json::Number(x), Json::Number(y)) => (*x) == (*y),
        (Json::String(x), Json::String(y)) => (*x) == (*y),
        (Json::Array(xs), Json::Array(ys)) => {
            proof {
                lemma_json_views_len(xs@);
                lemma_json_views_len(ys@);
            }
            if xs.len() != ys.len() {
                assert(json_views(xs@).len() != json_views(ys@).len());
                return false;
            }
            assert(decreases_to!(*a => *xs));
            let mut i: usize = 0;
            while i < xs.len()
                invariant
                    decreases_to!(*a => *xs),
                    a@ == JsonView::Array(json_views(xs@)),
                    b@ == JsonView::Array(json_views(ys@)),
                    xs@.len() == ys@.len(),
                    0 <= i <= xs@.len(),
                    forall|k: int| 0 <= k < i ==> json_view(xs@[k]) == json_view(ys@[k]),
                decreases xs@.len() - i,
            {
                proof {
                    assert(decreases_to!(*xs => xs[i as int]));
                }
                if !json_eq(&xs[i], &ys[i]) {
                    proof {
                        lemma_json_views_index(xs@, i as int);
                        lemma_json_views_index(ys@, i as int);
                        assert(json_views(xs@)[i as int] != json_views(ys@)[i as int]);
                    }
                    return false;
                }
                i = i + 1;
            }
            proof {
                assert forall|k: int| 0 <= k < xs@.len() implies json_views(xs@)[k] == json_views(
                    ys@,
                )[k] by {
                    lemma_json_views_index(xs@, k);
                    lemma_json_views_index(ys@, k);
                }
                assert(json_views(xs@) =~= json_views(ys@));
            }
            true
        },
        (Json::Object(xs), Json::Object(ys)) => {
            proof {
                lemma_member_views_len(xs@);
                lemma_member_views_len(ys@);
            }
            if xs.len() != ys.len() {
                assert(member_views(xs@).len() != member_views(ys@).len());
                return false;
            }
            assert(decreases_to!(*a => *xs));
            let mut i: usize = 0;
            while i < xs.len()
                invariant
                    decreases_to!(*a => *xs),
                    a@ == JsonView::Object(member_views(xs@)),
                    b@ == JsonView::Object(member_views(ys@)),
                    xs@.len() == ys@.len(),
                    0 <= i <= xs@.len(),
                    forall|k: int|
                        0 <= k < i ==> (xs@[k].key@, json_view(xs@[k].value)) == (
                            ys@[k].key@,
                            json_view(ys@[k].value),
                        ),
                decreases xs@.len() - i,
            {
                proof {
                    assert(decreases_to!(*xs => xs[i as int]));
                    assert(decreases_to!(xs[i as int] => xs[i as int].value));
                }
                let same_key = xs[i].key == ys[i].key;
                if !same_key || !json_eq(&xs[i].value, &ys[i].value) {
                    proof {
                        lemma_member_views_index(xs@, i as int);
                        lemma_member_views_index(ys@, i as int);
                        assert(member_views(xs@)[i as int] != member_views(ys@)[i as int]);
                    }
                    return false;
                }
                i = i + 1;
            }
            proof {
                assert forall|k: int| 0 <= k < xs@.len() implies member_views(xs@)[k]
                    == member_views(ys@)[k] by {
                    lemma_member_views_index(xs@, k);
                    lemma_member_views_index(ys@, k);
                }
                assert(member_views(xs@) =~= member_views(ys@));
            }
            true
        },
        _ => false,
    }
}

#[verifier::external_type_specification]
#[verifier::external_body]
pub struct ExJsonError(serde_json::Error);

/// Whether every character of `s` is a decimal digit.
pub open spec fn all_digits(s: Seq<char>) -> bool {
    forall|i: int| 0 <= i < s.len() ==> '0' <= #[trigger] s[i] <= '9'
}

/// Whether `s` is the integer part of a JSON number: `0`, or digits that do
/// not start with `0`.
pub open spec fn is_integer_part(s: Seq<char>) -> bool {
    s == seq!['0'] || (s.len() >= 1 && '1' <= s[0] <= '9' && all_digits(s))
}

/// Whether `s` is the fraction of a JSON number: none, or `.` and digits.
pub open spec fn is_fraction_part(s: Seq<char>) -> bool {
    s.len() == 0 || (s.len() >= 2 && s[0] == '.' && all_digits(s.drop_first()))
}

/// Whether `s` is the exponent of a JSON number: none, or `e` or `E`, an
/// optional sign, and digits.
pub open spec fn is_exponent_part(s: Seq<char>) -> bool {
    s.len() == 0 || (s.len() >= 2 && (s[0] == 'e' || s[0] == 'E') && (((s[1] == '+' || s[1] == '-')
        && s.len() >= 3 && all_digits(s.skip(2))) || all_digits(s.drop_first())))
}

/// Whether `s` is made of a JSON number's sign, integer part, fraction and
/// exponent, in that order.
pub open spec fn json_number_parts(
    s: Seq<char>,
    sign: Seq<char>,
    whole: Seq<char>,
    frac: Seq<char>,
    exp: Seq<char>,
) -> bool {
    &&& sign == Seq::<char>::empty() || sign == seq!['-']
    &&& is_integer_part(whole)
    &&& is_fraction_part(frac)
    &&& is_exponent_part(exp)
    &&& s == sign + whole + frac + exp
}

/// The exponent as it is kept: `e`, then the sign (`+` where none was
/// written), then the digits.
pub open spec fn kept_exponent(exp: Seq<char>) -> Seq<char> {
    if exp.len() == 0 {
        exp
    } else if exp[1] == '+' || exp[1] == '-' {
        seq!['e'] + exp.drop_first()
    } else {
        seq!['e', '+'] + exp.drop_first()
    }
}

/// The text that `serde_json` (with arbitrary precision) keeps for a number
/// written as `s`: `s` itself with its exponent kept as `kept_exponent`
/// says; none when `s` is not a JSON number.
pub open spec fn json_number_text(s: Seq<char>) -> Option<Seq<char>> {
    if exists|sign: Seq<char>, whole: Seq<char>, frac: Seq<char>, exp: Seq<char>|
        json_number_parts(s, sign, whole, frac, exp) {
        let (sign, whole, frac, exp) = choose|
            sign: Seq<char>,
            whole: Seq<char>,
            frac: Seq<char>,
            exp: Seq<char>,
        | json_number_parts(s, sign, whole, frac, exp);
        Some(sign + whole + frac + kept_exponent(exp))
    } else {
        None
    }
}

/// `serde_json::Number::from_str` with arbitrary precision, then its text:
/// reads `s`, with nothing before or after, as a JSON number and gives the
/// text it keeps for it. The source shows that the text is the one scanned,
/// an integer written out again as it was, the exponent mark made `e` and
/// its sign always written; so reading the kept text again keeps it as it
/// is.
#[verifier::external_body]
fn parse_json_number(s: &str) -> (r: Result<String, serde_json::Error>)
    ensures
        r matches Ok(t) ==> json_number_text(s@) == Some(t@),
        r matches Ok(t) ==> json_number_text(t@) == Some(t@),
        r is Err ==> json_number_text(s@) is None,
{
    serde_json::Number::from_str(s).map(|n| n.to_string())
}

/// The text of a number is not a JSON number.
#[derive(Debug, Clone, PartialEq, Eq)]
pub struct InvalidJsonNumber;

/// The document a scalar, made from its view.
pub open spec fn json_of_data_value(v: Scalar) -> Option<JsonView> {
    match v {
        Scalar::Number(n) => match json_number_text(n) {
            Some(t) => Some(JsonView::Number(t)),
            None => None,
        },
        _ => Some(json_of_scalar(v)),
    }
}

impl Json {
    /// The document that holds a scalar; the text of a number must be a
    /// JSON number.
    pub fn try_from_data_value(value: DataValue) -> (r: Result<Json, InvalidJsonNumber>)
        ensures
            json_of_data_value(value@) matches Some(j) ==> (r matches Ok(x) && x@ == j),
            json_of_data_value(value@) is None ==> r is Err,
            r matches Ok(x) ==> !is_container(x@) && json_of_data_value(scalar_of(x@)) == Some(x@),
            r matches Ok(x) ==> is_kept_json(x@),
    {
        match value {
            DataValue::Number(n) => match parse_json_number(n.as_str()) {
                Ok(t) => Ok(Json::Number(t)),
                Err(_) => Err(InvalidJsonNumber),
            },
            DataValue::String(s) => Ok(Json::String(s)),
            DataValue::Boolean(b) => Ok(Json::Bool(b)),
            DataValue::Null => Ok(Json::Null),
        }
    }

    pub fn is_null(&self) -> (r: bool)
        ensures
            r == (self@ == JsonView::Null),
    {
        matches!(self, Json::Null)
    }
}

/// Whether every number of the document holds text that reading it again
/// keeps: the form in which a JSON reader gives numbers.
pub open spec fn is_kept_json(v: JsonView) -> bool {
    forall|i: int|
        0 <= i < leaves(v, seq![]).len() ==> ((#[trigger] leaves(v, seq![])[i]).1 matches JsonView::Number(
            t,
        ) ==> json_number_text(t) == Some(t))
}

/// Every leaf of a document whose numbers are in kept form, turned into a
/// value and back, is the same leaf.
pub proof fn lemma_kept_leaves_round_trip(v: JsonView, i: int)
    requires
        is_kept_json(v),
        0 <= i < leaves(v, seq![]).len(),
    ensures
        json_of_data_value(scalar_of(leaves(v, seq![])[i].1)) == Some(leaves(v, seq![])[i].1),
{
    lemma_leaves_scalar(v, seq![]);
    let l = leaves(v, seq![])[i].1;
    assert(!is_container(l));
    lemma_scalar_round_trip(l);
}

/// A scalar document turned into a value and back is the same document, when
/// the text of a number in it is one that reading it again keeps.
pub proof fn lemma_scalar_round_trip(v: JsonView)
    requires
        !is_container(v),
        v matches JsonView::Number(t) ==> json_number_text(t) == Some(t),
    ensures
        json_of_data_value(scalar_of(v)) == Some(v),
{
}

/// A value turned into a document and back is the same value, when the text
/// of a number in it is one that reading it again keeps.
pub proof fn lemma_value_round_trip(v: Scalar)
    requires
        v matches Scalar::Number(n) ==> json_number_text(n) == Some(n),
    ensures
        json_of_data_value(v) matches Some(j) && !is_container(j) && scalar_of(j) == v,
{
}

/// The number of leaves of a document.
pub open spec fn leaf_count(v: JsonView) -> nat
    decreases v, 1nat,
{
    match v {
        JsonView::Array(items) => items_leaf_count(items),
        JsonView::Object(members) => members_leaf_count(members),
        _ => 1,
    }
}

pub open spec fn items_leaf_count(items: Seq<JsonView>) -> nat
    decreases items, 0nat,
{
    if items.len() == 0 {
        0
    } else {
        leaf_count(items[0]) + items_leaf_count(items.drop_first())
    }
}

pub open spec fn members_leaf_count(members: Seq<(Seq<char>, JsonView)>) -> nat
    decreases members, 0nat,
{
    if members.len() == 0 {
        0
    } else {
        leaf_count(members[0].1) + members_leaf_count(members.drop_first())
    }
}

/// The document with its leaves replaced, in walking order, by the values
/// of `ws` from position `off` on.
pub open spec fn replace_in(v: JsonView, ws: Seq<JsonView>, off: int) -> JsonView
    decreases v, 1nat,
{
    match v {
        JsonView::Array(items) => JsonView::Array(replace_items(items, ws, off)),
        JsonView::Object(members) => JsonView::Object(replace_members(members, ws, off)),
        _ => ws[off],
    }
}

pub open spec fn replace_items(items: Seq<JsonView>, ws: Seq<JsonView>, off: int) -> Seq<JsonView>
    decreases items, 0nat,
{
    if items.len() == 0 {
        seq![]
    } else {
        seq![replace_in(items[0], ws, off)] + replace_items(
            items.drop_first(),
            ws,
            off + leaf_count(items[0]),
        )
    }
}

pub open spec fn replace_members(
    members: Seq<(Seq<char>, JsonView)>,
    ws: Seq<JsonView>,
    off: int,
) -> Seq<(Seq<char>, JsonView)>
    decreases members, 0nat,
{
    if members.len() == 0 {
        seq![]
    } else {
        seq![(members[0].0, replace_in(members[0].1, ws, off))] + replace_members(
            members.drop_first(),
            ws,
            off + leaf_count(members[0].1),
        )
    }
}

proof fn lemma_items_push(items: Seq<JsonView>, x: JsonView, ws: Seq<JsonView>, off: int)
    ensures
        items_leaf_count(items.push(x)) == items_leaf_count(items) + leaf_count(x),
        replace_items(items.push(x), ws, off) == replace_items(items, ws, off).push(
            replace_in(x, ws, off + items_leaf_count(items)),
        ),
    decreases items.len(),
{
    if items.len() == 0 {
        assert(items.push(x).drop_first() =~= items);
        assert(items.push(x)[0] == x);
        assert(replace_items(items, ws, off) =~= Seq::<JsonView>::empty());
        assert(replace_items(items, ws, off + leaf_count(x)) =~= Seq::<JsonView>::empty());
        assert(replace_items(items.push(x), ws, off) =~= seq![replace_in(x, ws, off)]);
    } else {
        lemma_items_push(items.drop_first(), x, ws, off + leaf_count(items[0]));
        assert(items.push(x).drop_first() =~= items.drop_first().push(x));
        assert(items.push(x)[0] == items[0]);
        assert(replace_items(items.push(x), ws, off) =~= replace_items(items, ws, off).push(
            replace_in(x, ws, off + items_leaf_count(items)),
        ));
    }
}

proof fn lemma_members_push(
    members: Seq<(Seq<char>, JsonView)>,
    x: (Seq<char>, JsonView),
    ws: Seq<JsonView>,
    off: int,
)
    ensures
        members_leaf_count(members.push(x)) == members_leaf_count(members) + leaf_count(x.1),
        replace_members(members.push(x), ws, off) == replace_members(members, ws, off).push(
            (x.0, replace_in(x.1, ws, off + members_leaf_count(members))),
        ),
    decreases members.len(),
{
    if members.len() == 0 {
        assert(members.push(x).drop_first() =~= members);
        assert(members.push(x)[0] == x);
        assert(replace_members(members, ws, off) =~= Seq::<(Seq<char>, JsonView)>::empty());
        assert(replace_members(members, ws, off + leaf_count(x.1)) =~= Seq::<
            (Seq<char>, JsonView),
        >::empty());
        assert(replace_members(members.push(x), ws, off) =~= seq![
            (x.0, replace_in(x.1, ws, off)),
        ]);
    } else {
        lemma_members_push(members.drop_first(), x, ws, off + leaf_count(members[0].1));
        assert(members.push(x).drop_first() =~= members.drop_first().push(x));
        assert(members.push(x)[0] == members[0]);
        assert(replace_members(members.push(x), ws, off) =~= replace_members(
            members,
            ws,
            off,
        ).push((x.0, replace_in(x.1, ws, off + members_leaf_count(members)))));
    }
}

proof fn lemma_items_count_prefix(items: Seq<JsonView>, i: int)
    requires
        0 <= i <= items.len(),
    ensures
        items_leaf_count(items.take(i)) <= items_leaf_count(items),
    decreases items.len() - i,
{
    if i < items.len() {
        lemma_items_count_prefix(items, i + 1);
        assert(items.take(i + 1) =~= items.take(i).push(items[i]));
        lemma_items_push(items.take(i), items[i], seq![], 0);
    } else {
        assert(items.take(i) =~= items);
    }
}

proof fn lemma_members_count_prefix(members: Seq<(Seq<char>, JsonView)>, i: int)
    requires
        0 <= i <= members.len(),
    ensures
        members_leaf_count(members.take(i)) <= members_leaf_count(members),
    decreases members.len() - i,
{
    if i < members.len() {
        lemma_members_count_prefix(members, i + 1);
        assert(members.take(i + 1) =~= members.take(i).push(members[i]));
        lemma_members_push(members.take(i), members[i], seq![], 0);
    } else {
        assert(members.take(i) =~= members);
    }
}

/// The views of a vector of documents.
pub open spec fn views_of(ws: Seq<Json>) -> Seq<JsonView> {
    ws.map_values(|j: Json| j@)
}

/// Builds the document `v` with its leaves replaced, in walking order, by
/// the documents of `ws` from position `off` on.
fn rebuild(v: &Json, ws: &Vec<Json>, off: usize) -> (r: Json)
    requires
        off + leaf_count(v@) <= ws@.len(),
    ensures
        r@ == replace_in(v@, views_of(ws@), off as int),
    decreases v,
{
    match v {
        Json::Array(items) => {
            let ghost iv = json_views(items@);
            proof {
                lemma_json_views_len(items@);
            }
            let mut out: Vec<Json> = Vec::new();
            let wlen = ws.len();
            let mut pos = off;
            let mut i: usize = 0;
            assert(decreases_to!(*v => *items));
            assert(items@.take(0) =~= Seq::<Json>::empty());
            assert(iv.take(0) =~= Seq::<JsonView>::empty());
            while i < items.len()
                invariant
                    decreases_to!(*v => *items),
                    iv == json_views(items@),
                    iv.len() == items@.len(),
                    v@ == JsonView::Array(iv),
                    off + items_leaf_count(iv) <= ws@.len(),
                    wlen == ws@.len(),
                    0 <= i <= items@.len(),
                    pos == off + items_leaf_count(iv.take(i as int)),
                    json_views(out@) == replace_items(iv.take(i as int), views_of(ws@), off as int),
                decreases items@.len() - i,
            {
                proof {
                    assert(decreases_to!(*items => items[i as int]));
                    lemma_json_views_index(items@, i as int);
                    assert(iv.take(i + 1) =~= iv.take(i as int).push(iv[i as int]));
                    lemma_items_push(iv.take(i as int), iv[i as int], views_of(ws@), off as int);
                    lemma_items_count_prefix(iv, i + 1);
                    assert(iv[i as int] == items@[i as int]@);
                    assert(off + items_leaf_count(iv.take(i + 1)) <= ws@.len());
                }
                let c = rebuild(&items[i], ws, pos);
                proof {
                    lemma_json_views_push(out@, c);
                }
                out.push(c);
                pos = pos + leaf_count_of(&items[i]);
                i = i + 1;
            }
            assert(iv.take(items@.len() as int) =~= iv);
            Json::Array(out)
        },
        Json::Object(members) => {
            let ghost mv = member_views(members@);
            proof {
                lemma_member_views_len(members@);
            }
            let mut out: Vec<JsonMember> = Vec::new();
            let wlen = ws.len();
            let mut pos = off;
            let mut i: usize = 0;
            assert(decreases_to!(*v => *members));
            assert(mv.take(0) =~= Seq::<(Seq<char>, JsonView)>::empty());
            while i < members.len()
                invariant
                    decreases_to!(*v => *members),
                    mv == member_views(members@),
                    mv.len() == members@.len(),
                    v@ == JsonView::Object(mv),
                    off + members_leaf_count(mv) <= ws@.len(),
                    wlen == ws@.len(),
                    0 <= i <= members@.len(),
                    pos == off + members_leaf_count(mv.take(i as int)),
                    member_views(out@) == replace_members(
                        mv.take(i as int),
                        views_of(ws@),
                        off as int,
                    ),
                decreases members@.len() - i,
            {
                let m = &members[i];
                proof {
                    assert(decreases_to!(*members => members[i as int]));
                    assert(decreases_to!(members[i as int] => members[i as int].value));
                    lemma_member_views_index(members@, i as int);
                    assert(mv.take(i + 1) =~= mv.take(i as int).push(mv[i as int]));
                    lemma_members_push(mv.take(i as int), mv[i as int], views_of(ws@), off as int);
                    lemma_members_count_prefix(mv, i + 1);
                    assert(mv[i as int].1 == members@[i as int].value@);
                    assert(off + members_leaf_count(mv.take(i + 1)) <= ws@.len());
                }
                let c = JsonMember { key: m.key.clone(), value: rebuild(&m.value, ws, pos) };
                proof {
                    lemma_member_views_push(out@, c);
                }
                out.push(c);
                pos = pos + leaf_count_of(&m.value);
                i = i + 1;
            }
            assert(mv.take(members@.len() as int) =~= mv);
            Json::Object(out)
        },
        _ => ws[off].deep_clone(),
    }
}

/// The number of leaves of a document.
fn leaf_count_of(v: &Json) -> (r: usize)
    requires
        leaf_count(v@) <= usize::MAX,
    ensures
        r == leaf_count(v@),
    decreases v,
{
    match v {
        Json::Array(items) => {
            let ghost iv = json_views(items@);
            proof {
                lemma_json_views_len(items@);
            }
            let mut n: usize = 0;
            let mut i: usize = 0;
            assert(decreases_to!(*v => *items));
            assert(iv.take(0) =~= Seq::<JsonView>::empty());
            while i < items.len()
                invariant
                    decreases_to!(*v => *items),
                    iv == json_views(items@),
                    iv.len() == items@.len(),
                    items_leaf_count(iv) <= usize::MAX,
                    0 <= i <= items@.len(),
                    n == items_leaf_count(iv.take(i as int)),
                decreases items@.len() - i,
            {
                proof {
                    assert(decreases_to!(*items => items[i as int]));
                    lemma_json_views_index(items@, i as int);
                    assert(iv.take(i + 1) =~= iv.take(i as int).push(iv[i as int]));
                    lemma_items_push(iv.take(i as int), iv[i as int], seq![], 0);
                    lemma_items_count_prefix(iv, i + 1);
                }
                n = n + leaf_count_of(&items[i]);
                i = i + 1;
            }
            assert(iv.take(items@.len() as int) =~= iv);
            n
        },
        Json::Object(members) => {
            let ghost mv = member_views(members@);
            proof {
                lemma_member_views_len(members@);
            }
            let mut n: usize = 0;
            let mut i: usize = 0;
            assert(decreases_to!(*v => *members));
            assert(mv.take(0) =~= Seq::<(Seq<char>, JsonView)>::empty());
            while i < members.len()
                invariant
                    decreases_to!(*v => *members),
                    mv == member_views(members@),
                    mv.len() == members@.len(),
                    members_leaf_count(mv) <= usize::MAX,
                    0 <= i <= members@.len(),
                    n == members_leaf_count(mv.take(i as int)),
                decreases members@.len() - i,
            {
                proof {
                    assert(decreases_to!(*members => members[i as int]));
                    assert(decreases_to!(members[i as int] => members[i as int].value));
                    lemma_member_views_index(members@, i as int);
                    assert(mv.take(i + 1) =~= mv.take(i as int).push(mv[i as int]));
                    lemma_members_push(mv.take(i as int), mv[i as int], seq![], 0);
                    lemma_members_count_prefix(mv, i + 1);
                }
                n = n + leaf_count_of(&members[i].value);
                i = i + 1;
            }
            assert(mv.take(members@.len() as int) =~= mv);
            n
        },
        _ => 1,
    }
}

proof fn lemma_leaves_len(v: JsonView, path: Seq<PathItem>)
    ensures
        leaves(v, path).len() == leaf_count(v),
    decreases v, 1nat,
{
    match v {
        JsonView::Array(items) => lemma_array_leaves_len(items, path),
        JsonView::Object(members) => lemma_object_leaves_len(members, path),
        _ => {},
    }
}

proof fn lemma_array_leaves_len(items: Seq<JsonView>, path: Seq<PathItem>)
    ensures
        array_leaves(items, path).len() == items_leaf_count(items),
    decreases items, 0nat,
{
    if items.len() > 0 {
        lemma_leaves_len(items[0], path.push(PathItem::Index));
        lemma_array_leaves_len(items.drop_first(), path);
    }
}

proof fn lemma_object_leaves_len(members: Seq<(Seq<char>, JsonView)>, path: Seq<PathItem>)
    ensures
        object_leaves(members, path).len() == members_leaf_count(members),
    decreases members, 0nat,
{
    if members.len() > 0 {
        lemma_leaves_len(members[0].1, path.push(PathItem::Key(members[0].0)));
        lemma_object_leaves_len(members.drop_first(), path);
    }
}

/// What happens to one leaf when values are replaced.
pub enum LeafAction {
    /// The leaf is a null value that is kept
    Skip,
    /// The value of the leaf has a replacement already
    Mapped,
    /// A new value is produced for the leaf
    Produce,
}

/// What happens to a leaf holding `v`, given the values that have a replacement.
pub open spec fn leaf_action(maintain_null: bool, v: JsonView, mapped: Set<JsonView>) -> LeafAction {
    if maintain_null && v == JsonView::Null {
        LeafAction::Skip
    } else if mapped.contains(v) {
        LeafAction::Mapped
    } else {
        LeafAction::Produce
    }
}

/// The values that have a replacement after the leaves holding `vals` were
/// handled, starting from `mapped`.
pub open spec fn mapped_after(
    maintain_null: bool,
    internal: bool,
    mapped: Set<JsonView>,
    vals: Seq<JsonView>,
) -> Set<JsonView>
    decreases vals.len(),
{
    if vals.len() == 0 {
        mapped
    } else {
        let before = mapped_after(maintain_null, internal, mapped, vals.drop_last());
        if internal && leaf_action(maintain_null, vals.last(), before) == LeafAction::Produce {
            before.insert(vals.last())
        } else {
            before
        }
    }
}

/// What happens to leaf `i` of a walk whose leaves hold `vals`.
pub open spec fn action_at<P>(cfg: Config<P>, mapped: Set<JsonView>, vals: Seq<JsonView>, i: int) -> LeafAction {
    leaf_action(
        cfg.maintain_null,
        vals[i],
        mapped_after(cfg.maintain_null, cfg.internal_mapping, mapped, vals.take(i)),
    )
}

/// The paths of the leaves of a document whose own path is `path`.
pub open spec fn leaf_paths_at(v: JsonView, path: Seq<PathItem>) -> Seq<Seq<PathItem>> {
    leaves(v, path).map_values(|l: (Seq<PathItem>, JsonView)| l.0)
}

/// The values of the leaves of a document whose own path is `path`.
pub open spec fn leaf_values_at(v: JsonView, path: Seq<PathItem>) -> Seq<JsonView> {
    leaves(v, path).map_values(|l: (Seq<PathItem>, JsonView)| l.1)
}

/// The paths of the leaves of a document.
pub open spec fn leaf_paths(v: JsonView) -> Seq<Seq<PathItem>> {
    leaf_paths_at(v, seq![])
}

/// The values of the leaves of a document.
pub open spec fn leaf_values(v: JsonView) -> Seq<JsonView> {
    leaf_values_at(v, seq![])
}

/// Whether the producer `p` may have made `new` in place of the scalar
/// `original`: it may give a value whose document is `new`.
pub open spec fn made_by<P: FakeDataProducer>(
    p: P,
    lists: Map<Seq<char>, Seq<Seq<char>>>,
    original: JsonView,
    new: JsonView,
) -> bool {
    exists|v: Scalar| #[trigger] p.produces(lists, scalar_of(original), v) && json_of_data_value(v) == Some(new)
}

/// What the replacement promises of leaf `i`, which now holds `ws[i]`.
pub open spec fn leaf_done<P: FakeDataProducer>(
    cfg: Config<P>,
    lists: Map<Seq<char>, Seq<Seq<char>>>,
    init: Map<JsonView, JsonView>,
    mapping: Map<JsonView, JsonView>,
    output: Map<Seq<PathItem>, Map<JsonView, JsonView>>,
    paths: Seq<Seq<PathItem>>,
    vals: Seq<JsonView>,
    ws: Seq<JsonView>,
    i: int,
) -> bool {
    match action_at(cfg, init.dom(), vals, i) {
        LeafAction::Skip => ws[i] == vals[i],
        LeafAction::Mapped => mapping.contains_key(vals[i]) && ws[i] == mapping[vals[i]],
        LeafAction::Produce => {
            &&& cfg.has_producer(paths[i])
            &&& cfg.producer_of(paths[i]) matches Some(p) && made_by(p, lists, vals[i], ws[i])
            &&& !is_container(ws[i])
            &&& cfg.internal_mapping ==> mapping.contains_key(vals[i]) && mapping[vals[i]] == ws[i]
            &&& cfg.is_output(paths[i]) ==> {
                &&& output.contains_key(paths[i])
                &&& output[paths[i]].contains_key(vals[i])
                &&& cfg.internal_mapping ==> output[paths[i]][vals[i]] == ws[i]
            }
        },
    }
}

/// The leaves before position `k` were replaced as promised.
pub open spec fn done_upto<P: FakeDataProducer>(
    cfg: Config<P>,
    lists: Map<Seq<char>, Seq<Seq<char>>>,
    init: Map<JsonView, JsonView>,
    mapping: Map<JsonView, JsonView>,
    output: Map<Seq<PathItem>, Map<JsonView, JsonView>>,
    paths: Seq<Seq<PathItem>>,
    vals: Seq<JsonView>,
    ws: Seq<JsonView>,
    k: int,
) -> bool {
    forall|i: int|
        0 <= i < k ==> #[trigger] leaf_done(cfg, lists, init, mapping, output, paths, vals, ws, i)
}

/// Every replacement of `later` that `earlier` does not have is a scalar.
pub open spec fn new_values_scalar(
    earlier: Map<JsonView, JsonView>,
    later: Map<JsonView, JsonView>,
) -> bool {
    forall|k: JsonView| #[trigger]
        later.contains_key(k) && !earlier.contains_key(k) ==> !is_container(later[k])
}

/// `later` keeps every replacement of `earlier`.
pub open spec fn mapping_extends(
    earlier: Map<JsonView, JsonView>,
    later: Map<JsonView, JsonView>,
) -> bool {
    forall|k: JsonView| #[trigger]
        earlier.contains_key(k) ==> later.contains_key(k) && later[k] == earlier[k]
}

/// `later` keeps every recorded value of `earlier`.
pub open spec fn output_extends(
    earlier: Map<Seq<PathItem>, Map<JsonView, JsonView>>,
    later: Map<Seq<PathItem>, Map<JsonView, JsonView>>,
) -> bool {
    forall|p: Seq<PathItem>| #[trigger]
        earlier.contains_key(p) ==> later.contains_key(p) && forall|v: JsonView| #[trigger]
            earlier[p].contains_key(v) ==> later[p].contains_key(v)
}

/// `later` gives the recorded values of `earlier` for the values in `keep` unchanged.
pub open spec fn output_keeps(
    earlier: Map<Seq<PathItem>, Map<JsonView, JsonView>>,
    later: Map<Seq<PathItem>, Map<JsonView, JsonView>>,
    keep: Set<JsonView>,
) -> bool {
    forall|p: Seq<PathItem>, x: JsonView|
        earlier.contains_key(p) && #[trigger] earlier[p].contains_key(x) && keep.contains(x)
            ==> #[trigger] later[p][x] == earlier[p][x]
}

/// `output` with `to` recorded as the replacement of `from` under `path`.
pub open spec fn record_output(
    output: Map<Seq<PathItem>, Map<JsonView, JsonView>>,
    path: Seq<PathItem>,
    from: JsonView,
    to: JsonView,
) -> Map<Seq<PathItem>, Map<JsonView, JsonView>> {
    output.insert(
        path,
        (if output.contains_key(path) {
            output[path]
        } else {
            Map::empty()
        }).insert(from, to),
    )
}

/// The record of replacements after the first `k` leaves were handled,
/// starting from `out0`: each leaf whose value was produced under a path
/// listed as an output records its new value `ws[i]` for its old value, a
/// later record of the same value under the same path taking the place of an
/// earlier one; no other leaf records anything.
pub open spec fn output_after<P: FakeDataProducer>(
    cfg: Config<P>,
    mapped: Set<JsonView>,
    out0: Map<Seq<PathItem>, Map<JsonView, JsonView>>,
    paths: Seq<Seq<PathItem>>,
    vals: Seq<JsonView>,
    ws: Seq<JsonView>,
    k: int,
) -> Map<Seq<PathItem>, Map<JsonView, JsonView>>
    decreases k,
{
    if k <= 0 {
        out0
    } else {
        let before = output_after(cfg, mapped, out0, paths, vals, ws, k - 1);
        if action_at(cfg, mapped, vals, k - 1) == LeafAction::Produce && cfg.is_output(paths[k - 1]) {
            record_output(before, paths[k - 1], vals[k - 1], ws[k - 1])
        } else {
            before
        }
    }
}

/// The record after `k` leaves depends on the new values of those leaves only.
proof fn lemma_output_after_prefix<P: FakeDataProducer>(
    cfg: Config<P>,
    mapped: Set<JsonView>,
    out0: Map<Seq<PathItem>, Map<JsonView, JsonView>>,
    paths: Seq<Seq<PathItem>>,
    vals: Seq<JsonView>,
    ws1: Seq<JsonView>,
    ws2: Seq<JsonView>,
    k: int,
)
    requires
        forall|j: int| 0 <= j < k ==> #[trigger] ws1[j] == ws2[j],
    ensures
        output_after(cfg, mapped, out0, paths, vals, ws1, k) == output_after(
            cfg,
            mapped,
            out0,
            paths,
            vals,
            ws2,
            k,
        ),
    decreases k,
{
    if k > 0 {
        lemma_output_after_prefix(cfg, mapped, out0, paths, vals, ws1, ws2, k - 1);
        assert(ws1[k - 1] == ws2[k - 1]);
    }
}

/// Leaves already handled stay handled as promised when the replacements
/// only grow and the next leaf is handled as promised.
proof fn lemma_done_extend<P: FakeDataProducer>(
    cfg: Config<P>,
    lists: Map<Seq<char>, Seq<Seq<char>>>,
    init: Map<JsonView, JsonView>,
    m: Map<JsonView, JsonView>,
    m2: Map<JsonView, JsonView>,
    o: Map<Seq<PathItem>, Map<JsonView, JsonView>>,
    o2: Map<Seq<PathItem>, Map<JsonView, JsonView>>,
    paths: Seq<Seq<PathItem>>,
    vals: Seq<JsonView>,
    ws: Seq<JsonView>,
    ws2: Seq<JsonView>,
    i: int,
)
    requires
        0 <= i,
        ws.len() == i,
        ws2.len() == i + 1,
        ws2.take(i) == ws,
        done_upto(cfg, lists, init, m, o, paths, vals, ws, i),
        mapping_extends(m, m2),
        output_extends(o, o2),
        output_keeps(o, o2, m.dom()),
        leaf_done(cfg, lists, init, m2, o2, paths, vals, ws2, i),
    ensures
        done_upto(cfg, lists, init, m2, o2, paths, vals, ws2, i + 1),
{
    assert forall|j: int| 0 <= j < i + 1 implies #[trigger] leaf_done(
        cfg,
        lists,
        init,
        m2,
        o2,
        paths,
        vals,
        ws2,
        j,
    ) by {
        if j < i {
            assert(leaf_done(cfg, lists, init, m, o, paths, vals, ws, j));
            assert(ws2[j] == ws[j]);
            match action_at(cfg, init.dom(), vals, j) {
                LeafAction::Skip => {},
                LeafAction::Mapped => {
                    assert(m.contains_key(vals[j]));
                },
                LeafAction::Produce => {
                    if cfg.internal_mapping {
                        assert(m.contains_key(vals[j]));
                    }
                    if cfg.is_output(paths[j]) {
                        assert(o.contains_key(paths[j]));
                        assert(o[paths[j]].contains_key(vals[j]));
                        if cfg.internal_mapping {
                            assert(m.dom().contains(vals[j]));
                            assert(o2[paths[j]][vals[j]] == o[paths[j]][vals[j]]);
                        }
                    }
                },
            }
        }
    }
}

/// Why the values of a document could not be replaced.
#[derive(Debug, Clone, PartialEq, Eq)]
pub enum UpdateError {
    /// The document is neither an array nor an object
    RootNotContainer,
    /// A value needs a producer and its path has none (and there is no default)
    MissingProducer,
    /// A producer failed
    Produce(FakeDataError),
    /// A producer made a number whose text is not a JSON number
    InvalidNumber,
}

/// Whether `e` is an error the replacement may stop with at a leaf under
/// `path` holding `val`, whose value was to be produced: a missing producer
/// exactly when the path has none, a failure of the producer only as the
/// producer may fail for that value, and a number that is no JSON number
/// only when the producer may give one.
pub open spec fn error_at<P: FakeDataProducer>(
    cfg: Config<P>,
    lists: Map<Seq<char>, Seq<Seq<char>>>,
    path: Seq<PathItem>,
    val: JsonView,
    e: UpdateError,
) -> bool {
    &&& e == UpdateError::MissingProducer <==> !cfg.has_producer(path)
    &&& e matches UpdateError::Produce(fe) ==> (cfg.producer_of(path) matches Some(p)
        && p.fails_with(lists, scalar_of(val), fe))
    &&& e == UpdateError::InvalidNumber ==> (cfg.producer_of(path) matches Some(p) && exists|
        v: Scalar,
    | #[trigger] p.produces(lists, scalar_of(val), v) && json_of_data_value(v) is None)
    &&& e != UpdateError::RootNotContainer
}

/// The paths of found leaves.
pub open spec fn found_paths<'a>(found: Seq<LeafRef<'a>>) -> Seq<Seq<PathItem>> {
    found.map_values(|l: LeafRef<'a>| l.key@)
}

/// The values of found leaves.
pub open spec fn found_values<'a>(found: Seq<LeafRef<'a>>) -> Seq<JsonView> {
    found.map_values(|l: LeafRef<'a>| l.value@)
}

/// Works out the new value of every leaf in walking order, producing values
/// where needed and recording replacements. When it stops on an error, the
/// leaves from the failing one on keep their values.
fn compute_updates<'a, P: FakeDataProducer>(
    found: &Vec<LeafRef<'a>>,
    data: &mut UpdateStructureData<P>,
    producer_data: &mut FakeDataProducerData,
) -> (r: (Vec<Json>, Result<(), UpdateError>))
    requires
        forall|j: int| 0 <= j < found@.len() ==> !is_container(#[trigger] found@[j].value@),
    ensures
        final(producer_data).wordlists@ == old(producer_data).wordlists@,
        final(data).config == old(data).config,
        r.0@.len() == found@.len(),
        !old(data).config.internal_mapping ==> final(data).mapping@ == old(data).mapping@,
        mapping_extends(old(data).mapping@, final(data).mapping@),
        new_values_scalar(old(data).mapping@, final(data).mapping@),
        output_extends(old(data).output_mapping@, final(data).output_mapping@),
        r.1 is Ok ==> done_upto(
            old(data).config,
            old(producer_data).wordlists@,
            old(data).mapping@,
            final(data).mapping@,
            final(data).output_mapping@,
            found_paths(found@),
            found_values(found@),
            views_of(r.0@),
            found@.len() as int,
        ),
        r.1 is Ok ==> final(data).mapping@.dom() == mapped_after(
            old(data).config.maintain_null,
            old(data).config.internal_mapping,
            old(data).mapping@.dom(),
            found_values(found@),
        ),
        r.1 is Ok ==> final(data).output_mapping@ == output_after(
            old(data).config,
            old(data).mapping@.dom(),
            old(data).output_mapping@,
            found_paths(found@),
            found_values(found@),
            views_of(r.0@),
            found@.len() as int,
        ),
        r.1 matches Err(e) ==> exists|k: int|
            0 <= k < found@.len() && final(data).output_mapping@ == output_after(
                old(data).config,
                old(data).mapping@.dom(),
                old(data).output_mapping@,
                found_paths(found@),
                found_values(found@),
                views_of(r.0@),
                k,
            ) && done_upto(
                old(data).config,
                old(producer_data).wordlists@,
                old(data).mapping@,
                final(data).mapping@,
                final(data).output_mapping@,
                found_paths(found@),
                found_values(found@),
                views_of(r.0@),
                k,
            ) && (forall|j: int|
                k <= j < found@.len() ==> #[trigger] views_of(r.0@)[j] == found_values(
                    found@,
                )[j]) && action_at(old(data).config, old(data).mapping@.dom(), found_values(found@), k)
                == LeafAction::Produce && error_at(old(data).config, old(producer_data).wordlists@, found_paths(found@)[k], found_values(found@)[k], e),
        r.1 != Err::<(), UpdateError>(UpdateError::RootNotContainer),
{
    let ghost cfg = data.config;
    let ghost lists = producer_data.wordlists@;
    let ghost init = data.mapping@;
    let ghost out0 = data.output_mapping@;
    let ghost paths = found_paths(found@);
    let ghost vals = found_values(found@);
    let mut ws: Vec<Json> = Vec::new();
    let mut i: usize = 0;
    assert(vals.take(0) =~= Seq::<JsonView>::empty());
    while i < found.len()
        invariant
            0 <= i <= found@.len(),
            paths == found_paths(found@),
            vals == found_values(found@),
            forall|j: int| 0 <= j < found@.len() ==> !is_container(#[trigger] found@[j].value@),
            data.config == cfg,
            cfg == old(data).config,
            init == old(data).mapping@,
            out0 == old(data).output_mapping@,
            lists == old(producer_data).wordlists@,
            producer_data.wordlists@ == lists,
            ws@.len() == i,
            !cfg.internal_mapping ==> data.mapping@ == init,
            new_values_scalar(init, data.mapping@),
            data.mapping@.dom() == mapped_after(
                cfg.maintain_null,
                cfg.internal_mapping,
                init.dom(),
                vals.take(i as int),
            ),
            mapping_extends(init, data.mapping@),
            output_extends(out0, data.output_mapping@),
            data.output_mapping@ == output_after(cfg, init.dom(), out0, paths, vals, views_of(ws@), i as int),
            done_upto(cfg, lists, init, data.mapping@, data.output_mapping@, paths, vals, views_of(ws@), i as int),
        decreases found@.len() - i,
    {
        let leaf = &found[i];
        let ghost m = data.mapping@;
        let ghost o = data.output_mapping@;
        let ghost wsv = views_of(ws@);
        assert(vals[i as int] == leaf.value@);
        assert(paths[i as int] == leaf.key@);
        assert(vals.take(i + 1).drop_last() =~= vals.take(i as int));
        assert(vals.take(i + 1).last() == vals[i as int]);
        assert(vals.take(i + 1) =~= vals.take(i as int).push(vals[i as int]));
        if data.config.maintain_null && leaf.value.is_null() {
            let c = leaf.value.deep_clone();
            ws.push(c);
            proof {
                assert(views_of(ws@).take(i as int) =~= wsv);
                assert(leaf_done(cfg, lists, init, m, o, paths, vals, views_of(ws@), i as int));
                lemma_done_extend(cfg, lists, init, m, m, o, o, paths, vals, wsv, views_of(ws@), i as int);
                lemma_output_after_prefix(cfg, init.dom(), out0, paths, vals, wsv, views_of(ws@), i as int);
            }
        } else {
            let mapped = match data.mapping.get(leaf.value) {
                Some(to) => Some(to.deep_clone()),
                None => None,
            };
            match mapped {
                Some(c) => {
                    ws.push(c);
                    proof {
                        assert(views_of(ws@).take(i as int) =~= wsv);
                        assert(leaf_done(cfg, lists, init, m, o, paths, vals, views_of(ws@), i as int));
                        lemma_done_extend(cfg, lists, init, m, m, o, o, paths, vals, wsv, views_of(ws@), i as int);
                        lemma_output_after_prefix(cfg, init.dom(), out0, paths, vals, wsv, views_of(ws@), i as int);
                    }
                },
                None => {
                    assert(action_at(cfg, init.dom(), vals, i as int) == LeafAction::Produce);
                    let producer = match data.config.producer_for(&leaf.key) {
                        Some(p) => p,
                        None => {
                            keep_rest(found, &mut ws, i);
                            proof {
                                assert forall|j: int| 0 <= j < i implies #[trigger] wsv[j] == views_of(ws@)[j] by {
                                    assert(views_of(ws@).take(i as int)[j] == views_of(ws@)[j]);
                                }
                                lemma_output_after_prefix(cfg, init.dom(), out0, paths, vals, wsv, views_of(ws@), i as int);
                            }
                            proof {
                                assert(views_of(ws@).take(i as int) == wsv);
                                assert forall|j: int| 0 <= j < i implies #[trigger] leaf_done(
                                    cfg,
                                    lists, init, m, o, paths, vals, views_of(ws@), j) by {
                                    assert(leaf_done(cfg, lists, init, m, o, paths, vals, wsv, j));
                                    assert(wsv[j] == views_of(ws@).take(i as int)[j]);
                                }
                            }
                            return (ws, Err(UpdateError::MissingProducer));
                        },
                    };
                    let dv = match DataValueRef::try_from_json(leaf.value) {
                        Ok(dv) => dv,
                        Err(_) => {
                            proof {
                                assert(!is_container(found@[i as int].value@));
                            }
                            keep_rest(found, &mut ws, i);
                            proof {
                                assert forall|j: int| 0 <= j < i implies #[trigger] wsv[j] == views_of(ws@)[j] by {
                                    assert(views_of(ws@).take(i as int)[j] == views_of(ws@)[j]);
                                }
                                lemma_output_after_prefix(cfg, init.dom(), out0, paths, vals, wsv, views_of(ws@), i as int);
                            }
                            return (ws, Err(UpdateError::InvalidNumber));
                        },
                    };
                    let produced = match producer.produce_fake(dv, producer_data) {
                        Ok(v) => v,
                        Err(e) => {
                            keep_rest(found, &mut ws, i);
                            proof {
                                assert forall|j: int| 0 <= j < i implies #[trigger] wsv[j] == views_of(ws@)[j] by {
                                    assert(views_of(ws@).take(i as int)[j] == views_of(ws@)[j]);
                                }
                                lemma_output_after_prefix(cfg, init.dom(), out0, paths, vals, wsv, views_of(ws@), i as int);
                            }
                            proof {
                                assert(views_of(ws@).take(i as int) == wsv);
                                assert forall|j: int| 0 <= j < i implies #[trigger] leaf_done(
                                    cfg,
                                    lists, init, m, o, paths, vals, views_of(ws@), j) by {
                                    assert(leaf_done(cfg, lists, init, m, o, paths, vals, wsv, j));
                                    assert(wsv[j] == views_of(ws@).take(i as int)[j]);
                                }
                            }
                            return (ws, Err(UpdateError::Produce(e)));
                        },
                    };
                    let ghost produced_view = produced@;
                    let json_value = match Json::try_from_data_value(produced) {
                        Ok(j) => j,
                        Err(_) => {
                            proof {
                                assert(json_of_data_value(produced_view) is None);
                                let q = cfg.producer_of(paths[i as int])->0;
                                assert(q == *producer);
                                assert(q.produces(lists, scalar_of(vals[i as int]), produced_view));
                                assert(error_at(cfg, lists, paths[i as int], vals[i as int], UpdateError::InvalidNumber));
                            }
                            keep_rest(found, &mut ws, i);
                            proof {
                                assert forall|j: int| 0 <= j < i implies #[trigger] wsv[j] == views_of(ws@)[j] by {
                                    assert(views_of(ws@).take(i as int)[j] == views_of(ws@)[j]);
                                }
                                lemma_output_after_prefix(cfg, init.dom(), out0, paths, vals, wsv, views_of(ws@), i as int);
                            }
                            proof {
                                assert(views_of(ws@).take(i as int) == wsv);
                                assert forall|j: int| 0 <= j < i implies #[trigger] leaf_done(
                                    cfg,
                                    lists, init, m, o, paths, vals, views_of(ws@), j) by {
                                    assert(leaf_done(cfg, lists, init, m, o, paths, vals, wsv, j));
                                    assert(wsv[j] == views_of(ws@).take(i as int)[j]);
                                }
                            }
                            return (ws, Err(UpdateError::InvalidNumber));
                        },
                    };
                    if data.config.output_contains(&leaf.key) {
                        let from = leaf.value.deep_clone();
                        let to = json_value.deep_clone();
                        data.output_mapping.record(&leaf.key, from, to);
                    }
                    if data.config.internal_mapping {
                        let from = leaf.value.deep_clone();
                        let to = json_value.deep_clone();
                        data.mapping.insert(from, to);
                    }
                    ws.push(json_value);
                    proof {
                        assert(made_by(*producer, lists, vals[i as int], views_of(ws@)[i as int])) by {
                            assert(producer.produces(lists, scalar_of(vals[i as int]), produced@));
                        }
                        let m2 = data.mapping@;
                        let o2 = data.output_mapping@;
                        assert(views_of(ws@).take(i as int) =~= wsv);
                        assert(!m.contains_key(leaf.value@));
                        assert(mapping_extends(m, m2));
                        assert(output_extends(o, o2));
                        assert(output_keeps(o, o2, m.dom()));
                        assert(leaf_done(cfg, lists, init, m2, o2, paths, vals, views_of(ws@), i as int));
                        lemma_done_extend(cfg, lists, init, m, m2, o, o2, paths, vals, wsv, views_of(ws@), i as int);
                        lemma_output_after_prefix(cfg, init.dom(), out0, paths, vals, wsv, views_of(ws@), i as int);
                    }
                },
            }
        }
        i = i + 1;
    }
    assert(vals.take(found@.len() as int) =~= vals);
    (ws, Ok(()))
}

/// `new` is `old`, whose own path is `path`, with its leaves replaced by
/// `ws`, where the leaves before position `k` were handled as promised and
/// the others kept their values.
pub open spec fn replaced_upto_at<P: FakeDataProducer>(
    cfg: Config<P>,
    lists: Map<Seq<char>, Seq<Seq<char>>>,
    init: Map<JsonView, JsonView>,
    mapping: Map<JsonView, JsonView>,
    output: Map<Seq<PathItem>, Map<JsonView, JsonView>>,
    old: JsonView,
    path: Seq<PathItem>,
    new: JsonView,
    ws: Seq<JsonView>,
    k: int,
) -> bool {
    &&& ws.len() == leaf_count(old)
    &&& 0 <= k <= ws.len()
    &&& new == replace_in(old, ws, 0)
    &&& done_upto(
        cfg,
        lists,
        init,
        mapping,
        output,
        leaf_paths_at(old, path),
        leaf_values_at(old, path),
        ws,
        k,
    )
    &&& forall|j: int| k <= j < ws.len() ==> #[trigger] ws[j] == leaf_values_at(old, path)[j]
}

/// `new` is the document `old` with its leaves replaced by `ws`, where the
/// leaves before position `k` were handled as promised and the others kept
/// their values.
pub open spec fn replaced_upto<P: FakeDataProducer>(
    cfg: Config<P>,
    lists: Map<Seq<char>, Seq<Seq<char>>>,
    init: Map<JsonView, JsonView>,
    mapping: Map<JsonView, JsonView>,
    output: Map<Seq<PathItem>, Map<JsonView, JsonView>>,
    old: JsonView,
    new: JsonView,
    ws: Seq<JsonView>,
    k: int,
) -> bool {
    replaced_upto_at(cfg, lists, init, mapping, output, old, seq![], new, ws, k)
}

/// What replacing the scalars of the document `old` promises, under the
/// configuration `cfg`, where the replacements and the record of outputs were
/// `init` and `out0` before and are `mapping` and `output` after, the document
/// is `new` after and the outcome is `r`:
/// - only a document that is neither an array nor an object is refused, and
///   then nothing changes;
/// - without internal mapping the replacements stay as they were; with it
///   they only grow, by scalar values;
/// - on success every leaf is handled as `leaf_done` says, the replacements
///   have exactly the values of the produced leaves added, and the record of
///   outputs is `out0` with the produced values of the leaves under output
///   paths recorded in walking order;
/// - on failure the leaves before the failing one are handled so, the others
///   keep their values, and the failing leaf needed a value produced.
pub open spec fn update_outcome<P: FakeDataProducer>(
    cfg: Config<P>,
    lists: Map<Seq<char>, Seq<Seq<char>>>,
    init: Map<JsonView, JsonView>,
    out0: Map<Seq<PathItem>, Map<JsonView, JsonView>>,
    mapping: Map<JsonView, JsonView>,
    output: Map<Seq<PathItem>, Map<JsonView, JsonView>>,
    old: JsonView,
    new: JsonView,
    r: Result<(), UpdateError>,
) -> bool {
    &&& r == Err::<(), UpdateError>(UpdateError::RootNotContainer) <==> !is_container(old)
    &&& r == Err::<(), UpdateError>(UpdateError::RootNotContainer) ==> new == old && mapping == init
        && output == out0
    &&& !cfg.internal_mapping ==> mapping == init
    &&& mapping_extends(init, mapping)
    &&& new_values_scalar(init, mapping)
    &&& output_extends(out0, output)
    &&& r is Ok ==> exists|ws: Seq<JsonView>|
        replaced_upto(cfg, lists, init, mapping, output, old, new, ws, ws.len() as int) && output
            == output_after(cfg, init.dom(), out0, leaf_paths(old), leaf_values(old), ws, ws.len() as int)
    &&& r is Ok ==> mapping.dom() == mapped_after(
        cfg.maintain_null,
        cfg.internal_mapping,
        init.dom(),
        leaf_values(old),
    )
    &&& r matches Err(e) ==> e == UpdateError::RootNotContainer || exists|ws: Seq<JsonView>, k: int|
        replaced_upto(cfg, lists, init, mapping, output, old, new, ws, k) && output == output_after(
            cfg,
            init.dom(),
            out0,
            leaf_paths(old),
            leaf_values(old),
            ws,
            k,
        ) && k < ws.len() && action_at(cfg, init.dom(), leaf_values(old), k) == LeafAction::Produce
            && error_at(cfg, lists, leaf_paths(old)[k], leaf_values(old)[k], e)
}

/// Walks the document replacing every scalar value: a null value is kept
/// when the configuration says so; a value with a replacement in
/// `data.mapping` gets it; any other value is replaced by what the producer
/// of its path (or the default producer) makes of it. Produced values are
/// recorded in `data.output_mapping` for the paths listed as outputs, and in
/// `data.mapping` when internal mapping is on, so that equal values get
/// equal replacements. The walk stops at the first leaf it cannot handle.
pub fn json_update_data<P: FakeDataProducer>(
    value: &mut Json,
    data: &mut UpdateStructureData<P>,
    producer_data: &mut FakeDataProducerData,
) -> (r: Result<(), UpdateError>)
    ensures
        final(producer_data).wordlists@ == old(producer_data).wordlists@,
        final(data).config == old(data).config,
        update_outcome(
            old(data).config,
            old(producer_data).wordlists@,
            old(data).mapping@,
            old(data).output_mapping@,
            final(data).mapping@,
            final(data).output_mapping@,
            old(value)@,
            final(value)@,
            r,
        ),
        r == Err::<(), UpdateError>(UpdateError::RootNotContainer) ==> *final(producer_data) == *old(
            producer_data,
        ),
{
    match value {
        Json::Array(_) | Json::Object(_) => {},
        _ => return Err(UpdateError::RootNotContainer),
    }
    let ghost cfg = data.config;
    let ghost lists = producer_data.wordlists@;
    let ghost init = data.mapping@;
    let ghost out0 = data.output_mapping@;
    let ghost before = value@;
    let r = update_leaves_at(value, None, data, producer_data);
    proof {
        let root = path_of(None::<Arc<PathKey>>);
        assert(root =~= Seq::<PathItem>::empty());
        if r is Err {
            let e = r->Err_0;
            let (ws, k) = choose|ws: Seq<JsonView>, k: int|
                replaced_upto_at(
                    cfg,
                    lists,
                    init,
                    data.mapping@,
                    data.output_mapping@,
                    before,
                    root,
                    value@,
                    ws,
                    k,
                ) && data.output_mapping@ == output_after(
                    cfg,
                    init.dom(),
                    out0,
                    leaf_paths_at(before, root),
                    leaf_values_at(before, root),
                    ws,
                    k,
                ) && k < ws.len() && action_at(cfg, init.dom(), leaf_values_at(before, root), k)
                    == LeafAction::Produce && error_at(cfg, lists, leaf_paths_at(before, root)[k], leaf_values_at(before, root)[k], e);
            assert(replaced_upto(cfg, lists, init, data.mapping@, data.output_mapping@, before, value@, ws, k));
        } else {
            let ws = choose|ws: Seq<JsonView>|
                replaced_upto_at(
                    cfg,
                    lists,
                    init,
                    data.mapping@,
                    data.output_mapping@,
                    before,
                    root,
                    value@,
                    ws,
                    ws.len() as int,
                ) && data.output_mapping@ == output_after(
                    cfg,
                    init.dom(),
                    out0,
                    leaf_paths_at(before, root),
                    leaf_values_at(before, root),
                    ws,
                    ws.len() as int,
                );
            assert(replaced_upto(cfg, lists, init, data.mapping@, data.output_mapping@, before, value@, ws, ws.len() as int));
        }
    }
    r
}

/// Replaces every scalar value of `value`, whose path is `key` (the root
/// where it is `None`), as `json_update_data` describes.
pub(crate) fn update_leaves_at<P: FakeDataProducer>(
    value: &mut Json,
    key: Option<Arc<PathKey>>,
    data: &mut UpdateStructureData<P>,
    producer_data: &mut FakeDataProducerData,
) -> (r: Result<(), UpdateError>)
    requires
        key is None ==> is_container(old(value)@),
    ensures
        final(producer_data).wordlists@ == old(producer_data).wordlists@,
        r != Err::<(), UpdateError>(UpdateError::RootNotContainer),
        final(data).config == old(data).config,
        !old(data).config.internal_mapping ==> final(data).mapping@ == old(data).mapping@,
        mapping_extends(old(data).mapping@, final(data).mapping@),
        new_values_scalar(old(data).mapping@, final(data).mapping@),
        output_extends(old(data).output_mapping@, final(data).output_mapping@),
        r is Ok ==> exists|ws: Seq<JsonView>|
            replaced_upto_at(
                old(data).config,
                old(producer_data).wordlists@,
                old(data).mapping@,
                final(data).mapping@,
                final(data).output_mapping@,
                old(value)@,
                path_of(key),
                final(value)@,
                ws,
                ws.len() as int,
            ) && final(data).output_mapping@ == output_after(
                old(data).config,
                old(data).mapping@.dom(),
                old(data).output_mapping@,
                leaf_paths_at(old(value)@, path_of(key)),
                leaf_values_at(old(value)@, path_of(key)),
                ws,
                ws.len() as int,
            ),
        r is Ok ==> final(data).mapping@.dom() == mapped_after(
            old(data).config.maintain_null,
            old(data).config.internal_mapping,
            old(data).mapping@.dom(),
            leaf_values_at(old(value)@, path_of(key)),
        ),
        r matches Err(e) ==> exists|ws: Seq<JsonView>, k: int|
            replaced_upto_at(
                old(data).config,
                old(producer_data).wordlists@,
                old(data).mapping@,
                final(data).mapping@,
                final(data).output_mapping@,
                old(value)@,
                path_of(key),
                final(value)@,
                ws,
                k,
            ) && final(data).output_mapping@ == output_after(
                old(data).config,
                old(data).mapping@.dom(),
                old(data).output_mapping@,
                leaf_paths_at(old(value)@, path_of(key)),
                leaf_values_at(old(value)@, path_of(key)),
                ws,
                k,
            ) && k < ws.len() && action_at(
                old(data).config,
                old(data).mapping@.dom(),
                leaf_values_at(old(value)@, path_of(key)),
                k,
            ) == LeafAction::Produce && error_at(old(data).config, old(producer_data).wordlists@, leaf_paths_at(old(value)@, path_of(key))[k], leaf_values_at(old(value)@, path_of(key))[k], e),
{
    let ghost old_value = value@;
    let ghost path = path_of(key);
    let ghost cfg = data.config;
    let ghost lists = producer_data.wordlists@;
    let ghost init = data.mapping@;
    let ghost out0 = data.output_mapping@;
    let ghost mut k: int = 0;
    let (ws, outcome) = {
        let root: &Json = value;
        let mut found: Vec<LeafRef<'_>> = Vec::new();
        collect_leaves(root, key, &mut found);
        proof {
            lemma_leaves_scalar(root@, path);
            lemma_leaves_len(root@, path);
            assert(leaf_refs_view(found@) =~= leaves(root@, path));
            assert(found_paths(found@) =~= leaf_paths_at(root@, path));
            assert(found_values(found@) =~= leaf_values_at(root@, path));
            assert forall|j: int| 0 <= j < found@.len() implies !is_container(
                #[trigger] found@[j].value@,
            ) by {
                assert(leaf_refs_view(found@)[j] == (found@[j].key@, found@[j].value@));
                assert(!is_container(leaves(root@, path)[j].1));
            }
        }
        let res = compute_updates(&found, data, producer_data);
        proof {
            let wsv = views_of(res.0@);
            match &res.1 {
                Ok(_) => {
                    k = found@.len() as int;
                },
                Err(e) => {
                    k = choose|k: int|
                        0 <= k < found@.len() && data.output_mapping@ == output_after(
                            cfg,
                            init.dom(),
                            out0,
                            found_paths(found@),
                            found_values(found@),
                            wsv,
                            k,
                        ) && done_upto(
                            cfg,
                            lists,
                            init,
                            data.mapping@,
                            data.output_mapping@,
                            found_paths(found@),
                            found_values(found@),
                            wsv,
                            k,
                        ) && (forall|j: int|
                            k <= j < found@.len() ==> #[trigger] wsv[j] == found_values(
                                found@,
                            )[j]) && action_at(cfg, init.dom(), found_values(found@), k)
                            == LeafAction::Produce && error_at(cfg, lists, found_paths(found@)[k], found_values(found@)[k], *e);
                },
            }
            assert(done_upto(
                cfg,
                lists,
                init,
                data.mapping@,
                data.output_mapping@,
                leaf_paths_at(old_value, path),
                leaf_values_at(old_value, path),
                wsv,
                k,
            ));
            assert(forall|j: int| k <= j < wsv.len() ==> #[trigger] wsv[j] == leaf_values_at(old_value, path)[j]);
            assert(res.0@.len() == leaf_count(old_value));
            assert(data.output_mapping@ == output_after(
                cfg,
                init.dom(),
                out0,
                leaf_paths_at(old_value, path),
                leaf_values_at(old_value, path),
                wsv,
                k,
            ));
        }
        res
    };
    let new_value = rebuild(value, &ws, 0);
    *value = new_value;
    proof {
        assert(replaced_upto_at(
            cfg,
            lists,
            init,
            data.mapping@,
            data.output_mapping@,
            old_value,
            path,
            value@,
            views_of(ws@),
            k,
        ));
    }
    outcome
}

/// Puts the original values of the leaves from `from` on into `ws`.
fn keep_rest<'a>(found: &Vec<LeafRef<'a>>, ws: &mut Vec<Json>, from: usize)
    requires
        from == old(ws)@.len(),
        from <= found@.len(),
    ensures
        final(ws)@.len() == found@.len(),
        views_of(final(ws)@).take(from as int) == views_of(old(ws)@),
        forall|j: int|
            from <= j < found@.len() ==> #[trigger] views_of(final(ws)@)[j] == found@[j].value@,
{
    let ghost start = views_of(ws@);
    let mut i = from;
    while i < found.len()
        invariant
            from <= i <= found@.len(),
            ws@.len() == i,
            views_of(ws@).take(from as int) == start,
            forall|j: int| from <= j < i ==> #[trigger] views_of(ws@)[j] == found@[j].value@,
        decreases found@.len() - i,
    {
        let c = found[i].value.deep_clone();
        let ghost before = ws@;
        ws.push(c);
        assert forall|j: int| from <= j < i + 1 implies #[trigger] views_of(ws@)[j]
            == found@[j].value@ by {
            if j < i {
                assert(ws@[j] == before[j]);
                assert(views_of(before)[j] == found@[j].value@);
            }
        }
        assert(views_of(ws@).take(from as int) =~= views_of(before).take(from as int));
        i = i + 1;
    }
}

proof fn lemma_mapped_after_grows(
    maintain_null: bool,
    internal: bool,
    mapped: Set<JsonView>,
    vals: Seq<JsonView>,
)
    ensures
        mapped.subset_of(mapped_after(maintain_null, internal, mapped, vals)),
    decreases vals.len(),
{
    if vals.len() > 0 {
        lemma_mapped_after_grows(maintain_null, internal, mapped, vals.drop_last());
    }
}

/// With internal mapping on, leaves that held equal values hold equal
/// values after the replacement, wherever they are in the document.
pub proof fn lemma_internal_mapping_consistent<P: FakeDataProducer>(
    cfg: Config<P>,
    lists: Map<Seq<char>, Seq<Seq<char>>>,
    init: Map<JsonView, JsonView>,
    mapping: Map<JsonView, JsonView>,
    output: Map<Seq<PathItem>, Map<JsonView, JsonView>>,
    old: JsonView,
    new: JsonView,
    ws: Seq<JsonView>,
    i: int,
    j: int,
)
    requires
        replaced_upto(cfg, lists, init, mapping, output, old, new, ws, ws.len() as int),
        cfg.internal_mapping,
        0 <= i < ws.len(),
        0 <= j < ws.len(),
        leaf_values(old)[i] == leaf_values(old)[j],
    ensures
        ws[i] == ws[j],
{
    assert(leaf_done(cfg, lists, init, mapping, output, leaf_paths(old), leaf_values(old), ws, i));
    assert(leaf_done(cfg, lists, init, mapping, output, leaf_paths(old), leaf_values(old), ws, j));
}

/// A value that had a replacement before the walk gets that replacement
/// wherever it is found, unless it is a null value that is kept.
pub proof fn lemma_existing_mapping_respected<P: FakeDataProducer>(
    cfg: Config<P>,
    lists: Map<Seq<char>, Seq<Seq<char>>>,
    init: Map<JsonView, JsonView>,
    mapping: Map<JsonView, JsonView>,
    output: Map<Seq<PathItem>, Map<JsonView, JsonView>>,
    old: JsonView,
    new: JsonView,
    ws: Seq<JsonView>,
    i: int,
)
    requires
        replaced_upto(cfg, lists, init, mapping, output, old, new, ws, ws.len() as int),
        mapping_extends(init, mapping),
        0 <= i < ws.len(),
        init.contains_key(leaf_values(old)[i]),
        !(cfg.maintain_null && leaf_values(old)[i] == JsonView::Null),
    ensures
        ws[i] == init[leaf_values(old)[i]],
{
    let vals = leaf_values(old);
    lemma_mapped_after_grows(cfg.maintain_null, cfg.internal_mapping, init.dom(), vals.take(i));
    assert(leaf_done(cfg, lists, init, mapping, output, leaf_paths(old), vals, ws, i));
}

/// With null values kept, every leaf that held null still holds null.
pub proof fn lemma_nulls_kept<P: FakeDataProducer>(
    cfg: Config<P>,
    lists: Map<Seq<char>, Seq<Seq<char>>>,
    init: Map<JsonView, JsonView>,
    mapping: Map<JsonView, JsonView>,
    output: Map<Seq<PathItem>, Map<JsonView, JsonView>>,
    old: JsonView,
    new: JsonView,
    ws: Seq<JsonView>,
    i: int,
)
    requires
        replaced_upto(cfg, lists, init, mapping, output, old, new, ws, ws.len() as int),
        cfg.maintain_null,
        0 <= i < ws.len(),
        leaf_values(old)[i] == JsonView::Null,
    ensures
        ws[i] == JsonView::Null,
{
    assert(leaf_done(cfg, lists, init, mapping, output, leaf_paths(old), leaf_values(old), ws, i));
}

/// A value produced for a leaf under a path listed as an output is recorded
/// under that path, as the replacement of the value it stands for, when
/// internal mapping is on.
pub proof fn lemma_outputs_recorded<P: FakeDataProducer>(
    cfg: Config<P>,
    lists: Map<Seq<char>, Seq<Seq<char>>>,
    init: Map<JsonView, JsonView>,
    mapping: Map<JsonView, JsonView>,
    output: Map<Seq<PathItem>, Map<JsonView, JsonView>>,
    old: JsonView,
    new: JsonView,
    ws: Seq<JsonView>,
    i: int,
)
    requires
        replaced_upto(cfg, lists, init, mapping, output, old, new, ws, ws.len() as int),
        cfg.internal_mapping,
        0 <= i < ws.len(),
        cfg.is_output(leaf_paths(old)[i]),
        action_at(cfg, init.dom(), leaf_values(old), i) == LeafAction::Produce,
    ensures
        output.contains_key(leaf_paths(old)[i]),
        output[leaf_paths(old)[i]].contains_key(leaf_values(old)[i]),
        output[leaf_paths(old)[i]][leaf_values(old)[i]] == ws[i],
{
    assert(leaf_done(cfg, lists, init, mapping, output, leaf_paths(old), leaf_values(old), ws, i));
}

/// Whether leaf `i` records its new value: its value was produced and its
/// path is listed as an output.
pub open spec fn records_output<P: FakeDataProducer>(
    cfg: Config<P>,
    mapped: Set<JsonView>,
    paths: Seq<Seq<PathItem>>,
    vals: Seq<JsonView>,
    i: int,
) -> bool {
    action_at(cfg, mapped, vals, i) == LeafAction::Produce && cfg.is_output(paths[i])
}

/// A path under which none of the first `k` leaves records a value keeps its
/// record as it was, and so does a value none of them records under its path:
/// the record gains entries only for produced values under output paths.
pub proof fn lemma_output_untouched<P: FakeDataProducer>(
    cfg: Config<P>,
    mapped: Set<JsonView>,
    out0: Map<Seq<PathItem>, Map<JsonView, JsonView>>,
    paths: Seq<Seq<PathItem>>,
    vals: Seq<JsonView>,
    ws: Seq<JsonView>,
    k: int,
    p: Seq<PathItem>,
    v: JsonView,
)
    ensures
        (forall|i: int| 0 <= i < k ==> !(#[trigger] records_output(cfg, mapped, paths, vals, i) && paths[i] == p))
            ==> (output_after(cfg, mapped, out0, paths, vals, ws, k).contains_key(p) == out0.contains_key(p)
            && output_after(cfg, mapped, out0, paths, vals, ws, k)[p] == out0[p]),
        (forall|i: int|
            0 <= i < k ==> !(#[trigger] records_output(cfg, mapped, paths, vals, i) && paths[i] == p
                && vals[i] == v)) ==> {
            let o = output_after(cfg, mapped, out0, paths, vals, ws, k);
            &&& (o.contains_key(p) && o[p].contains_key(v)) == (out0.contains_key(p)
                && out0[p].contains_key(v))
            &&& o.contains_key(p) && o[p].contains_key(v) ==> o[p][v] == out0[p][v]
        },
    decreases k,
{
    if k > 0 {
        lemma_output_untouched(cfg, mapped, out0, paths, vals, ws, k - 1, p, v);
        let before = output_after(cfg, mapped, out0, paths, vals, ws, k - 1);
        assert(records_output(cfg, mapped, paths, vals, k - 1) == (action_at(cfg, mapped, vals, k - 1)
            == LeafAction::Produce && cfg.is_output(paths[k - 1])));
    }
}

/// When none of the first `k` leaves records a value, the record is as it was.
pub proof fn lemma_output_unchanged<P: FakeDataProducer>(
    cfg: Config<P>,
    mapped: Set<JsonView>,
    out0: Map<Seq<PathItem>, Map<JsonView, JsonView>>,
    paths: Seq<Seq<PathItem>>,
    vals: Seq<JsonView>,
    ws: Seq<JsonView>,
    k: int,
)
    requires
        forall|i: int| 0 <= i < k ==> !#[trigger] records_output(cfg, mapped, paths, vals, i),
    ensures
        output_after(cfg, mapped, out0, paths, vals, ws, k) == out0,
    decreases k,
{
    if k > 0 {
        assert(!records_output(cfg, mapped, paths, vals, k - 1));
        lemma_output_unchanged(cfg, mapped, out0, paths, vals, ws, k - 1);
    }
}

/// The value recorded for the old value of a recording leaf under its path
/// is the new value of the last leaf among the first `k` that recorded the
/// same old value under the same path, whether internal mapping is on or not.
pub proof fn lemma_output_last_write<P: FakeDataProducer>(
    cfg: Config<P>,
    mapped: Set<JsonView>,
    out0: Map<Seq<PathItem>, Map<JsonView, JsonView>>,
    paths: Seq<Seq<PathItem>>,
    vals: Seq<JsonView>,
    ws: Seq<JsonView>,
    k: int,
    i: int,
)
    requires
        0 <= i < k,
        records_output(cfg, mapped, paths, vals, i),
        forall|j: int|
            i < j < k ==> !(#[trigger] records_output(cfg, mapped, paths, vals, j) && paths[j]
                == paths[i] && vals[j] == vals[i]),
    ensures
        output_after(cfg, mapped, out0, paths, vals, ws, k).contains_key(paths[i]),
        output_after(cfg, mapped, out0, paths, vals, ws, k)[paths[i]].contains_key(vals[i]),
        output_after(cfg, mapped, out0, paths, vals, ws, k)[paths[i]][vals[i]] == ws[i],
    decreases k,
{
    if k - 1 > i {
        lemma_output_last_write(cfg, mapped, out0, paths, vals, ws, k - 1, i);
        assert(!(records_output(cfg, mapped, paths, vals, k - 1) && paths[k - 1] == paths[i]
            && vals[k - 1] == vals[i]));
    }
}

/// The leaves `ls` with their values replaced, in order, by `ws`.
pub open spec fn with_values(
    ls: Seq<(Seq<PathItem>, JsonView)>,
    ws: Seq<JsonView>,
) -> Seq<(Seq<PathItem>, JsonView)> {
    Seq::new(ls.len(), |i: int| (ls[i].0, ws[i]))
}

/// Whether the values of `ws` from `lo` up to `hi` are scalars.
pub open spec fn scalars_between(ws: Seq<JsonView>, lo: int, hi: int) -> bool {
    forall|i: int| lo <= i < hi ==> !is_container(#[trigger] ws[i])
}

proof fn lemma_with_values_concat(
    a: Seq<(Seq<PathItem>, JsonView)>,
    b: Seq<(Seq<PathItem>, JsonView)>,
    wa: Seq<JsonView>,
    wb: Seq<JsonView>,
)
    requires
        a.len() == wa.len(),
        b.len() == wb.len(),
    ensures
        with_values(a + b, wa + wb) == with_values(a, wa) + with_values(b, wb),
{
    assert(with_values(a + b, wa + wb) =~= with_values(a, wa) + with_values(b, wb));
}

proof fn lemma_replace_leaves(v: JsonView, ws: Seq<JsonView>, off: int, path: Seq<PathItem>)
    requires
        0 <= off,
        off + leaf_count(v) <= ws.len(),
        scalars_between(ws, off, off + leaf_count(v)),
    ensures
        leaves(replace_in(v, ws, off), path) == with_values(
            leaves(v, path),
            ws.subrange(off, off + leaf_count(v)),
        ),
    decreases v, 1nat,
{
    lemma_leaves_len(v, path);
    match v {
        JsonView::Array(items) => lemma_replace_items_leaves(items, ws, off, path),
        JsonView::Object(members) => lemma_replace_members_leaves(members, ws, off, path),
        _ => {
            assert(!is_container(ws[off]));
            assert(leaves(replace_in(v, ws, off), path) =~= with_values(
                leaves(v, path),
                ws.subrange(off, off + leaf_count(v)),
            ));
        },
    }
}

proof fn lemma_replace_items_leaves(
    items: Seq<JsonView>,
    ws: Seq<JsonView>,
    off: int,
    path: Seq<PathItem>,
)
    requires
        0 <= off,
        off + items_leaf_count(items) <= ws.len(),
        scalars_between(ws, off, off + items_leaf_count(items)),
    ensures
        array_leaves(replace_items(items, ws, off), path) == with_values(
            array_leaves(items, path),
            ws.subrange(off, off + items_leaf_count(items)),
        ),
    decreases items, 0nat,
{
    lemma_array_leaves_len(items, path);
    if items.len() == 0 {
        assert(replace_items(items, ws, off) =~= Seq::<JsonView>::empty());
        assert(with_values(array_leaves(items, path), ws.subrange(off, off)) =~= Seq::<
            (Seq<PathItem>, JsonView),
        >::empty());
    } else {
        let first = items[0];
        let rest = items.drop_first();
        let c = leaf_count(first);
        let p = path.push(PathItem::Index);
        lemma_replace_leaves(first, ws, off, p);
        lemma_replace_items_leaves(rest, ws, off + c, path);
        lemma_leaves_len(first, p);
        lemma_array_leaves_len(rest, path);
        let replaced = replace_items(items, ws, off);
        assert(replaced[0] == replace_in(first, ws, off));
        assert(replaced.drop_first() =~= replace_items(rest, ws, off + c));
        assert(replaced.len() > 0);
        lemma_with_values_concat(
            leaves(first, p),
            array_leaves(rest, path),
            ws.subrange(off, off + c),
            ws.subrange(off + c, off + items_leaf_count(items)),
        );
        assert(ws.subrange(off, off + c) + ws.subrange(off + c, off + items_leaf_count(items))
            =~= ws.subrange(off, off + items_leaf_count(items)));
    }
}

proof fn lemma_replace_members_leaves(
    members: Seq<(Seq<char>, JsonView)>,
    ws: Seq<JsonView>,
    off: int,
    path: Seq<PathItem>,
)
    requires
        0 <= off,
        off + members_leaf_count(members) <= ws.len(),
        scalars_between(ws, off, off + members_leaf_count(members)),
    ensures
        object_leaves(replace_members(members, ws, off), path) == with_values(
            object_leaves(members, path),
            ws.subrange(off, off + members_leaf_count(members)),
        ),
    decreases members, 0nat,
{
    lemma_object_leaves_len(members, path);
    if members.len() == 0 {
        assert(replace_members(members, ws, off) =~= Seq::<(Seq<char>, JsonView)>::empty());
        assert(with_values(object_leaves(members, path), ws.subrange(off, off)) =~= Seq::<
            (Seq<PathItem>, JsonView),
        >::empty());
    } else {
        let first = members[0];
        let rest = members.drop_first();
        let c = leaf_count(first.1);
        let p = path.push(PathItem::Key(first.0));
        lemma_replace_leaves(first.1, ws, off, p);
        lemma_replace_members_leaves(rest, ws, off + c, path);
        lemma_leaves_len(first.1, p);
        lemma_object_leaves_len(rest, path);
        let replaced = replace_members(members, ws, off);
        assert(replaced[0] == (first.0, replace_in(first.1, ws, off)));
        assert(replaced.drop_first() =~= replace_members(rest, ws, off + c));
        assert(replaced.len() > 0);
        lemma_with_values_concat(
            leaves(first.1, p),
            object_leaves(rest, path),
            ws.subrange(off, off + c),
            ws.subrange(off + c, off + members_leaf_count(members)),
        );
        assert(ws.subrange(off, off + c) + ws.subrange(off + c, off + members_leaf_count(members))
            =~= ws.subrange(off, off + members_leaf_count(members)));
    }
}

/// Replacing the leaves of a document by scalars keeps every path: the new
/// document has the leaves of the old one at the same paths, in the same
/// order, each holding its replacement.
pub proof fn lemma_replacement_keeps_paths(old: JsonView, ws: Seq<JsonView>)
    requires
        ws.len() == leaf_count(old),
        scalars_between(ws, 0, ws.len() as int),
    ensures
        leaf_paths(replace_in(old, ws, 0)) == leaf_paths(old),
        leaf_values(replace_in(old, ws, 0)) == ws,
{
    lemma_replace_leaves(old, ws, 0, seq![]);
    lemma_leaves_len(old, seq![]);
    assert(ws.subrange(0, ws.len() as int) =~= ws);
    let new_leaves = leaves(replace_in(old, ws, 0), seq![]);
    assert(leaf_paths(replace_in(old, ws, 0)) =~= leaf_paths(old));
    assert(leaf_values(replace_in(old, ws, 0)) =~= ws);
}

/// When every replacement given beforehand is a scalar, a document
/// processed to the end keeps every path of the input document, in the same
/// order, and its leaves hold the replacements.
pub proof fn lemma_processed_keeps_paths<P: FakeDataProducer>(
    cfg: Config<P>,
    lists: Map<Seq<char>, Seq<Seq<char>>>,
    init: Map<JsonView, JsonView>,
    mapping: Map<JsonView, JsonView>,
    output: Map<Seq<PathItem>, Map<JsonView, JsonView>>,
    old: JsonView,
    new: JsonView,
    ws: Seq<JsonView>,
)
    requires
        replaced_upto(cfg, lists, init, mapping, output, old, new, ws, ws.len() as int),
        mapping_extends(init, mapping),
        new_values_scalar(init, mapping),
        forall|k: JsonView| #[trigger] init.contains_key(k) ==> !is_container(init[k]),
    ensures
        leaf_paths(new) == leaf_paths(old),
        leaf_values(new) == ws,
{
    lemma_leaves_scalar(old, seq![]);
    lemma_leaves_len(old, seq![]);
    let vals = leaf_values(old);
    assert forall|i: int| 0 <= i < ws.len() implies !is_container(#[trigger] ws[i]) by {
        assert(leaf_done(cfg, lists, init, mapping, output, leaf_paths(old), vals, ws, i));
        assert(vals[i] == leaves(old, seq![])[i].1);
        if init.contains_key(vals[i]) {
            assert(mapping[vals[i]] == init[vals[i]]);
        }
    }
    lemma_replacement_keeps_paths(old, ws);
}

} // verus!

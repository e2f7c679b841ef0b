use crate::config::{Config, ProducerEntry};
use crate::data::json::{
    collect_leaves, is_container, leaf_count, leaf_paths_at, leaf_values_at, leaf_refs_view,
    leaves, lemma_leaves_scalar, mapped_after, output_after, output_extends, path_of, replaced_upto_at,
    update_leaves_at, group_leaves, add_to_group, action_at, error_at, leaf_done, made_by, Json, JsonView,
    LeafAction, LeafRef,
    RootNotContainer, UpdateError,
};
use crate::data::key::{share_key, PathItem, PathKey};
use crate::data::mapping::{JsonMapping, OutputMapping};
use crate::data::UpdateStructureData;
use crate::fake::{FakeDataProducer, FakeDataProducerData};
use std::sync::Arc;
use vstd::prelude::*;

verus! {

/// A scalar found in a document.
#[derive(Debug, PartialEq, Eq)]
pub enum JsonValue {
    Number(String),
    String(String),
    Boolean(bool),
    Null,
}

impl View for JsonValue {
    type V = JsonView;

    open spec fn view(&self) -> JsonView {
        match self {
            JsonValue::Number(n) => JsonView::Number(n@),
            JsonValue::String(s) => JsonView::String(s@),
            JsonValue::Boolean(b) => JsonView::Bool(*b),
            JsonValue::Null => JsonView::Null,
        }
    }
}

/// A scalar of a document together with its path.
#[derive(Debug, PartialEq, Eq)]
pub struct JsonPathItem {
    pub path_key: Arc<PathKey>,
    pub value: JsonValue,
}

/// Found scalars as seen by specifications: each path with its value.
pub open spec fn path_items_view(s: Seq<JsonPathItem>) -> Seq<(Seq<PathItem>, JsonView)> {
    s.map_values(|it: JsonPathItem| (it.path_key@, it.value@))
}

/// The scalar held by a document that is no array or object.
fn scalar_value(value: &Json) -> (r: JsonValue)
    requires
        !is_container(value@),
    ensures
        r@ == value@,
{
    match value {
        Json::Null => JsonValue::Null,
        Json::Bool(b) => JsonValue::Boolean(*b),
        Json::Number(n) => JsonValue::Number(n.clone()),
        Json::String(s) => JsonValue::String(s.clone()),
        Json::Array(_) => JsonValue::Null,
        Json::Object(_) => JsonValue::Null,
    }
}

/// Appends the found leaves to `output`, each with an owned copy of its value.
fn append_leaves<'a>(found: &Vec<LeafRef<'a>>, output: &mut Vec<JsonPathItem>)
    requires
        forall|j: int| 0 <= j < found@.len() ==> !is_container(#[trigger] found@[j].value@),
    ensures
        path_items_view(final(output)@) == path_items_view(old(output)@) + leaf_refs_view(found@),
{
    let ghost start = path_items_view(output@);
    let mut i: usize = 0;
    assert(leaf_refs_view(found@).take(0) =~= Seq::<(Seq<PathItem>, JsonView)>::empty());
    while i < found.len()
        invariant
            0 <= i <= found@.len(),
            forall|j: int| 0 <= j < found@.len() ==> !is_container(#[trigger] found@[j].value@),
            path_items_view(output@) == start + leaf_refs_view(found@).take(i as int),
        decreases found@.len() - i,
    {
        let leaf = &found[i];
        let item = JsonPathItem { path_key: share_key(&leaf.key), value: scalar_value(leaf.value) };
        let ghost before = output@;
        output.push(item);
        assert(leaf_refs_view(found@)[i as int] == (leaf.key@, leaf.value@));
        assert(leaf_refs_view(found@).take(i + 1) =~= leaf_refs_view(found@).take(i as int).push(
            (leaf.key@, leaf.value@),
        ));
        assert(path_items_view(output@) =~= path_items_view(before).push((leaf.key@, leaf.value@)));
        i = i + 1;
    }
    assert(leaf_refs_view(found@).take(found@.len() as int) =~= leaf_refs_view(found@));
}

/// Appends the scalars of `value`, whose path is `key`, with their paths to
/// `output`, in the order of a depth-first walk.
pub fn walk_json_field(value: &Json, key: Arc<PathKey>, output: &mut Vec<JsonPathItem>)
    ensures
        path_items_view(final(output)@) == path_items_view(old(output)@) + leaves(value@, key@),
{
    let ghost path = key@;
    let mut found: Vec<LeafRef<'_>> = Vec::new();
    collect_leaves(value, Some(key), &mut found);
    proof {
        lemma_leaves_scalar(value@, path);
        assert(leaf_refs_view(found@) =~= leaves(value@, path));
        assert forall|j: int| 0 <= j < found@.len() implies !is_container(
            #[trigger] found@[j].value@,
        ) by {
            assert(leaf_refs_view(found@)[j] == (found@[j].key@, found@[j].value@));
            assert(!is_container(leaves(value@, path)[j].1));
        }
    }
    append_leaves(&found, output);
}

/// Walks the document, which must be an array or an object, giving every
/// scalar with its path in the order of a depth-first walk.
pub fn build_json_structure(value: &Json) -> (r: Result<Vec<JsonPathItem>, RootNotContainer>)
    ensures
        r is Err <==> !is_container(value@),
        r matches Ok(items) ==> path_items_view(items@) == leaves(value@, seq![]),
{
    match value {
        Json::Array(_) | Json::Object(_) => {},
        _ => return Err(RootNotContainer),
    }
    let mut found: Vec<LeafRef<'_>> = Vec::new();
    collect_leaves(value, None, &mut found);
    proof {
        lemma_leaves_scalar(value@, seq![]);
        assert(leaf_refs_view(found@) =~= leaves(value@, seq![]));
        assert forall|j: int| 0 <= j < found@.len() implies !is_container(
            #[trigger] found@[j].value@,
        ) by {
            assert(leaf_refs_view(found@)[j] == (found@[j].key@, found@[j].value@));
            assert(!is_container(leaves(value@, seq![])[j].1));
        }
    }
    let mut items: Vec<JsonPathItem> = Vec::new();
    append_leaves(&found, &mut items);
    assert(path_items_view(items@) =~= leaves(value@, seq![]));
    Ok(items)
}

/// Whether some item of `s` has the path `path`.
pub open spec fn has_path(s: Seq<(Seq<PathItem>, JsonView)>, path: Seq<PathItem>) -> bool {
    exists|j: int| 0 <= j < s.len() && (#[trigger] s[j]).0 == path
}

/// The items of `s` whose path no earlier item has, in order.
pub open spec fn first_of_paths(s: Seq<(Seq<PathItem>, JsonView)>) -> Seq<
    (Seq<PathItem>, JsonView),
>
    decreases s.len(),
{
    if s.len() == 0 {
        seq![]
    } else {
        let kept = first_of_paths(s.drop_last());
        if has_path(kept, s.last().0) {
            kept
        } else {
            kept.push(s.last())
        }
    }
}

/// Keeps, of the items with one path, only the first.
pub fn deduplicate_json_structure(structure: &mut Vec<JsonPathItem>)
    ensures
        path_items_view(final(structure)@) == first_of_paths(path_items_view(old(structure)@)),
{
    let ghost all = path_items_view(structure@);
    let ghost mut t: int = 0;
    let mut i: usize = 0;
    assert(all.take(0) =~= Seq::<(Seq<PathItem>, JsonView)>::empty());
    assert(path_items_view(structure@).take(0) =~= Seq::<(Seq<PathItem>, JsonView)>::empty());
    assert(path_items_view(structure@).skip(0) =~= all.skip(0));
    while i < structure.len()
        invariant
            0 <= i <= structure@.len(),
            0 <= t <= all.len(),
            path_items_view(structure@).take(i as int) == first_of_paths(all.take(t)),
            path_items_view(structure@).skip(i as int) == all.skip(t),
            structure@.len() - i == all.len() - t,
        decreases structure@.len() - i,
    {
        let ghost kept = first_of_paths(all.take(t));
        let ghost before = path_items_view(structure@);
        assert(before.skip(i + 1) =~= before.skip(i as int).drop_first());
        assert(all.skip(t + 1) =~= all.skip(t).drop_first());
        assert(before.skip(i as int)[0] == before[i as int]);
        assert(all.skip(t)[0] == all[t]);
        assert(all.take(t + 1).drop_last() =~= all.take(t));
        assert(all.take(t + 1).last() == all[t]);
        let mut j: usize = 0;
        let mut seen = false;
        while j < i && !seen
            invariant
                0 <= j <= i,
                i < structure@.len(),
                before == path_items_view(structure@),
                kept == before.take(i as int),
                !seen ==> forall|x: int| 0 <= x < j ==> (#[trigger] kept[x]).0 != before[i as int].0,
                seen ==> has_path(kept, before[i as int].0),
            decreases i - j + (if seen { 0int } else { 1int }),
        {
            if structure[j].path_key.same_path(&structure[i].path_key) {
                seen = true;
                assert(kept[j as int].0 == before[i as int].0);
            } else {
                j = j + 1;
            }
        }
        if seen {
            structure.remove(i);
            proof {
                let after = path_items_view(structure@);
                assert(after.take(i as int) =~= before.take(i as int));
                assert(after.skip(i as int) =~= before.skip(i + 1));
                assert(before.skip(i + 1) =~= all.skip(t + 1));
                t = t + 1;
            }
        } else {
            proof {
                assert(!has_path(kept, all[t].0));
                assert(before.take(i + 1) =~= kept.push(all[t]));
                assert(before.skip(i + 1) =~= all.skip(t + 1));
                t = t + 1;
            }
            i = i + 1;
        }
    }
    proof {
        assert(all.take(t) =~= all);
        assert(path_items_view(structure@).take(i as int) =~= path_items_view(structure@));
    }
}

/// Keeping the first scalar of each path leaves no path twice, and loses no
/// path.
pub proof fn lemma_first_of_paths_distinct(s: Seq<(Seq<PathItem>, JsonView)>)
    ensures
        forall|i: int, j: int|
            0 <= i < j < first_of_paths(s).len() ==> (#[trigger] first_of_paths(s)[i]).0 != (
            #[trigger] first_of_paths(s)[j]).0,
        forall|p: Seq<PathItem>| #[trigger] has_path(s, p) <==> has_path(first_of_paths(s), p),
    decreases s.len(),
{
    if s.len() > 0 {
        let init = s.drop_last();
        lemma_first_of_paths_distinct(init);
        let kept = first_of_paths(init);
        let last = s.last();
        assert forall|p: Seq<PathItem>| #[trigger] has_path(s, p) <==> has_path(
            first_of_paths(s),
            p,
        ) by {
            if has_path(s, p) {
                let j = choose|j: int| 0 <= j < s.len() && (#[trigger] s[j]).0 == p;
                if j < init.len() {
                    assert(init[j] == s[j]);
                    assert(has_path(init, p));
                    let k = choose|k: int| 0 <= k < kept.len() && (#[trigger] kept[k]).0 == p;
                    assert(first_of_paths(s)[k] == kept[k]);
                } else {
                    assert(last.0 == p);
                    if !has_path(kept, last.0) {
                        assert(first_of_paths(s)[kept.len() as int] == last);
                    } else {
                        let k = choose|k: int| 0 <= k < kept.len() && (#[trigger] kept[k]).0 == p;
                        assert(first_of_paths(s)[k] == kept[k]);
                    }
                }
            }
            if has_path(first_of_paths(s), p) {
                let k = choose|k: int|
                    0 <= k < first_of_paths(s).len() && (#[trigger] first_of_paths(s)[k]).0 == p;
                if k < kept.len() {
                    assert(first_of_paths(s)[k] == kept[k]);
                    assert(has_path(kept, p));
                    assert(has_path(init, p));
                    let j = choose|j: int| 0 <= j < init.len() && (#[trigger] init[j]).0 == p;
                    assert(s[j] == init[j]);
                } else {
                    assert(s[s.len() - 1] == last);
                }
            }
        }
        if !has_path(kept, last.0) {
            assert forall|i: int, j: int|
                0 <= i < j < first_of_paths(s).len() implies (#[trigger] first_of_paths(s)[i]).0
                != (#[trigger] first_of_paths(s)[j]).0 by {
                if j == kept.len() {
                    assert(first_of_paths(s)[i] == kept[i]);
                }
            }
        }
    }
}

/// The paths of found scalars, in order.
pub open spec fn paths_of_items(s: Seq<(Seq<PathItem>, JsonView)>) -> Seq<Seq<PathItem>> {
    s.map_values(|x: (Seq<PathItem>, JsonView)| x.0)
}

/// The paths of grouped values, in order.
pub open spec fn paths_of_groups(
    g: Seq<(Seq<PathItem>, Seq<crate::data::value::Scalar>)>,
) -> Seq<Seq<PathItem>> {
    g.map_values(|x: (Seq<PathItem>, Seq<crate::data::value::Scalar>)| x.0)
}

/// Keeping the first scalar of each path gives the paths of the grouped
/// values of a walk, in the same order.
pub proof fn lemma_first_of_paths_groups(ls: Seq<(Seq<PathItem>, JsonView)>)
    ensures
        paths_of_items(first_of_paths(ls)) == paths_of_groups(group_leaves(ls)),
    decreases ls.len(),
{
    if ls.len() > 0 {
        let init = ls.drop_last();
        lemma_first_of_paths_groups(init);
        let kept = first_of_paths(init);
        let groups = group_leaves(init);
        let p = ls.last().0;
        let x = crate::data::json::scalar_of(ls.last().1);
        assert(paths_of_items(kept).len() == kept.len());
        assert(paths_of_groups(groups).len() == groups.len());
        if has_path(kept, p) {
            let j = choose|j: int| 0 <= j < kept.len() && (#[trigger] kept[j]).0 == p;
            assert(paths_of_items(kept)[j] == p);
            assert(groups[j].0 == paths_of_groups(groups)[j]);
            assert(exists|g: int| 0 <= g < groups.len() && (#[trigger] groups[g]).0 == p);
            let g = choose|g: int| 0 <= g < groups.len() && (#[trigger] groups[g]).0 == p;
            assert(paths_of_groups(groups.update(g, (p, groups[g].1.push(x)))) =~= paths_of_groups(
                groups,
            ));
        } else {
            assert forall|g: int| 0 <= g < groups.len() implies (#[trigger] groups[g]).0 != p by {
                assert(paths_of_groups(groups)[g] == groups[g].0);
                assert(paths_of_items(kept)[g] == kept[g].0);
            }
            assert(paths_of_groups(groups.push((p, seq![x]))) =~= paths_of_groups(groups).push(p));
            assert(paths_of_items(kept.push(ls.last())) =~= paths_of_items(kept).push(p));
        }
    }
}

/// What the walk with updates of a document works with.
pub struct UpdateJsonData<P> {
    /// Producers by path
    pub mappings: Vec<ProducerEntry<P>>,
    /// Paths whose replacements are recorded
    pub output_keys: Vec<Arc<PathKey>>,
    /// Replacements made while walking, by path
    pub output_mapping: OutputMapping,
    /// Replacements given beforehand, used in place of producing a value
    pub existing_output_mapping: Option<JsonMapping>,
}

/// The configuration the walk with updates follows: the producers of the
/// data, no default producer, null values replaced like any other and no
/// internal mapping.
pub open spec fn update_config<P>(data: UpdateJsonData<P>) -> Config<P> {
    Config {
        mapping: data.mappings,
        output: data.output_keys,
        default: None,
        maintain_null: false,
        internal_mapping: false,
    }
}

/// The replacements given beforehand, none where there are none.
pub open spec fn existing_mapping<P>(data: UpdateJsonData<P>) -> Map<JsonView, JsonView> {
    match data.existing_output_mapping {
        Some(m) => m@,
        None => Map::empty(),
    }
}

/// A result holding a document, as seen by specifications.
pub open spec fn json_result_view(r: Result<Json, UpdateError>) -> Result<JsonView, UpdateError> {
    match r {
        Ok(j) => Ok(j@),
        Err(e) => Err(e),
    }
}

/// What the walk with updates promises: the mappings, output keys and given
/// replacements are as before, the records only grow, and the document, on
/// success, is `value` with its leaves replaced as promised.
pub open spec fn walk_update_done<P: FakeDataProducer>(
    before: UpdateJsonData<P>,
    lists: Map<Seq<char>, Seq<Seq<char>>>,
    after: UpdateJsonData<P>,
    value: JsonView,
    path: Seq<PathItem>,
    r: Result<JsonView, UpdateError>,
) -> bool {
    &&& after.mappings == before.mappings
    &&& after.output_keys == before.output_keys
    &&& after.existing_output_mapping is Some == before.existing_output_mapping is Some
    &&& existing_mapping(after) == existing_mapping(before)
    &&& output_extends(before.output_mapping@, after.output_mapping@)
    &&& r != Err::<JsonView, UpdateError>(UpdateError::RootNotContainer)
    &&& r matches Ok(new) ==> exists|ws: Seq<JsonView>|
        replaced_upto_at(
            update_config(before),
            lists,
            existing_mapping(before),
            existing_mapping(before),
            after.output_mapping@,
            value,
            path,
            new,
            ws,
            ws.len() as int,
        ) && after.output_mapping@ == output_after(
            update_config(before),
            existing_mapping(before).dom(),
            before.output_mapping@,
            leaf_paths_at(value, path),
            leaf_values_at(value, path),
            ws,
            ws.len() as int,
        )
    &&& r matches Err(e) ==> exists|ws: Seq<JsonView>, k: int, new: JsonView|
        replaced_upto_at(
            update_config(before),
            lists,
            existing_mapping(before),
            existing_mapping(before),
            after.output_mapping@,
            value,
            path,
            new,
            ws,
            k,
        ) && after.output_mapping@ == output_after(
            update_config(before),
            existing_mapping(before).dom(),
            before.output_mapping@,
            leaf_paths_at(value, path),
            leaf_values_at(value, path),
            ws,
            k,
        ) && k < ws.len() && action_at(
            update_config(before),
            existing_mapping(before).dom(),
            leaf_values_at(value, path),
            k,
        ) == LeafAction::Produce && error_at(update_config(before), lists, leaf_paths_at(value, path)[k], leaf_values_at(value, path)[k], e)
}

/// Without internal mapping, the values that have a replacement stay those
/// given at the start, whatever leaves are handled.
proof fn lemma_mapped_without_internal(maintain_null: bool, mapped: Set<JsonView>, vals: Seq<JsonView>)
    ensures
        mapped_after(maintain_null, false, mapped, vals) == mapped,
    decreases vals.len(),
{
    if vals.len() > 0 {
        lemma_mapped_without_internal(maintain_null, mapped, vals.drop_last());
    }
}

/// The walk with updates replaces null values like any other scalar: a
/// leaf that held null, where no replacement is given for null, ends up
/// holding a value made by the producer of its path.
pub proof fn lemma_walk_update_replaces_nulls<P: FakeDataProducer>(
    before: UpdateJsonData<P>,
    lists: Map<Seq<char>, Seq<Seq<char>>>,
    after: UpdateJsonData<P>,
    value: JsonView,
    path: Seq<PathItem>,
    new: JsonView,
    ws: Seq<JsonView>,
    i: int,
)
    requires
        replaced_upto_at(
            update_config(before),
            lists,
            existing_mapping(before),
            existing_mapping(before),
            after.output_mapping@,
            value,
            path,
            new,
            ws,
            ws.len() as int,
        ),
        0 <= i < ws.len(),
        leaf_values_at(value, path)[i] == JsonView::Null,
        !existing_mapping(before).contains_key(JsonView::Null),
    ensures
        update_config(before).producer_of(leaf_paths_at(value, path)[i]) matches Some(p) && made_by(
            p,
            lists,
            JsonView::Null,
            ws[i],
        ),
{
    let cfg = update_config(before);
    let vals = leaf_values_at(value, path);
    lemma_mapped_without_internal(cfg.maintain_null, existing_mapping(before).dom(), vals.take(i));
    assert(leaf_done(
        cfg,
        lists,
        existing_mapping(before),
        existing_mapping(before),
        after.output_mapping@,
        leaf_paths_at(value, path),
        vals,
        ws,
        i,
    ));
}

/// Replaces the leaves of a copy of `value`, whose path is `key`, with the
/// data of the walk with updates.
fn update_copy<P: FakeDataProducer>(
    value: &Json,
    key: Option<Arc<PathKey>>,
    data: &mut UpdateJsonData<P>,
    producer_data: &mut FakeDataProducerData,
) -> (r: Result<Json, UpdateError>)
    requires
        key is None ==> is_container(value@),
    ensures
        final(producer_data).wordlists@ == old(producer_data).wordlists@,
        walk_update_done(
            *old(data),
            old(producer_data).wordlists@,
            *final(data),
            value@,
            path_of(key),
            json_result_view(r),
        ),
{
    let ghost before = *data;
    let ghost lists = producer_data.wordlists@;
    let ghost path = path_of(key);
    let mut mappings: Vec<ProducerEntry<P>> = Vec::new();
    std::mem::swap(&mut mappings, &mut data.mappings);
    let mut output_keys: Vec<Arc<PathKey>> = Vec::new();
    std::mem::swap(&mut output_keys, &mut data.output_keys);
    let mut output_mapping = OutputMapping::new();
    std::mem::swap(&mut output_mapping, &mut data.output_mapping);
    let mut given: Option<JsonMapping> = None;
    std::mem::swap(&mut given, &mut data.existing_output_mapping);
    let had_given = given.is_some();
    let mapping = match given {
        Some(m) => m,
        None => JsonMapping::new(),
    };
    let mut state = UpdateStructureData {
        config: Config {
            mapping: mappings,
            output: output_keys,
            default: None,
            maintain_null: false,
            internal_mapping: false,
        },
        mapping,
        output_mapping,
    };
    assert(state.config == update_config(before));
    assert(state.mapping@ == existing_mapping(before));
    assert(state.output_mapping@ == before.output_mapping@);
    let mut copy = value.deep_clone();
    let ghost start = copy@;
    let outcome = update_leaves_at(&mut copy, key, &mut state, producer_data);
    proof {
        if outcome is Ok {
            let ws = choose|ws: Seq<JsonView>|
                replaced_upto_at(
                    update_config(before),
                    lists,
                    existing_mapping(before),
                    state.mapping@,
                    state.output_mapping@,
                    start,
                    path,
                    copy@,
                    ws,
                    ws.len() as int,
                ) && state.output_mapping@ == output_after(
                    update_config(before),
                    existing_mapping(before).dom(),
                    before.output_mapping@,
                    leaf_paths_at(start, path),
                    leaf_values_at(start, path),
                    ws,
                    ws.len() as int,
                );
            assert(state.mapping@ == existing_mapping(before));
            assert(start == value@);
        }
    }
    let UpdateStructureData { config, mapping, output_mapping } = state;
    let Config { mapping: mappings, output: output_keys, .. } = config;
    data.mappings = mappings;
    data.output_keys = output_keys;
    data.output_mapping = output_mapping;
    data.existing_output_mapping = if had_given {
        Some(mapping)
    } else {
        None
    };
    proof {
        assert(existing_mapping(*data) == existing_mapping(before));
    }
    let ghost done = copy@;
    let r = match outcome {
        Ok(()) => Ok(copy),
        Err(e) => Err(e),
    };
    proof {
        let rv = json_result_view(r);
        let after = *data;
        assert(after.mappings == before.mappings);
        assert(after.output_keys == before.output_keys);
        assert(output_extends(before.output_mapping@, after.output_mapping@));
        assert(rv != Err::<JsonView, UpdateError>(UpdateError::RootNotContainer));
        if rv is Ok {
            assert(rv == Ok::<JsonView, UpdateError>(done));
        }
    }
    r
}

/// Replaces the scalars of `value`, whose path is `key`: a value with a
/// replacement given beforehand gets it; any other value is replaced by what
/// the producer of its path makes of it, and recorded when its path is one of
/// the output keys. Stops at the first value it cannot replace.
pub fn walk_json_field_update<P: FakeDataProducer>(
    value: &Json,
    key: Arc<PathKey>,
    data: &mut UpdateJsonData<P>,
    producer_data: &mut FakeDataProducerData,
) -> (r: Result<Json, UpdateError>)
    ensures
        final(producer_data).wordlists@ == old(producer_data).wordlists@,
        walk_update_done(
            *old(data),
            old(producer_data).wordlists@,
            *final(data),
            value@,
            key@,
            json_result_view(r),
        ),
{
    update_copy(value, Some(key), data, producer_data)
}

/// Replaces the scalars of a document, which must be an array or an
/// object, as `walk_json_field_update` does, and gives the new document.
pub fn update_json_structure<P: FakeDataProducer>(
    value: &Json,
    data: &mut UpdateJsonData<P>,
    producer_data: &mut FakeDataProducerData,
) -> (r: Result<Json, UpdateError>)
    ensures
        final(producer_data).wordlists@ == old(producer_data).wordlists@,
        r == Err::<Json, UpdateError>(UpdateError::RootNotContainer) <==> !is_container(value@),
        is_container(value@) ==> walk_update_done(
            *old(data),
            old(producer_data).wordlists@,
            *final(data),
            value@,
            seq![],
            json_result_view(r),
        ),
        !is_container(value@) ==> *final(data) == *old(data),
        !is_container(value@) ==> *final(producer_data) == *old(producer_data),
{
    match value {
        Json::Array(_) | Json::Object(_) => {},
        _ => return Err(UpdateError::RootNotContainer),
    }
    let r = update_copy(value, None, data, producer_data);
    proof {
        assert(path_of(None::<Arc<PathKey>>) =~= Seq::<PathItem>::empty());
    }
    r
}

} // verus!

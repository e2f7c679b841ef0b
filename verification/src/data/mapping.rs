use crate::data::json::{json_eq, Json, JsonView};
use crate::data::key::{share_key, PathItem, PathKey};
use std::sync::Arc;
use vstd::prelude::*;

verus! {

/// One replacement: a value and what replaces it.
pub struct MappingEntry {
    pub from: Json,
    pub to: Json,
}

/// Replacements of values by other values; every value is replaced by one value.
pub struct JsonMapping {
    entries: Vec<MappingEntry>,
}

pub open spec fn entries_map(s: Seq<MappingEntry>) -> Map<JsonView, JsonView>
    decreases s.len(),
{
    if s.len() == 0 {
        Map::empty()
    } else {
        entries_map(s.drop_last()).insert(s.last().from@, s.last().to@)
    }
}

pub open spec fn distinct_from(s: Seq<MappingEntry>) -> bool {
    forall|i: int, j: int|
        0 <= i < s.len() && 0 <= j < s.len() && i != j ==> (#[trigger] s[i]).from@ != (
        #[trigger] s[j]).from@
}

pub(crate) proof fn lemma_entries_map(s: Seq<MappingEntry>)
    requires
        distinct_from(s),
    ensures
        forall|k: JsonView|
            entries_map(s).contains_key(k) <==> exists|i: int|
                0 <= i < s.len() && (#[trigger] s[i]).from@ == k,
        forall|i: int| 0 <= i < s.len() ==> entries_map(s)[(#[trigger] s[i]).from@] == s[i].to@,
    decreases s.len(),
{
    if s.len() > 0 {
        let t = s.drop_last();
        assert(distinct_from(t));
        lemma_entries_map(t);
        assert forall|k: JsonView|
            entries_map(s).contains_key(k) <==> exists|i: int|
                0 <= i < s.len() && (#[trigger] s[i]).from@ == k by {
            if entries_map(s).contains_key(k) && k != s.last().from@ {
                assert(entries_map(t).contains_key(k));
                let i = choose|i: int| 0 <= i < t.len() && (#[trigger] t[i]).from@ == k;
                assert(s[i] == t[i]);
            }
            if exists|i: int| 0 <= i < s.len() && (#[trigger] s[i]).from@ == k {
                let i = choose|i: int| 0 <= i < s.len() && (#[trigger] s[i]).from@ == k;
                if i < t.len() {
                    assert(t[i] == s[i]);
                }
            }
        }
        assert forall|i: int| 0 <= i < s.len() implies entries_map(s)[(#[trigger] s[i]).from@]
            == s[i].to@ by {
            if i < t.len() {
                assert(t[i] == s[i]);
                assert(s[i].from@ != s.last().from@);
            }
        }
    }
}

impl View for JsonMapping {
    type V = Map<JsonView, JsonView>;

    closed spec fn view(&self) -> Map<JsonView, JsonView> {
        entries_map(self.entries@)
    }
}

impl JsonMapping {
    #[verifier::type_invariant]
    spec fn wf(&self) -> bool {
        distinct_from(self.entries@)
    }

    /// The mapping that replaces nothing.
    pub fn new() -> (r: Self)
        ensures
            r@ == Map::<JsonView, JsonView>::empty(),
    {
        JsonMapping { entries: Vec::new() }
    }

    /// Where the entry of `key` stands, if there is one.
    fn position(&self, key: &Json) -> (r: Option<usize>)
        ensures
            r matches Some(i) ==> i < self.entries@.len() && self.entries@[i as int].from@
                == key@,
            r is None ==> forall|i: int|
                0 <= i < self.entries@.len() ==> (#[trigger] self.entries@[i]).from@ != key@,
    {
        let mut i: usize = 0;
        while i < self.entries.len()
            invariant
                0 <= i <= self.entries@.len(),
                forall|j: int| 0 <= j < i ==> (#[trigger] self.entries@[j]).from@ != key@,
            decreases self.entries@.len() - i,
        {
            if json_eq(&self.entries[i].from, key) {
                return Some(i);
            }
            i = i + 1;
        }
        None
    }

    /// The value that replaces `key`, if any.
    pub fn get(&self, key: &Json) -> (r: Option<&Json>)
        ensures
            r matches Some(v) ==> self@.contains_key(key@) && v@ == self@[key@],
            r is None ==> !self@.contains_key(key@),
    {
        proof {
            use_type_invariant(self);
            lemma_entries_map(self.entries@);
        }
        match self.position(key) {
            Some(i) => Some(&self.entries[i].to),
            None => None,
        }
    }

    /// Replaces `key` by `value` from now on.
    pub fn insert(&mut self, key: Json, value: Json)
        ensures
            final(self)@ == old(self)@.insert(key@, value@),
    {
        proof {
            use_type_invariant(&*self);
            lemma_entries_map(self.entries@);
        }
        let ghost old_entries = self.entries@;
        match self.position(&key) {
            Some(i) => {
                let from = self.entries[i].from.deep_clone();
                let mut entries = Vec::new();
                std::mem::swap(&mut entries, &mut self.entries);
                entries.set(i, MappingEntry { from, to: value });
                proof {
                    assert forall|a: int, b: int|
                        0 <= a < entries@.len() && 0 <= b < entries@.len() && a != b implies (
                        #[trigger] entries@[a]).from@ != (#[trigger] entries@[b]).from@ by {
                        assert(old_entries[a].from@ == entries@[a].from@);
                        assert(old_entries[b].from@ == entries@[b].from@);
                    }
                    lemma_entries_map(entries@);
                    assert forall|k: JsonView| #[trigger]
                        entries_map(entries@).contains_key(k) <==> old(self)@.insert(
                            key@,
                            value@,
                        ).contains_key(k) by {
                        if exists|x: int| 0 <= x < old_entries.len() && (#[trigger] old_entries[x]).from@ == k {
                            let x = choose|x: int| 0 <= x < old_entries.len() && (#[trigger] old_entries[x]).from@ == k;
                            assert(entries@[x].from@ == k);
                        }
                        if exists|x: int| 0 <= x < entries@.len() && (#[trigger] entries@[x]).from@ == k {
                            let x = choose|x: int| 0 <= x < entries@.len() && (#[trigger] entries@[x]).from@ == k;
                            assert(old_entries[x].from@ == k);
                        }
                    }
                    assert forall|k: JsonView| #[trigger]
                        entries_map(entries@).contains_key(k) implies entries_map(entries@)[k]
                        == old(self)@.insert(key@, value@)[k] by {
                        let x = choose|x: int| 0 <= x < entries@.len() && (#[trigger] entries@[x]).from@ == k;
                        assert(entries_map(entries@)[entries@[x].from@] == entries@[x].to@);
                        if x != i {
                            assert(old_entries[x] == entries@[x]);
                            assert(entries_map(old_entries)[old_entries[x].from@] == old_entries[x].to@);
                        }
                    }
                    assert(entries_map(entries@) =~= old(self)@.insert(key@, value@));
                }
                self.entries = entries;
            },
            None => {
                let mut entries = Vec::new();
                std::mem::swap(&mut entries, &mut self.entries);
                entries.push(MappingEntry { from: key, to: value });
                proof {
                    assert(entries@.drop_last() =~= old_entries);
                    assert forall|a: int, b: int|
                        0 <= a < entries@.len() && 0 <= b < entries@.len() && a != b implies (
                        #[trigger] entries@[a]).from@ != (#[trigger] entries@[b]).from@ by {
                        if a < old_entries.len() {
                            assert(old_entries[a] == entries@[a]);
                        }
                        if b < old_entries.len() {
                            assert(old_entries[b] == entries@[b]);
                        }
                    }
                }
                self.entries = entries;
            },
        }
    }

    /// The replacements, each value once.
    pub fn entries(&self) -> (r: &Vec<MappingEntry>)
        ensures
            entries_map(r@) == self@,
            distinct_from(r@),
    {
        proof {
            use_type_invariant(self);
        }
        &self.entries
    }
}

/// Replacements made for one path.
pub struct OutputEntry {
    pub key: Arc<PathKey>,
    pub mapping: JsonMapping,
}

/// Replacements made while processing, by the path of the replaced values.
pub struct OutputMapping {
    entries: Vec<OutputEntry>,
}

pub open spec fn output_entries_map(s: Seq<OutputEntry>) -> Map<
    Seq<PathItem>,
    Map<JsonView, JsonView>,
>
    decreases s.len(),
{
    if s.len() == 0 {
        Map::empty()
    } else {
        output_entries_map(s.drop_last()).insert(s.last().key@, s.last().mapping@)
    }
}

pub open spec fn distinct_keys(s: Seq<OutputEntry>) -> bool {
    forall|i: int, j: int|
        0 <= i < s.len() && 0 <= j < s.len() && i != j ==> (#[trigger] s[i]).key@ != (
        #[trigger] s[j]).key@
}

proof fn lemma_output_entries_map(s: Seq<OutputEntry>)
    requires
        distinct_keys(s),
    ensures
        forall|k: Seq<PathItem>|
            output_entries_map(s).contains_key(k) <==> exists|i: int|
                0 <= i < s.len() && (#[trigger] s[i]).key@ == k,
        forall|i: int|
            0 <= i < s.len() ==> output_entries_map(s)[(#[trigger] s[i]).key@] == s[i].mapping@,
    decreases s.len(),
{
    if s.len() > 0 {
        let t = s.drop_last();
        assert(distinct_keys(t));
        lemma_output_entries_map(t);
        assert forall|k: Seq<PathItem>|
            output_entries_map(s).contains_key(k) <==> exists|i: int|
                0 <= i < s.len() && (#[trigger] s[i]).key@ == k by {
            if output_entries_map(s).contains_key(k) && k != s.last().key@ {
                assert(output_entries_map(t).contains_key(k));
                let i = choose|i: int| 0 <= i < t.len() && (#[trigger] t[i]).key@ == k;
                assert(s[i] == t[i]);
            }
            if exists|i: int| 0 <= i < s.len() && (#[trigger] s[i]).key@ == k {
                let i = choose|i: int| 0 <= i < s.len() && (#[trigger] s[i]).key@ == k;
                if i < t.len() {
                    assert(t[i] == s[i]);
                }
            }
        }
        assert forall|i: int| 0 <= i < s.len() implies output_entries_map(s)[(
        #[trigger] s[i]).key@] == s[i].mapping@ by {
            if i < t.len() {
                assert(t[i] == s[i]);
                assert(s[i].key@ != s.last().key@);
            }
        }
    }
}

impl View for OutputMapping {
    type V = Map<Seq<PathItem>, Map<JsonView, JsonView>>;

    closed spec fn view(&self) -> Map<Seq<PathItem>, Map<JsonView, JsonView>> {
        output_entries_map(self.entries@)
    }
}

impl OutputMapping {
    #[verifier::type_invariant]
    spec fn wf(&self) -> bool {
        distinct_keys(self.entries@)
    }

    /// No replacements made yet.
    pub fn new() -> (r: Self)
        ensures
            r@ == Map::<Seq<PathItem>, Map<JsonView, JsonView>>::empty(),
    {
        OutputMapping { entries: Vec::new() }
    }

    /// The replacements made for the values of one path.
    pub fn get(&self, key: &PathKey) -> (r: Option<&JsonMapping>)
        ensures
            r matches Some(m) ==> self@.contains_key(key@) && m@ == self@[key@],
            r is None ==> !self@.contains_key(key@),
    {
        proof {
            use_type_invariant(self);
            lemma_output_entries_map(self.entries@);
        }
        let mut i: usize = 0;
        while i < self.entries.len()
            invariant
                0 <= i <= self.entries@.len(),
                forall|j: int| 0 <= j < i ==> (#[trigger] self.entries@[j]).key@ != key@,
            decreases self.entries@.len() - i,
        {
            if self.entries[i].key.same_path(key) {
                proof {
                    use_type_invariant(self);
                    lemma_output_entries_map(self.entries@);
                    assert(output_entries_map(self.entries@)[self.entries@[i as int].key@]
                        == self.entries@[i as int].mapping@);
                }
                return Some(&self.entries[i].mapping);
            }
            i = i + 1;
        }
        None
    }

    /// Records that `from`, found under `key`, was replaced by `to`.
    pub fn record(&mut self, key: &Arc<PathKey>, from: Json, to: Json)
        ensures
            final(self)@ == old(self)@.insert(
                key@,
                (if old(self)@.contains_key(key@) {
                    old(self)@[key@]
                } else {
                    Map::empty()
                }).insert(from@, to@),
            ),
    {
        proof {
            use_type_invariant(&*self);
            lemma_output_entries_map(self.entries@);
        }
        let ghost old_entries = self.entries@;
        let mut entries = Vec::new();
                std::mem::swap(&mut entries, &mut self.entries);
        let mut i: usize = 0;
        let mut at: Option<usize> = None;
        while i < entries.len() && at.is_none()
            invariant
                entries@ == old_entries,
                0 <= i <= entries@.len(),
                at is None ==> forall|j: int| 0 <= j < i ==> (#[trigger] entries@[j]).key@ != key@,
                at matches Some(t) ==> t < entries@.len() && entries@[t as int].key@ == key@,
            decreases entries@.len() - i + (if at is None { 1int } else { 0int }),
        {
            if entries[i].key.same_path(key) {
                at = Some(i);
            } else {
                i = i + 1;
            }
        }
        let ghost target = old(self)@.insert(
            key@,
            (if old(self)@.contains_key(key@) {
                old(self)@[key@]
            } else {
                Map::empty()
            }).insert(from@, to@),
        );
        match at {
            Some(t) => {
                entries[t].mapping.insert(from, to);
                proof {
                    assert forall|a: int, b: int|
                        0 <= a < entries@.len() && 0 <= b < entries@.len() && a != b implies (
                        #[trigger] entries@[a]).key@ != (#[trigger] entries@[b]).key@ by {
                        assert(old_entries[a].key@ == entries@[a].key@);
                        assert(old_entries[b].key@ == entries@[b].key@);
                    }
                    lemma_output_entries_map(entries@);
                    assert forall|k: Seq<PathItem>| #[trigger]
                        output_entries_map(entries@).contains_key(k) <==> target.contains_key(k) by {
                        if exists|x: int| 0 <= x < old_entries.len() && (#[trigger] old_entries[x]).key@ == k {
                            let x = choose|x: int| 0 <= x < old_entries.len() && (#[trigger] old_entries[x]).key@ == k;
                            assert(entries@[x].key@ == k);
                        }
                        if exists|x: int| 0 <= x < entries@.len() && (#[trigger] entries@[x]).key@ == k {
                            let x = choose|x: int| 0 <= x < entries@.len() && (#[trigger] entries@[x]).key@ == k;
                            assert(old_entries[x].key@ == k);
                        }
                    }
                    assert forall|k: Seq<PathItem>| #[trigger]
                        output_entries_map(entries@).contains_key(k) implies output_entries_map(
                        entries@,
                    )[k] == target[k] by {
                        let x = choose|x: int| 0 <= x < entries@.len() && (#[trigger] entries@[x]).key@ == k;
                        assert(output_entries_map(entries@)[entries@[x].key@] == entries@[x].mapping@);
                        if x != t {
                            assert(old_entries[x] == entries@[x]);
                            assert(output_entries_map(old_entries)[old_entries[x].key@]
                                == old_entries[x].mapping@);
                        } else {
                            assert(output_entries_map(old_entries)[old_entries[x].key@]
                                == old_entries[x].mapping@);
                        }
                    }
                    assert(output_entries_map(entries@) =~= target);
                }
            },
            None => {
                let mut mapping = JsonMapping::new();
                mapping.insert(from, to);
                entries.push(OutputEntry { key: share_key(key), mapping });
                proof {
                    assert(entries@.drop_last() =~= old_entries);
                    assert(!old(self)@.contains_key(key@));
                    assert forall|a: int, b: int|
                        0 <= a < entries@.len() && 0 <= b < entries@.len() && a != b implies (
                        #[trigger] entries@[a]).key@ != (#[trigger] entries@[b]).key@ by {
                        if a < old_entries.len() {
                            assert(old_entries[a] == entries@[a]);
                        }
                        if b < old_entries.len() {
                            assert(old_entries[b] == entries@[b]);
                        }
                    }
                    assert(output_entries_map(entries@) =~= target);
                }
            },
        }
        self.entries = entries;
    }

    /// The replacements, each path once.
    pub fn entries(&self) -> (r: &Vec<OutputEntry>)
        ensures
            output_entries_map(r@) == self@,
            distinct_keys(r@),
    {
        proof {
            use_type_invariant(self);
        }
        &self.entries
    }
}

/// Whether `merged` holds exactly the values replaced under some path of
/// `by_path`, each with its replacement under one of those paths.
pub open spec fn is_merge_of(
    merged: Map<JsonView, JsonView>,
    by_path: Map<Seq<PathItem>, Map<JsonView, JsonView>>,
) -> bool {
    &&& forall|v: JsonView|
        #[trigger] merged.contains_key(v) <==> exists|p: Seq<PathItem>|
            by_path.contains_key(p) && (#[trigger] by_path[p]).contains_key(v)
    &&& forall|v: JsonView|
        #[trigger] merged.contains_key(v) ==> exists|p: Seq<PathItem>|
            by_path.contains_key(p) && (#[trigger] by_path[p]).contains_key(v) && merged[v]
                == by_path[p][v]
}

impl OutputMapping {
    /// All the replacements in one mapping, whatever their path; where a
    /// value was replaced under several paths, one of its replacements is
    /// kept.
    pub fn flatten(&self) -> (r: JsonMapping)
        ensures
            is_merge_of(r@, self@),
    {
        let entries = self.entries();
        let ghost es = entries@;
        proof {
            lemma_output_entries_map(es);
        }
        let mut out = JsonMapping::new();
        let mut i: usize = 0;
        while i < entries.len()
            invariant
                0 <= i <= es.len(),
                es == entries@,
                forall|v: JsonView|
                    #[trigger] out@.contains_key(v) <==> exists|a: int|
                        0 <= a < i && (#[trigger] es[a].mapping@).contains_key(v),
                forall|v: JsonView|
                    #[trigger] out@.contains_key(v) ==> exists|a: int|
                        0 <= a < i && (#[trigger] es[a].mapping@).contains_key(v) && out@[v]
                            == es[a].mapping@[v],
            decreases es.len() - i,
        {
            let inner = entries[i].mapping.entries();
            let ghost ms = inner@;
            proof {
                lemma_entries_map(ms);
            }
            let ghost start = out@;
            let mut j: usize = 0;
            while j < inner.len()
                invariant
                    0 <= j <= ms.len(),
                    ms == inner@,
                    0 <= i < es.len(),
                    es == entries@,
                    entries_map(ms) == es[i as int].mapping@,
                    forall|x: int| 0 <= x < ms.len() ==> entries_map(ms)[(#[trigger] ms[x]).from@] == ms[x].to@,
                    forall|k: JsonView|
                        entries_map(ms).contains_key(k) <==> exists|x: int|
                            0 <= x < ms.len() && (#[trigger] ms[x]).from@ == k,
                    forall|v: JsonView|
                        #[trigger] out@.contains_key(v) <==> (start.contains_key(v) || exists|x: int|
                            0 <= x < j && (#[trigger] ms[x]).from@ == v),
                    forall|v: JsonView|
                        #[trigger] out@.contains_key(v) ==> (out@[v] == start[v] && !exists|x: int|
                            0 <= x < j && (#[trigger] ms[x]).from@ == v) || (exists|x: int|
                            0 <= x < j && (#[trigger] ms[x]).from@ == v && out@[v] == ms[x].to@),
                decreases ms.len() - j,
            {
                let from = inner[j].from.deep_clone();
                let to = inner[j].to.deep_clone();
                let ghost before = out@;
                out.insert(from, to);
                proof {
                    assert forall|v: JsonView| #[trigger] out@.contains_key(v) <==> (start.contains_key(v)
                        || exists|x: int| 0 <= x < j + 1 && (#[trigger] ms[x]).from@ == v) by {
                        if v == ms[j as int].from@ {
                            assert(ms[j as int].from@ == v);
                        } else if exists|x: int| 0 <= x < j + 1 && (#[trigger] ms[x]).from@ == v {
                            let x = choose|x: int| 0 <= x < j + 1 && (#[trigger] ms[x]).from@ == v;
                            assert(x < j);
                        }
                    }
                    assert forall|v: JsonView| #[trigger] out@.contains_key(v) implies (out@[v]
                        == start[v] && !exists|x: int| 0 <= x < j + 1 && (#[trigger] ms[x]).from@
                        == v) || (exists|x: int|
                        0 <= x < j + 1 && (#[trigger] ms[x]).from@ == v && out@[v] == ms[x].to@) by {
                        if v == ms[j as int].from@ {
                            assert(out@[v] == ms[j as int].to@);
                        } else {
                            assert(before.contains_key(v));
                            if exists|x: int| 0 <= x < j + 1 && (#[trigger] ms[x]).from@ == v {
                                let x = choose|x: int| 0 <= x < j + 1 && (#[trigger] ms[x]).from@ == v;
                                assert(x < j);
                            }
                        }
                    }
                }
                j = j + 1;
            }
            proof {
                let m = es[i as int].mapping@;
                assert forall|v: JsonView| #[trigger] out@.contains_key(v) <==> exists|a: int|
                    0 <= a < i + 1 && (#[trigger] es[a].mapping@).contains_key(v) by {
                    if exists|a: int| 0 <= a < i + 1 && (#[trigger] es[a].mapping@).contains_key(v) {
                        let a = choose|a: int| 0 <= a < i + 1 && (#[trigger] es[a].mapping@).contains_key(v);
                        if a == i {
                            let x = choose|x: int| 0 <= x < ms.len() && (#[trigger] ms[x]).from@ == v;
                            assert(ms[x].from@ == v);
                        }
                    }
                    if out@.contains_key(v) && !start.contains_key(v) {
                        let x = choose|x: int| 0 <= x < ms.len() && (#[trigger] ms[x]).from@ == v;
                        assert(m.contains_key(v));
                    }
                }
                assert forall|v: JsonView| #[trigger] out@.contains_key(v) implies exists|a: int|
                    0 <= a < i + 1 && (#[trigger] es[a].mapping@).contains_key(v) && out@[v]
                        == es[a].mapping@[v] by {
                    if exists|x: int| 0 <= x < ms.len() && (#[trigger] ms[x]).from@ == v && out@[v] == ms[x].to@ {
                        let x = choose|x: int| 0 <= x < ms.len() && (#[trigger] ms[x]).from@ == v && out@[v] == ms[x].to@;
                        assert(m.contains_key(v));
                        assert(m[v] == ms[x].to@);
                    } else {
                        assert(start.contains_key(v));
                        let a = choose|a: int| 0 <= a < i && (#[trigger] es[a].mapping@).contains_key(v)
                            && start[v] == es[a].mapping@[v];
                    }
                }
            }
            i = i + 1;
        }
        proof {
            let by_path = self@;
            assert forall|v: JsonView| #[trigger] out@.contains_key(v) <==> exists|p: Seq<PathItem>|
                by_path.contains_key(p) && (#[trigger] by_path[p]).contains_key(v) by {
                if out@.contains_key(v) {
                    let a = choose|a: int| 0 <= a < es.len() && (#[trigger] es[a].mapping@).contains_key(v);
                    assert(by_path[es[a].key@] == es[a].mapping@);
                    assert(by_path.contains_key(es[a].key@));
                }
                if exists|p: Seq<PathItem>| by_path.contains_key(p) && (#[trigger] by_path[p]).contains_key(v) {
                    let p = choose|p: Seq<PathItem>| by_path.contains_key(p) && (#[trigger] by_path[p]).contains_key(v);
                    let a = choose|a: int| 0 <= a < es.len() && (#[trigger] es[a]).key@ == p;
                    assert(es[a].mapping@.contains_key(v));
                }
            }
            assert forall|v: JsonView| #[trigger] out@.contains_key(v) implies exists|p: Seq<PathItem>|
                by_path.contains_key(p) && (#[trigger] by_path[p]).contains_key(v) && out@[v]
                    == by_path[p][v] by {
                let a = choose|a: int| 0 <= a < es.len() && (#[trigger] es[a].mapping@).contains_key(v)
                    && out@[v] == es[a].mapping@[v];
                assert(by_path[es[a].key@] == es[a].mapping@);
                assert(by_path.contains_key(es[a].key@));
            }
        }
        out
    }
}

/// After `key` is given the replacement `value`, the mapping gives `value`
/// for `key` and what it gave before for every other value.
pub proof fn lemma_insert_then_get(m: Map<JsonView, JsonView>, key: JsonView, value: JsonView)
    ensures
        m.insert(key, value).contains_key(key),
        m.insert(key, value)[key] == value,
        forall|k: JsonView|
            k != key ==> (#[trigger] m.insert(key, value).contains_key(k) == m.contains_key(k) && (
            m.contains_key(k) ==> m.insert(key, value)[k] == m[k])),
{
}

/// After recording that `from`, found under `key`, was replaced by `to`,
/// the record of `key` gives `to` for `from` and keeps every other value it
/// had, and the records of other paths are unchanged.
pub proof fn lemma_record_then_get(
    records: Map<Seq<PathItem>, Map<JsonView, JsonView>>,
    key: Seq<PathItem>,
    from: JsonView,
    to: JsonView,
)
    ensures
        ({
            let before = if records.contains_key(key) {
                records[key]
            } else {
                Map::empty()
            };
            let after = records.insert(key, before.insert(from, to));
            &&& after.contains_key(key)
            &&& after[key][from] == to
            &&& forall|v: JsonView|
                v != from && #[trigger] before.contains_key(v) ==> after[key].contains_key(v)
                    && after[key][v] == before[v]
            &&& forall|p: Seq<PathItem>|
                p != key ==> (#[trigger] after.contains_key(p) == records.contains_key(p) && (
                records.contains_key(p) ==> after[p] == records[p]))
        }),
{
}

} // verus!

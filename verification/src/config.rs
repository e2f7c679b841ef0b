use crate::data::key::{PathItem, PathKey};
use std::sync::Arc;
use vstd::prelude::*;

verus! {

/// The producer chosen for one path.
pub struct ProducerEntry<P> {
    pub key: Arc<PathKey>,
    pub producer: P,
}

/// How the values of a document are replaced.
pub struct Config<P> {
    /// Producers by path
    pub mapping: Vec<ProducerEntry<P>>,
    /// Paths whose replacements are recorded in the output mapping
    pub output: Vec<Arc<PathKey>>,
    /// Producer for the paths that have none of their own
    pub default: Option<P>,
    /// Whether null values are left as they are
    pub maintain_null: bool,
    /// Whether a value seen once is replaced by the same value everywhere
    /// else in the same input
    pub internal_mapping: bool,
}

impl<P> Config<P> {
    /// No path has two entries and no path is listed twice as an output.
    pub open spec fn wf(&self) -> bool {
        &&& forall|i: int, j: int|
            0 <= i < j < self.mapping@.len() ==> (#[trigger] self.mapping@[i]).key@ != (
            #[trigger] self.mapping@[j]).key@
        &&& forall|i: int, j: int|
            0 <= i < j < self.output@.len() ==> (#[trigger] self.output@[i])@ != (
            #[trigger] self.output@[j])@
    }

    /// Whether some entry of the mapping is for `path`.
    pub open spec fn has_entry(&self, path: Seq<PathItem>) -> bool {
        exists|i: int| 0 <= i < self.mapping@.len() && (#[trigger] self.mapping@[i]).key@ == path
    }

    /// Whether a value under `path` can be produced.
    pub open spec fn has_producer(&self, path: Seq<PathItem>) -> bool {
        self.has_entry(path) || self.default is Some
    }

    /// Whether the replacements of the values under `path` are recorded.
    pub open spec fn is_output(&self, path: Seq<PathItem>) -> bool {
        exists|i: int| 0 <= i < self.output@.len() && (#[trigger] self.output@[i])@ == path
    }

    /// The producer used for the values under `path`: that of the first
    /// entry for the path, else the default one.
    pub open spec fn producer_of(&self, path: Seq<PathItem>) -> Option<P> {
        if first_index_of(self.mapping@, path) < self.mapping@.len() {
            Some(self.mapping@[first_index_of(self.mapping@, path)].producer)
        } else {
            self.default
        }
    }

    /// The producer for a path: that of the first entry for the path, else
    /// the default one.
    pub fn producer_for(&self, key: &PathKey) -> (r: Option<&P>)
        ensures
            r matches Some(p) ==> self.producer_of(key@) == Some(*p),
            r is None ==> self.producer_of(key@) is None,
            r is Some <==> self.has_producer(key@),
            r matches Some(p) ==> ((exists|i: int|
                0 <= i < self.mapping@.len() && (#[trigger] self.mapping@[i]).key@ == key@
                    && *p == self.mapping@[i].producer && forall|j: int|
                    0 <= j < i ==> (#[trigger] self.mapping@[j]).key@ != key@) || (
            !self.has_entry(key@) && self.default == Some(*p))),
    {
        let mut i: usize = 0;
        while i < self.mapping.len()
            invariant
                0 <= i <= self.mapping@.len(),
                forall|j: int| 0 <= j < i ==> (#[trigger] self.mapping@[j]).key@ != key@,
            decreases self.mapping@.len() - i,
        {
            if self.mapping[i].key.same_path(key) {
                proof {
                    lemma_first_index_unique(self.mapping@, key@, i as int);
                }
                return Some(&self.mapping[i].producer);
            }
            i = i + 1;
        }
        proof {
            lemma_first_index_unique(self.mapping@, key@, self.mapping@.len() as int);
        }
        match &self.default {
            Some(p) => Some(p),
            None => None,
        }
    }

    /// Whether the replacements of the values under `key` are recorded.
    pub fn output_contains(&self, key: &PathKey) -> (r: bool)
        ensures
            r == self.is_output(key@),
    {
        let mut i: usize = 0;
        while i < self.output.len()
            invariant
                0 <= i <= self.output@.len(),
                forall|j: int| 0 <= j < i ==> (#[trigger] self.output@[j])@ != key@,
            decreases self.output@.len() - i,
        {
            if self.output[i].same_path(key) {
                return true;
            }
            i = i + 1;
        }
        false
    }
}

/// The position of the first entry for `path`, or the number of entries
/// where there is none.
pub open spec fn first_index_of<P>(entries: Seq<ProducerEntry<P>>, path: Seq<PathItem>) -> int
    decreases entries.len(),
{
    if entries.len() == 0 {
        0
    } else if entries[0].key@ == path {
        0
    } else {
        1 + first_index_of(entries.drop_first(), path)
    }
}

proof fn lemma_first_index_of<P>(entries: Seq<ProducerEntry<P>>, path: Seq<PathItem>)
    ensures
        0 <= first_index_of(entries, path) <= entries.len(),
        first_index_of(entries, path) < entries.len() ==> entries[first_index_of(entries, path)].key@
            == path,
        forall|j: int| 0 <= j < first_index_of(entries, path) ==> (#[trigger] entries[j]).key@ != path,
    decreases entries.len(),
{
    if entries.len() > 0 && entries[0].key@ != path {
        lemma_first_index_of(entries.drop_first(), path);
        assert forall|j: int| 0 <= j < first_index_of(entries, path) implies (
        #[trigger] entries[j]).key@ != path by {
            if j > 0 {
                assert(entries[j] == entries.drop_first()[j - 1]);
            }
        }
    }
}

/// The first entry for a path is the one with that path and no entry with
/// it before; where there is none, it is the number of entries.
proof fn lemma_first_index_unique<P>(entries: Seq<ProducerEntry<P>>, path: Seq<PathItem>, k: int)
    requires
        0 <= k <= entries.len(),
        k < entries.len() ==> entries[k].key@ == path,
        forall|j: int| 0 <= j < k ==> (#[trigger] entries[j]).key@ != path,
    ensures
        first_index_of(entries, path) == k,
{
    lemma_first_index_of(entries, path);
    let f = first_index_of(entries, path);
    if k < f {
        assert(entries[k].key@ != path);
    }
    if f < k {
        assert(entries[f].key@ != path);
    }
}

/// After the producer of a path is set, that path is given that producer
/// and every other path the producer it had.
pub proof fn lemma_set_producer_lookup<P>(
    before: Config<P>,
    after: Config<P>,
    key: Arc<PathKey>,
    producer: P,
)
    requires
        after.default == before.default,
        after.mapping@ == (if first_index_of(before.mapping@, key@) < before.mapping@.len() {
            before.mapping@.update(
                first_index_of(before.mapping@, key@),
                ProducerEntry { key, producer },
            )
        } else {
            before.mapping@.push(ProducerEntry { key, producer })
        }),
    ensures
        after.producer_of(key@) == Some(producer),
        forall|q: Seq<PathItem>| q != key@ ==> #[trigger] after.producer_of(q) == before.producer_of(q),
{
    let old_e = before.mapping@;
    let new_e = after.mapping@;
    lemma_first_index_of(old_e, key@);
    let i = first_index_of(old_e, key@);
    assert forall|j: int| 0 <= j < old_e.len() implies (#[trigger] new_e[j]).key@ == old_e[j].key@ by {
        if j == i {
            assert(new_e[j].key@ == key@);
        }
    }
    lemma_first_index_unique(new_e, key@, i);
    assert forall|q: Seq<PathItem>| q != key@ implies #[trigger] after.producer_of(q)
        == before.producer_of(q) by {
        lemma_first_index_of(old_e, q);
        let f = first_index_of(old_e, q);
        if f < old_e.len() {
            assert(f != i || i == old_e.len());
            lemma_first_index_unique(new_e, q, f);
            if f != i {
                assert(new_e[f] == old_e[f]);
            } else {
                assert(old_e[f].key@ == q);
            }
        } else {
            assert forall|j: int| 0 <= j < new_e.len() implies (#[trigger] new_e[j]).key@ != q by {
                if j < old_e.len() {
                    assert(old_e[j].key@ != q);
                } else {
                    assert(new_e[j].key@ == key@);
                }
            }
            lemma_first_index_unique(new_e, q, new_e.len() as int);
        }
    }
}

impl<P> Config<P> {
    /// Makes `producer` the producer of the values under `key`, in place of
    /// any it had.
    pub fn set_producer(&mut self, key: Arc<PathKey>, producer: P)
        ensures
            final(self).output == old(self).output,
            final(self).default == old(self).default,
            final(self).maintain_null == old(self).maintain_null,
            final(self).internal_mapping == old(self).internal_mapping,
            old(self).wf() ==> final(self).wf(),
            final(self).mapping@ == (if first_index_of(old(self).mapping@, key@) < old(
                self,
            ).mapping@.len() {
                old(self).mapping@.update(
                    first_index_of(old(self).mapping@, key@),
                    ProducerEntry { key, producer },
                )
            } else {
                old(self).mapping@.push(ProducerEntry { key, producer })
            }),
    {
        proof {
            lemma_first_index_of(self.mapping@, key@);
        }
        let mut i: usize = 0;
        while i < self.mapping.len()
            invariant
                0 <= i <= self.mapping@.len(),
                self.mapping@ == old(self).mapping@,
                i <= first_index_of(self.mapping@, key@),
                first_index_of(self.mapping@, key@) <= self.mapping@.len(),
                first_index_of(self.mapping@, key@) < self.mapping@.len() ==> self.mapping@[first_index_of(
                    self.mapping@,
                    key@,
                )].key@ == key@,
                forall|j: int|
                    0 <= j < first_index_of(self.mapping@, key@) ==> (#[trigger] self.mapping@[j]).key@
                        != key@,
                *self == *old(self),
            decreases self.mapping@.len() - i,
        {
            if self.mapping[i].key.same_path(&key) {
                let ghost before = self.mapping@;
                self.mapping.set(i, ProducerEntry { key, producer });
                proof {
                    if old(self).wf() {
                        assert forall|a: int, b: int|
                            0 <= a < b < self.mapping@.len() implies (
                        #[trigger] self.mapping@[a]).key@ != (#[trigger] self.mapping@[b]).key@ by {
                            assert(before[a].key@ != before[b].key@);
                        }
                    }
                }
                return;
            }
            i = i + 1;
        }
        self.mapping.push(ProducerEntry { key, producer });
    }

    /// Has the replacements of the values under `key` recorded.
    pub fn add_output(&mut self, key: Arc<PathKey>)
        ensures
            final(self).mapping == old(self).mapping,
            final(self).default == old(self).default,
            final(self).maintain_null == old(self).maintain_null,
            final(self).internal_mapping == old(self).internal_mapping,
            old(self).wf() ==> final(self).wf(),
            final(self).output@ == (if old(self).is_output(key@) {
                old(self).output@
            } else {
                old(self).output@.push(key)
            }),
    {
        if !self.output_contains(&key) {
            self.output.push(key);
        }
    }
}

impl<P> Default for Config<P> {
    /// No producers, no recorded paths, null values left as they are and
    /// internal mapping on.
    fn default() -> (r: Self)
        ensures
            r.mapping@.len() == 0,
            r.output@.len() == 0,
            r.default is None,
            r.maintain_null,
            r.internal_mapping,
            r.wf(),
    {
        Config {
            mapping: Vec::new(),
            output: Vec::new(),
            default: None,
            maintain_null: true,
            internal_mapping: true,
        }
    }
}

} // verus!

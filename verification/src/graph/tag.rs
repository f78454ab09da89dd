//! Tags: user-chosen labels for the nodes of a compute graph, and the
//! two-way map between tags and node handles.
use vstd::prelude::*;

use super::NodeHandle;
use crate::assoc::{assoc_map, keys_unique, lemma_assoc_at, lemma_assoc_push, lemma_assoc_remove, lemma_assoc_update};

verus! {

/// A label of a node, erased to plain values: the kind of the label (one per
/// label type) and its value within that kind.
#[derive(Debug, Clone, Copy, PartialEq, Eq, Hash, Structural)]
pub struct DynTag {
    pub kind: u64,
    pub value: u64,
}

/// A value that can label a node of a compute graph.
pub trait Tag {
    /// The erased label.
    spec fn spec_dyn_tag(&self) -> DynTag;

    /// The erased label.
    fn dyn_tag(&self) -> (r: DynTag)
        ensures
            r == self.spec_dyn_tag(),
    ;
}

impl Tag for DynTag {
    open spec fn spec_dyn_tag(&self) -> DynTag {
        *self
    }

    fn dyn_tag(&self) -> (r: DynTag) {
        *self
    }
}

impl DynTag {
    pub fn new(tag: impl Tag) -> (r: DynTag)
        ensures
            r == tag.spec_dyn_tag(),
    {
        tag.dyn_tag()
    }
}

/// A bi-directional map between node handles and tags.
///
/// `tags` maps each tagged handle to its tag, `values` maps each tag to its
/// handle; each is the inverse of the other. Tagging an untagged handle with a
/// tag that another handle carries moves the tag: that handle loses it.
pub struct TagMap {
    tags: Vec<(NodeHandle, DynTag)>,
    values: Vec<(DynTag, NodeHandle)>,
}

impl TagMap {
    /// The map from handles to their tags.
    pub closed spec fn tags(&self) -> Map<NodeHandle, DynTag> {
        assoc_map(self.tags@)
    }

    /// The map from tags to their handles.
    pub closed spec fn values(&self) -> Map<DynTag, NodeHandle> {
        assoc_map(self.values@)
    }

    pub closed spec fn wf(&self) -> bool {
        keys_unique(self.tags@) && keys_unique(self.values@)
    }

    /// The two maps are inverse to each other.
    pub open spec fn bijective(&self) -> bool {
        forall|v: NodeHandle, t: DynTag|
            (#[trigger] self.tags().contains_key(v) && self.tags()[v] == t) <==> (
            #[trigger] self.values().contains_key(t) && self.values()[t] == v)
    }

    /// The handle-to-tag map after `value` takes `tag`, which first leaves the
    /// handle that carried it before.
    pub open spec fn tags_after_insert(&self, tag: DynTag, value: NodeHandle) -> Map<NodeHandle, DynTag> {
        if self.values().contains_key(tag) {
            self.tags().remove(self.values()[tag]).insert(value, tag)
        } else {
            self.tags().insert(value, tag)
        }
    }

    fn find_value(&self, value: NodeHandle) -> (r: Option<usize>)
        requires
            self.wf(),
        ensures
            r matches Some(i) ==> i < self.tags@.len() && self.tags@[i as int].0 == value,
            r is None <==> !self.tags().contains_key(value),
    {
        let mut i: usize = 0;
        while i < self.tags.len()
            invariant
                i <= self.tags@.len(),
                forall|j: int| 0 <= j < i ==> self.tags@[j].0 != value,
            decreases self.tags@.len() - i,
        {
            if self.tags[i].0 == value {
                return Some(i);
            }
            i = i + 1;
        }
        proof {
            if self.tags().contains_key(value) {
                let j = choose|j: int| 0 <= j < self.tags@.len() && self.tags@[j].0 == value;
                assert(self.tags@[j].0 == value);
            }
        }
        None
    }

    fn find_tag(&self, tag: DynTag) -> (r: Option<usize>)
        requires
            self.wf(),
        ensures
            r matches Some(i) ==> i < self.values@.len() && self.values@[i as int].0 == tag,
            r is None <==> !self.values().contains_key(tag),
    {
        let mut i: usize = 0;
        while i < self.values.len()
            invariant
                i <= self.values@.len(),
                forall|j: int| 0 <= j < i ==> self.values@[j].0 != tag,
            decreases self.values@.len() - i,
        {
            if self.values[i].0 == tag {
                return Some(i);
            }
            i = i + 1;
        }
        proof {
            if self.values().contains_key(tag) {
                let j = choose|j: int| 0 <= j < self.values@.len() && self.values@[j].0 == tag;
                assert(self.values@[j].0 == tag);
            }
        }
        None
    }

    fn set_value_tag(&mut self, value: NodeHandle, tag: DynTag)
        requires
            old(self).wf(),
        ensures
            final(self).wf(),
            final(self).tags() == old(self).tags().insert(value, tag),
            final(self).values() == old(self).values(),
    {
        match self.find_value(value) {
            Some(i) => {
                proof {
                    lemma_assoc_update(self.tags@, i as int, tag);
                }
                self.tags.set(i, (value, tag));
            },
            None => {
                proof {
                    lemma_assoc_push(self.tags@, value, tag);
                }
                self.tags.push((value, tag));
            },
        }
    }

    fn set_tag_value(&mut self, tag: DynTag, value: NodeHandle)
        requires
            old(self).wf(),
        ensures
            final(self).wf(),
            final(self).values() == old(self).values().insert(tag, value),
            final(self).tags() == old(self).tags(),
    {
        match self.find_tag(tag) {
            Some(i) => {
                proof {
                    lemma_assoc_update(self.values@, i as int, value);
                }
                self.values.set(i, (tag, value));
            },
            None => {
                proof {
                    lemma_assoc_push(self.values@, tag, value);
                }
                self.values.push((tag, value));
            },
        }
    }

    /// Creates an empty map.
    pub fn new() -> (r: TagMap)
        ensures
            r.wf(),
            r.tags() == Map::<NodeHandle, DynTag>::empty(),
            r.values() == Map::<DynTag, NodeHandle>::empty(),
            r.bijective(),
    {
        let r = TagMap { tags: Vec::new(), values: Vec::new() };
        assert(r.tags() =~= Map::<NodeHandle, DynTag>::empty());
        assert(r.values() =~= Map::<DynTag, NodeHandle>::empty());
        r
    }

    /// A copy of the map.
    pub fn duplicate(&self) -> (r: TagMap)
        requires
            self.wf(),
        ensures
            r.wf(),
            r.tags() == self.tags(),
            r.values() == self.values(),
    {
        let mut tags: Vec<(NodeHandle, DynTag)> = Vec::new();
        let mut i: usize = 0;
        while i < self.tags.len()
            invariant
                i <= self.tags@.len(),
                tags@ == self.tags@.take(i as int),
            decreases self.tags@.len() - i,
        {
            tags.push(self.tags[i]);
            i = i + 1;
            assert(tags@ =~= self.tags@.take(i as int));
        }
        let mut values: Vec<(DynTag, NodeHandle)> = Vec::new();
        let mut j: usize = 0;
        while j < self.values.len()
            invariant
                j <= self.values@.len(),
                values@ == self.values@.take(j as int),
            decreases self.values@.len() - j,
        {
            values.push(self.values[j]);
            j = j + 1;
            assert(values@ =~= self.values@.take(j as int));
        }
        assert(tags@ =~= self.tags@);
        assert(values@ =~= self.values@);
        TagMap { tags, values }
    }

    /// Tags `value` with `tag`, returning `false` and doing nothing if the
    /// value already has a tag. A handle that carried `tag` before loses it.
    pub fn insert_dyn(&mut self, tag: DynTag, value: NodeHandle) -> (r: bool)
        requires
            old(self).wf(),
        ensures
            final(self).wf(),
            r == !old(self).tags().contains_key(value),
            r ==> final(self).tags() == old(self).tags_after_insert(tag, value)
                && final(self).values() == old(self).values().insert(tag, value),
            !r ==> final(self).tags() == old(self).tags() && final(self).values() == old(self).values(),
            old(self).bijective() ==> final(self).bijective(),
    {
        if self.find_value(value).is_some() {
            return false;
        }
        let ghost m0 = *self;
        match self.find_tag(tag) {
            Some(i) => {
                let previous = self.values[i].1;
                proof {
                    lemma_assoc_at(self.values@, i as int);
                }
                match self.find_value(previous) {
                    Some(j) => {
                        proof {
                            lemma_assoc_remove(self.tags@, j as int);
                        }
                        self.tags.remove(j);
                    },
                    None => {
                        assert(self.tags() =~= self.tags().remove(previous));
                    },
                }
            },
            None => {},
        }
        self.set_value_tag(value, tag);
        self.set_tag_value(tag, value);
        proof {
            assert(self.tags() == m0.tags_after_insert(tag, value));
            if m0.bijective() {
                assert forall|v: NodeHandle, t: DynTag|
                    (#[trigger] self.tags().contains_key(v) && self.tags()[v] == t) <==> (
                    #[trigger] self.values().contains_key(t) && self.values()[t] == v) by {
                    if m0.values().contains_key(tag) {
                        let p = m0.values()[tag];
                        assert(m0.tags().contains_key(p) && m0.tags()[p] == tag);
                    }
                    if m0.tags().contains_key(v) && m0.tags()[v] == t {
                        assert(m0.values().contains_key(t) && m0.values()[t] == v);
                    }
                    if m0.values().contains_key(t) && m0.values()[t] == v {
                        assert(m0.tags().contains_key(v) && m0.tags()[v] == t);
                    }
                }
                assert(self.bijective());
            }
            assert(m0.tags() == old(self).tags() && m0.values() == old(self).values());
        }
        true
    }

    /// Inserts a value with a given tag into the map, returning `false` and doing nothing if the value was already present.
    /// A value that carried the tag before loses it.
    pub fn insert(&mut self, tag: impl Tag, value: NodeHandle) -> (r: bool)
        requires
            old(self).wf(),
        ensures
            final(self).wf(),
            r == !old(self).tags().contains_key(value),
            !r ==> final(self).tags() == old(self).tags() && final(self).values() == old(self).values(),
            r ==> final(self).tags() == old(self).tags_after_insert(tag.spec_dyn_tag(), value)
                && final(self).values() == old(self).values().insert(tag.spec_dyn_tag(), value),
            old(self).bijective() ==> final(self).bijective(),
    {
        self.insert_dyn(DynTag::new(tag), value)
    }

    /// Removes the handle with the given tag, returning it.
    pub fn remove_dyn(&mut self, tag: DynTag) -> (r: Option<NodeHandle>)
        requires
            old(self).wf(),
            old(self).values().contains_key(tag) ==> old(self).tags().contains_key(
                old(self).values()[tag],
            ),
        ensures
            final(self).wf(),
            r == (if old(self).values().contains_key(tag) {
                Some(old(self).values()[tag])
            } else {
                None::<NodeHandle>
            }),
            r matches Some(v) ==> final(self).values() == old(self).values().remove(tag)
                && final(self).tags() == old(self).tags().remove(v),
            r is None ==> final(self).values() == old(self).values() && final(self).tags()
                == old(self).tags(),
    {
        match self.find_tag(tag) {
            Some(i) => {
                let value = self.values[i].1;
                proof {
                    lemma_assoc_at(self.values@, i as int);
                    lemma_assoc_remove(self.values@, i as int);
                }
                self.values.remove(i);
                let j = self.find_value(value);
                match j {
                    Some(j) => {
                        proof {
                            lemma_assoc_remove(self.tags@, j as int);
                        }
                        self.tags.remove(j);
                    },
                    None => {},
                }
                Some(value)
            },
            None => None,
        }
    }

    /// Removes a handle from the map, returning its tag.
    pub fn remove_value(&mut self, value: NodeHandle) -> (r: Option<DynTag>)
        requires
            old(self).wf(),
            old(self).tags().contains_key(value) ==> old(self).values().contains_key(
                old(self).tags()[value],
            ),
        ensures
            final(self).wf(),
            r == (if old(self).tags().contains_key(value) {
                Some(old(self).tags()[value])
            } else {
                None::<DynTag>
            }),
            r matches Some(t) ==> final(self).tags() == old(self).tags().remove(value)
                && final(self).values() == old(self).values().remove(t),
            r is None ==> final(self).values() == old(self).values() && final(self).tags()
                == old(self).tags(),
    {
        match self.find_value(value) {
            Some(i) => {
                let tag = self.tags[i].1;
                proof {
                    lemma_assoc_at(self.tags@, i as int);
                    lemma_assoc_remove(self.tags@, i as int);
                }
                self.tags.remove(i);
                match self.find_tag(tag) {
                    Some(j) => {
                        proof {
                            lemma_assoc_remove(self.values@, j as int);
                        }
                        self.values.remove(j);
                    },
                    None => {},
                }
                Some(tag)
            },
            None => None,
        }
    }

    pub fn contains_value(&self, value: NodeHandle) -> (r: bool)
        requires
            self.wf(),
        ensures
            r == self.tags().contains_key(value),
    {
        self.find_value(value).is_some()
    }

    pub fn contains_dyn(&self, tag: DynTag) -> (r: bool)
        requires
            self.wf(),
        ensures
            r == self.values().contains_key(tag),
    {
        self.find_tag(tag).is_some()
    }

    pub fn get_dyn(&self, tag: DynTag) -> (r: Option<NodeHandle>)
        requires
            self.wf(),
        ensures
            r == (if self.values().contains_key(tag) {
                Some(self.values()[tag])
            } else {
                None::<NodeHandle>
            }),
    {
        match self.find_tag(tag) {
            Some(i) => {
                proof {
                    lemma_assoc_at(self.values@, i as int);
                }
                Some(self.values[i].1)
            },
            None => None,
        }
    }

    /// The handle with the given tag.
    pub fn get(&self, tag: impl Tag) -> (r: Option<NodeHandle>)
        requires
            self.wf(),
        ensures
            r == (if self.values().contains_key(tag.spec_dyn_tag()) {
                Some(self.values()[tag.spec_dyn_tag()])
            } else {
                None::<NodeHandle>
            }),
    {
        self.get_dyn(DynTag::new(tag))
    }

    pub fn contains(&self, tag: impl Tag) -> (r: bool)
        requires
            self.wf(),
        ensures
            r == self.values().contains_key(tag.spec_dyn_tag()),
    {
        self.contains_dyn(DynTag::new(tag))
    }

    /// Removes the handle with a given tag from the map, returning the handle removed.
    pub fn remove(&mut self, tag: impl Tag) -> (r: Option<NodeHandle>)
        requires
            old(self).wf(),
            old(self).values().contains_key(tag.spec_dyn_tag()) ==> old(self).tags().contains_key(
                old(self).values()[tag.spec_dyn_tag()],
            ),
        ensures
            final(self).wf(),
            r == (if old(self).values().contains_key(tag.spec_dyn_tag()) {
                Some(old(self).values()[tag.spec_dyn_tag()])
            } else {
                None::<NodeHandle>
            }),
            r matches Some(v) ==> final(self).values() == old(self).values().remove(tag.spec_dyn_tag())
                && final(self).tags() == old(self).tags().remove(v),
            r is None ==> final(self).values() == old(self).values() && final(self).tags()
                == old(self).tags(),
    {
        self.remove_dyn(DynTag::new(tag))
    }

    pub fn get_tag(&self, value: NodeHandle) -> (r: Option<DynTag>)
        requires
            self.wf(),
        ensures
            r == (if self.tags().contains_key(value) {
                Some(self.tags()[value])
            } else {
                None::<DynTag>
            }),
    {
        match self.find_value(value) {
            Some(i) => {
                proof {
                    lemma_assoc_at(self.tags@, i as int);
                }
                Some(self.tags[i].1)
            },
            None => None,
        }
    }
}

} // verus!

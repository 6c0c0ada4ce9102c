//! The node store: index nodes in a generational slab, with their metadata
//! in a cache kept in step with the slab's occupancy.
use vstd::prelude::*;
use crate::metadata_cache::MetadataCache;
use crate::node::{NodeFileType, NodeMetadata};
use crate::slab::{Slab, SlabIndex, SlotView, allocated, removed, get_spec};

verus! {

/// An entry of the node store: a name, a kind, and the handles of its parent
/// and children.
pub struct IndexNode {
    pub name: String,
    pub file_type: NodeFileType,
    pub parent: Option<SlabIndex>,
    pub children: Vec<SlabIndex>,
}

/// The mathematical value of an `IndexNode`.
pub ghost struct IndexNodeView {
    pub name: Seq<char>,
    pub file_type: NodeFileType,
    pub parent: Option<SlabIndex>,
    pub children: Seq<SlabIndex>,
}

impl View for IndexNode {
    type V = IndexNodeView;

    open spec fn view(&self) -> IndexNodeView {
        IndexNodeView {
            name: self.name@,
            file_type: self.file_type,
            parent: self.parent,
            children: self.children@,
        }
    }
}

/// A slot of the store: its generation and, when occupied, its node with the
/// metadata kept for it.
pub type EntryView = (u64, Option<(IndexNodeView, Option<NodeMetadata>)>);

/// The node store together with its metadata cache.
pub struct Store {
    pub nodes: Slab<IndexNode>,
    pub metadata: MetadataCache,
}

/// The metadata that `cache` keeps for index `i`.
pub open spec fn meta_at(cache: Map<usize, NodeMetadata>, i: int) -> Option<NodeMetadata> {
    if cache.contains_key(i as usize) {
        Some(cache[i as usize])
    } else {
        None
    }
}

/// The entry that slot `s` at index `i` stands for.
pub open spec fn entry_of(s: SlotView<IndexNode>, cache: Map<usize, NodeMetadata>, i: int) -> EntryView {
    match s.1 {
        Some(n) => (s.0, Some((n@, meta_at(cache, i)))),
        None => (s.0, None),
    }
}

impl Store {
    /// Each slot, with its node and metadata when occupied.
    pub open spec fn entries(&self) -> Seq<EntryView> {
        Seq::new(
            self.nodes.slots().len(),
            |i: int| entry_of(self.nodes.slots()[i], self.metadata@, i),
        )
    }

    /// The slab is well formed, and the cache keeps metadata only for
    /// occupied slots.
    pub open spec fn wf(&self) -> bool {
        &&& self.nodes.wf()
        &&& forall|i: usize| #[trigger]
            self.metadata@.contains_key(i) ==> i < self.nodes.slots().len()
                && self.nodes.slots()[i as int].1 is Some
    }

    /// An empty store.
    pub fn new() -> (r: Store)
        ensures
            r.wf(),
            r.entries() == Seq::<EntryView>::empty(),
            r.nodes.slots() == Seq::<SlotView<IndexNode>>::empty(),
            r.metadata@ == Map::<usize, NodeMetadata>::empty(),
    {
        let r = Store { nodes: Slab::new(), metadata: MetadataCache::new() };
        proof {
            assert(r.entries() =~= Seq::<EntryView>::empty());
            assert forall|i: usize| #[trigger] r.metadata@.contains_key(i) implies false by {}
        }
        r
    }
}

impl Store {
    /// Stores `node` in a new or reclaimed slot with `metadata` kept for it.
    pub fn insert(&mut self, node: IndexNode, metadata: Option<NodeMetadata>) -> (r: SlabIndex)
        requires
            old(self).wf(),
        ensures
            final(self).wf(),
            allocated(old(self).nodes.slots(), final(self).nodes.slots(), node, r),
            final(self).metadata@ == match metadata {
                Some(m) => old(self).metadata@.insert(r.index, m),
                None => old(self).metadata@.remove(r.index),
            },
    {
        let r = self.nodes.allocate(node);
        match metadata {
            Some(m) => self.metadata.put(r.index, m),
            None => self.metadata.invalidate(r.index),
        }
        r
    }

    /// Removes the node that `h` reads, if any, and the metadata kept for it;
    /// says whether it did.
    pub fn remove(&mut self, h: SlabIndex) -> (r: bool)
        requires
            old(self).wf(),
        ensures
            final(self).wf(),
            r == (get_spec(old(self).nodes.slots(), h) is Some),
            removed(old(self).nodes.slots(), final(self).nodes.slots(), h),
            final(self).metadata@ == if r {
                old(self).metadata@.remove(h.index)
            } else {
                old(self).metadata@
            },
    {
        let r = self.nodes.remove(h);
        if r {
            self.metadata.invalidate(h.index);
        }
        r
    }
}

} // verus!

//! Compact metadata kept by slot index, beside the slab. Absence is a valid,
//! cheap state: directories commonly have no entry.
use vstd::prelude::*;
use crate::node::NodeMetadata;

verus! {

pub struct MetadataCache {
    entries: Vec<Option<NodeMetadata>>,
}

impl View for MetadataCache {
    type V = Map<usize, NodeMetadata>;

    closed spec fn view(&self) -> Map<usize, NodeMetadata> {
        Map::new(
            |i: usize| i < self.entries.len() && self.entries@[i as int] is Some,
            |i: usize| self.entries@[i as int]->Some_0,
        )
    }
}

impl MetadataCache {
    /// An empty cache.
    pub fn new() -> (r: MetadataCache)
        ensures
            r@ == Map::<usize, NodeMetadata>::empty(),
    {
        let r = MetadataCache { entries: Vec::new() };
        proof {
            assert(r@ =~= Map::<usize, NodeMetadata>::empty());
        }
        r
    }

    /// The metadata kept for `index`, if any.
    pub fn get(&self, index: usize) -> (r: Option<NodeMetadata>)
        ensures
            r == (if self@.contains_key(index) {
                Some(self@[index])
            } else {
                None
            }),
    {
        if index < self.entries.len() {
            self.entries[index]
        } else {
            None
        }
    }

    /// Keeps `metadata` for `index`, replacing what was there.
    pub fn put(&mut self, index: usize, metadata: NodeMetadata)
        ensures
            final(self)@ == old(self)@.insert(index, metadata),
    {
        while self.entries.len() <= index
            invariant
                self@ == old(self)@,
            decreases index + 1 - self.entries.len(),
        {
            let ghost before = self@;
            self.entries.push(None);
            proof {
                assert(self@ =~= before);
            }
        }
        self.entries.set(index, Some(metadata));
        proof {
            assert(self@ =~= old(self)@.insert(index, metadata));
        }
    }

    /// Drops the metadata kept for `index`, if any.
    pub fn invalidate(&mut self, index: usize)
        ensures
            final(self)@ == old(self)@.remove(index),
    {
        if index < self.entries.len() {
            self.entries.set(index, None);
        }
        proof {
            assert(self@ =~= old(self)@.remove(index));
        }
    }
}

} // verus!

//! Loading a scanned tree into the store: one slab entry per node, linked to
//! its parent and children by handles, with its metadata in the cache.
use vstd::prelude::*;
use crate::node::{Node, NodeMetadata, NodeView, view_of, views_of};
use crate::store::{IndexNode, Store, meta_at};
use crate::slab::{SlabIndex, SlotView, get_spec};

verus! {

/// Whether the handle `h` stores the tree `v` under `parent`, in slots whose
/// indices all lie in `dom`.
pub open spec fn stores_tree(
    s: Seq<SlotView<IndexNode>>,
    c: Map<usize, NodeMetadata>,
    h: SlabIndex,
    v: NodeView,
    parent: Option<SlabIndex>,
    dom: Set<int>,
) -> bool
    decreases v, 1nat,
{
    match get_spec(s, h) {
        Some(x) => {
            &&& dom.contains(h.index as int)
            &&& x@.name == v.name
            &&& x@.file_type == v.file_type
            &&& x@.parent == parent
            &&& meta_at(c, h.index as int) == v.metadata
            &&& stores_children(s, c, x@.children, v.children, h, dom)
        },
        None => false,
    }
}

/// Whether the handles `hs` store the trees `vs`, one for one, under `parent`.
pub open spec fn stores_children(
    s: Seq<SlotView<IndexNode>>,
    c: Map<usize, NodeMetadata>,
    hs: Seq<SlabIndex>,
    vs: Seq<NodeView>,
    parent: SlabIndex,
    dom: Set<int>,
) -> bool
    decreases vs, 0nat,
{
    &&& hs.len() == vs.len()
    &&& (vs.len() == 0 || {
        &&& stores_children(s, c, hs.drop_last(), vs.drop_last(), parent, dom)
        &&& stores_tree(s, c, hs.last(), vs.last(), Some(parent), dom)
    })
}

/// The indices of slots that are empty or beyond the end of `s`.
pub open spec fn fresh(s: Seq<SlotView<IndexNode>>) -> Set<int> {
    Set::new(|i: int| i >= s.len() || (0 <= i && s[i].1 is None))
}

/// Whether `s2`, `c2` keep every occupied slot of `s1`, and its metadata, whose
/// index lies in `dom`.
pub open spec fn keeps(
    s1: Seq<SlotView<IndexNode>>,
    c1: Map<usize, NodeMetadata>,
    s2: Seq<SlotView<IndexNode>>,
    c2: Map<usize, NodeMetadata>,
    dom: Set<int>,
) -> bool {
    forall|i: int|
        #![trigger dom.contains(i), s1[i]]
        dom.contains(i) && 0 <= i < s1.len() && s1[i].1 is Some ==> i < s2.len() && s2[i] == s1[i]
            && meta_at(c2, i) == meta_at(c1, i)
}

proof fn lemma_keeps_tree(
    s1: Seq<SlotView<IndexNode>>,
    c1: Map<usize, NodeMetadata>,
    s2: Seq<SlotView<IndexNode>>,
    c2: Map<usize, NodeMetadata>,
    h: SlabIndex,
    v: NodeView,
    parent: Option<SlabIndex>,
    dom: Set<int>,
)
    requires
        stores_tree(s1, c1, h, v, parent, dom),
        keeps(s1, c1, s2, c2, dom),
    ensures
        stores_tree(s2, c2, h, v, parent, dom),
    decreases v, 1nat,
{
    let i = h.index as int;
    assert(dom.contains(i) && s1[i].1 is Some);
    let x = get_spec(s1, h)->0;
    lemma_keeps_children(s1, c1, s2, c2, x@.children, v.children, h, dom);
}

proof fn lemma_keeps_children(
    s1: Seq<SlotView<IndexNode>>,
    c1: Map<usize, NodeMetadata>,
    s2: Seq<SlotView<IndexNode>>,
    c2: Map<usize, NodeMetadata>,
    hs: Seq<SlabIndex>,
    vs: Seq<NodeView>,
    parent: SlabIndex,
    dom: Set<int>,
)
    requires
        stores_children(s1, c1, hs, vs, parent, dom),
        keeps(s1, c1, s2, c2, dom),
    ensures
        stores_children(s2, c2, hs, vs, parent, dom),
    decreases vs, 0nat,
{
    if vs.len() > 0 {
        lemma_keeps_children(s1, c1, s2, c2, hs.drop_last(), vs.drop_last(), parent, dom);
        lemma_keeps_tree(s1, c1, s2, c2, hs.last(), vs.last(), Some(parent), dom);
    }
}

proof fn lemma_keeps_within(
    s1: Seq<SlotView<IndexNode>>,
    c1: Map<usize, NodeMetadata>,
    s2: Seq<SlotView<IndexNode>>,
    c2: Map<usize, NodeMetadata>,
    dom: Set<int>,
)
    requires
        keeps(s1, c1, s2, c2, Set::new(|i: int| true)),
    ensures
        keeps(s1, c1, s2, c2, dom),
{
    let all = Set::new(|i: int| true);
    assert forall|i: int|
        #![trigger dom.contains(i), s1[i]]
        dom.contains(i) && 0 <= i < s1.len() && s1[i].1 is Some implies i < s2.len() && s2[i]
            == s1[i] && meta_at(c2, i) == meta_at(c1, i) by {
        assert(all.contains(i));
    }
}

proof fn lemma_widen_tree(
    s: Seq<SlotView<IndexNode>>,
    c: Map<usize, NodeMetadata>,
    h: SlabIndex,
    v: NodeView,
    parent: Option<SlabIndex>,
    d1: Set<int>,
    d2: Set<int>,
)
    requires
        stores_tree(s, c, h, v, parent, d1),
        d1.subset_of(d2),
    ensures
        stores_tree(s, c, h, v, parent, d2),
    decreases v, 1nat,
{
    let x = get_spec(s, h)->0;
    lemma_widen_children(s, c, x@.children, v.children, h, d1, d2);
}

proof fn lemma_widen_children(
    s: Seq<SlotView<IndexNode>>,
    c: Map<usize, NodeMetadata>,
    hs: Seq<SlabIndex>,
    vs: Seq<NodeView>,
    parent: SlabIndex,
    d1: Set<int>,
    d2: Set<int>,
)
    requires
        stores_children(s, c, hs, vs, parent, d1),
        d1.subset_of(d2),
    ensures
        stores_children(s, c, hs, vs, parent, d2),
    decreases vs, 0nat,
{
    if vs.len() > 0 {
        lemma_widen_children(s, c, hs.drop_last(), vs.drop_last(), parent, d1, d2);
        lemma_widen_tree(s, c, hs.last(), vs.last(), Some(parent), d1, d2);
    }
}

impl Store {
    /// Stores the tree `node` under `parent`: one new entry per node, each
    /// linked to its parent and, in order, to its children, with the node's
    /// metadata kept for it. Every entry goes to a slot that was empty or
    /// new; occupied slots keep their entries and metadata.
    pub fn insert_tree(&mut self, node: &Node, parent: Option<SlabIndex>) -> (r: SlabIndex)
        requires
            old(self).wf(),
        ensures
            final(self).wf(),
            old(self).nodes.slots().len() <= final(self).nodes.slots().len(),
            keeps(
                old(self).nodes.slots(),
                old(self).metadata@,
                final(self).nodes.slots(),
                final(self).metadata@,
                Set::new(|i: int| true),
            ),
            stores_tree(
                final(self).nodes.slots(),
                final(self).metadata@,
                r,
                view_of(*node),
                parent,
                fresh(old(self).nodes.slots()),
            ),
        decreases node,
    {
        let ghost s0 = self.nodes.slots();
        let ghost c0 = self.metadata@;
        let ghost all = Set::new(|i: int| true);
        proof {
            self.nodes.lemma_len_bound();
        }
        let file_type = node.file_type;
        let h = self.insert(
            IndexNode { name: node.name.clone(), file_type, parent, children: Vec::new() },
            node.metadata,
        );
        let ghost placeholder = get_spec(self.nodes.slots(), h)->0;
        let ghost dom_c = fresh(s0).remove(h.index as int);
        proof {
            assert(fresh(s0).contains(h.index as int));
            assert(meta_at(self.metadata@, h.index as int) == node.metadata);
            let s1 = self.nodes.slots();
            let c1 = self.metadata@;
            assert forall|j: int|
                #![trigger all.contains(j), s0[j]]
                all.contains(j) && 0 <= j < s0.len() && s0[j].1 is Some implies j < s1.len() && s1[j]
                    == s0[j] && meta_at(c1, j) == meta_at(c0, j) by {
                assert(j != h.index as int);
                assert(j as usize != h.index);
            }
        }
        let mut hs: Vec<SlabIndex> = Vec::new();
        let mut i: usize = 0;
        proof {
            assert(node.children@.subrange(0, 0) =~= Seq::<Node>::empty());
        }
        while i < node.children.len()
            invariant
                i <= node.children.len(),
                all == Set::new(|i: int| true),
                hs.len() == i,
                self.wf(),
                s0.len() <= self.nodes.slots().len(),
                keeps(s0, c0, self.nodes.slots(), self.metadata@, all),
                get_spec(self.nodes.slots(), h) == Some(placeholder),
                placeholder@.name == node.name@,
                placeholder@.file_type == node.file_type,
                placeholder@.parent == parent,
                meta_at(self.metadata@, h.index as int) == node.metadata,
                fresh(s0).contains(h.index as int),
                dom_c == fresh(s0).remove(h.index as int),
                stores_children(
                    self.nodes.slots(),
                    self.metadata@,
                    hs@,
                    views_of(node.children@.subrange(0, i as int)),
                    h,
                    dom_c,
                ),
            decreases node.children.len() - i,
        {
            let ghost s1 = self.nodes.slots();
            let ghost c1 = self.metadata@;
            let child = &node.children[i];
            let ch = self.insert_tree(child, Some(h));
            proof {
                let s2 = self.nodes.slots();
                let c2 = self.metadata@;
                // What was stored before stays.
                lemma_keeps_within(s1, c1, s2, c2, dom_c);
                lemma_keeps_within(s1, c1, s2, c2, set![h.index as int]);
                assert(set![h.index as int].contains(h.index as int));
                lemma_keeps_children(
                    s1,
                    c1,
                    s2,
                    c2,
                    hs@,
                    views_of(node.children@.subrange(0, i as int)),
                    h,
                    dom_c,
                );
                assert(s1[h.index as int].1 is Some);
                assert(s2[h.index as int] == s1[h.index as int]);
                assert forall|j: int|
                    #![trigger dom_c.contains(j), s0[j]]
                    all.contains(j) && 0 <= j < s0.len() && s0[j].1 is Some implies j < s2.len()
                        && s2[j] == s0[j] && meta_at(c2, j) == meta_at(c0, j) by {
                    assert(all.contains(j));
                    assert(s1[j] == s0[j]);
                }
                // The new subtree lies in slots that were free before it,
                // none of them the parent's.
                assert(fresh(s1).subset_of(dom_c)) by {
                    assert forall|j: int| fresh(s1).contains(j) implies dom_c.contains(j) by {
                        if 0 <= j < s0.len() && s0[j].1 is Some {
                            assert(all.contains(j));
                        }
                    }
                }
                lemma_widen_tree(s2, c2, ch, view_of(*child), Some(h), fresh(s1), dom_c);
            }
            let ghost hs_old = hs@;
            hs.push(ch);
            proof {
                assert(hs@.drop_last() =~= hs_old);
                let sub = node.children@.subrange(0, i + 1);
                assert(sub.drop_last() =~= node.children@.subrange(0, i as int));
                assert(sub.last() == *child);
                let prev = node.children@.subrange(0, i as int);
                let vs = views_of(sub);
                assert(vs == views_of(prev).push(view_of(*child)));
                assert(vs.drop_last() =~= views_of(prev));
                assert(vs.last() == view_of(*child));
                assert(hs@.last() == ch);
                assert(stores_children(
                    self.nodes.slots(),
                    self.metadata@,
                    hs@.drop_last(),
                    vs.drop_last(),
                    h,
                    dom_c,
                ));
                assert(stores_tree(
                    self.nodes.slots(),
                    self.metadata@,
                    hs@.last(),
                    vs.last(),
                    Some(h),
                    dom_c,
                ));
            }
            i = i + 1;
        }
        proof {
            assert(node.children@.subrange(0, i as int) =~= node.children@);
        }
        let ghost s3 = self.nodes.slots();
        let ghost c3 = self.metadata@;
        let ghost hv = hs@;
        let done = self.nodes.set(
            h,
            IndexNode { name: node.name.clone(), file_type, parent, children: hs },
        );
        proof {
            let s4 = self.nodes.slots();
            assert(keeps(s3, c3, s4, self.metadata@, dom_c));
            lemma_keeps_children(s3, c3, s4, self.metadata@, hv, views_of(node.children@), h, dom_c);
            lemma_widen_children(
                s4,
                self.metadata@,
                hv,
                views_of(node.children@),
                h,
                dom_c,
                fresh(s0),
            );
            assert forall|j: int|
                #![trigger all.contains(j), s0[j]]
                all.contains(j) && 0 <= j < s0.len() && s0[j].1 is Some implies j < s4.len() && s4[j]
                    == s0[j] && meta_at(self.metadata@, j) == meta_at(c0, j) by {
                assert(s3[j] == s0[j]);
            }
        }
        h
    }

    /// A new store into which the tree `root` has been inserted, with the
    /// handle of its root.
    pub fn from_tree(root: &Node) -> (r: (Store, SlabIndex))
        ensures
            r.0.wf(),
            stores_tree(
                r.0.nodes.slots(),
                r.0.metadata@,
                r.1,
                view_of(*root),
                None,
                fresh(Seq::empty()),
            ),
    {
        let mut st = Store::new();
        proof {
            assert(st.nodes.slots() =~= Seq::<SlotView<IndexNode>>::empty());
        }
        let h = st.insert_tree(root, None);
        (st, h)
    }
}

} // verus!

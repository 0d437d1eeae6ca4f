use vstd::prelude::*;
use crate::error::SovereignError;

verus! {

/// An index into the arena.
pub type RawIndex = u32;

/// The index that stands for "no node".
pub const NULL_INDEX: RawIndex = 0xffff_ffffu32;

/// An arena index together with the generation of the slot it was taken from.
#[derive(Debug, Clone, Copy, PartialEq, Eq, Structural)]
pub struct NodeIndex {
    pub id: RawIndex,
    pub generation: u32,
}

/// One slot of the arena.
#[derive(Debug)]
pub struct Node {
    pub key: Vec<u8>,
    pub value: Vec<u8>,
    pub left: RawIndex,
    pub right: RawIndex,
    pub parent: RawIndex,
    pub height: i32,
    pub hash: u64,
    pub generation: u32,
    pub is_active: bool,
}

/// What a slot holds, as plain values.
pub struct NodeView {
    pub key: Seq<u8>,
    pub value: Seq<u8>,
    pub left: RawIndex,
    pub right: RawIndex,
    pub parent: RawIndex,
    pub height: i32,
    pub hash: u64,
    pub generation: u32,
    pub is_active: bool,
}

impl View for Node {
    type V = NodeView;

    open spec fn view(&self) -> NodeView {
        NodeView {
            key: self.key@,
            value: self.value@,
            left: self.left,
            right: self.right,
            parent: self.parent,
            height: self.height,
            hash: self.hash,
            generation: self.generation,
            is_active: self.is_active,
        }
    }
}

/// A live, unlinked node holding `key` and `value` in a slot of the given generation.
pub open spec fn fresh_node(key: Seq<u8>, value: Seq<u8>, generation: u32) -> NodeView {
    NodeView {
        key,
        value,
        left: NULL_INDEX,
        right: NULL_INDEX,
        parent: NULL_INDEX,
        height: 1,
        hash: 0,
        generation,
        is_active: true,
    }
}

/// The error that a lookup of slot `id` gives when it fails.
pub open spec fn lookup_error(slots: Seq<NodeView>, id: RawIndex) -> SovereignError {
    if id == NULL_INDEX || id >= slots.len() {
        SovereignError::NodeNotFound(id)
    } else {
        SovereignError::StaleIndex
    }
}

/// Slot `id` exists and holds a live node.
pub open spec fn is_live(slots: Seq<NodeView>, id: RawIndex) -> bool {
    id != NULL_INDEX && id < slots.len() && slots[id as int].is_active
}

/// A generational arena of nodes with a free list of released slots.
pub struct NodeContainer {
    nodes: Vec<Node>,
    free_list: Vec<RawIndex>,
}

impl NodeContainer {
    /// The slots of the arena.
    pub closed spec fn slots(&self) -> Seq<NodeView> {
        self.nodes@.map_values(|n: Node| n@)
    }

    /// The released slots, the one to be reused next last.
    pub closed spec fn free(&self) -> Seq<RawIndex> {
        self.free_list@
    }

    /// Every index fits below the null index, and the free list names distinct
    /// slots of the arena that hold no live node.
    pub open spec fn wf(&self) -> bool {
        &&& self.slots().len() <= NULL_INDEX
        &&& self.free().no_duplicates()
        &&& forall|j: int|
            0 <= j < self.free().len() ==> #[trigger] self.free()[j] < self.slots().len()
                && !self.slots()[self.free()[j] as int].is_active
    }

    /// Whether the next allocation fails: the slot to be reused has exhausted
    /// its generations, or, with no slot to reuse, the arena is full.
    pub open spec fn alloc_fails(&self) -> bool {
        if self.free().len() > 0 {
            self.slots()[self.free().last() as int].generation == u32::MAX
        } else {
            self.slots().len() >= NULL_INDEX
        }
    }

    pub fn new() -> (r: Self)
        ensures
            r.wf(),
            r.slots() == Seq::<NodeView>::empty(),
            r.free() == Seq::<RawIndex>::empty(),
    {
        let r = Self { nodes: Vec::with_capacity(64), free_list: Vec::new() };
        assert(r.slots() =~= Seq::<NodeView>::empty());
        r
    }

    /// The free list after an allocation attempt: the slot to be reused, if
    /// any, is taken off it whether or not the allocation succeeds.
    pub open spec fn free_after_alloc(&self) -> Seq<RawIndex> {
        if self.free().len() > 0 {
            self.free().drop_last()
        } else {
            self.free()
        }
    }

    /// The slot that the next successful allocation hands out.
    pub open spec fn next_slot(&self) -> RawIndex {
        if self.free().len() > 0 {
            self.free().last()
        } else {
            self.slots().len() as RawIndex
        }
    }

    /// Stores a new live node holding `key` and `value`, reusing the most
    /// recently released slot (one generation later) or appending a slot.
    pub fn allocate(&mut self, key: Vec<u8>, value: Vec<u8>) -> (r: Result<RawIndex, SovereignError>)
        requires
            old(self).wf(),
        ensures
            final(self).wf(),
            final(self).free() == old(self).free_after_alloc(),
            match r {
                Ok(id) => {
                    &&& !old(self).alloc_fails()
                    &&& id == old(self).next_slot()
                    &&& !is_live(old(self).slots(), id)
                    &&& id != NULL_INDEX
                    &&& final(self).slots() == if old(self).free().len() > 0 {
                        old(self).slots().update(
                            id as int,
                            fresh_node(key@, value@, (old(self).slots()[id as int].generation + 1) as u32),
                        )
                    } else {
                        old(self).slots().push(fresh_node(key@, value@, 1))
                    }
                },
                Err(e) => {
                    &&& old(self).alloc_fails()
                    &&& e == SovereignError::CapacityExceeded
                    &&& final(self).slots() == old(self).slots()
                },
            },
    {
        let ghost old_slots = self.slots();
        if let Some(id) = self.free_list.pop() {
            proof {
                assert(old(self).free()[old(self).free().len() - 1] == id);
            }
            let node = &mut self.nodes[id as usize];
            if node.generation == u32::MAX {
                proof {
                    assert(self.slots() =~= old_slots);
                    assert forall|j: int| 0 <= j < self.free().len() implies #[trigger] self.free()[j] < self.slots().len()
                        && !self.slots()[self.free()[j] as int].is_active by {
                        assert(self.free()[j] == old(self).free()[j]);
                    }
                }
                return Err(SovereignError::CapacityExceeded);
            }
            node.generation += 1;
            node.key = key;
            node.value = value;
            node.left = NULL_INDEX;
            node.right = NULL_INDEX;
            node.parent = NULL_INDEX;
            node.height = 1;
            node.hash = 0;
            node.is_active = true;
            proof {
                assert(self.slots() =~= old_slots.update(
                    id as int,
                    fresh_node(key@, value@, (old_slots[id as int].generation + 1) as u32),
                ));
                assert forall|j: int| 0 <= j < self.free().len() implies #[trigger] self.free()[j] < self.slots().len()
                    && !self.slots()[self.free()[j] as int].is_active by {
                    assert(self.free()[j] == old(self).free()[j]);
                    assert(old(self).free().no_duplicates());
                }
            }
            Ok(id)
        } else {
            if self.nodes.len() >= NULL_INDEX as usize {
                return Err(SovereignError::CapacityExceeded);
            }
            let id = self.nodes.len() as RawIndex;
            self.nodes.push(Node {
                key,
                value,
                left: NULL_INDEX,
                right: NULL_INDEX,
                parent: NULL_INDEX,
                height: 1,
                hash: 0,
                generation: 1,
                is_active: true,
            });
            proof {
                assert(self.slots() =~= old_slots.push(fresh_node(key@, value@, 1)));
            }
            Ok(id)
        }
    }

    /// Like `allocate`, but hands back a handle: the slot together with the
    /// generation it now carries.
    pub fn allocate_indexed(&mut self, key: Vec<u8>, value: Vec<u8>) -> (r: Result<NodeIndex, SovereignError>)
        requires
            old(self).wf(),
        ensures
            final(self).wf(),
            final(self).free() == old(self).free_after_alloc(),
            match r {
                Ok(h) => {
                    &&& !old(self).alloc_fails()
                    &&& h.id == old(self).next_slot()
                    &&& !is_live(old(self).slots(), h.id)
                    &&& final(self).slots() == if old(self).free().len() > 0 {
                        old(self).slots().update(
                            h.id as int,
                            fresh_node(key@, value@, (old(self).slots()[h.id as int].generation + 1) as u32),
                        )
                    } else {
                        old(self).slots().push(fresh_node(key@, value@, 1))
                    }
                    &&& h.generation == final(self).slots()[h.id as int].generation
                },
                Err(e) => {
                    &&& old(self).alloc_fails()
                    &&& e == SovereignError::CapacityExceeded
                    &&& final(self).slots() == old(self).slots()
                },
            },
    {
        let id = self.allocate(key, value)?;
        let generation = self.nodes[id as usize].generation;
        proof {
            assert(self.slots()[id as int] == self.nodes@[id as int]@);
        }
        Ok(NodeIndex { id, generation })
    }

    /// Looks up the node that handle `h` was handed out for: the slot must be
    /// live and still carry the handle's generation.
    pub fn get_indexed(&self, h: NodeIndex) -> (r: Result<&Node, SovereignError>)
        ensures
            match r {
                Ok(n) => {
                    &&& is_live(self.slots(), h.id)
                    &&& self.slots()[h.id as int].generation == h.generation
                    &&& n@ == self.slots()[h.id as int]
                },
                Err(e) => if !is_live(self.slots(), h.id) {
                    e == lookup_error(self.slots(), h.id)
                } else {
                    self.slots()[h.id as int].generation != h.generation && e == SovereignError::StaleIndex
                },
            },
    {
        let node = self.get(h.id)?;
        if node.generation != h.generation {
            return Err(SovereignError::StaleIndex);
        }
        Ok(node)
    }

    /// Releases the live node in slot `id`: it is marked dead and its slot is
    /// put on the free list.
    pub fn deallocate(&mut self, id: RawIndex) -> (r: Result<(), SovereignError>)
        requires
            old(self).wf(),
        ensures
            final(self).wf(),
            match r {
                Ok(_) => {
                    &&& is_live(old(self).slots(), id)
                    &&& final(self).slots() == old(self).slots().update(
                        id as int,
                        NodeView { is_active: false, ..old(self).slots()[id as int] },
                    )
                    &&& final(self).free() == old(self).free().push(id)
                },
                Err(e) => {
                    &&& !is_live(old(self).slots(), id)
                    &&& e == lookup_error(old(self).slots(), id)
                    &&& final(self).slots() == old(self).slots()
                    &&& final(self).free() == old(self).free()
                },
            },
    {
        let node = self.get_mut(id)?;
        node.is_active = false;
        self.free_list.push(id);
        proof {
            let s = self.slots();
            let f = self.free();
            assert(f.last() == id);
            assert forall|j: int| 0 <= j < f.len() implies #[trigger] f[j] < s.len()
                && !s[f[j] as int].is_active by {
                if j < f.len() - 1 {
                    assert(f[j] == old(self).free()[j]);
                }
            }
            assert forall|a: int, b: int| 0 <= a < f.len() && 0 <= b < f.len() && a != b implies f[a] != f[b] by {
                if a < f.len() - 1 && b < f.len() - 1 {
                    assert(f[a] == old(self).free()[a]);
                    assert(f[b] == old(self).free()[b]);
                } else if a == f.len() - 1 {
                    assert(f[b] == old(self).free()[b]);
                } else {
                    assert(f[a] == old(self).free()[a]);
                }
            }
        }
        Ok(())
    }

    /// A handle taken before its slot was released and handed out again no
    /// longer matches the slot: the slot is live again, one generation on, so
    /// `get_indexed` refuses the old handle with `StaleIndex` instead of
    /// reaching the new node.
    pub proof fn law_reuse_refuses_old_handle(
        a: &NodeContainer,
        b: &NodeContainer,
        c: &NodeContainer,
        h: NodeIndex,
        key: Seq<u8>,
        value: Seq<u8>,
    )
        requires
            a.wf(),
            is_live(a.slots(), h.id),
            a.slots()[h.id as int].generation == h.generation,
            // `b` is `a` after `deallocate(h.id)` succeeded
            b.slots() == a.slots().update(h.id as int, NodeView { is_active: false, ..a.slots()[h.id as int] }),
            b.free() == a.free().push(h.id),
            // `c` is `b` after an allocation of `key` and `value` succeeded
            !b.alloc_fails(),
            c.slots() == if b.free().len() > 0 {
                b.slots().update(
                    b.next_slot() as int,
                    fresh_node(key, value, (b.slots()[b.next_slot() as int].generation + 1) as u32),
                )
            } else {
                b.slots().push(fresh_node(key, value, 1))
            },
        ensures
            b.next_slot() == h.id,
            is_live(c.slots(), h.id),
            c.slots()[h.id as int].generation == h.generation + 1,
            c.slots()[h.id as int].generation != h.generation,
    {
    }

    /// Looks up slot `id`.
    pub fn get(&self, id: RawIndex) -> (r: Result<&Node, SovereignError>)
        ensures
            match r {
                Ok(n) => is_live(self.slots(), id) && n@ == self.slots()[id as int],
                Err(e) => !is_live(self.slots(), id) && e == lookup_error(self.slots(), id),
            },
    {
        if id == NULL_INDEX || id as usize >= self.nodes.len() {
            return Err(SovereignError::NodeNotFound(id));
        }
        let node = &self.nodes[id as usize];
        if !node.is_active {
            return Err(SovereignError::StaleIndex);
        }
        Ok(node)
    }

    /// Looks up slot `id` for writing.
    pub fn get_mut(&mut self, id: RawIndex) -> (r: Result<&mut Node, SovereignError>)
        ensures
            match r {
                Ok(n) => is_live(old(self).slots(), id) && n@ == old(self).slots()[id as int]
                    && final(self).slots() == old(self).slots().update(id as int, final(n)@)
                    && final(self).free() == old(self).free()
                    && (old(self).wf() ==> final(self).wf()),
                Err(e) => !is_live(old(self).slots(), id) && e == lookup_error(old(self).slots(), id)
                    && *final(self) == *old(self),
            },
    {
        if id == NULL_INDEX || id as usize >= self.nodes.len() {
            return Err(SovereignError::NodeNotFound(id));
        }
        if !self.nodes[id as usize].is_active {
            return Err(SovereignError::StaleIndex);
        }
        proof {
            assert(self.slots()[id as int] == self.nodes@[id as int]@);
        }
        let r = &mut self.nodes[id as usize];
        Ok(r)
    }
}

} // verus!
